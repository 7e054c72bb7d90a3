use vstd::prelude::*;
use crate::bytemap::{map_of, bytes_to_vec, lemma_map_of_entry};
use crate::crypto_helper::{prf, prf_spec};
use crate::db_structs::{DB, Relation, strs_view, last_index_of, last_rel_with, lemma_last_index_of_bounds, find_last};
use crate::encoding::{
    encode_str2, encode_str3, encode_str3_i32, encode_token_pair, bincode_str2_of, bincode_str3_of,
    bincode_str3_i32_of, bincode_token_pair_of,
};
use crate::mm::MM;

verus! {

pub type Adds = Seq<(Seq<u8>, Seq<u8>)>;

/// The multi-map built by adding each `(keyword, value)` of `adds` in turn.
pub open spec fn mm_after(adds: Adds) -> Map<Seq<u8>, Seq<Seq<u8>>>
    decreases adds.len(),
{
    if adds.len() == 0 {
        Map::empty()
    } else {
        let m = mm_after(adds.drop_last());
        let (k, v) = adds.last();
        m.insert(k, (if m.contains_key(k) { m[k] } else { Seq::empty() }).push(v))
    }
}

/// The label token of a cell: the pseudorandom function, under the label
/// key, of the encoded `(relation, attribute, primary key)`.
pub open spec fn cell_token(lk: Seq<u8>, id: Seq<char>, at: Seq<char>, pk: Seq<char>) -> Seq<u8> {
    prf_spec(bincode_str3_of(id, at, pk), lk)
}

/// What one row adds, attribute after attribute: its cell token under the
/// relation keyword `("i", id)`, the projection keyword `("p", at)` and the
/// selection keyword `("s", at, value)`.
pub open spec fn row_adds(lk: Seq<u8>, id: Seq<char>, ats: Seq<Seq<char>>, row: Seq<Seq<char>>) -> Adds
    decreases ats.len(),
{
    if ats.len() == 0 {
        Seq::empty()
    } else {
        let i = ats.len() - 1;
        let tk = cell_token(lk, id, ats[i], row[0]);
        row_adds(lk, id, ats.drop_last(), row) + seq![
            (bincode_str2_of("i"@, id), tk),
            (bincode_str2_of("p"@, ats[i]), tk),
            (bincode_str3_of("s"@, ats[i], row[i]), tk),
        ]
    }
}

pub open spec fn rel_adds(lk: Seq<u8>, id: Seq<char>, ats: Seq<Seq<char>>, rows: Seq<Seq<Seq<char>>>) -> Adds
    decreases rows.len(),
{
    if rows.len() == 0 {
        Seq::empty()
    } else {
        rel_adds(lk, id, ats, rows.drop_last()) + row_adds(lk, id, ats, rows.last())
    }
}

/// What the cells of every relation add, relation after relation.
pub open spec fn cells_adds(lk: Seq<u8>, rels: Seq<(Seq<char>, Relation)>) -> Adds
    decreases rels.len(),
{
    if rels.len() == 0 {
        Seq::empty()
    } else {
        cells_adds(lk, rels.drop_last()) + rel_adds(lk, rels.last().0, rels.last().1.ats_view(), rels.last().1.rows())
    }
}

/// The full-pair entries of row `r1`: the pair of primary-key tokens for
/// each row of `rows2` that agrees with it on the join columns.
pub open spec fn fpj_row(lk: Seq<u8>, kw: Seq<u8>, id1: Seq<char>, uk1: Seq<char>, r1: Seq<Seq<char>>, i1: int,
    id2: Seq<char>, uk2: Seq<char>, rows2: Seq<Seq<Seq<char>>>, i2: int) -> Adds
    decreases rows2.len(),
{
    if rows2.len() == 0 {
        Seq::empty()
    } else {
        fpj_row(lk, kw, id1, uk1, r1, i1, id2, uk2, rows2.drop_last(), i2) + (
        if rows2.last()[i2] == r1[i1] {
            seq![(kw, bincode_token_pair_of(cell_token(lk, id1, uk1, r1[0]), cell_token(lk, id2, uk2, rows2.last()[0])))]
        } else {
            Seq::empty()
        })
    }
}

pub open spec fn fpj_adds(lk: Seq<u8>, kw: Seq<u8>, id1: Seq<char>, uk1: Seq<char>, rows1: Seq<Seq<Seq<char>>>, i1: int,
    id2: Seq<char>, uk2: Seq<char>, rows2: Seq<Seq<Seq<char>>>, i2: int) -> Adds
    decreases rows1.len(),
{
    if rows1.len() == 0 {
        Seq::empty()
    } else {
        fpj_adds(lk, kw, id1, uk1, rows1.drop_last(), i1, id2, uk2, rows2, i2)
            + fpj_row(lk, kw, id1, uk1, rows1.last(), i1, id2, uk2, rows2, i2)
    }
}

/// Whether some row of `rows` has `v` in column `j`.
pub open spec fn has_value(rows: Seq<Seq<Seq<char>>>, j: int, v: Seq<char>) -> bool {
    exists|k: int| 0 <= k < rows.len() && #[trigger] rows[k][j] == v
}

/// The partial-pair entries of one side: the primary-key token of each row
/// whose join value also occurs on the other side.
pub open spec fn ppj_side(lk: Seq<u8>, kw: Seq<u8>, id: Seq<char>, uk: Seq<char>, rows: Seq<Seq<Seq<char>>>, i: int,
    other: Seq<Seq<Seq<char>>>, j: int) -> Adds
    decreases rows.len(),
{
    if rows.len() == 0 {
        Seq::empty()
    } else {
        ppj_side(lk, kw, id, uk, rows.drop_last(), i, other, j) + (
        if has_value(other, j, rows.last()[i]) {
            seq![(kw, cell_token(lk, id, uk, rows.last()[0]))]
        } else {
            Seq::empty()
        })
    }
}

/// What the annotation `(a1, a2)` adds: nothing unless the attributes
/// belong to two different relations; else the full-pair entries under
/// `("fpj", a1, a2)` and the partial-pair entries under `("ppj", a1, a2, 1)`
/// and `("ppj", a1, a2, 2)`.
pub open spec fn annotation_adds(lk: Seq<u8>, rels: Seq<(Seq<char>, Relation)>, a1: Seq<char>, a2: Seq<char>) -> Adds {
    match (last_rel_with(rels, a1), last_rel_with(rels, a2)) {
        (Some(id1), Some(id2)) => {
            let m = map_of(rels);
            if id1 != id2 && m.contains_key(id1) && m.contains_key(id2)
                && last_index_of(m[id1].ats_view(), a1) is Some && last_index_of(m[id2].ats_view(), a2) is Some {
                let rel1 = m[id1];
                let rel2 = m[id2];
                let i1 = last_index_of(rel1.ats_view(), a1)->Some_0;
                let i2 = last_index_of(rel2.ats_view(), a2)->Some_0;
                let uk1 = rel1.ats_view()[0];
                let uk2 = rel2.ats_view()[0];
                fpj_adds(lk, bincode_str3_of("fpj"@, a1, a2), id1, uk1, rel1.rows(), i1, id2, uk2, rel2.rows(), i2)
                    + ppj_side(lk, bincode_str3_i32_of("ppj"@, a1, a2, 1), id1, uk1, rel1.rows(), i1, rel2.rows(), i2)
                    + ppj_side(lk, bincode_str3_i32_of("ppj"@, a1, a2, 2), id2, uk2, rel2.rows(), i2, rel1.rows(), i1)
            } else {
                Seq::empty()
            }
        },
        _ => Seq::empty(),
    }
}

pub open spec fn annotations_adds(lk: Seq<u8>, rels: Seq<(Seq<char>, Relation)>, anns: Seq<(Seq<char>, Seq<char>)>) -> Adds
    decreases anns.len(),
{
    if anns.len() == 0 {
        Seq::empty()
    } else {
        annotations_adds(lk, rels, anns.drop_last()) + annotation_adds(lk, rels, anns.last().0, anns.last().1)
    }
}

/// Everything the index of a database adds to its multi-map: the cells
/// first, then the join entries of each annotation.
pub open spec fn index_adds(lk: Seq<u8>, rels: Seq<(Seq<char>, Relation)>, anns: Seq<(Seq<char>, Seq<char>)>) -> Adds {
    cells_adds(lk, rels) + annotations_adds(lk, rels, anns)
}

/// The relations are well formed and each has a primary-key column.
pub open spec fn db_ready(db: &DB) -> bool {
    forall|j: int| 0 <= j < db.entries().len() ==> (#[trigger] db.entries()[j]).1.wf()
        && db.entries()[j].1.ats_view().len() > 0
}

/// Adds one entry, keeping track of all additions so far.
fn add_entry(mm: &mut MM, value: Vec<u8>, keyword: Vec<u8>, Ghost(done): Ghost<Adds>)
    requires
        old(mm).wf(),
        old(mm).view() == mm_after(done),
    ensures
        final(mm).wf(),
        final(mm).view() == mm_after(done.push((keyword@, value@))),
{
    let ghost k = keyword@;
    let ghost v = value@;
    mm.add_mm(value, keyword);
    assert(done.push((k, v)).drop_last() =~= done);
}

fn copy_kw(kw: &Vec<u8>) -> (r: Vec<u8>)
    ensures
        r@ == kw@,
{
    bytes_to_vec(kw.as_slice())
}

/// Adds the cells of every relation.
fn add_cells(mm: &mut MM, db: &DB, label_key: &[u8; 16], Ghost(start): Ghost<Adds>) -> (done: Ghost<Adds>)
    requires
        old(mm).wf(),
        old(mm).view() == mm_after(start),
        db_ready(db),
    ensures
        final(mm).wf(),
        done@ == start + cells_adds(label_key@, db.entries()),
        final(mm).view() == mm_after(done@),
{
    let ghost lk = label_key@;
    let ghost ents = db.entries();
    let rels = db.get_rels();
    assert(rels@.map_values(|e: (String, Relation)| crate::db_structs::rel_entry_view(e)) == ents);
    let ghost mut done = start;
    assert(start + cells_adds(lk, ents.take(0)) =~= start);
    let mut ri: usize = 0;
    while ri < rels.len()
        invariant
            ri <= rels@.len(),
            rels@.len() == ents.len(),
            forall|j: int| 0 <= j < rels@.len() ==> rels@[j].0@ == (#[trigger] ents[j]).0 && rels@[j].1 == ents[j].1,
            db_ready(db),
            ents == db.entries(),
            lk == label_key@,
            mm.wf(),
            mm.view() == mm_after(done),
            done == start + cells_adds(lk, ents.take(ri as int)),
        decreases rels@.len() - ri,
    {
        let id = &rels[ri].0;
        let rel = &rels[ri].1;
        assert(ents[ri as int].1.wf() && ents[ri as int].1.ats_view().len() > 0);
        let ats = rel.get_ats();
        let id_kw = encode_str2("i", id.as_str());
        let ghost base = done;
        let ghost av = rel.ats_view();
        let ghost rows = rel.rows();
        let mut r: usize = 0;
        while r < rel.num_rows()
            invariant
                r <= rows.len(),
                rows == rel.rows(),
                av == rel.ats_view(),
                strs_view(ats@) == av,
                av.len() > 0,
                rel.wf(),
                id_kw@ == bincode_str2_of("i"@, id@),
                lk == label_key@,
                mm.wf(),
                mm.view() == mm_after(done),
                done == base + rel_adds(lk, id@, av, rows.take(r as int)),
            decreases rows.len() - r,
        {
            let row = rel.row(r);
            let ghost mid = done;
            let mut a: usize = 0;
            while a < ats.len()
                invariant
                    a <= ats@.len(),
                    strs_view(ats@) == av,
                    row@.len() == av.len(),
                    av.len() > 0,
                    id_kw@ == bincode_str2_of("i"@, id@),
                    lk == label_key@,
                    mm.wf(),
                    mm.view() == mm_after(done),
                    done == mid + row_adds(lk, id@, av.take(a as int), strs_view(row@)),
                decreases ats@.len() - a,
            {
                let label = encode_str3(id.as_str(), ats[a].as_str(), row[0].as_str());
                let tk = prf(label.as_slice(), label_key.as_slice());
                let ghost tkv = tk@;
                assert(tkv == cell_token(lk, id@, av[a as int], strs_view(row@)[0]));
                add_entry(mm, bytes_to_vec(tk.as_slice()), copy_kw(&id_kw), Ghost(done));
                proof { done = done.push((id_kw@, tkv)); }
                let p_kw = encode_str2("p", ats[a].as_str());
                add_entry(mm, bytes_to_vec(tk.as_slice()), p_kw, Ghost(done));
                proof { done = done.push((bincode_str2_of("p"@, av[a as int]), tkv)); }
                let s_kw = encode_str3("s", ats[a].as_str(), row[a].as_str());
                add_entry(mm, bytes_to_vec(tk.as_slice()), s_kw, Ghost(done));
                proof {
                    done = done.push((bincode_str3_of("s"@, av[a as int], strs_view(row@)[a as int]), tkv));
                    let t = av.take(a as int + 1);
                    assert(t.drop_last() =~= av.take(a as int));
                    assert(done =~= mid + row_adds(lk, id@, t, strs_view(row@)));
                }
                a += 1;
            }
            proof {
                assert(av.take(a as int) =~= av);
                assert(rows.take(r as int + 1).drop_last() =~= rows.take(r as int));
                assert(rows.take(r as int + 1).last() == strs_view(row@));
                assert(done =~= base + rel_adds(lk, id@, av, rows.take(r as int + 1)));
            }
            r += 1;
        }
        proof {
            assert(rows.take(r as int) =~= rows);
            assert(ents.take(ri as int + 1).drop_last() =~= ents.take(ri as int));
            assert(ents.take(ri as int + 1).last() == ents[ri as int]);
            assert(done =~= start + cells_adds(lk, ents.take(ri as int + 1)));
        }
        ri += 1;
    }
    assert(ents.take(ri as int) =~= ents);
    Ghost(done)
}

/// The positions of the join attributes in their relations.
pub fn prepare_join(rel1: &Relation, rel2: &Relation, at1: &String, at2: &String) -> (r: Option<(usize, usize)>)
    ensures
        r is Some <==> last_index_of(rel1.ats_view(), at1@) is Some && last_index_of(rel2.ats_view(), at2@) is Some,
        r is Some ==> r->Some_0.0 as int == last_index_of(rel1.ats_view(), at1@)->Some_0
            && r->Some_0.1 as int == last_index_of(rel2.ats_view(), at2@)->Some_0,
{
    let ats1 = rel1.get_ats();
    let ats2 = rel2.get_ats();
    match (find_last(&ats1, at1), find_last(&ats2, at2)) {
        (Some(i1), Some(i2)) => Some((i1, i2)),
        _ => None,
    }
}

/// The cell token of a primary key.
fn key_token(label_key: &[u8; 16], id: &String, uk: &String, pk: &String) -> (r: [u8; 32])
    ensures
        r@ == cell_token(label_key@, id@, uk@, pk@),
{
    let label = encode_str3(id.as_str(), uk.as_str(), pk.as_str());
    prf(label.as_slice(), label_key.as_slice())
}

/// Whether some row of `rel` holds `v` in column `j`.
fn rel_has_value(rel: &Relation, j: usize, v: &String) -> (r: bool)
    requires
        rel.wf(),
        j < rel.ats_view().len(),
    ensures
        r == has_value(rel.rows(), j as int, v@),
{
    let mut k: usize = 0;
    while k < rel.num_rows()
        invariant
            k <= rel.rows().len(),
            rel.wf(),
            j < rel.ats_view().len(),
            forall|q: int| 0 <= q < k ==> (#[trigger] rel.rows()[q])[j as int] != v@,
        decreases rel.rows().len() - k,
    {
        let row = rel.row(k);
        if row[j] == *v {
            assert(rel.rows()[k as int][j as int] == v@);
            return true;
        }
        k += 1;
    }
    false
}

/// Adds the partial-pair entries of one side.
fn add_ppj_side(mm: &mut MM, label_key: &[u8; 16], kw: &Vec<u8>, id: &String, rel: &Relation, i: usize,
    other: &Relation, j: usize, Ghost(start): Ghost<Adds>) -> (done: Ghost<Adds>)
    requires
        old(mm).wf(),
        old(mm).view() == mm_after(start),
        rel.wf(),
        other.wf(),
        rel.ats_view().len() > 0,
        i < rel.ats_view().len(),
        j < other.ats_view().len(),
    ensures
        final(mm).wf(),
        final(mm).view() == mm_after(done@),
        done@ == start + ppj_side(label_key@, kw@, id@, rel.ats_view()[0], rel.rows(), i as int, other.rows(), j as int),
{
    let ghost rows = rel.rows();
    let ghost mut done = start;
    let uk = rel.at(0);
    assert(rows.take(0) =~= Seq::<Seq<Seq<char>>>::empty());
    let mut k: usize = 0;
    while k < rel.num_rows()
        invariant
            k <= rows.len(),
            rows == rel.rows(),
            rel.wf(),
            other.wf(),
            rel.ats_view().len() > 0,
            i < rel.ats_view().len(),
            j < other.ats_view().len(),
            uk@ == rel.ats_view()[0],
            mm.wf(),
            mm.view() == mm_after(done),
            done == start + ppj_side(label_key@, kw@, id@, uk@, rows.take(k as int), i as int, other.rows(), j as int),
        decreases rows.len() - k,
    {
        let row = rel.row(k);
        proof {
            assert(rows.take(k as int + 1).drop_last() =~= rows.take(k as int));
            assert(rows.take(k as int + 1).last() == strs_view(row@));
        }
        if rel_has_value(other, j, &row[i]) {
            let tk = key_token(label_key, id, uk, &row[0]);
            add_entry(mm, bytes_to_vec(tk.as_slice()), copy_kw(kw), Ghost(done));
            proof {
                done = done.push((kw@, cell_token(label_key@, id@, uk@, strs_view(row@)[0])));
            }
        }
        assert(done =~= start + ppj_side(label_key@, kw@, id@, uk@, rows.take(k as int + 1), i as int, other.rows(), j as int));
        k += 1;
    }
    assert(rows.take(k as int) =~= rows);
    Ghost(done)
}

/// Adds the full-pair entries of two relations.
fn add_fpj(mm: &mut MM, label_key: &[u8; 16], kw: &Vec<u8>, id1: &String, rel1: &Relation, i1: usize,
    id2: &String, rel2: &Relation, i2: usize, Ghost(start): Ghost<Adds>) -> (done: Ghost<Adds>)
    requires
        old(mm).wf(),
        old(mm).view() == mm_after(start),
        rel1.wf(),
        rel2.wf(),
        rel1.ats_view().len() > 0,
        rel2.ats_view().len() > 0,
        i1 < rel1.ats_view().len(),
        i2 < rel2.ats_view().len(),
    ensures
        final(mm).wf(),
        final(mm).view() == mm_after(done@),
        done@ == start + fpj_adds(label_key@, kw@, id1@, rel1.ats_view()[0], rel1.rows(), i1 as int,
            id2@, rel2.ats_view()[0], rel2.rows(), i2 as int),
{
    let ghost rows1 = rel1.rows();
    let ghost rows2 = rel2.rows();
    let ghost lk = label_key@;
    let ghost mut done = start;
    let uk1 = rel1.at(0);
    let uk2 = rel2.at(0);
    assert(rows1.take(0) =~= Seq::<Seq<Seq<char>>>::empty());
    let mut a: usize = 0;
    while a < rel1.num_rows()
        invariant
            a <= rows1.len(),
            rows1 == rel1.rows(),
            rows2 == rel2.rows(),
            lk == label_key@,
            rel1.wf(),
            rel2.wf(),
            i1 < rel1.ats_view().len(),
            i2 < rel2.ats_view().len(),
            rel1.ats_view().len() > 0,
            rel2.ats_view().len() > 0,
            uk1@ == rel1.ats_view()[0],
            uk2@ == rel2.ats_view()[0],
            mm.wf(),
            mm.view() == mm_after(done),
            done == start + fpj_adds(lk, kw@, id1@, uk1@, rows1.take(a as int), i1 as int, id2@, uk2@, rows2, i2 as int),
        decreases rows1.len() - a,
    {
        let row1 = rel1.row(a);
        let tk1 = key_token(label_key, id1, uk1, &row1[0]);
        let ghost mid = done;
        assert(rows2.take(0) =~= Seq::<Seq<Seq<char>>>::empty());
        let mut b: usize = 0;
        while b < rel2.num_rows()
            invariant
                b <= rows2.len(),
                rows2 == rel2.rows(),
                lk == label_key@,
                rel2.wf(),
                i1 < row1@.len(),
                row1@.len() > 0,
                i2 < rel2.ats_view().len(),
                rel2.ats_view().len() > 0,
                uk2@ == rel2.ats_view()[0],
                tk1@ == cell_token(lk, id1@, uk1@, strs_view(row1@)[0]),
                mm.wf(),
                mm.view() == mm_after(done),
                done == mid + fpj_row(lk, kw@, id1@, uk1@, strs_view(row1@), i1 as int, id2@, uk2@, rows2.take(b as int), i2 as int),
            decreases rows2.len() - b,
        {
            let row2 = rel2.row(b);
            proof {
                assert(rows2.take(b as int + 1).drop_last() =~= rows2.take(b as int));
                assert(rows2.take(b as int + 1).last() == strs_view(row2@));
            }
            if row2[i2] == row1[i1] {
                let tk2 = key_token(label_key, id2, uk2, &row2[0]);
                let pair = encode_token_pair(&tk1, &tk2);
                add_entry(mm, pair, copy_kw(kw), Ghost(done));
                proof {
                    done = done.push((kw@, bincode_token_pair_of(tk1@, tk2@)));
                }
            }
            assert(done =~= mid + fpj_row(lk, kw@, id1@, uk1@, strs_view(row1@), i1 as int, id2@, uk2@, rows2.take(b as int + 1), i2 as int));
            b += 1;
        }
        proof {
            assert(rows2.take(b as int) =~= rows2);
            assert(rows1.take(a as int + 1).drop_last() =~= rows1.take(a as int));
            assert(rows1.take(a as int + 1).last() == strs_view(row1@));
            assert(done =~= start + fpj_adds(lk, kw@, id1@, uk1@, rows1.take(a as int + 1), i1 as int, id2@, uk2@, rows2, i2 as int));
        }
        a += 1;
    }
    assert(rows1.take(a as int) =~= rows1);
    Ghost(done)
}

/// Adds the join entries of one annotation.
fn add_annotation_entries(mm: &mut MM, db: &DB, label_key: &[u8; 16], a1: &String, a2: &String, Ghost(start): Ghost<Adds>) -> (done: Ghost<Adds>)
    requires
        old(mm).wf(),
        old(mm).view() == mm_after(start),
        db_ready(db),
    ensures
        final(mm).wf(),
        final(mm).view() == mm_after(done@),
        done@ == start + annotation_adds(label_key@, db.entries(), a1@, a2@),
{
    let ghost ents = db.entries();
    let ghost m = map_of(ents);
    let (id1, id2) = match (db.get_id_from_at(a1), db.get_id_from_at(a2)) {
        (Some(x), Some(y)) => (x, y),
        _ => {
            assert(start + annotation_adds(label_key@, ents, a1@, a2@) =~= start);
            return Ghost(start);
        },
    };
    if id1 == id2 {
        assert(start + annotation_adds(label_key@, ents, a1@, a2@) =~= start);
        return Ghost(start);
    }
    let (rel1, rel2) = match (db.get_rel(&id1), db.get_rel(&id2)) {
        (Some(x), Some(y)) => (x, y),
        _ => {
            assert(start + annotation_adds(label_key@, ents, a1@, a2@) =~= start);
            return Ghost(start);
        },
    };
    let (i1, i2) = match prepare_join(rel1, rel2, a1, a2) {
        Some(p) => p,
        None => {
            assert(start + annotation_adds(label_key@, ents, a1@, a2@) =~= start);
            return Ghost(start);
        },
    };
    proof {
        lemma_map_of_entry(ents, id1@);
        lemma_map_of_entry(ents, id2@);
        let j1 = choose|j: int| 0 <= j < ents.len() && ents[j] == (id1@, m[id1@]);
        let j2 = choose|j: int| 0 <= j < ents.len() && ents[j] == (id2@, m[id2@]);
        assert(ents[j1].1.wf() && ents[j1].1.ats_view().len() > 0);
        assert(ents[j2].1.wf() && ents[j2].1.ats_view().len() > 0);
        lemma_last_index_of_bounds(rel1.ats_view(), a1@);
        lemma_last_index_of_bounds(rel2.ats_view(), a2@);
    }
    let fpj_kw = encode_str3("fpj", a1.as_str(), a2.as_str());
    let ppj_kw1 = encode_str3_i32("ppj", a1.as_str(), a2.as_str(), 1);
    let ppj_kw2 = encode_str3_i32("ppj", a1.as_str(), a2.as_str(), 2);
    let d1 = add_fpj(mm, label_key, &fpj_kw, &id1, rel1, i1, &id2, rel2, i2, Ghost(start));
    let d2 = add_ppj_side(mm, label_key, &ppj_kw1, &id1, rel1, i1, rel2, i2, d1);
    let d3 = add_ppj_side(mm, label_key, &ppj_kw2, &id2, rel2, i2, rel1, i1, d2);
    assert(d3@ =~= start + annotation_adds(label_key@, ents, a1@, a2@));
    d3
}

/// Builds the plaintext multi-map of the index of `db`: every cell under its
/// relation, projection and selection keywords, then the join entries of
/// every annotation.
pub fn build_index_mm(db: &DB, label_key: &[u8; 16]) -> (r: MM)
    requires
        db_ready(db),
    ensures
        r.wf(),
        r.view() == mm_after(index_adds(label_key@, db.entries(), db.annotation_seq())),
{
    let mut mm = MM::new_mm();
    assert(mm.view() =~= mm_after(Seq::empty()));
    let cells = add_cells(&mut mm, db, label_key, Ghost(Seq::empty()));
    let ghost anns = db.annotation_seq();
    let ghost c = cells@;
    let ghost mut done = cells@;
    assert(Seq::<(Seq<u8>, Seq<u8>)>::empty() + cells_adds(label_key@, db.entries()) =~= cells_adds(label_key@, db.entries()));
    assert(annotations_adds(label_key@, db.entries(), anns.take(0)) =~= Seq::<(Seq<u8>, Seq<u8>)>::empty());
    let mut i: usize = 0;
    while i < db.num_annotations()
        invariant
            i <= anns.len(),
            anns == db.annotation_seq(),
            db_ready(db),
            c == cells_adds(label_key@, db.entries()),
            mm.wf(),
            mm.view() == mm_after(done),
            done == c + annotations_adds(label_key@, db.entries(), anns.take(i as int)),
        decreases anns.len() - i,
    {
        let (a1, a2) = db.annotation(i);
        let d = add_annotation_entries(&mut mm, db, label_key, a1, a2, Ghost(done));
        proof {
            assert(anns.take(i as int + 1).drop_last() =~= anns.take(i as int));
            assert(anns.take(i as int + 1).last() == anns[i as int]);
            done = d@;
            assert(done =~= c + annotations_adds(label_key@, db.entries(), anns.take(i as int + 1)));
        }
        i += 1;
    }
    assert(anns.take(i as int) =~= anns);
    mm
}

} // verus!
