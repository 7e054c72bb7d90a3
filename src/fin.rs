use vstd::prelude::*;
use crate::db_structs::{Relation, strs_view, last_index_of, join_table};
use crate::emm::bytes_view;
use crate::encoding::{decode_string, bincode_string_decode_of};

verus! {

/// A relation as the finish phase sees it: attributes and rows.
pub type RelView = (Seq<Seq<char>>, Seq<Seq<Seq<char>>>);

pub open spec fn rel_view(r: Relation) -> RelView {
    (r.ats_view(), r.rows())
}

pub open spec fn rel_views(rs: Seq<Relation>) -> Seq<RelView> {
    rs.map_values(|r: Relation| rel_view(r))
}

/// Why the decrypted results could not be put back together.
#[derive(Debug, PartialEq, Eq, Structural)]
pub enum FinishError {
    /// A cell did not decrypt or decode to a string.
    BadCell,
    /// The cells of a table do not split into rows of its attributes, or
    /// there are not as many tables as the query plan has.
    RowLength,
    /// A deferred join found no relation, or one relation, for its pair.
    MissingJoin,
    /// More than one relation remained after every join.
    Unjoined,
}

/// The strings that bincode decodes from each of `cells`, if all decode.
pub open spec fn decode_all(cells: Seq<Seq<u8>>) -> Option<Seq<Seq<char>>>
    decreases cells.len(),
{
    if cells.len() == 0 {
        Some(Seq::empty())
    } else {
        match (decode_all(cells.drop_last()), bincode_string_decode_of(cells.last())) {
            (Some(a), Some(b)) => Some(a.push(b)),
            _ => None,
        }
    }
}

/// The decoded cells split into rows of `n`.
pub open spec fn decode_rows(cells: Seq<Seq<u8>>, n: nat) -> Option<Seq<Seq<Seq<char>>>>
    decreases cells.len(),
{
    if cells.len() == 0 {
        Some(Seq::empty())
    } else if n == 0 || cells.len() < n {
        None
    } else {
        match (decode_all(cells.take(n as int)), decode_rows(cells.skip(n as int), n)) {
            (Some(row), Some(rest)) => Some(seq![row] + rest),
            _ => None,
        }
    }
}

/// The last relation that has attribute `at`.
pub open spec fn last_rel_having(rs: Seq<RelView>, at: Seq<char>) -> Option<int>
    decreases rs.len(),
{
    if rs.len() == 0 {
        None
    } else if rs.last().0.contains(at) {
        Some(rs.len() - 1)
    } else {
        last_rel_having(rs.drop_last(), at)
    }
}

/// The plaintext equi-join of two relations on `a1 = a2`.
pub open spec fn rel_join(r1: RelView, r2: RelView, a1: Seq<char>, a2: Seq<char>) -> RelView {
    (r1.0 + r2.0, match (last_index_of(r1.0, a1), last_index_of(r2.0, a2)) {
        (Some(i1), Some(i2)) => join_table(r1.1, r2.1, i1, i2),
        _ => Seq::empty(),
    })
}

/// One deferred join: the two relations holding the attributes are
/// replaced by their join, put last.
pub open spec fn join_step(rs: Seq<RelView>, a1: Seq<char>, a2: Seq<char>) -> Option<Seq<RelView>> {
    match (last_rel_having(rs, a1), last_rel_having(rs, a2)) {
        (Some(i1), Some(i2)) => if i1 == i2 {
            None
        } else {
            let hi = if i1 > i2 { i1 } else { i2 };
            let lo = if i1 > i2 { i2 } else { i1 };
            Some(rs.remove(hi).remove(lo).push(rel_join(rs[i1], rs[i2], a1, a2)))
        },
        _ => None,
    }
}

/// All deferred joins, in order.
pub open spec fn joins_spec(rs: Seq<RelView>, js: Seq<(Seq<char>, Seq<char>)>) -> Option<Seq<RelView>>
    decreases js.len(),
{
    if js.len() == 0 {
        Some(rs)
    } else {
        match joins_spec(rs, js.drop_last()) {
            Some(st) => join_step(st, js.last().0, js.last().1),
            None => None,
        }
    }
}

/// Builds relation `ats` from decrypted cells, row after row.
pub fn decode_relation(ats: Vec<String>, cells: &Vec<Vec<u8>>) -> (r: Result<Relation, FinishError>)
    ensures
        r is Ok <==> decode_rows(bytes_view(cells@), ats@.len() as nat) is Some,
        r is Ok ==> rel_view(r->Ok_0) == (strs_view(ats@), decode_rows(bytes_view(cells@), ats@.len() as nat)->Some_0),
        r is Ok ==> r->Ok_0.wf(),
        r is Err ==> r->Err_0 == FinishError::BadCell || r->Err_0 == FinishError::RowLength,
{
    let ghost cv = bytes_view(cells@);
    let n = ats.len();
    let mut rel = Relation::new_rel(ats);
    let mut i: usize = 0;
    let total = cells.len();
    assert(cv.skip(0) =~= cv);
    while i < cells.len()
        invariant
            i <= cells@.len(),
            total == cells@.len(),
            cv == bytes_view(cells@),
            n == rel.ats_view().len(),
            n as int == ats@.len(),
            rel.ats_view() == strs_view(ats@),
            rel.wf(),
            decode_rows(cv, n as nat) == (match decode_rows(cv.skip(i as int), n as nat) {
                Some(rest) => Some(rel.rows() + rest),
                None => None,
            }),
        decreases cells@.len() - i,
    {
        let ghost rest = cv.skip(i as int);
        assert(rest.len() == cells@.len() - i);
        if n == 0 || cells.len() - i < n {
            assert(decode_rows(rest, n as nat) is None);
            return Err(FinishError::RowLength);
        }
        assert(i + n <= cells@.len());
        let mut row: Vec<String> = Vec::new();
        let mut k: usize = 0;
        assert(rest.take(0) =~= Seq::<Seq<u8>>::empty());
        while k < n
            invariant
                k <= n,
                0 < n,
                n as int == ats@.len(),
                total == cells@.len(),
                i + n <= total,
                rest.len() >= n,
                rest.len() > 0,
                i + n <= cells@.len(),
                decode_rows(cv, n as nat) == (match decode_rows(rest, n as nat) {
                    Some(rest_rows) => Some(rel.rows() + rest_rows),
                    None => None,
                }),
                rest == cv.skip(i as int),
                cv == bytes_view(cells@),
                row@.len() == k,
                decode_all(rest.take(k as int)) == Some(strs_view(row@)),
            decreases n - k,
        {
            proof {
                assert(rest.take(k as int + 1).drop_last() =~= rest.take(k as int));
                assert(rest.take(k as int + 1).last() == cells@[i + k]@);
            }
            let idx: usize = i + k;
            match decode_string(cells[idx].as_slice()) {
                Some(s) => {
                    row.push(s);
                    assert(strs_view(row@) =~= strs_view(row@).drop_last().push(row@.last()@));
                },
                None => {
                    proof {
                        assert(rest.take(n as int).take(k as int + 1) =~= rest.take(k as int + 1));
                        lemma_decode_all_prefix_none(rest.take(n as int), k as int + 1);
                        assert(decode_rows(rest, n as nat) is None);
                    }
                    return Err(FinishError::BadCell);
                },
            }
            k += 1;
        }
        proof {
            assert(rest.skip(n as int) =~= cv.skip(i + n));
        }
        let ghost before = rel.rows();
        let added = rel.add_row(row);
        proof {
            match decode_rows(cv.skip(i + n), n as nat) {
                Some(r2) => {
                    assert(before + (seq![strs_view(row@)] + r2) =~= rel.rows() + r2);
                },
                None => {},
            }
        }
        i += n;
    }
    assert(cv.skip(i as int) =~= Seq::<Seq<u8>>::empty());
    assert(rel.rows() + Seq::<Seq<Seq<char>>>::empty() =~= rel.rows());
    Ok(rel)
}

/// A cell that does not decode makes every longer run fail.
proof fn lemma_decode_all_prefix_none(cells: Seq<Seq<u8>>, k: int)
    requires
        0 < k <= cells.len(),
        decode_all(cells.take(k)) is None,
    ensures
        decode_all(cells) is None,
    decreases cells.len(),
{
    if k == cells.len() {
        assert(cells.take(k) =~= cells);
    } else {
        assert(cells.drop_last().take(k) =~= cells.take(k));
        lemma_decode_all_prefix_none(cells.drop_last(), k);
    }
}

/// The position of the last relation that has attribute `at`.
pub fn find_rel_having(rels: &Vec<Relation>, at: &String) -> (r: Option<usize>)
    ensures
        r is Some <==> last_rel_having(rel_views(rels@), at@) is Some,
        r is Some ==> r->Some_0 as int == last_rel_having(rel_views(rels@), at@)->Some_0,
        r is Some ==> r->Some_0 < rels@.len(),
{
    let ghost v = rel_views(rels@);
    assert(v.take(rels@.len() as int) =~= v);
    let mut i: usize = rels.len();
    while i > 0
        invariant
            i <= rels@.len(),
            v == rel_views(rels@),
            last_rel_having(v, at@) == last_rel_having(v.take(i as int), at@),
        decreases i,
    {
        assert(v.take(i as int).drop_last() =~= v.take(i - 1));
        assert(v.take(i as int).last() == rel_view(rels@[i - 1]));
        let ats = rels[i - 1].get_ats();
        if crate::db_structs::contains_string(&ats, at) {
            return Some(i - 1);
        }
        i -= 1;
    }
    assert(v.take(0) =~= Seq::<RelView>::empty());
    None
}

/// Performs the deferred joins in order, each replacing its two relations
/// by their join.
pub fn join_remaining(input: Vec<Relation>, joins: &Vec<(String, String)>) -> (r: Result<Vec<Relation>, FinishError>)
    requires
        forall|k: int| 0 <= k < input@.len() ==> (#[trigger] input@[k]).wf(),
    ensures
        r is Ok <==> joins_spec(rel_views(input@), joins@.map_values(|p: (String, String)| (p.0@, p.1@))) is Some,
        r is Ok ==> rel_views(r->Ok_0@) == joins_spec(rel_views(input@), joins@.map_values(|p: (String, String)| (p.0@, p.1@)))->Some_0,
        r is Ok ==> forall|k: int| 0 <= k < r->Ok_0@.len() ==> (#[trigger] r->Ok_0@[k]).wf(),
        r is Err ==> r->Err_0 == FinishError::MissingJoin,
{
    let ghost js = joins@.map_values(|p: (String, String)| (p.0@, p.1@));
    let ghost start = rel_views(input@);
    let mut rels = input;
    let mut j: usize = 0;
    assert(js.take(0) =~= Seq::<(Seq<char>, Seq<char>)>::empty());
    while j < joins.len()
        invariant
            j <= joins@.len(),
            js == joins@.map_values(|p: (String, String)| (p.0@, p.1@)),
            start == rel_views(input@),
            forall|k: int| 0 <= k < rels@.len() ==> (#[trigger] rels@[k]).wf(),
            joins_spec(start, js.take(j as int)) == Some(rel_views(rels@)),
        decreases joins@.len() - j,
    {
        let a1 = &joins[j].0;
        let a2 = &joins[j].1;
        proof {
            assert(js.take(j as int + 1).drop_last() =~= js.take(j as int));
            assert(js.take(j as int + 1).last() == (a1@, a2@));
        }
        let i1 = match find_rel_having(&rels, a1) {
            Some(i) => i,
            None => {
                proof { lemma_joins_spec_none(start, js, j as int + 1); }
                return Err(FinishError::MissingJoin);
            },
        };
        let i2 = match find_rel_having(&rels, a2) {
            Some(i) => i,
            None => {
                proof { lemma_joins_spec_none(start, js, j as int + 1); }
                return Err(FinishError::MissingJoin);
            },
        };
        if i1 == i2 {
            proof { lemma_joins_spec_none(start, js, j as int + 1); }
            return Err(FinishError::MissingJoin);
        }
        let ghost v = rel_views(rels@);
        let merged = rels[i1].join(&rels[i2], a1, a2);
        let (hi, lo) = if i1 > i2 { (i1, i2) } else { (i2, i1) };
        rels.remove(hi);
        rels.remove(lo);
        let ghost mv = rel_view(merged);
        rels.push(merged);
        proof {
            assert(mv == rel_join(v[i1 as int], v[i2 as int], a1@, a2@));
            assert(rel_views(rels@) =~= v.remove(hi as int).remove(lo as int).push(mv));
        }
        j += 1;
    }
    assert(js.take(j as int) =~= js);
    Ok(rels)
}

/// A failing join makes the whole sequence fail.
proof fn lemma_joins_spec_none(rs: Seq<RelView>, js: Seq<(Seq<char>, Seq<char>)>, n: int)
    requires
        0 < n <= js.len(),
        joins_spec(rs, js.take(n - 1)) is Some,
        join_step(joins_spec(rs, js.take(n - 1))->Some_0, js[n - 1].0, js[n - 1].1) is None,
    ensures
        joins_spec(rs, js) is None,
    decreases js.len(),
{
    if n == js.len() {
        assert(js.drop_last() =~= js.take(n - 1));
    } else {
        assert(js.drop_last().take(n - 1) =~= js.take(n - 1));
        lemma_joins_spec_none(rs, js.drop_last(), n);
    }
}

} // verus!
