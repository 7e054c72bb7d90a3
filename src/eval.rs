use vstd::prelude::*;
use crate::emm::{EMMServer, rr_spec, bytes_view};
use crate::encoding::{decode_token_pair, bincode_token_pair_decode_of};
use crate::eval_references::{RefRow, RefTable, RowView, kept_cells, kept_rows, join_rows, shifted, pairs_view};
use crate::token::KeyPair;

verus! {

/// Why the server could not evaluate a search token.
#[derive(Debug, PartialEq, Eq, Structural)]
pub enum EvalError {
    /// A multi-map hit did not decrypt.
    Cipher,
    /// The cells of a relation do not split into rows of its length, or a
    /// row does not start with a 32-byte key.
    Malformed,
    /// A join names a relation that its side did not produce.
    MissingTable,
}

/// A reference table as the evaluation sees it: rows, relation ids, save
/// columns.
pub type TableView = (Seq<RowView>, Set<Seq<char>>, Set<usize>);

pub open spec fn ref_view(t: RefTable) -> TableView {
    (t.rows(), t.ids(), t.save_cols())
}

pub open spec fn ref_views(ts: Seq<RefTable>) -> Seq<TableView> {
    ts.map_values(|t: RefTable| ref_view(t))
}

/// What a response-revealing lookup with `kp` finds.
pub open spec fn rr_kp(server: EMMServer, kp: KeyPair) -> Option<Seq<Seq<u8>>> {
    rr_spec(server, kp.0@, kp.1@)
}

/// The cells of a relation split into rows of `len` cells, each keyed by its
/// first cell; `None` unless they split evenly into rows that each start
/// with a 32-byte key.
pub open spec fn chunk_rows(cells: Seq<Seq<u8>>, len: nat) -> Option<Seq<RowView>>
    decreases cells.len(),
{
    if len == 0 {
        None
    } else if cells.len() == 0 {
        Some(Seq::empty())
    } else if cells.len() < len || cells[0].len() != 32 {
        None
    } else {
        match chunk_rows(cells.skip(len as int), len) {
            Some(rest) => Some(seq![(cells.take(len as int), set![cells[0]])] + rest),
            None => None,
        }
    }
}

/// Selection: the tables of relation `id` keep the rows that hold a match.
pub open spec fn select_step(ts: Seq<TableView>, id: Seq<char>, m: Seq<Seq<u8>>) -> Seq<TableView> {
    ts.map_values(|t: TableView| if t.1.contains(id) { (kept_rows(t.0, m), t.1, t.2) } else { t })
}

/// Projection: every row keeps the matched cells and the save columns.
pub open spec fn project_step(ts: Seq<TableView>, m: Seq<Seq<u8>>) -> Seq<TableView> {
    ts.map_values(|t: TableView| (t.0.map_values(|r: RowView| (kept_cells(r.0, m, t.2), r.1)), t.1, t.2))
}

/// Partial-pair join, one side: the tables of relation `id` keep the rows
/// that hold a match and save column `c`.
pub open spec fn ppj_step(ts: Seq<TableView>, id: Seq<char>, m: Seq<Seq<u8>>, c: usize) -> Seq<TableView> {
    ts.map_values(|t: TableView| if t.1.contains(id) { (kept_rows(t.0, m), t.1, t.2.insert(c)) } else { t })
}

/// The matches of all projected columns, in order.
pub open spec fn project_matches(server: EMMServer, kps: Seq<KeyPair>) -> Option<Seq<Seq<u8>>>
    decreases kps.len(),
{
    if kps.len() == 0 {
        Some(Seq::empty())
    } else {
        match (project_matches(server, kps.drop_last()), rr_kp(server, kps.last())) {
            (Some(a), Some(b)) => Some(a + b),
            _ => None,
        }
    }
}

pub open spec fn orient(p: (Seq<u8>, Seq<u8>), swapped: bool) -> (Seq<u8>, Seq<u8>) {
    if swapped { (p.1, p.0) } else { p }
}

/// The matched key pairs that decode from the full-pair hits, first
/// relation's key first.
pub open spec fn decoded_pairs(m: Seq<Seq<u8>>, swapped: bool) -> Set<(Seq<u8>, Seq<u8>)> {
    Set::new(|p: (Seq<u8>, Seq<u8>)| exists|i: int| 0 <= i < m.len()
        && (#[trigger] bincode_token_pair_decode_of(m[i])) is Some
        && p == orient(bincode_token_pair_decode_of(m[i])->Some_0, swapped))
}

/// The first table that stands for relation `id`.
pub open spec fn first_with_id(ts: Seq<TableView>, id: Seq<char>) -> Option<int>
    decreases ts.len(),
{
    if ts.len() == 0 {
        None
    } else {
        match first_with_id(ts.drop_last(), id) {
            Some(i) => Some(i),
            None => if ts.last().1.contains(id) { Some(ts.len() - 1) } else { None },
        }
    }
}

/// The second table's save columns, moved past the first table's columns,
/// stay within `usize`.
pub open spec fn shift_fits(t1: TableView, t2: TableView) -> bool {
    t1.0.len() > 0 ==> forall|c: usize| t2.2.contains(c) ==> c + t1.0[0].0.len() <= usize::MAX
}

/// The full-pair join of two tables on the matched pairs.
pub open spec fn fpj_merge(t1: TableView, t2: TableView, pairs: Set<(Seq<u8>, Seq<u8>)>) -> TableView {
    (
        join_rows(t1.0, t2.0, pairs),
        t1.1.union(t2.1),
        if t1.0.len() == 0 { t1.2 } else { t1.2.union(shifted(t2.2, t1.0[0].0.len())) },
    )
}

/// The 32-byte token held in `v`.
fn to_token(v: &Vec<u8>) -> (r: [u8; 32])
    requires
        v@.len() == 32,
    ensures
        r@ == v@,
{
    let mut t = [0u8; 32];
    let mut i: usize = 0;
    while i < 32
        invariant
            i <= 32,
            v@.len() == 32,
            forall|j: int| 0 <= j < i ==> t@[j] == v@[j],
        decreases 32 - i,
    {
        t.set(i, v[i]);
        i += 1;
    }
    assert(t@ =~= v@);
    t
}

/// Splits the cells of a relation into reference rows of `length` cells,
/// each keyed by its first cell.
pub fn chunk_refs(cells: Vec<Vec<u8>>, length: usize) -> (r: Result<Vec<RefRow>, EvalError>)
    ensures
        r is Ok <==> chunk_rows(bytes_view(cells@), length as nat) is Some,
        r is Ok ==> crate::eval_references::rows_view(r->Ok_0@) == chunk_rows(bytes_view(cells@), length as nat)->Some_0,
        r is Err ==> r->Err_0 == EvalError::Malformed,
{
    let ghost cv = bytes_view(cells@);
    if length == 0 {
        return Err(EvalError::Malformed);
    }
    let n = cells.len();
    let mut rows: Vec<RefRow> = Vec::new();
    let mut i: usize = 0;
    assert(cv.skip(0) =~= cv);
    while i < n
        invariant
            0 < length,
            i <= n,
            n == cells@.len(),
            cv == bytes_view(cells@),
            chunk_rows(cv, length as nat) == (match chunk_rows(cv.skip(i as int), length as nat) {
                Some(rest) => Some(crate::eval_references::rows_view(rows@) + rest),
                None => None,
            }),
        decreases n - i,
    {
        let ghost rest = cv.skip(i as int);
        if n - i < length || cells[i].len() != 32 {
            assert(rest.len() < length || rest[0].len() != 32);
            return Err(EvalError::Malformed);
        }
        let mut row_cells: Vec<Vec<u8>> = Vec::new();
        let mut k: usize = 0;
        while k < length
            invariant
                k <= length,
                i + length <= n,
                n == cells@.len(),
                row_cells@.len() == k,
                forall|q: int| 0 <= q < k ==> #[trigger] row_cells@[q]@ == cells@[i + q]@,
            decreases length - k,
        {
            row_cells.push(crate::bytemap::bytes_to_vec(cells[i + k].as_slice()));
            k += 1;
        }
        let uk = to_token(&cells[i]);
        let row = RefRow::from_uk(row_cells, uk);
        proof {
            assert(bytes_view(row_cells@) =~= rest.take(length as int));
            assert(rest.skip(length as int) =~= cv.skip(i + length));
            assert(rest[0] == cv[i as int]);
        }
        let ghost before = rows@;
        rows.push(row);
        proof {
            assert(crate::eval_references::rows_view(rows@) =~= crate::eval_references::rows_view(before).push(row.view()));
            match chunk_rows(cv.skip(i + length), length as nat) {
                Some(r2) => {
                    assert(crate::eval_references::rows_view(before) + (seq![row.view()] + r2)
                        =~= crate::eval_references::rows_view(rows@) + r2);
                },
                None => {},
            }
        }
        i += length;
    }
    assert(cv.skip(i as int) =~= Seq::<Seq<u8>>::empty());
    assert(crate::eval_references::rows_view(rows@) + Seq::<RowView>::empty() =~= crate::eval_references::rows_view(rows@));
    Ok(rows)
}

/// Selection on every table of relation `id`.
pub fn select_tables(ts: &mut Vec<RefTable>, id: &String, m: &Vec<Vec<u8>>)
    ensures
        ref_views(final(ts)@) == select_step(ref_views(old(ts)@), id@, bytes_view(m@)),
{
    let ghost old_ts = ts@;
    let n0: usize = ts.len();
    let mut out: Vec<RefTable> = Vec::new();
    let mut k: usize = 0;
    while ts.len() > 0
        invariant
            old_ts.len() == n0,
            k + ts@.len() == old_ts.len(),
            ts@ == old_ts.skip(k as int),
            out@.len() == k,
            forall|j: int| 0 <= j < k ==> #[trigger] ref_view(out@[j])
                == (if ref_view(old_ts[j]).1.contains(id@) {
                    (kept_rows(ref_view(old_ts[j]).0, bytes_view(m@)), ref_view(old_ts[j]).1, ref_view(old_ts[j]).2)
                } else { ref_view(old_ts[j]) }),
        decreases ts@.len(),
    {
        let mut t = ts.remove(0);
        assert(t == old_ts[k as int]);
        if t.has_id(id) {
            t.filter_rows(m);
        }
        out.push(t);
        k += 1;
        assert(ts@ =~= old_ts.skip(k as int));
    }
    *ts = out;
    assert(ref_views(ts@) =~= select_step(ref_views(old_ts), id@, bytes_view(m@)));
}

/// One side of a partial-pair join on every table of relation `id`.
pub fn ppj_tables(ts: &mut Vec<RefTable>, id: &String, m: &Vec<Vec<u8>>, c: usize)
    ensures
        ref_views(final(ts)@) == ppj_step(ref_views(old(ts)@), id@, bytes_view(m@), c),
{
    let ghost old_ts = ts@;
    let n0: usize = ts.len();
    let mut out: Vec<RefTable> = Vec::new();
    let mut k: usize = 0;
    while ts.len() > 0
        invariant
            old_ts.len() == n0,
            k + ts@.len() == old_ts.len(),
            ts@ == old_ts.skip(k as int),
            out@.len() == k,
            forall|j: int| 0 <= j < k ==> #[trigger] ref_view(out@[j])
                == (if ref_view(old_ts[j]).1.contains(id@) {
                    (kept_rows(ref_view(old_ts[j]).0, bytes_view(m@)), ref_view(old_ts[j]).1, ref_view(old_ts[j]).2.insert(c))
                } else { ref_view(old_ts[j]) }),
        decreases ts@.len(),
    {
        let mut t = ts.remove(0);
        assert(t == old_ts[k as int]);
        if t.has_id(id) {
            t.filter_rows(m);
            t.add_save_col(c);
        }
        out.push(t);
        k += 1;
        assert(ts@ =~= old_ts.skip(k as int));
    }
    *ts = out;
    assert(ref_views(ts@) =~= ppj_step(ref_views(old_ts), id@, bytes_view(m@), c));
}

/// Projection on every table.
pub fn project_tables(ts: &mut Vec<RefTable>, m: &Vec<Vec<u8>>)
    ensures
        ref_views(final(ts)@) == project_step(ref_views(old(ts)@), bytes_view(m@)),
{
    let ghost old_ts = ts@;
    let ghost mv = bytes_view(m@);
    let n0: usize = ts.len();
    let mut out: Vec<RefTable> = Vec::new();
    let mut k: usize = 0;
    while ts.len() > 0
        invariant
            old_ts.len() == n0,
            k + ts@.len() == old_ts.len(),
            ts@ == old_ts.skip(k as int),
            mv == bytes_view(m@),
            out@.len() == k,
            forall|j: int| 0 <= j < k ==> #[trigger] ref_view(out@[j])
                == (ref_view(old_ts[j]).0.map_values(|r: RowView| (kept_cells(r.0, mv, ref_view(old_ts[j]).2), r.1)),
                    ref_view(old_ts[j]).1, ref_view(old_ts[j]).2),
        decreases ts@.len(),
    {
        let mut t = ts.remove(0);
        let ghost t0 = t;
        assert(t == old_ts[k as int]);
        t.filter_refs(m);
        assert(t.rows() =~= t0.rows().map_values(|r: RowView| (kept_cells(r.0, mv, t0.save_cols()), r.1)));
        out.push(t);
        k += 1;
        assert(ts@ =~= old_ts.skip(k as int));
    }
    *ts = out;
    assert(ref_views(ts@) =~= project_step(ref_views(old_ts), mv));
}

/// The position of the first table that stands for relation `id`.
pub fn find_table(ts: &Vec<RefTable>, id: &String) -> (r: Option<usize>)
    ensures
        r is Some <==> first_with_id(ref_views(ts@), id@) is Some,
        r is Some ==> r->Some_0 as int == first_with_id(ref_views(ts@), id@)->Some_0,
{
    let ghost v = ref_views(ts@);
    let mut i: usize = 0;
    while i < ts.len()
        invariant
            i <= ts@.len(),
            v == ref_views(ts@),
            first_with_id(v.take(i as int), id@) is None,
        decreases ts@.len() - i,
    {
        proof {
            assert(v.take(i as int + 1).drop_last() =~= v.take(i as int));
        }
        if ts[i].has_id(id) {
            proof { lemma_first_with_id_prefix(v, i as int + 1, id@); }
            return Some(i);
        }
        i += 1;
    }
    assert(v.take(i as int) =~= v);
    None
}

pub proof fn lemma_first_with_id_bound(v: Seq<TableView>, id: Seq<char>)
    ensures
        first_with_id(v, id) is Some ==> 0 <= first_with_id(v, id)->Some_0 < v.len(),
    decreases v.len(),
{
    if v.len() > 0 {
        lemma_first_with_id_bound(v.drop_last(), id);
    }
}

/// Once a prefix holds a table of `id`, the first such table is in it.
proof fn lemma_first_with_id_prefix(v: Seq<TableView>, n: int, id: Seq<char>)
    requires
        0 <= n <= v.len(),
        first_with_id(v.take(n), id) is Some,
    ensures
        first_with_id(v, id) == first_with_id(v.take(n), id),
    decreases v.len(),
{
    if n < v.len() {
        assert(v.drop_last().take(n) =~= v.take(n));
        lemma_first_with_id_prefix(v.drop_last(), n, id);
    } else {
        assert(v.take(n) =~= v);
    }
}

/// The matched key pairs decoded from the full-pair hits.
pub fn decode_pairs(m: &Vec<Vec<u8>>, swapped: bool) -> (r: Vec<([u8; 32], [u8; 32])>)
    ensures
        pairs_view(r@) == decoded_pairs(bytes_view(m@), swapped),
{
    let ghost mv = bytes_view(m@);
    let ghost f = |p: ([u8; 32], [u8; 32])| (p.0@, p.1@);
    let mut out: Vec<([u8; 32], [u8; 32])> = Vec::new();
    let mut i: usize = 0;
    while i < m.len()
        invariant
            i <= m@.len(),
            mv == bytes_view(m@),
            f == |p: ([u8; 32], [u8; 32])| (p.0@, p.1@),
            forall|p: (Seq<u8>, Seq<u8>)| out@.map_values(f).contains(p) <==>
                exists|j: int| 0 <= j < i && (#[trigger] bincode_token_pair_decode_of(mv[j])) is Some
                    && p == orient(bincode_token_pair_decode_of(mv[j])->Some_0, swapped),
        decreases m@.len() - i,
    {
        let ghost before = out@;
        match decode_token_pair(m[i].as_slice()) {
            Some((a, b)) => {
                if swapped {
                    out.push((b, a));
                } else {
                    out.push((a, b));
                }
                proof {
                    assert(out@.map_values(f) =~= before.map_values(f).push(f(out@.last())));
                    assert forall|p: (Seq<u8>, Seq<u8>)| out@.map_values(f).contains(p) <==>
                        exists|j: int| 0 <= j < i + 1 && (#[trigger] bincode_token_pair_decode_of(mv[j])) is Some
                            && p == orient(bincode_token_pair_decode_of(mv[j])->Some_0, swapped) by {
                        if out@.map_values(f).contains(p) {
                            let q = choose|q: int| 0 <= q < out@.map_values(f).len() && out@.map_values(f)[q] == p;
                            if q < before.len() {
                                assert(before.map_values(f)[q] == p);
                                assert(before.map_values(f).contains(p));
                            } else {
                                assert(bincode_token_pair_decode_of(mv[i as int]) is Some);
                            }
                        }
                        if exists|j: int| 0 <= j < i + 1 && (#[trigger] bincode_token_pair_decode_of(mv[j])) is Some
                            && p == orient(bincode_token_pair_decode_of(mv[j])->Some_0, swapped) {
                            let j = choose|j: int| 0 <= j < i + 1 && (#[trigger] bincode_token_pair_decode_of(mv[j])) is Some
                                && p == orient(bincode_token_pair_decode_of(mv[j])->Some_0, swapped);
                            if j < i {
                                assert(before.map_values(f).contains(p));
                                let q = choose|q: int| 0 <= q < before.map_values(f).len() && before.map_values(f)[q] == p;
                                assert(out@.map_values(f)[q] == p);
                            } else {
                                assert(out@.map_values(f)[before.len() as int] == p);
                            }
                        }
                    }
                }
            },
            None => {
                proof {
                    assert forall|p: (Seq<u8>, Seq<u8>)| out@.map_values(f).contains(p) <==>
                        exists|j: int| 0 <= j < i + 1 && (#[trigger] bincode_token_pair_decode_of(mv[j])) is Some
                            && p == orient(bincode_token_pair_decode_of(mv[j])->Some_0, swapped) by {
                        if exists|j: int| 0 <= j < i + 1 && (#[trigger] bincode_token_pair_decode_of(mv[j])) is Some
                            && p == orient(bincode_token_pair_decode_of(mv[j])->Some_0, swapped) {
                            let j = choose|j: int| 0 <= j < i + 1 && (#[trigger] bincode_token_pair_decode_of(mv[j])) is Some
                                && p == orient(bincode_token_pair_decode_of(mv[j])->Some_0, swapped);
                            assert(j < i);
                        }
                    }
                }
            },
        }
        i += 1;
    }
    assert(pairs_view(out@) =~= decoded_pairs(mv, swapped));
    out
}

/// Whether the save columns of `t2`, moved past the columns of `t1`, stay
/// within `usize`.
pub fn shift_ok(t1: &RefTable, t2: &RefTable) -> (r: bool)
    ensures
        r == shift_fits(ref_view(*t1), ref_view(*t2)),
        r ==> (t1.refs@.len() > 0 ==> forall|k: int| 0 <= k < t2.save_cols@.len()
            ==> t2.save_cols@[k] + t1.refs@[0].cells@.len() <= usize::MAX),
{
    if t1.refs.len() == 0 {
        return true;
    }
    let offset = t1.refs[0].cells.len();
    assert(ref_view(*t1).0[0].0.len() == offset);
    let mut k: usize = 0;
    while k < t2.save_cols.len()
        invariant
            k <= t2.save_cols@.len(),
            t1.refs@.len() > 0,
            ref_view(*t1).0[0].0.len() == offset,
            forall|q: int| 0 <= q < k ==> t2.save_cols@[q] + offset <= usize::MAX,
        decreases t2.save_cols@.len() - k,
    {
        if t2.save_cols[k] > usize::MAX - offset {
            let ghost c = t2.save_cols@[k as int];
            assert(t2.save_cols().contains(c));
            assert(!shift_fits(ref_view(*t1), ref_view(*t2))) by {
                assert(ref_view(*t2).2.contains(c));
                assert(c + ref_view(*t1).0[0].0.len() > usize::MAX);
            }
            return false;
        }
        k += 1;
    }
    assert forall|c: usize| t2.save_cols().contains(c) implies c + offset <= usize::MAX by {
        let q = choose|q: int| 0 <= q < t2.save_cols@.len() && t2.save_cols@[q] == c;
    }
    true
}

} // verus!
