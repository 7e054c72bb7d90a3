use vstd::prelude::*;
use crate::bytemap::{bytes_eq, bytes_to_vec};
use crate::emm::bytes_view;

verus! {

/// A row as the algebra sees it: its cell pointers in order, and the unique
/// keys of the base rows that contributed to it.
pub type RowView = (Seq<Seq<u8>>, Set<Seq<u8>>);

/// The rows of `cells` that a match set keeps for a row: those cells that are
/// in `matches`, and those whose position is a save column.
pub open spec fn kept_cells(cells: Seq<Seq<u8>>, matches: Seq<Seq<u8>>, save_cols: Set<usize>) -> Seq<Seq<u8>>
    decreases cells.len(),
{
    if cells.len() == 0 {
        Seq::empty()
    } else {
        let i = cells.len() - 1;
        kept_cells(cells.drop_last(), matches, save_cols) + (
        if matches.contains(cells[i]) || save_cols.contains(i as usize) {
            seq![cells[i]]
        } else {
            Seq::empty()
        })
    }
}

/// A projection on pointers keeps the cell at every save column: a join
/// that needs that column still finds it after the projection.
pub proof fn lemma_kept_cells_keeps_saved(cells: Seq<Seq<u8>>, matches: Seq<Seq<u8>>, save_cols: Set<usize>, c: usize)
    requires
        save_cols.contains(c),
        c < cells.len(),
    ensures
        kept_cells(cells, matches, save_cols).contains(cells[c as int]),
    decreases cells.len(),
{
    let d = cells.drop_last();
    let i = cells.len() - 1;
    let tail = if matches.contains(cells[i]) || save_cols.contains(i as usize) { seq![cells[i]] } else { Seq::<Seq<u8>>::empty() };
    if c as int == i {
        assert((kept_cells(d, matches, save_cols) + tail)[kept_cells(d, matches, save_cols).len() as int] == cells[c as int]);
    } else {
        lemma_kept_cells_keeps_saved(d, matches, save_cols, c);
        let k = choose|k: int| 0 <= k < kept_cells(d, matches, save_cols).len() && kept_cells(d, matches, save_cols)[k] == d[c as int];
        assert((kept_cells(d, matches, save_cols) + tail)[k] == cells[c as int]);
    }
}

/// Whether some cell of `row` is in `matches`.
pub open spec fn row_hits(row: RowView, matches: Seq<Seq<u8>>) -> bool {
    exists|i: int| 0 <= i < row.0.len() && matches.contains(#[trigger] row.0[i])
}

/// The rows that hold at least one cell of `matches`, in order.
pub open spec fn kept_rows(rows: Seq<RowView>, matches: Seq<Seq<u8>>) -> Seq<RowView>
    decreases rows.len(),
{
    if rows.len() == 0 {
        Seq::empty()
    } else {
        kept_rows(rows.drop_last(), matches) + (
        if row_hits(rows.last(), matches) {
            seq![rows.last()]
        } else {
            Seq::empty()
        })
    }
}

/// Whether some pair of unique keys, one from each row, is a matched pair.
pub open spec fn pair_hits(r1: RowView, r2: RowView, matches: Set<(Seq<u8>, Seq<u8>)>) -> bool {
    exists|k1: Seq<u8>, k2: Seq<u8>| r1.1.contains(k1) && r2.1.contains(k2) && #[trigger] matches.contains((k1, k2))
}

/// Two rows side by side: the cells of both, the unique keys of both.
pub open spec fn concat_view(r1: RowView, r2: RowView) -> RowView {
    (r1.0 + r2.0, r1.1.union(r2.1))
}

/// The concatenations of `r1` with each row of `rows2` that it matches.
pub open spec fn join_row_with(r1: RowView, rows2: Seq<RowView>, matches: Set<(Seq<u8>, Seq<u8>)>) -> Seq<RowView>
    decreases rows2.len(),
{
    if rows2.len() == 0 {
        Seq::empty()
    } else {
        join_row_with(r1, rows2.drop_last(), matches) + (
        if pair_hits(r1, rows2.last(), matches) {
            seq![concat_view(r1, rows2.last())]
        } else {
            Seq::empty()
        })
    }
}

/// The matched concatenations of every pair of rows, the first table's
/// order outermost.
pub open spec fn join_rows(rows1: Seq<RowView>, rows2: Seq<RowView>, matches: Set<(Seq<u8>, Seq<u8>)>) -> Seq<RowView>
    decreases rows1.len(),
{
    if rows1.len() == 0 {
        Seq::empty()
    } else {
        join_rows(rows1.drop_last(), rows2, matches) + join_row_with(rows1.last(), rows2, matches)
    }
}

proof fn lemma_concat_contains<A>(a: Seq<A>, b: Seq<A>, x: A)
    ensures
        (a + b).contains(x) <==> a.contains(x) || b.contains(x),
{
    if (a + b).contains(x) {
        let k = choose|k: int| 0 <= k < (a + b).len() && (a + b)[k] == x;
        if k < a.len() {
            assert(a[k] == x);
        } else {
            assert(b[k - a.len()] == x);
        }
    }
    if a.contains(x) {
        let k = choose|k: int| 0 <= k < a.len() && a[k] == x;
        assert((a + b)[k] == x);
    }
    if b.contains(x) {
        let k = choose|k: int| 0 <= k < b.len() && b[k] == x;
        assert((a + b)[k + a.len()] == x);
    }
}

proof fn lemma_join_row_with_exact(r1: RowView, rows2: Seq<RowView>, m: Set<(Seq<u8>, Seq<u8>)>, r: RowView)
    ensures
        join_row_with(r1, rows2, m).contains(r) <==> exists|j: int| 0 <= j < rows2.len()
            && pair_hits(r1, #[trigger] rows2[j], m) && r == concat_view(r1, rows2[j]),
    decreases rows2.len(),
{
    if rows2.len() > 0 {
        let d = rows2.drop_last();
        let tail = if pair_hits(r1, rows2.last(), m) { seq![concat_view(r1, rows2.last())] } else { Seq::<RowView>::empty() };
        lemma_join_row_with_exact(r1, d, m, r);
        lemma_concat_contains(join_row_with(r1, d, m), tail, r);
        if exists|j: int| 0 <= j < rows2.len() && pair_hits(r1, #[trigger] rows2[j], m) && r == concat_view(r1, rows2[j]) {
            let j = choose|j: int| 0 <= j < rows2.len() && pair_hits(r1, #[trigger] rows2[j], m) && r == concat_view(r1, rows2[j]);
            if j < d.len() {
                assert(d[j] == rows2[j]);
            } else {
                assert(tail[0] == r);
            }
        }
        if join_row_with(r1, d, m).contains(r) {
            let j = choose|j: int| 0 <= j < d.len() && pair_hits(r1, #[trigger] d[j], m) && r == concat_view(r1, d[j]);
            assert(rows2[j] == d[j]);
        }
        if tail.contains(r) {
            assert(rows2[rows2.len() - 1] == rows2.last());
        }
    }
}

/// Full-pair exactness on pointers: a row is in the join of two tables
/// exactly when it is the concatenation of a row of each whose unique keys
/// form a matched pair; no pair is missed and nothing else appears.
pub proof fn lemma_join_rows_exact(rows1: Seq<RowView>, rows2: Seq<RowView>, m: Set<(Seq<u8>, Seq<u8>)>, r: RowView)
    ensures
        join_rows(rows1, rows2, m).contains(r) <==> exists|i: int, j: int| 0 <= i < rows1.len() && 0 <= j < rows2.len()
            && pair_hits(#[trigger] rows1[i], #[trigger] rows2[j], m) && r == concat_view(rows1[i], rows2[j]),
    decreases rows1.len(),
{
    if rows1.len() > 0 {
        let d = rows1.drop_last();
        lemma_join_rows_exact(d, rows2, m, r);
        lemma_join_row_with_exact(rows1.last(), rows2, m, r);
        lemma_concat_contains(join_rows(d, rows2, m), join_row_with(rows1.last(), rows2, m), r);
        if exists|i: int, j: int| 0 <= i < rows1.len() && 0 <= j < rows2.len()
            && pair_hits(#[trigger] rows1[i], #[trigger] rows2[j], m) && r == concat_view(rows1[i], rows2[j]) {
            let (i, j) = choose|i: int, j: int| 0 <= i < rows1.len() && 0 <= j < rows2.len()
                && pair_hits(#[trigger] rows1[i], #[trigger] rows2[j], m) && r == concat_view(rows1[i], rows2[j]);
            if i < d.len() {
                assert(d[i] == rows1[i]);
            } else {
                assert(rows1[i] == rows1.last());
            }
        }
        if join_rows(d, rows2, m).contains(r) {
            let (i, j) = choose|i: int, j: int| 0 <= i < d.len() && 0 <= j < rows2.len()
                && pair_hits(#[trigger] d[i], #[trigger] rows2[j], m) && r == concat_view(d[i], rows2[j]);
            assert(rows1[i] == d[i]);
        }
        if join_row_with(rows1.last(), rows2, m).contains(r) {
            let j = choose|j: int| 0 <= j < rows2.len() && pair_hits(rows1.last(), #[trigger] rows2[j], m)
                && r == concat_view(rows1.last(), rows2[j]);
            assert(rows1[rows1.len() - 1] == rows1.last());
        }
    }
}

pub open spec fn pairs_view(v: Seq<([u8; 32], [u8; 32])>) -> Set<(Seq<u8>, Seq<u8>)> {
    v.map_values(|p: ([u8; 32], [u8; 32])| (p.0@, p.1@)).to_set()
}

pub open spec fn tokens_view(v: Seq<[u8; 32]>) -> Set<Seq<u8>> {
    v.map_values(|t: [u8; 32]| t@).to_set()
}

/// A one-element sequence holds exactly its element.
pub proof fn lemma_singleton_to_set<A>(x: A)
    ensures
        seq![x].to_set() == set![x],
{
    assert(seq![x].to_set() =~= set![x]) by {
        assert(seq![x][0] == x);
    }
}

/// The mapped elements of two sequences together are those of each.
pub proof fn lemma_mapped_concat_to_set<A, B>(a: Seq<A>, b: Seq<A>, f: spec_fn(A) -> B)
    ensures
        (a + b).map_values(f).to_set() == a.map_values(f).to_set().union(b.map_values(f).to_set()),
{
    assert((a + b).map_values(f) =~= a.map_values(f) + b.map_values(f));
    vstd::seq_lib::seq_to_set_distributes_over_add(a.map_values(f), b.map_values(f));
    assert((a + b).map_values(f).to_set() =~= a.map_values(f).to_set().union(b.map_values(f).to_set()));
}

/// The tokens of two lists together are the tokens of each.
pub proof fn lemma_tokens_concat(a: Seq<[u8; 32]>, b: Seq<[u8; 32]>)
    ensures
        tokens_view(a + b) == tokens_view(a).union(tokens_view(b)),
{
    let f = |t: [u8; 32]| t@;
    assert((a + b).map_values(f) =~= a.map_values(f) + b.map_values(f));
    vstd::seq_lib::seq_to_set_distributes_over_add(a.map_values(f), b.map_values(f));
    assert(tokens_view(a + b) =~= tokens_view(a).union(tokens_view(b)));
}

/// A fresh copy of a list of tokens.
pub fn copy_tokens(v: &Vec<[u8; 32]>) -> (r: Vec<[u8; 32]>)
    ensures
        r@ == v@,
{
    let mut r: Vec<[u8; 32]> = Vec::new();
    let mut i: usize = 0;
    while i < v.len()
        invariant
            i <= v@.len(),
            r@ == v@.take(i as int),
        decreases v@.len() - i,
    {
        r.push(v[i]);
        i += 1;
        assert(r@ =~= v@.take(i as int));
    }
    assert(v@.take(i as int) =~= v@);
    r
}

/// A fresh copy of a list of byte strings.
pub fn copy_cells(v: &Vec<Vec<u8>>) -> (r: Vec<Vec<u8>>)
    ensures
        r@.len() == v@.len(),
        bytes_view(r@) == bytes_view(v@),
{
    let mut r: Vec<Vec<u8>> = Vec::new();
    let mut i: usize = 0;
    while i < v.len()
        invariant
            i <= v@.len(),
            r@.len() == i,
            bytes_view(r@) == bytes_view(v@).take(i as int),
        decreases v@.len() - i,
    {
        r.push(bytes_to_vec(v[i].as_slice()));
        i += 1;
        assert(bytes_view(r@) =~= bytes_view(v@).take(i as int));
    }
    assert(bytes_view(v@).take(i as int) =~= bytes_view(v@));
    r
}

/// Whether `cell` occurs in `v`.
pub fn contains_cell(v: &Vec<Vec<u8>>, cell: &Vec<u8>) -> (r: bool)
    ensures
        r == bytes_view(v@).contains(cell@),
{
    let mut i: usize = 0;
    while i < v.len()
        invariant
            i <= v@.len(),
            forall|j: int| 0 <= j < i ==> v@[j]@ != cell@,
        decreases v@.len() - i,
    {
        if bytes_eq(v[i].as_slice(), cell.as_slice()) {
            assert(bytes_view(v@)[i as int] == cell@);
            return true;
        }
        i += 1;
    }
    assert(!bytes_view(v@).contains(cell@)) by {
        if bytes_view(v@).contains(cell@) {
            let j = choose|j: int| 0 <= j < bytes_view(v@).len() && bytes_view(v@)[j] == cell@;
            assert(v@[j]@ == cell@);
        }
    }
    false
}

fn contains_index(v: &Vec<usize>, x: usize) -> (r: bool)
    ensures
        r == v@.to_set().contains(x),
{
    let mut i: usize = 0;
    while i < v.len()
        invariant
            i <= v@.len(),
            forall|j: int| 0 <= j < i ==> v@[j] != x,
        decreases v@.len() - i,
    {
        if v[i] == x {
            assert(v@.contains(x));
            return true;
        }
        i += 1;
    }
    false
}

/// A row of pointers into the encrypted cell store.
pub struct RefRow {
    pub cells: Vec<Vec<u8>>,
    pub unique_keys: Vec<[u8; 32]>,
}

impl RefRow {
    pub open spec fn view(&self) -> RowView {
        (bytes_view(self.cells@), self.unique_keys())
    }

    pub open spec fn unique_keys(&self) -> Set<Seq<u8>> {
        tokens_view(self.unique_keys@)
    }

    /// A row contributed by the single base row with key `unique_key`.
    pub fn from_uk(cells: Vec<Vec<u8>>, unique_key: [u8; 32]) -> (r: RefRow)
        ensures
            r.view() == (bytes_view(cells@), set![unique_key@]),
    {
        let mut uks: Vec<[u8; 32]> = Vec::new();
        uks.push(unique_key);
        let r = RefRow { cells, unique_keys: uks };
        assert(uks@.map_values(|t: [u8; 32]| t@) =~= seq![unique_key@]);
        proof { lemma_singleton_to_set(unique_key@); }
        r
    }

    fn from_row(cells: Vec<Vec<u8>>, unique_keys: Vec<[u8; 32]>) -> (r: RefRow)
        ensures
            r.view() == (bytes_view(cells@), tokens_view(unique_keys@)),
    {
        RefRow { cells, unique_keys }
    }

    /// A copy of the row.
    pub fn copy(&self) -> (r: RefRow)
        ensures
            r.view() == self.view(),
    {
        RefRow { cells: copy_cells(&self.cells), unique_keys: copy_tokens(&self.unique_keys) }
    }

    /// This row's cells followed by the other's, with the unique keys of both.
    fn concat_row(&self, other_ref_row: &RefRow) -> (r: RefRow)
        ensures
            r.view() == concat_view(self.view(), other_ref_row.view()),
    {
        let mut new_uks = copy_tokens(&self.unique_keys);
        let mut i: usize = 0;
        while i < other_ref_row.unique_keys.len()
            invariant
                i <= other_ref_row.unique_keys@.len(),
                new_uks@ == self.unique_keys@ + other_ref_row.unique_keys@.take(i as int),
            decreases other_ref_row.unique_keys@.len() - i,
        {
            new_uks.push(other_ref_row.unique_keys[i]);
            i += 1;
            assert(new_uks@ =~= self.unique_keys@ + other_ref_row.unique_keys@.take(i as int));
        }
        let mut new_cells = copy_cells(&self.cells);
        assert forall|k: int| 0 <= k < self.cells@.len() implies #[trigger] new_cells@[k]@ == self.cells@[k]@ by {
            assert(bytes_view(new_cells@)[k] == bytes_view(self.cells@)[k]);
        }
        let mut j: usize = 0;
        while j < other_ref_row.cells.len()
            invariant
                j <= other_ref_row.cells@.len(),
                new_cells@.len() == self.cells@.len() + j,
                forall|k: int| 0 <= k < self.cells@.len() ==> #[trigger] new_cells@[k]@ == self.cells@[k]@,
                forall|k: int| 0 <= k < j ==> new_cells@[self.cells@.len() + k]@ == #[trigger] other_ref_row.cells@[k]@,
            decreases other_ref_row.cells@.len() - j,
        {
            new_cells.push(bytes_to_vec(other_ref_row.cells[j].as_slice()));
            j += 1;
        }
        assert(bytes_view(new_cells@) =~= bytes_view(self.cells@) + bytes_view(other_ref_row.cells@)) by {
            assert forall|k: int| 0 <= k < new_cells@.len() implies
                bytes_view(new_cells@)[k] == (bytes_view(self.cells@) + bytes_view(other_ref_row.cells@))[k] by {
                if k >= self.cells@.len() {
                    let k2 = k - self.cells@.len();
                    assert(other_ref_row.cells@[k2]@ == new_cells@[self.cells@.len() + k2]@);
                }
            }
        }
        assert(other_ref_row.unique_keys@.take(i as int) =~= other_ref_row.unique_keys@);
        let r = RefRow::from_row(new_cells, new_uks);
        proof { lemma_tokens_concat(self.unique_keys@, other_ref_row.unique_keys@); }
        r
    }

    /// Keeps a cell if it is in `matches` or its position is a save column.
    fn filter_refs(&mut self, matches: &Vec<Vec<u8>>, save_cols: &Vec<usize>)
        ensures
            final(self).view() == (kept_cells(old(self).view().0, bytes_view(matches@), save_cols@.to_set()), old(self).view().1),
    {
        let ghost cells = bytes_view(self.cells@);
        let ghost m = bytes_view(matches@);
        let ghost sv = save_cols@.to_set();
        let mut kept: Vec<Vec<u8>> = Vec::new();
        let mut i: usize = 0;
        while i < self.cells.len()
            invariant
                i <= self.cells@.len(),
                cells == bytes_view(self.cells@),
                m == bytes_view(matches@),
                sv == save_cols@.to_set(),
                *self == *old(self),
                kept@.len() == kept_cells(cells.take(i as int), m, sv).len(),
                bytes_view(kept@) == kept_cells(cells.take(i as int), m, sv),
            decreases self.cells@.len() - i,
        {
            let keep = contains_cell(matches, &self.cells[i]) || contains_index(save_cols, i);
            proof {
                assert(cells.take(i as int + 1).drop_last() =~= cells.take(i as int));
                assert(cells.take(i as int + 1)[i as int] == self.cells@[i as int]@);
            }
            if keep {
                kept.push(bytes_to_vec(self.cells[i].as_slice()));
                assert(bytes_view(kept@) =~= kept_cells(cells.take(i as int + 1), m, sv));
            } else {
                assert(bytes_view(kept@) =~= kept_cells(cells.take(i as int + 1), m, sv));
            }
            i += 1;
        }
        assert(cells.take(i as int) =~= cells);
        self.cells = kept;
    }
}

/// A table of reference rows: the base relations it stands for, and the
/// column positions that a projection must keep because a later join needs
/// them.
pub struct RefTable {
    pub refs: Vec<RefRow>,
    pub ids: Vec<String>,
    pub save_cols: Vec<usize>,
}

pub open spec fn rows_view(refs: Seq<RefRow>) -> Seq<RowView> {
    refs.map_values(|r: RefRow| r.view())
}

/// Each column of `cols` moved right by `offset`.
pub open spec fn shifted(cols: Set<usize>, offset: nat) -> Set<usize> {
    cols.map(|x: usize| (x + offset) as usize)
}

/// Whether the pair `(a, b)` is one of `matches`.
fn pair_in(a: &[u8; 32], b: &[u8; 32], matches: &Vec<([u8; 32], [u8; 32])>) -> (r: bool)
    ensures
        r == pairs_view(matches@).contains((a@, b@)),
{
    let ghost f = |p: ([u8; 32], [u8; 32])| (p.0@, p.1@);
    let mut i: usize = 0;
    while i < matches.len()
        invariant
            i <= matches@.len(),
            f == |p: ([u8; 32], [u8; 32])| (p.0@, p.1@),
            forall|k: int| 0 <= k < i ==> (#[trigger] matches@[k].0@, matches@[k].1@) != (a@, b@),
        decreases matches@.len() - i,
    {
        if bytes_eq(matches[i].0.as_slice(), a.as_slice()) && bytes_eq(matches[i].1.as_slice(), b.as_slice()) {
            assert(matches@.map_values(f)[i as int] == (a@, b@));
            return true;
        }
        i += 1;
    }
    assert(!pairs_view(matches@).contains((a@, b@))) by {
        let v = matches@.map_values(f);
        if v.contains((a@, b@)) {
            let k = choose|k: int| 0 <= k < v.len() && v[k] == (a@, b@);
            assert((matches@[k].0@, matches@[k].1@) == (a@, b@));
        }
    }
    false
}

/// Whether some unique key of `r1` and some of `r2` form a pair of `matches`.
fn rows_pair_hit(r1: &RefRow, r2: &RefRow, matches: &Vec<([u8; 32], [u8; 32])>) -> (r: bool)
    ensures
        r == pair_hits(r1.view(), r2.view(), pairs_view(matches@)),
{
    let ghost mv = pairs_view(matches@);
    let mut i: usize = 0;
    while i < r1.unique_keys.len()
        invariant
            i <= r1.unique_keys@.len(),
            mv == pairs_view(matches@),
            forall|x: int, y: int| 0 <= x < i && 0 <= y < r2.unique_keys@.len()
                ==> !mv.contains((#[trigger] r1.unique_keys@[x]@, #[trigger] r2.unique_keys@[y]@)),
        decreases r1.unique_keys@.len() - i,
    {
        let mut j: usize = 0;
        while j < r2.unique_keys.len()
            invariant
                i < r1.unique_keys@.len(),
                j <= r2.unique_keys@.len(),
                mv == pairs_view(matches@),
                forall|x: int, y: int| 0 <= x < i && 0 <= y < r2.unique_keys@.len()
                    ==> !mv.contains((#[trigger] r1.unique_keys@[x]@, #[trigger] r2.unique_keys@[y]@)),
                forall|y: int| 0 <= y < j ==> !mv.contains((r1.unique_keys@[i as int]@, #[trigger] r2.unique_keys@[y]@)),
            decreases r2.unique_keys@.len() - j,
        {
            if pair_in(&r1.unique_keys[i], &r2.unique_keys[j], matches) {
                proof {
                    let f = |t: [u8; 32]| t@;
                    assert(r1.unique_keys@.map_values(f)[i as int] == r1.unique_keys@[i as int]@);
                    assert(r2.unique_keys@.map_values(f)[j as int] == r2.unique_keys@[j as int]@);
                    assert(r1.view().1.contains(r1.unique_keys@[i as int]@));
                    assert(r2.view().1.contains(r2.unique_keys@[j as int]@));
                }
                return true;
            }
            j += 1;
        }
        i += 1;
    }
    assert(!pair_hits(r1.view(), r2.view(), mv)) by {
        if pair_hits(r1.view(), r2.view(), mv) {
            let (k1, k2) = choose|k1: Seq<u8>, k2: Seq<u8>|
                r1.view().1.contains(k1) && r2.view().1.contains(k2) && #[trigger] mv.contains((k1, k2));
            let f = |t: [u8; 32]| t@;
            let x = choose|x: int| 0 <= x < r1.unique_keys@.map_values(f).len() && r1.unique_keys@.map_values(f)[x] == k1;
            let y = choose|y: int| 0 <= y < r2.unique_keys@.map_values(f).len() && r2.unique_keys@.map_values(f)[y] == k2;
            assert(r1.unique_keys@[x]@ == k1);
            assert(r2.unique_keys@[y]@ == k2);
        }
    }
    false
}

impl RefTable {
    pub open spec fn rows(&self) -> Seq<RowView> {
        rows_view(self.refs@)
    }

    pub open spec fn ids(&self) -> Set<Seq<char>> {
        self.ids@.map_values(|s: String| s@).to_set()
    }

    pub open spec fn save_cols(&self) -> Set<usize> {
        self.save_cols@.to_set()
    }

    /// The table of one base relation; its first column, the primary key,
    /// is always kept.
    pub fn from_id(refs: Vec<RefRow>, id: String) -> (r: RefTable)
        ensures
            r.rows() == rows_view(refs@),
            r.ids() == set![id@],
            r.save_cols() == set![0usize],
    {
        let ghost idv = id@;
        let mut ids: Vec<String> = Vec::new();
        ids.push(id);
        let mut save_cols: Vec<usize> = Vec::new();
        save_cols.push(0);
        let r = RefTable { refs, ids, save_cols };
        assert(r.ids@.map_values(|s: String| s@) =~= seq![idv]);
        proof { lemma_singleton_to_set(idv); }
        assert(r.save_cols@ =~= seq![0usize]);
        proof { lemma_singleton_to_set(0usize); }
        r
    }

    fn from_table(refs: Vec<RefRow>, ids: Vec<String>, save_cols: Vec<usize>) -> (r: RefTable)
        ensures
            r.rows() == rows_view(refs@),
            r.ids() == ids@.map_values(|s: String| s@).to_set(),
            r.save_cols() == save_cols@.to_set(),
    {
        RefTable { refs, ids, save_cols }
    }

    /// Whether the table stands for the base relation `id`.
    pub fn has_id(&self, id: &String) -> (r: bool)
        ensures
            r == self.ids().contains(id@),
    {
        let mut i: usize = 0;
        while i < self.ids.len()
            invariant
                i <= self.ids@.len(),
                forall|j: int| 0 <= j < i ==> self.ids@[j]@ != id@,
            decreases self.ids@.len() - i,
        {
            if self.ids[i] == *id {
                assert(self.ids@.map_values(|s: String| s@)[i as int] == id@);
                return true;
            }
            i += 1;
        }
        assert(!self.ids().contains(id@)) by {
            let v = self.ids@.map_values(|s: String| s@);
            if v.contains(id@) {
                let j = choose|j: int| 0 <= j < v.len() && v[j] == id@;
                assert(self.ids@[j]@ == id@);
            }
        }
        false
    }

    /// Projection on pointers: in every row, keeps the cells in `matches` and
    /// those at save columns.
    pub fn filter_refs(&mut self, matches: &Vec<Vec<u8>>)
        ensures
            final(self).ids() == old(self).ids(),
            final(self).save_cols() == old(self).save_cols(),
            final(self).rows().len() == old(self).rows().len(),
            forall|i: int| 0 <= i < old(self).rows().len() ==> #[trigger] final(self).rows()[i]
                == (kept_cells(old(self).rows()[i].0, bytes_view(matches@), old(self).save_cols()), old(self).rows()[i].1),
    {
        let mut new_refs: Vec<RefRow> = Vec::new();
        let mut i: usize = 0;
        while i < self.refs.len()
            invariant
                i <= self.refs@.len(),
                *self == *old(self),
                new_refs@.len() == i,
                forall|j: int| 0 <= j < i ==> #[trigger] new_refs@[j].view()
                    == (kept_cells(self.refs@[j].view().0, bytes_view(matches@), self.save_cols()), self.refs@[j].view().1),
            decreases self.refs@.len() - i,
        {
            let mut row = self.refs[i].copy();
            row.filter_refs(matches, &self.save_cols);
            new_refs.push(row);
            i += 1;
        }
        self.refs = new_refs;
    }

    /// Selection on pointers: keeps the rows that hold a cell of `matches`.
    pub fn filter_rows(&mut self, matches: &Vec<Vec<u8>>)
        ensures
            final(self).ids() == old(self).ids(),
            final(self).save_cols() == old(self).save_cols(),
            final(self).rows() == kept_rows(old(self).rows(), bytes_view(matches@)),
    {
        let ghost rows = self.rows();
        let ghost m = bytes_view(matches@);
        let mut new_refs: Vec<RefRow> = Vec::new();
        let mut i: usize = 0;
        while i < self.refs.len()
            invariant
                i <= self.refs@.len(),
                *self == *old(self),
                rows == self.rows(),
                m == bytes_view(matches@),
                rows_view(new_refs@) == kept_rows(rows.take(i as int), m),
            decreases self.refs@.len() - i,
        {
            let row = &self.refs[i];
            let mut hit = false;
            let mut j: usize = 0;
            while j < row.cells.len() && !hit
                invariant
                    j <= row.cells@.len(),
                    m == bytes_view(matches@),
                    hit ==> row_hits(row.view(), m),
                    !hit ==> forall|k: int| 0 <= k < j ==> !m.contains(#[trigger] row.view().0[k]),
                decreases row.cells@.len() - j, (if hit { 0int } else { 1int }),
            {
                let found = contains_cell(matches, &row.cells[j]);
                assert(row.view().0[j as int] == row.cells@[j as int]@);
                if found {
                    assert(m.contains(row.view().0[j as int]));
                    hit = true;
                } else {
                    j += 1;
                }
            }
            proof {
                assert(rows.take(i as int + 1).drop_last() =~= rows.take(i as int));
                assert(rows.take(i as int + 1).last() == row.view());
                if !hit {
                    assert(!row_hits(row.view(), m));
                }
            }
            if hit {
                new_refs.push(row.copy());
                assert(rows_view(new_refs@) =~= kept_rows(rows.take(i as int + 1), m));
            } else {
                assert(rows_view(new_refs@) =~= kept_rows(rows.take(i as int + 1), m));
            }
            i += 1;
        }
        assert(rows.take(i as int) =~= rows);
        self.refs = new_refs;
    }

    /// Marks column `save_col` as one that projections keep.
    pub fn add_save_col(&mut self, save_col: usize)
        ensures
            final(self).rows() == old(self).rows(),
            final(self).ids() == old(self).ids(),
            final(self).save_cols() == old(self).save_cols().insert(save_col),
    {
        self.save_cols.push(save_col);
        assert(self.save_cols@.to_set() =~= old(self).save_cols@.to_set().insert(save_col)) by {
            assert forall|x: usize| self.save_cols@.contains(x) <==> old(self).save_cols@.contains(x) || x == save_col by {
                if self.save_cols@.contains(x) {
                    let k = choose|k: int| 0 <= k < self.save_cols@.len() && self.save_cols@[k] == x;
                    if k < old(self).save_cols@.len() { assert(old(self).save_cols@[k] == x); }
                }
                if old(self).save_cols@.contains(x) {
                    let k = choose|k: int| 0 <= k < old(self).save_cols@.len() && old(self).save_cols@[k] == x;
                    assert(self.save_cols@[k] == x);
                }
                if x == save_col {
                    assert(self.save_cols@[self.save_cols@.len() - 1] == x);
                }
            }
        }
    }

    /// Full-pair join on pointers: every pair of rows, one from each table,
    /// whose unique keys form a matched pair becomes one row; the other
    /// table's save columns follow this table's columns.
    pub fn concat_table(&self, other_ref_table: &RefTable, matches: &Vec<([u8; 32], [u8; 32])>) -> (r: RefTable)
        requires
            self.refs@.len() > 0 ==> forall|k: int| 0 <= k < other_ref_table.save_cols@.len()
                ==> other_ref_table.save_cols@[k] + self.refs@[0].cells@.len() <= usize::MAX,
        ensures
            r.rows() == join_rows(self.rows(), other_ref_table.rows(), pairs_view(matches@)),
            r.ids() == self.ids().union(other_ref_table.ids()),
            r.save_cols() == (if self.refs@.len() == 0 {
                self.save_cols()
            } else {
                self.save_cols().union(shifted(other_ref_table.save_cols(), self.rows()[0].0.len()))
            }),
    {
        let ghost rows1 = self.rows();
        let ghost rows2 = other_ref_table.rows();
        let ghost mv = pairs_view(matches@);
        let mut new_refs: Vec<RefRow> = Vec::new();
        let mut i: usize = 0;
        while i < self.refs.len()
            invariant
                i <= self.refs@.len(),
                rows1 == self.rows(),
                rows2 == other_ref_table.rows(),
                mv == pairs_view(matches@),
                rows_view(new_refs@) == join_rows(rows1.take(i as int), rows2, mv),
            decreases self.refs@.len() - i,
        {
            let row1 = &self.refs[i];
            let ghost base = rows_view(new_refs@);
            let mut j: usize = 0;
            while j < other_ref_table.refs.len()
                invariant
                    j <= other_ref_table.refs@.len(),
                    rows2 == other_ref_table.rows(),
                    mv == pairs_view(matches@),
                    rows_view(new_refs@) == base + join_row_with(row1.view(), rows2.take(j as int), mv),
                decreases other_ref_table.refs@.len() - j,
            {
                let row2 = &other_ref_table.refs[j];
                let hit = rows_pair_hit(row1, row2, matches);
                proof {
                    assert(rows2.take(j as int + 1).drop_last() =~= rows2.take(j as int));
                    assert(rows2.take(j as int + 1).last() == row2.view());
                }
                if hit {
                    let joined = row1.concat_row(row2);
                    let ghost before = new_refs@;
                    new_refs.push(joined);
                    proof {
                        assert(join_row_with(row1.view(), rows2.take(j as int + 1), mv)
                            == join_row_with(row1.view(), rows2.take(j as int), mv) + seq![concat_view(row1.view(), row2.view())]);
                        assert(rows_view(new_refs@) =~= rows_view(before).push(joined.view()));
                    }
                    assert(rows_view(new_refs@) =~= base + join_row_with(row1.view(), rows2.take(j as int + 1), mv));
                } else {
                    assert(rows_view(new_refs@) =~= base + join_row_with(row1.view(), rows2.take(j as int + 1), mv));
                }
                j += 1;
            }
            proof {
                assert(rows2.take(j as int) =~= rows2);
                assert(rows1.take(i as int + 1).drop_last() =~= rows1.take(i as int));
                assert(rows1.take(i as int + 1).last() == row1.view());
            }
            i += 1;
        }
        assert(rows1.take(i as int) =~= rows1);

        let mut new_ids: Vec<String> = Vec::new();
        let mut a: usize = 0;
        while a < self.ids.len()
            invariant
                a <= self.ids@.len(),
                new_ids@ == self.ids@.take(a as int),
            decreases self.ids@.len() - a,
        {
            new_ids.push(self.ids[a].clone());
            a += 1;
            assert(new_ids@ =~= self.ids@.take(a as int));
        }
        let mut b: usize = 0;
        while b < other_ref_table.ids.len()
            invariant
                a == self.ids@.len(),
                b <= other_ref_table.ids@.len(),
                new_ids@ == self.ids@.take(a as int) + other_ref_table.ids@.take(b as int),
            decreases other_ref_table.ids@.len() - b,
        {
            new_ids.push(other_ref_table.ids[b].clone());
            b += 1;
            assert(new_ids@ =~= self.ids@.take(a as int) + other_ref_table.ids@.take(b as int));
        }
        proof {
            assert(self.ids@.take(a as int) =~= self.ids@);
            assert(other_ref_table.ids@.take(b as int) =~= other_ref_table.ids@);
            lemma_mapped_concat_to_set(self.ids@, other_ref_table.ids@, |s: String| s@);
        }

        let mut new_save_cols: Vec<usize> = Vec::new();
        let mut c: usize = 0;
        while c < self.save_cols.len()
            invariant
                c <= self.save_cols@.len(),
                new_save_cols@ == self.save_cols@.take(c as int),
            decreases self.save_cols@.len() - c,
        {
            new_save_cols.push(self.save_cols[c]);
            c += 1;
            assert(new_save_cols@ =~= self.save_cols@.take(c as int));
        }
        assert(self.save_cols@.take(c as int) =~= self.save_cols@);
        if self.refs.len() > 0 {
            let offset = self.refs[0].cells.len();
            let ghost f = |x: usize| (x + offset) as usize;
            let mut d: usize = 0;
            while d < other_ref_table.save_cols.len()
                invariant
                    self.refs@.len() > 0,
                    offset == self.refs@[0].cells@.len(),
                    forall|k: int| 0 <= k < other_ref_table.save_cols@.len()
                        ==> other_ref_table.save_cols@[k] + offset <= usize::MAX,
                    d <= other_ref_table.save_cols@.len(),
                    f == |x: usize| (x + offset) as usize,
                    new_save_cols@ == self.save_cols@ + other_ref_table.save_cols@.take(d as int).map_values(f),
                decreases other_ref_table.save_cols@.len() - d,
            {
                new_save_cols.push(other_ref_table.save_cols[d] + offset);
                d += 1;
                assert(new_save_cols@ =~= self.save_cols@ + other_ref_table.save_cols@.take(d as int).map_values(f));
            }
            proof {
                assert(other_ref_table.save_cols@.take(d as int) =~= other_ref_table.save_cols@);
                assert(new_save_cols@ == self.save_cols@ + other_ref_table.save_cols@.map_values(f));
                vstd::seq_lib::seq_to_set_distributes_over_add(self.save_cols@, other_ref_table.save_cols@.map_values(f));
                other_ref_table.save_cols@.lemma_to_set_map_commutes(f);
                assert(self.rows()[0].0.len() == offset);
                let g = |x: usize| (x + self.rows()[0].0.len()) as usize;
                assert(other_ref_table.save_cols().map(g) =~= other_ref_table.save_cols@.to_set().map(f)) by {
                    assert forall|x: usize| #[trigger] other_ref_table.save_cols().map(g).contains(x)
                        implies other_ref_table.save_cols@.to_set().map(f).contains(x) by {
                        let y = choose|y: usize| other_ref_table.save_cols().contains(y) && g(y) == x;
                        assert(f(y) == x);
                    }
                    assert forall|x: usize| #[trigger] other_ref_table.save_cols@.to_set().map(f).contains(x)
                        implies other_ref_table.save_cols().map(g).contains(x) by {
                        let y = choose|y: usize| other_ref_table.save_cols@.to_set().contains(y) && f(y) == x;
                        assert(g(y) == x);
                    }
                }
                assert(new_save_cols@.to_set() == self.save_cols().union(shifted(other_ref_table.save_cols(), self.rows()[0].0.len())));
            }
        }
        RefTable::from_table(new_refs, new_ids, new_save_cols)
    }
}

} // verus!
