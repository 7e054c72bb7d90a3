use vstd::prelude::*;
use crate::bytemap::{map_of, lemma_map_of_update, lemma_map_of_absent, lemma_map_of_prefix};

verus! {

pub open spec fn strs_view(v: Seq<String>) -> Seq<Seq<char>> {
    v.map_values(|s: String| s@)
}

pub open spec fn table_view(t: Seq<Vec<String>>) -> Seq<Seq<Seq<char>>> {
    t.map_values(|r: Vec<String>| strs_view(r@))
}

/// A fresh copy of a list of strings.
pub fn copy_strings(v: &Vec<String>) -> (r: Vec<String>)
    ensures
        r@ == v@,
{
    let mut r: Vec<String> = Vec::new();
    let mut i: usize = 0;
    while i < v.len()
        invariant
            i <= v@.len(),
            r@ == v@.take(i as int),
        decreases v@.len() - i,
    {
        r.push(v[i].clone());
        i += 1;
        assert(r@ =~= v@.take(i as int));
    }
    assert(v@.take(i as int) =~= v@);
    r
}

/// Whether `x` is one of `v`.
pub fn contains_string(v: &Vec<String>, x: &String) -> (r: bool)
    ensures
        r == strs_view(v@).contains(x@),
{
    let mut i: usize = 0;
    while i < v.len()
        invariant
            i <= v@.len(),
            forall|j: int| 0 <= j < i ==> v@[j]@ != x@,
        decreases v@.len() - i,
    {
        if v[i] == *x {
            assert(strs_view(v@)[i as int] == x@);
            return true;
        }
        i += 1;
    }
    assert(!strs_view(v@).contains(x@)) by {
        if strs_view(v@).contains(x@) {
            let j = choose|j: int| 0 <= j < strs_view(v@).len() && strs_view(v@)[j] == x@;
            assert(v@[j]@ == x@);
        }
    }
    false
}

/// The last position at which `x` occurs in `s`.
pub open spec fn last_index_of(s: Seq<Seq<char>>, x: Seq<char>) -> Option<int>
    decreases s.len(),
{
    if s.len() == 0 {
        None
    } else if s.last() == x {
        Some(s.len() - 1)
    } else {
        last_index_of(s.drop_last(), x)
    }
}

pub proof fn lemma_last_index_of_bounds(s: Seq<Seq<char>>, x: Seq<char>)
    ensures
        last_index_of(s, x) is Some ==> 0 <= last_index_of(s, x)->Some_0 < s.len()
            && s[last_index_of(s, x)->Some_0] == x,
        last_index_of(s, x) is None ==> !s.contains(x),
    decreases s.len(),
{
    if s.len() > 0 {
        lemma_last_index_of_bounds(s.drop_last(), x);
        if s.last() != x && last_index_of(s.drop_last(), x) is None && s.contains(x) {
            let j = choose|j: int| 0 <= j < s.len() && s[j] == x;
            assert(s.drop_last()[j] == x);
        }
    }
}

/// The position of `x` in `v`, the last one where it occurs more than once.
pub fn find_last(v: &Vec<String>, x: &String) -> (r: Option<usize>)
    ensures
        r is Some <==> last_index_of(strs_view(v@), x@) is Some,
        r is Some ==> r->Some_0 as int == last_index_of(strs_view(v@), x@)->Some_0,
{
    let ghost sv = strs_view(v@);
    assert(sv.take(v@.len() as int) =~= sv);
    let mut i: usize = v.len();
    while i > 0
        invariant
            i <= v@.len(),
            sv == strs_view(v@),
            last_index_of(sv, x@) == last_index_of(sv.take(i as int), x@),
        decreases i,
    {
        assert(sv.take(i as int).drop_last() =~= sv.take(i as int - 1));
        if v[i - 1] == *x {
            return Some(i - 1);
        }
        i -= 1;
    }
    None
}

/// The concatenations of `r1` with each row of `t2` that agrees with it on
/// the join columns.
pub open spec fn join_matches(r1: Seq<Seq<char>>, t2: Seq<Seq<Seq<char>>>, i1: int, i2: int) -> Seq<Seq<Seq<char>>>
    decreases t2.len(),
{
    if t2.len() == 0 {
        Seq::empty()
    } else {
        join_matches(r1, t2.drop_last(), i1, i2) + (
        if t2.last()[i2] == r1[i1] {
            seq![r1 + t2.last()]
        } else {
            Seq::empty()
        })
    }
}

/// The equi-join of two tables on columns `i1` and `i2`, the first table's
/// order outermost.
pub open spec fn join_table(t1: Seq<Seq<Seq<char>>>, t2: Seq<Seq<Seq<char>>>, i1: int, i2: int) -> Seq<Seq<Seq<char>>>
    decreases t1.len(),
{
    if t1.len() == 0 {
        Seq::empty()
    } else {
        join_table(t1.drop_last(), t2, i1, i2) + join_matches(t1.last(), t2, i1, i2)
    }
}

/// The positions of the attributes that are among `cols`, in order.
pub open spec fn kept_positions(ats: Seq<Seq<char>>, cols: Seq<Seq<char>>) -> Seq<int>
    decreases ats.len(),
{
    if ats.len() == 0 {
        Seq::empty()
    } else {
        kept_positions(ats.drop_last(), cols) + (
        if cols.contains(ats.last()) {
            seq![ats.len() - 1]
        } else {
            Seq::empty()
        })
    }
}

pub proof fn lemma_kept_positions_bounds(ats: Seq<Seq<char>>, cols: Seq<Seq<char>>)
    ensures
        forall|k: int| 0 <= k < kept_positions(ats, cols).len()
            ==> 0 <= #[trigger] kept_positions(ats, cols)[k] < ats.len(),
    decreases ats.len(),
{
    if ats.len() > 0 {
        let d = ats.drop_last();
        lemma_kept_positions_bounds(d, cols);
        let kp = kept_positions(ats, cols);
        let kd = kept_positions(d, cols);
        assert forall|k: int| 0 <= k < kp.len() implies 0 <= #[trigger] kp[k] < ats.len() by {
            if k < kd.len() {
                assert(kp[k] == kd[k]);
            }
        }
    }
}

/// The entries of `row` at `positions`, in order.
pub open spec fn pick<A>(row: Seq<A>, positions: Seq<int>) -> Seq<A> {
    positions.map_values(|p: int| row[p])
}

/// A plaintext relation: its attribute names and rows of string cells, the
/// first column being the primary key.
pub struct Relation {
    pub table: Vec<Vec<String>>,
    ats: Vec<String>,
}

impl Relation {
    pub closed spec fn rows(&self) -> Seq<Seq<Seq<char>>> {
        table_view(self.table@)
    }

    pub closed spec fn ats_view(&self) -> Seq<Seq<char>> {
        strs_view(self.ats@)
    }

    /// Every row has one cell per attribute.
    pub closed spec fn wf(&self) -> bool {
        forall|i: int| 0 <= i < self.table@.len() ==> #[trigger] self.table@[i]@.len() == self.ats_view().len()
    }

    pub fn empty_rel() -> (r: Relation)
        ensures
            r.rows().len() == 0,
            r.ats_view().len() == 0,
            r.wf(),
    {
        Relation { table: Vec::new(), ats: Vec::new() }
    }

    pub fn new_rel(ats: Vec<String>) -> (r: Relation)
        ensures
            r.rows().len() == 0,
            r.ats_view() == strs_view(ats@),
            r.wf(),
    {
        Relation { table: Vec::new(), ats }
    }

    /// Adds `row` if it has one cell per attribute; reports whether it did.
    pub fn add_row(&mut self, row: Vec<String>) -> (r: bool)
        requires
            old(self).wf(),
        ensures
            r == (row@.len() == old(self).ats_view().len()),
            final(self).wf(),
            final(self).ats_view() == old(self).ats_view(),
            final(self).rows() == (if r { old(self).rows().push(strs_view(row@)) } else { old(self).rows() }),
    {
        if row.len() == self.ats.len() {
            self.table.push(row);
            assert(self.rows() =~= old(self).rows().push(strs_view(row@)));
            true
        } else {
            false
        }
    }

    pub fn num_rows(&self) -> (r: usize)
        ensures
            r == self.rows().len(),
    {
        self.table.len()
    }

    /// Row `i`.
    pub fn row(&self, i: usize) -> (r: &Vec<String>)
        requires
            i < self.rows().len(),
        ensures
            strs_view(r@) == self.rows()[i as int],
            self.wf() ==> r@.len() == self.ats_view().len(),
    {
        &self.table[i]
    }

    /// Attribute `i`.
    pub fn at(&self, i: usize) -> (r: &String)
        requires
            i < self.ats_view().len(),
        ensures
            r@ == self.ats_view()[i as int],
    {
        &self.ats[i]
    }

    pub fn set_ats(&mut self, ats: Vec<String>)
        ensures
            final(self).ats_view() == strs_view(ats@),
            final(self).rows() == old(self).rows(),
    {
        self.ats = ats;
    }

    pub fn get_ats(&self) -> (r: Vec<String>)
        ensures
            strs_view(r@) == self.ats_view(),
    {
        copy_strings(&self.ats)
    }

    /// The equi-join of this relation with `rel` on `at1 = at2`: its
    /// attributes are both relations' attributes, its rows the
    /// concatenations of the rows that agree on the join attributes; empty
    /// where either attribute is missing.
    pub fn join(&self, rel: &Relation, at1: &String, at2: &String) -> (r: Relation)
        requires
            self.wf(),
            rel.wf(),
        ensures
            r.wf(),
            r.ats_view() == self.ats_view() + rel.ats_view(),
            r.rows() == (match (last_index_of(self.ats_view(), at1@), last_index_of(rel.ats_view(), at2@)) {
                (Some(i1), Some(i2)) => join_table(self.rows(), rel.rows(), i1, i2),
                _ => Seq::empty(),
            }),
    {
        let mut all_ats = copy_strings(&self.ats);
        let mut k: usize = 0;
        while k < rel.ats.len()
            invariant
                k <= rel.ats@.len(),
                all_ats@ == self.ats@ + rel.ats@.take(k as int),
            decreases rel.ats@.len() - k,
        {
            all_ats.push(rel.ats[k].clone());
            k += 1;
            assert(all_ats@ =~= self.ats@ + rel.ats@.take(k as int));
        }
        assert(rel.ats@.take(k as int) =~= rel.ats@);
        assert(strs_view(all_ats@) =~= self.ats_view() + rel.ats_view());
        let mut result = Relation::new_rel(all_ats);
        let i1_opt = find_last(&self.ats, at1);
        let i2_opt = find_last(&rel.ats, at2);
        proof {
            lemma_last_index_of_bounds(self.ats_view(), at1@);
            lemma_last_index_of_bounds(rel.ats_view(), at2@);
        }
        match (i1_opt, i2_opt) {
            (Some(i1), Some(i2)) => {
                let ghost t1 = self.rows();
                let ghost t2 = rel.rows();
                let mut a: usize = 0;
                while a < self.table.len()
                    invariant
                        a <= self.table@.len(),
                        self.wf(),
                        rel.wf(),
                        t1 == self.rows(),
                        t2 == rel.rows(),
                        i1 < self.ats_view().len(),
                        i2 < rel.ats_view().len(),
                        result.wf(),
                        result.ats_view() == self.ats_view() + rel.ats_view(),
                        result.rows() == join_table(t1.take(a as int), t2, i1 as int, i2 as int),
                    decreases self.table@.len() - a,
                {
                    let row1 = &self.table[a];
                    let ghost base = result.rows();
                    assert(row1@.len() == self.ats_view().len());
                    let mut b: usize = 0;
                    while b < rel.table.len()
                        invariant
                            b <= rel.table@.len(),
                            rel.wf(),
                            t2 == rel.rows(),
                            i1 < row1@.len(),
                            i2 < rel.ats_view().len(),
                            row1@.len() == self.ats_view().len(),
                            result.wf(),
                            result.ats_view() == self.ats_view() + rel.ats_view(),
                            result.rows() == base + join_matches(strs_view(row1@), t2.take(b as int), i1 as int, i2 as int),
                        decreases rel.table@.len() - b,
                    {
                        let row2 = &rel.table[b];
                        assert(row2@.len() == rel.ats_view().len());
                        proof {
                            assert(t2.take(b as int + 1).drop_last() =~= t2.take(b as int));
                            assert(t2.take(b as int + 1).last() == strs_view(row2@));
                        }
                        if row2[i2] == row1[i1] {
                            let mut joined = copy_strings(row1);
                            let tail = copy_strings(row2);
                            let mut c: usize = 0;
                            while c < tail.len()
                                invariant
                                    c <= tail@.len(),
                                    joined@ == row1@ + tail@.take(c as int),
                                decreases tail@.len() - c,
                            {
                                joined.push(tail[c].clone());
                                c += 1;
                                assert(joined@ =~= row1@ + tail@.take(c as int));
                            }
                            assert(tail@.take(c as int) =~= tail@);
                            assert(strs_view(joined@) =~= strs_view(row1@) + strs_view(row2@));
                            let added = result.add_row(joined);
                            assert(added);
                            assert(result.rows() =~= base + join_matches(strs_view(row1@), t2.take(b as int + 1), i1 as int, i2 as int));
                        } else {
                            assert(strs_view(row2@)[i2 as int] != strs_view(row1@)[i1 as int]);
                            assert(result.rows() =~= base + join_matches(strs_view(row1@), t2.take(b as int + 1), i1 as int, i2 as int));
                        }
                        b += 1;
                    }
                    proof {
                        assert(t2.take(b as int) =~= t2);
                        assert(t1.take(a as int + 1).drop_last() =~= t1.take(a as int));
                        assert(t1.take(a as int + 1).last() == strs_view(row1@));
                    }
                    a += 1;
                }
                assert(t1.take(a as int) =~= t1);
            },
            _ => {},
        }
        result
    }

    /// Keeps only the columns whose attribute is among `cols`, in their
    /// order.
    pub fn projection(&mut self, cols: &Vec<String>)
        requires
            old(self).wf(),
        ensures
            final(self).wf(),
            final(self).ats_view() == pick(old(self).ats_view(), kept_positions(old(self).ats_view(), strs_view(cols@))),
            final(self).rows().len() == old(self).rows().len(),
            forall|i: int| 0 <= i < old(self).rows().len() ==> #[trigger] final(self).rows()[i]
                == pick(old(self).rows()[i], kept_positions(old(self).ats_view(), strs_view(cols@))),
    {
        let ghost ats = self.ats_view();
        let ghost cv = strs_view(cols@);
        let mut positions: Vec<usize> = Vec::new();
        let mut i: usize = 0;
        while i < self.ats.len()
            invariant
                i <= self.ats@.len(),
                ats == self.ats_view(),
                cv == strs_view(cols@),
                positions@.map_values(|p: usize| p as int) == kept_positions(ats.take(i as int), cv),
            decreases self.ats@.len() - i,
        {
            proof {
                assert(ats.take(i as int + 1).drop_last() =~= ats.take(i as int));
                assert(ats.take(i as int + 1).last() == self.ats@[i as int]@);
            }
            if contains_string(cols, &self.ats[i]) {
                positions.push(i);
            }
            i += 1;
            assert(positions@.map_values(|p: usize| p as int) =~= kept_positions(ats.take(i as int), cv));
        }
        assert(ats.take(i as int) =~= ats);
        let ghost kp = kept_positions(ats, cv);
        proof {
            lemma_kept_positions_bounds(ats, cv);
        }
        assert(forall|k: int| 0 <= k < positions@.len() ==> positions@[k] as int == kp[k]);
        let ghost old_rows = self.rows();
        let mut new_table: Vec<Vec<String>> = Vec::new();
        let mut r: usize = 0;
        while r < self.table.len()
            invariant
                r <= self.table@.len(),
                *self == *old(self),
                self.wf(),
                ats == self.ats_view(),
                old_rows == self.rows(),
                kp == kept_positions(ats, cv),
                positions@.len() == kp.len(),
                forall|k: int| 0 <= k < positions@.len() ==> positions@[k] as int == kp[k],
                forall|k: int| 0 <= k < kp.len() ==> 0 <= #[trigger] kp[k] < ats.len(),
                new_table@.len() == r,
                forall|j: int| 0 <= j < r ==> #[trigger] strs_view(new_table@[j]@) == pick(old_rows[j], kp),
                forall|j: int| 0 <= j < r ==> #[trigger] new_table@[j]@.len() == kp.len(),
            decreases self.table@.len() - r,
        {
            let row = &self.table[r];
            assert(row@.len() == ats.len());
            let mut new_row: Vec<String> = Vec::new();
            let mut k: usize = 0;
            while k < positions.len()
                invariant
                    k <= positions@.len(),
                    row@.len() == ats.len(),
                    positions@.len() == kp.len(),
                    forall|q: int| 0 <= q < positions@.len() ==> positions@[q] as int == kp[q],
                    forall|q: int| 0 <= q < kp.len() ==> 0 <= #[trigger] kp[q] < ats.len(),
                    strs_view(new_row@) == pick(strs_view(row@), kp.take(k as int)),
                    new_row@.len() == k,
                decreases positions@.len() - k,
            {
                let p = positions[k];
                assert(kp[k as int] == p as int);
                new_row.push(row[p].clone());
                proof {
                    assert(pick(strs_view(row@), kp.take(k as int + 1))[k as int] == strs_view(row@)[p as int]);
                    assert(strs_view(new_row@)[k as int] == row@[p as int]@);
                    assert forall|q: int| 0 <= q < k implies strs_view(new_row@)[q] == pick(strs_view(row@), kp.take(k as int + 1))[q] by {
                        assert(strs_view(new_row@)[q] == pick(strs_view(row@), kp.take(k as int))[q]);
                    }
                }
                k += 1;
                assert(strs_view(new_row@) =~= pick(strs_view(row@), kp.take(k as int)));
            }
            assert(kp.take(k as int) =~= kp);
            assert(strs_view(row@) == old_rows[r as int]);
            new_table.push(new_row);
            r += 1;
        }
        let mut new_ats: Vec<String> = Vec::new();
        let mut k: usize = 0;
        while k < positions.len()
            invariant
                k <= positions@.len(),
                ats == self.ats_view(),
                positions@.len() == kp.len(),
                forall|q: int| 0 <= q < positions@.len() ==> positions@[q] as int == kp[q],
                forall|q: int| 0 <= q < kp.len() ==> 0 <= #[trigger] kp[q] < ats.len(),
                strs_view(new_ats@) == pick(ats, kp.take(k as int)),
                new_ats@.len() == k,
            decreases positions@.len() - k,
        {
            let p = positions[k];
            assert(kp[k as int] == p as int);
            new_ats.push(self.ats[p].clone());
            proof {
                assert(pick(ats, kp.take(k as int + 1))[k as int] == ats[p as int]);
                assert(strs_view(new_ats@)[k as int] == self.ats@[p as int]@);
                assert forall|q: int| 0 <= q < k implies strs_view(new_ats@)[q] == pick(ats, kp.take(k as int + 1))[q] by {
                    assert(strs_view(new_ats@)[q] == pick(ats, kp.take(k as int))[q]);
                }
            }
            k += 1;
            assert(strs_view(new_ats@) =~= pick(ats, kp.take(k as int)));
        }
        assert(kp.take(k as int) =~= kp);
        self.table = new_table;
        self.ats = new_ats;
        assert forall|j: int| 0 <= j < self.table@.len() implies #[trigger] self.table@[j]@.len() == self.ats_view().len() by {
            assert(strs_view(self.table@[j]@).len() == kp.len());
        }
        assert forall|j: int| 0 <= j < old_rows.len() implies #[trigger] self.rows()[j] == pick(old_rows[j], kp) by {
            assert(self.rows()[j] == strs_view(self.table@[j]@));
        }
    }
}

pub open spec fn rel_entry_view(e: (String, Relation)) -> (Seq<char>, Relation) {
    (e.0@, e.1)
}

pub open spec fn pair_view(p: (String, String)) -> (Seq<char>, Seq<char>) {
    (p.0@, p.1@)
}

/// The id of the last relation, in order, that has attribute `at`.
pub open spec fn last_rel_with(rels: Seq<(Seq<char>, Relation)>, at: Seq<char>) -> Option<Seq<char>>
    decreases rels.len(),
{
    if rels.len() == 0 {
        None
    } else if rels.last().1.ats_view().contains(at) {
        Some(rels.last().0)
    } else {
        last_rel_with(rels.drop_last(), at)
    }
}

/// Every attribute of every relation, relation after relation.
pub open spec fn all_ats(rels: Seq<(Seq<char>, Relation)>) -> Seq<Seq<char>>
    decreases rels.len(),
{
    if rels.len() == 0 {
        Seq::empty()
    } else {
        all_ats(rels.drop_last()) + rels.last().1.ats_view()
    }
}

/// A plaintext database: relations by id, in the order they were added, and
/// the attribute pairs declared joinable.
pub struct DB {
    rels: Vec<(String, Relation)>,
    pub annotations: Vec<(String, String)>,
}

impl DB {
    /// The relations with their ids, in order.
    pub closed spec fn entries(&self) -> Seq<(Seq<char>, Relation)> {
        self.rels@.map_values(|e: (String, Relation)| rel_entry_view(e))
    }

    /// No id occurs twice.
    pub closed spec fn wf(&self) -> bool {
        forall|a: int, b: int| 0 <= a < self.rels@.len() && 0 <= b < self.rels@.len() && a != b
            ==> self.rels@[a].0@ != self.rels@[b].0@
    }

    pub open spec fn rel_map(&self) -> Map<Seq<char>, Relation> {
        map_of(self.entries())
    }

    pub closed spec fn annotation_set(&self) -> Set<(Seq<char>, Seq<char>)> {
        self.annotations@.map_values(|p: (String, String)| pair_view(p)).to_set()
    }

    pub fn new_db() -> (r: DB)
        ensures
            r.wf(),
            r.entries().len() == 0,
            r.annotation_set() == Set::<(Seq<char>, Seq<char>)>::empty(),
    {
        let r = DB { rels: Vec::new(), annotations: Vec::new() };
        assert(r.annotation_set() =~= Set::<(Seq<char>, Seq<char>)>::empty());
        r
    }

    pub fn get_rels(&self) -> (r: &Vec<(String, Relation)>)
        ensures
            r@.map_values(|e: (String, Relation)| rel_entry_view(e)) == self.entries(),
    {
        &self.rels
    }

    fn find_rel(&self, id: &String) -> (r: Option<usize>)
        ensures
            r is Some <==> self.rel_map().contains_key(id@),
            r is Some ==> r->Some_0 < self.rels@.len() && self.rels@[r->Some_0 as int].0@ == id@
                && self.rels@[r->Some_0 as int].1 == self.rel_map()[id@],
    {
        let ghost s = self.entries();
        let mut i: usize = self.rels.len();
        while i > 0
            invariant
                i <= self.rels@.len(),
                s == self.entries(),
                forall|j: int| i <= j < s.len() ==> s[j].0 != id@,
            decreases i,
        {
            if self.rels[i - 1].0 == *id {
                proof {
                    lemma_map_of_prefix(s, i as int, id@);
                    assert(s.take(i as int).drop_last() =~= s.take(i - 1));
                }
                return Some(i - 1);
            }
            i -= 1;
        }
        proof {
            lemma_map_of_absent(s, id@);
        }
        None
    }

    pub fn get_rel(&self, id: &String) -> (r: Option<&Relation>)
        ensures
            r is Some <==> self.rel_map().contains_key(id@),
            r is Some ==> *r->Some_0 == self.rel_map()[id@],
    {
        match self.find_rel(id) {
            Some(i) => Some(&self.rels[i].1),
            None => None,
        }
    }

    pub fn get_rel_mut(&mut self, id: &String) -> (r: Option<&mut Relation>)
        ensures
            r is Some <==> old(self).rel_map().contains_key(id@),
            r is Some ==> *r->Some_0 == old(self).rel_map()[id@],
    {
        match self.find_rel(id) {
            Some(i) => Some(&mut self.rels[i].1),
            None => None,
        }
    }

    /// The relation ids, in order.
    pub fn ids(&self) -> (r: Vec<String>)
        ensures
            strs_view(r@) == self.entries().map_values(|e: (Seq<char>, Relation)| e.0),
    {
        let mut r: Vec<String> = Vec::new();
        let mut i: usize = 0;
        while i < self.rels.len()
            invariant
                i <= self.rels@.len(),
                r@.len() == i,
                forall|j: int| 0 <= j < i ==> #[trigger] r@[j]@ == self.rels@[j].0@,
            decreases self.rels@.len() - i,
        {
            r.push(self.rels[i].0.clone());
            i += 1;
        }
        assert(strs_view(r@) =~= self.entries().map_values(|e: (Seq<char>, Relation)| e.0));
        r
    }

    /// Adds relation `rel` under `id`, replacing one already there.
    pub fn add_rel(&mut self, id: &String, rel: Relation)
        requires
            old(self).wf(),
        ensures
            final(self).wf(),
            final(self).rel_map() == old(self).rel_map().insert(id@, rel),
            final(self).annotation_set() == old(self).annotation_set(),
    {
        let ghost s = self.entries();
        proof {
            assert forall|a: int, b: int| 0 <= a < s.len() && 0 <= b < s.len() && a != b implies s[a].0 != s[b].0 by {
                assert(s[a].0 == self.rels@[a].0@);
                assert(s[b].0 == self.rels@[b].0@);
            }
        }
        match self.find_rel(id) {
            Some(i) => {
                let ghost old_rels = self.rels@;
                let entry = self.rels.remove(i);
                let ghost e0 = entry.0;
                self.rels.insert(i, (entry.0, rel));
                proof {
                    assert(self.rels@ =~= old_rels.update(i as int, (e0, rel)));
                    assert(self.entries() =~= s.update(i as int, (s[i as int].0, rel)));
                    lemma_map_of_update(s, i as int, rel);
                    assert forall|a: int| 0 <= a < self.rels@.len() implies #[trigger] self.rels@[a].0@ == old_rels[a].0@ by {}
                }
            },
            None => {
                self.rels.push((id.clone(), rel));
                proof {
                    assert(self.entries().drop_last() =~= s);
                    assert forall|a: int| 0 <= a < s.len() implies #[trigger] self.rels@[a].0@ != id@ by {
                        assert(self.rels@[a].0@ == s[a].0);
                        if s[a].0 == id@ {
                            lemma_map_of_prefix(s, a + 1, id@);
                            let t = s.take(a + 1);
                            assert(t.last().0 == id@);
                        }
                    }
                }
            },
        }
    }

    /// The declared pairs, in the order they were declared.
    pub closed spec fn annotation_seq(&self) -> Seq<(Seq<char>, Seq<char>)> {
        self.annotations@.map_values(|p: (String, String)| pair_view(p))
    }

    pub proof fn lemma_annotation_set(&self)
        ensures
            self.annotation_set() == self.annotation_seq().to_set(),
    {
    }

    pub fn num_annotations(&self) -> (r: usize)
        ensures
            r == self.annotation_seq().len(),
    {
        self.annotations.len()
    }

    /// Annotation `i`.
    pub fn annotation(&self, i: usize) -> (r: (&String, &String))
        requires
            i < self.annotation_seq().len(),
        ensures
            (r.0@, r.1@) == self.annotation_seq()[i as int],
    {
        (&self.annotations[i].0, &self.annotations[i].1)
    }

    /// Declares the attribute pair `(attrib1, attrib2)` joinable.
    pub fn add_annotation(&mut self, attrib1: &String, attrib2: &String)
        ensures
            final(self).annotation_set() == old(self).annotation_set().insert((attrib1@, attrib2@)),
            final(self).annotation_seq() == (if old(self).annotation_set().contains((attrib1@, attrib2@)) {
                old(self).annotation_seq()
            } else {
                old(self).annotation_seq().push((attrib1@, attrib2@))
            }),
            final(self).entries() == old(self).entries(),
            final(self).wf() == old(self).wf(),
    {
        let ghost f = |p: (String, String)| pair_view(p);
        let mut i: usize = 0;
        while i < self.annotations.len()
            invariant
                i <= self.annotations@.len(),
                *self == *old(self),
                f == |p: (String, String)| pair_view(p),
                forall|k: int| 0 <= k < i ==> pair_view(#[trigger] self.annotations@[k]) != (attrib1@, attrib2@),
            decreases self.annotations@.len() - i,
        {
            if self.annotations[i].0 == *attrib1 && self.annotations[i].1 == *attrib2 {
                assert(self.annotations@.map_values(f)[i as int] == (attrib1@, attrib2@));
                assert(self.annotation_set() =~= old(self).annotation_set().insert((attrib1@, attrib2@)));
                return;
            }
            i += 1;
        }
        assert(!old(self).annotation_set().contains((attrib1@, attrib2@))) by {
            let w = old(self).annotations@.map_values(f);
            if w.contains((attrib1@, attrib2@)) {
                let k = choose|k: int| 0 <= k < w.len() && w[k] == (attrib1@, attrib2@);
                assert(pair_view(old(self).annotations@[k]) == (attrib1@, attrib2@));
            }
        }
        self.annotations.push((attrib1.clone(), attrib2.clone()));
        proof {
            assert(self.annotations@.map_values(f) =~= old(self).annotations@.map_values(f).push((attrib1@, attrib2@)));
            old(self).annotations@.map_values(f).lemma_push_to_set_commute((attrib1@, attrib2@));
        }
    }

    /// The id of the last relation, in order, that has attribute `at_target`.
    pub fn get_id_from_at(&self, at_target: &String) -> (r: Option<String>)
        ensures
            r is Some <==> last_rel_with(self.entries(), at_target@) is Some,
            r is Some ==> r->Some_0@ == last_rel_with(self.entries(), at_target@)->Some_0,
    {
        let ghost s = self.entries();
        assert(s.take(self.rels@.len() as int) =~= s);
        let mut i: usize = self.rels.len();
        while i > 0
            invariant
                i <= self.rels@.len(),
                s == self.entries(),
                last_rel_with(s, at_target@) == last_rel_with(s.take(i as int), at_target@),
            decreases i,
        {
            assert(s.take(i as int).drop_last() =~= s.take(i - 1));
            let ats = self.rels[i - 1].1.get_ats();
            assert(s.take(i as int).last() == s[i - 1]);
            if contains_string(&ats, at_target) {
                return Some(self.rels[i - 1].0.clone());
            }
            i -= 1;
        }
        assert(s.take(0) =~= Seq::<(Seq<char>, Relation)>::empty());
        None
    }

    /// Each relation id with its attributes, in order.
    pub fn get_schema(&self) -> (r: Vec<(String, Vec<String>)>)
        ensures
            r@.len() == self.entries().len(),
            forall|j: int| 0 <= j < r@.len() ==> (#[trigger] r@[j]).0@ == self.entries()[j].0
                && strs_view(r@[j].1@) == self.entries()[j].1.ats_view(),
    {
        let mut r: Vec<(String, Vec<String>)> = Vec::new();
        let mut i: usize = 0;
        while i < self.rels.len()
            invariant
                i <= self.rels@.len(),
                r@.len() == i,
                forall|j: int| 0 <= j < i ==> (#[trigger] r@[j]).0@ == self.entries()[j].0
                    && strs_view(r@[j].1@) == self.entries()[j].1.ats_view(),
            decreases self.rels@.len() - i,
        {
            r.push((self.rels[i].0.clone(), self.rels[i].1.get_ats()));
            i += 1;
        }
        r
    }

    /// Every attribute of every relation, relation after relation.
    pub fn get_all_ats(&self) -> (r: Vec<String>)
        ensures
            strs_view(r@) == all_ats(self.entries()),
    {
        let ghost s = self.entries();
        let mut r: Vec<String> = Vec::new();
        let mut i: usize = 0;
        while i < self.rels.len()
            invariant
                i <= self.rels@.len(),
                s == self.entries(),
                strs_view(r@) == all_ats(s.take(i as int)),
            decreases self.rels@.len() - i,
        {
            let ats = self.rels[i].1.get_ats();
            let ghost before = r@;
            let mut k: usize = 0;
            while k < ats.len()
                invariant
                    k <= ats@.len(),
                    r@ == before + ats@.take(k as int),
                decreases ats@.len() - k,
            {
                r.push(ats[k].clone());
                k += 1;
                assert(r@ =~= before + ats@.take(k as int));
            }
            proof {
                assert(ats@.take(k as int) =~= ats@);
                assert(s.take(i as int + 1).drop_last() =~= s.take(i as int));
                assert(strs_view(r@) =~= strs_view(before) + strs_view(ats@));
            }
            i += 1;
        }
        assert(s.take(i as int) =~= s);
        r
    }
}

} // verus!
