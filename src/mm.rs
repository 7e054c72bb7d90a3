use vstd::prelude::*;
use crate::bytemap::{bytes_eq, map_of, lemma_map_of_update, lemma_map_of_absent};

verus! {

pub open spec fn mm_entry_view(e: (Vec<u8>, Vec<Vec<u8>>)) -> (Seq<u8>, Seq<Seq<u8>>) {
    (e.0@, e.1@.map_values(|v: Vec<u8>| v@))
}

/// A plaintext multi-map: each keyword with the ordered list of values added
/// under it, keywords in the order they were first added.
pub struct MM {
    pub data: Vec<(Vec<u8>, Vec<Vec<u8>>)>,
}

impl MM {
    /// The keywords with their values, in order.
    pub open spec fn entries(&self) -> Seq<(Seq<u8>, Seq<Seq<u8>>)> {
        self.data@.map_values(|e: (Vec<u8>, Vec<Vec<u8>>)| mm_entry_view(e))
    }

    /// No keyword occurs twice.
    pub open spec fn wf(&self) -> bool {
        forall|a: int, b: int|
            0 <= a < self.data@.len() && 0 <= b < self.data@.len() && a != b
                ==> self.data@[a].0@ != self.data@[b].0@
    }

    pub open spec fn view(&self) -> Map<Seq<u8>, Seq<Seq<u8>>> {
        map_of(self.entries())
    }

    /// The values added under `keyword`, in order; empty for an unknown keyword.
    pub open spec fn values_of(&self, keyword: Seq<u8>) -> Seq<Seq<u8>> {
        if self.view().contains_key(keyword) {
            self.view()[keyword]
        } else {
            Seq::empty()
        }
    }

    pub fn new_mm() -> (r: MM)
        ensures
            r.wf(),
            r.entries().len() == 0,
            r.view() == Map::<Seq<u8>, Seq<Seq<u8>>>::empty(),
    {
        let r = MM { data: Vec::new() };
        assert(r.entries() =~= Seq::<(Seq<u8>, Seq<Seq<u8>>)>::empty());
        r
    }

    /// Appends `identifier` to the list of `keyword`.
    pub fn add_mm(&mut self, identifier: Vec<u8>, keyword: Vec<u8>)
        requires
            old(self).wf(),
        ensures
            final(self).wf(),
            final(self).view() == old(self).view().insert(
                keyword@,
                old(self).values_of(keyword@).push(identifier@),
            ),
    {
        let ghost s = self.entries();
        let mut i: usize = 0;
        while i < self.data.len()
            invariant
                i <= self.data@.len(),
                s == self.entries(),
                self == old(self),
                self.wf(),
                forall|j: int| 0 <= j < i ==> self.data@[j].0@ != keyword@,
            decreases self.data@.len() - i,
        {
            if bytes_eq(self.data[i].0.as_slice(), keyword.as_slice()) {
                proof {
                    assert forall|a: int, b: int|
                        0 <= a < s.len() && 0 <= b < s.len() && a != b implies s[a].0 != s[b].0 by {
                        assert(s[a].0 == self.data@[a].0@);
                        assert(s[b].0 == self.data@[b].0@);
                    }
                    lemma_map_of_update(s, i as int, s[i as int].1);
                    assert(s.update(i as int, (s[i as int].0, s[i as int].1)) =~= s);
                    assert(old(self).view().contains_key(keyword@));
                    assert(old(self).view()[keyword@] == s[i as int].1);
                }
                let ghost old_data = self.data@;
                let mut entry = self.data.remove(i);
                entry.1.push(identifier);
                let ghost new_entry = entry;
                self.data.insert(i, entry);
                proof {
                    assert(self.data@ =~= old_data.update(i as int, new_entry));
                    assert(new_entry.1@.map_values(|v: Vec<u8>| v@)
                        =~= s[i as int].1.push(identifier@));
                    let ns = self.entries();
                    assert(ns =~= s.update(i as int, (keyword@, s[i as int].1.push(identifier@))));
                    lemma_map_of_update(s, i as int, s[i as int].1.push(identifier@));
                    assert(new_entry.0@ == old_data[i as int].0@);
                    assert forall|a: int| 0 <= a < self.data@.len() implies
                        #[trigger] self.data@[a].0@ == old_data[a].0@ by {}
                }
                return;
            }
            i += 1;
        }
        proof {
            lemma_map_of_absent(s, keyword@);
        }
        let mut vals = Vec::new();
        vals.push(identifier);
        self.data.push((keyword, vals));
        proof {
            let ns = self.entries();
            assert(ns.drop_last() =~= s);
            assert(ns.last().1 =~= Seq::<Seq<u8>>::empty().push(identifier@));
        }
    }
}

} // verus!
