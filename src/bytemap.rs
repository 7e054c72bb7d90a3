use vstd::prelude::*;
use std::collections::HashMap;

verus! {

/// Whether two byte strings are equal.
pub fn bytes_eq(a: &[u8], b: &[u8]) -> (r: bool)
    ensures
        r == (a@ == b@),
{
    if a.len() != b.len() {
        return false;
    }
    let mut i: usize = 0;
    while i < a.len()
        invariant
            a@.len() == b@.len(),
            i <= a@.len(),
            forall|j: int| 0 <= j < i ==> a@[j] == b@[j],
        decreases a@.len() - i,
    {
        if a[i] != b[i] {
            return false;
        }
        i += 1;
    }
    assert(a@ =~= b@);
    true
}

/// A fresh vector holding the bytes of `s`.
pub fn bytes_to_vec(s: &[u8]) -> (r: Vec<u8>)
    ensures
        r@ == s@,
{
    let mut r: Vec<u8> = Vec::new();
    let mut i: usize = 0;
    while i < s.len()
        invariant
            i <= s@.len(),
            r@ == s@.take(i as int),
        decreases s@.len() - i,
    {
        r.push(s[i]);
        i += 1;
        assert(r@ =~= s@.take(i as int));
    }
    assert(s@.take(i as int) =~= s@);
    r
}

/// The map that a sequence of insertions builds, a later entry overriding an
/// earlier one with the same key.
pub open spec fn map_of<K, V>(s: Seq<(K, V)>) -> Map<K, V>
    decreases s.len(),
{
    if s.len() == 0 {
        Map::empty()
    } else {
        map_of(s.drop_last()).insert(s.last().0, s.last().1)
    }
}

pub open spec fn entry_view(e: (Vec<u8>, Vec<u8>)) -> (Seq<u8>, Seq<u8>) {
    (e.0@, e.1@)
}

/// The bucket of a key: its first eight bytes as a little-endian number, or
/// its length for a shorter key.
pub open spec fn key_bucket(k: Seq<u8>) -> u64 {
    if k.len() >= 8 {
        (k[0] as u64) | ((k[1] as u64) << 8u64) | ((k[2] as u64) << 16u64) | ((k[3] as u64) << 24u64)
            | ((k[4] as u64) << 32u64) | ((k[5] as u64) << 40u64) | ((k[6] as u64) << 48u64)
            | ((k[7] as u64) << 56u64)
    } else {
        k.len() as u64
    }
}

fn bucket(k: &[u8]) -> (r: u64)
    ensures
        r == key_bucket(k@),
{
    if k.len() >= 8 {
        (k[0] as u64) | ((k[1] as u64) << 8u64) | ((k[2] as u64) << 16u64) | ((k[3] as u64) << 24u64)
            | ((k[4] as u64) << 32u64) | ((k[5] as u64) << 40u64) | ((k[6] as u64) << 48u64)
            | ((k[7] as u64) << 56u64)
    } else {
        k.len() as u64
    }
}

/// A map from byte strings to byte strings, kept as the sequence of its
/// insertions, with an index from each key bucket to the positions of the
/// insertions whose key falls in it.
pub struct ByteMap {
    entries: Vec<(Vec<u8>, Vec<u8>)>,
    index: HashMap<u64, Vec<usize>>,
}

/// Entries after position `i` that do not hold `k` leave its value as the
/// first `i` entries set it.
pub proof fn lemma_map_of_prefix<K, V>(s: Seq<(K, V)>, i: int, k: K)
    requires
        0 <= i <= s.len(),
        forall|j: int| i <= j < s.len() ==> s[j].0 != k,
    ensures
        map_of(s).contains_key(k) == map_of(s.take(i)).contains_key(k),
        map_of(s).contains_key(k) ==> map_of(s)[k] == map_of(s.take(i))[k],
    decreases s.len(),
{
    if i == s.len() {
        assert(s.take(i) =~= s);
    } else {
        let d = s.drop_last();
        assert(d.take(i) =~= s.take(i));
        lemma_map_of_prefix(d, i, k);
    }
}

/// Replacing the value of a key that occurs once replaces it in the map.
pub proof fn lemma_map_of_update<K, V>(s: Seq<(K, V)>, i: int, v: V)
    requires
        0 <= i < s.len(),
        forall|a: int, b: int| 0 <= a < s.len() && 0 <= b < s.len() && a != b ==> s[a].0 != s[b].0,
    ensures
        map_of(s.update(i, (s[i].0, v))) == map_of(s).insert(s[i].0, v),
    decreases s.len(),
{
    let k = s[i].0;
    let u = s.update(i, (k, v));
    if i == s.len() - 1 {
        assert(u.drop_last() =~= s.drop_last());
        assert(map_of(u) =~= map_of(s).insert(k, v));
    } else {
        let d = s.drop_last();
        assert(u.drop_last() =~= d.update(i, (k, v)));
        lemma_map_of_update(d, i, v);
        assert(s.last().0 != k);
        assert(map_of(u) =~= map_of(s).insert(k, v));
    }
}

/// Every key of the map comes with its value from some entry.
pub proof fn lemma_map_of_entry<K, V>(s: Seq<(K, V)>, k: K)
    requires
        map_of(s).contains_key(k),
    ensures
        exists|j: int| 0 <= j < s.len() && s[j] == (k, map_of(s)[k]),
    decreases s.len(),
{
    if s.last().0 == k {
        assert(s[s.len() - 1] == (k, map_of(s)[k]));
    } else {
        lemma_map_of_entry(s.drop_last(), k);
        let j = choose|j: int| 0 <= j < s.len() - 1 && s.drop_last()[j] == (k, map_of(s.drop_last())[k]);
        assert(s[j] == (k, map_of(s)[k]));
    }
}

/// A key that no entry holds is not in the map.
pub proof fn lemma_map_of_absent<K, V>(s: Seq<(K, V)>, k: K)
    requires
        forall|j: int| 0 <= j < s.len() ==> s[j].0 != k,
    ensures
        !map_of(s).contains_key(k),
    decreases s.len(),
{
    if s.len() > 0 {
        lemma_map_of_absent(s.drop_last(), k);
    }
}

impl ByteMap {
    /// Each bucket lists, in increasing order, positions of insertions whose
    /// key falls in it, and every insertion is listed under its bucket.
    #[verifier::type_invariant]
    closed spec fn index_ok(&self) -> bool {
        &&& forall|b: u64, t: int| #[trigger] self.index@.contains_key(b) && 0 <= t < self.index@[b]@.len()
            ==> (#[trigger] self.index@[b]@[t]) < self.entries@.len()
                && key_bucket(self.entries@[self.index@[b]@[t] as int].0@) == b
        &&& forall|b: u64, t: int, u: int| #[trigger] self.index@.contains_key(b) && 0 <= t < u < self.index@[b]@.len()
            ==> #[trigger] self.index@[b]@[t] < #[trigger] self.index@[b]@[u]
        &&& forall|j: int| 0 <= j < self.entries@.len()
            ==> self.index@.contains_key(#[trigger] key_bucket(self.entries@[j].0@))
                && self.index@[key_bucket(self.entries@[j].0@)]@.contains(j as usize)
    }

    /// The insertions in order.
    pub closed spec fn entries(&self) -> Seq<(Seq<u8>, Seq<u8>)> {
        self.entries@.map_values(|e: (Vec<u8>, Vec<u8>)| entry_view(e))
    }

    pub open spec fn view(&self) -> Map<Seq<u8>, Seq<u8>> {
        map_of(self.entries())
    }

    pub fn new() -> (r: ByteMap)
        ensures
            r.entries() == Seq::<(Seq<u8>, Seq<u8>)>::empty(),
            r.view() == Map::<Seq<u8>, Seq<u8>>::empty(),
    {
        let r = ByteMap { entries: Vec::new(), index: HashMap::new() };
        assert(r.entries() =~= Seq::<(Seq<u8>, Seq<u8>)>::empty());
        r
    }

    /// A map built by inserting `pairs` in order.
    pub fn from_pairs(pairs: Vec<(Vec<u8>, Vec<u8>)>) -> (r: ByteMap)
        ensures
            r.entries() == pairs@.map_values(|e: (Vec<u8>, Vec<u8>)| entry_view(e)),
    {
        let mut r = ByteMap::new();
        let mut i: usize = 0;
        while i < pairs.len()
            invariant
                i <= pairs@.len(),
                r.entries() == pairs@.take(i as int).map_values(|e: (Vec<u8>, Vec<u8>)| entry_view(e)),
            decreases pairs@.len() - i,
        {
            r.insert(bytes_to_vec(pairs[i].0.as_slice()), bytes_to_vec(pairs[i].1.as_slice()));
            i += 1;
            assert(r.entries() =~= pairs@.take(i as int).map_values(|e: (Vec<u8>, Vec<u8>)| entry_view(e)));
        }
        assert(pairs@.take(i as int) =~= pairs@);
        r
    }

    /// The insertions made, in order.
    pub fn to_pairs(&self) -> (r: Vec<(Vec<u8>, Vec<u8>)>)
        ensures
            r@.map_values(|e: (Vec<u8>, Vec<u8>)| entry_view(e)) == self.entries(),
    {
        let mut r: Vec<(Vec<u8>, Vec<u8>)> = Vec::new();
        let mut i: usize = 0;
        while i < self.entries.len()
            invariant
                i <= self.entries@.len(),
                r@.len() == i,
                forall|k: int| 0 <= k < i ==> entry_view(#[trigger] r@[k]) == entry_view(self.entries@[k]),
            decreases self.entries@.len() - i,
        {
            r.push((bytes_to_vec(self.entries[i].0.as_slice()), bytes_to_vec(self.entries[i].1.as_slice())));
            i += 1;
        }
        assert(r@.map_values(|e: (Vec<u8>, Vec<u8>)| entry_view(e)) =~= self.entries());
        r
    }

    /// The number of insertions made.
    pub fn num_entries(&self) -> (r: usize)
        ensures
            r == self.entries().len(),
    {
        self.entries.len()
    }

    pub fn insert(&mut self, k: Vec<u8>, v: Vec<u8>)
        ensures
            final(self).entries() == old(self).entries().push((k@, v@)),
            final(self).view() == old(self).view().insert(k@, v@),
    {
        let mut taken = ByteMap::new();
        core::mem::swap(self, &mut taken);
        proof { use_type_invariant(&taken); }
        let ghost old_view = taken;
        let ByteMap { entries: mut entries, index: mut index } = taken;
        let n = entries.len();
        let b = bucket(k.as_slice());
        let ghost old_index = index@;
        let ghost old_entries = entries@;
        let mut list = match index.remove(&b) {
            Some(l) => l,
            None => Vec::new(),
        };
        let ghost old_list = list@;
        assert(old_index.contains_key(b) ==> old_list == old_index[b]@);
        assert(!old_index.contains_key(b) ==> old_list.len() == 0);
        list.push(n);
        entries.push((k, v));
        index.insert(b, list);
        proof {
            assert(index@ == old_index.insert(b, list));
            assert(entries@ == old_entries.push(entries@[n as int]));
            assert(key_bucket(entries@[n as int].0@) == b);
            assert forall|b2: u64, t: int| #[trigger] index@.contains_key(b2) && 0 <= t < index@[b2]@.len()
                implies (#[trigger] index@[b2]@[t]) < entries@.len()
                    && key_bucket(entries@[index@[b2]@[t] as int].0@) == b2 by {
                if b2 == b && t < old_list.len() {
                    assert(old_index.contains_key(b));
                    assert(index@[b2]@[t] == old_index[b]@[t]);
                }
            }
            assert forall|b2: u64, t: int, u: int| #[trigger] index@.contains_key(b2) && 0 <= t < u < index@[b2]@.len()
                implies #[trigger] index@[b2]@[t] < #[trigger] index@[b2]@[u] by {
                if b2 == b {
                    if u < old_list.len() {
                        assert(old_index.contains_key(b));
                        assert(old_index[b]@[t] < old_index[b]@[u]);
                    } else {
                        assert(old_index.contains_key(b));
                        assert(old_index[b]@[t] < n);
                    }
                }
            }
            assert forall|j: int| 0 <= j < entries@.len()
                implies index@.contains_key(#[trigger] key_bucket(entries@[j].0@))
                    && index@[key_bucket(entries@[j].0@)]@.contains(j as usize) by {
                if j < n {
                    assert(entries@[j] == old_entries[j]);
                    assert(old_index.contains_key(key_bucket(old_entries[j].0@)));
                    let bj = key_bucket(old_entries[j].0@);
                    let q = choose|q: int| 0 <= q < old_index[bj]@.len() && old_index[bj]@[q] == j as usize;
                    if bj == b {
                        assert(index@[bj]@[q] == j as usize);
                    }
                } else {
                    assert(index@[b]@[old_list.len() as int] == n);
                }
            }
        }
        let r = ByteMap { entries, index };
        assert(r.entries().drop_last() =~= old_view.entries());
        *self = r;
    }

    pub fn get(&self, k: &[u8]) -> (r: Option<&Vec<u8>>)
        ensures
            r is Some <==> self.view().contains_key(k@),
            r is Some ==> r->Some_0@ == self.view()[k@],
    {
        proof { use_type_invariant(self); }
        let ghost s = self.entries();
        let n = self.entries.len();
        assert(s.len() == n);
        let b = bucket(k);
        let list = match self.index.get(&b) {
            Some(l) => l,
            None => {
                proof {
                    assert forall|j: int| 0 <= j < s.len() implies s[j].0 != k@ by {
                        if s[j].0 == k@ {
                            assert(self.entries@[j].0@ == k@);
                            assert(self.index@.contains_key(key_bucket(self.entries@[j].0@)));
                        }
                    }
                    lemma_map_of_absent(s, k@);
                }
                return None;
            },
        };
        let ghost l = list@;
        assert(self.index@.contains_key(b) && l == self.index@[b]@);
        let mut t: usize = list.len();
        while t > 0
            invariant
                t <= l.len(),
                l == list@,
                s == self.entries(),
                self.index@.contains_key(b),
                l == self.index@[b]@,
                b == key_bucket(k@),
                s.len() == n,
                forall|u: int| t <= u < l.len() ==> s[l[u] as int].0 != k@,
            decreases t,
        {
            proof { use_type_invariant(self); }
            let p = list[t - 1];
            assert(p < self.entries@.len());
            if bytes_eq(self.entries[p].0.as_slice(), k) {
                proof {
                    assert forall|j: int| p < j < s.len() implies s[j].0 != k@ by {
                        if s[j].0 == k@ {
                            assert(self.entries@[j].0@ == k@);
                            assert(key_bucket(self.entries@[j].0@) == b);
                            assert(l.contains(j as usize));
                            let u = choose|u: int| 0 <= u < l.len() && l[u] == j as usize;
                            if u < t - 1 {
                                assert(l[u] < l[t - 1]);
                            } else if u >= t {
                                assert(s[l[u] as int].0 != k@);
                            }
                        }
                    }
                    lemma_map_of_prefix(s, p + 1, k@);
                    assert(s.take(p + 1).drop_last() =~= s.take(p as int));
                }
                return Some(&self.entries[p].1);
            }
            t -= 1;
        }
        proof {
            use_type_invariant(self);
            assert forall|j: int| 0 <= j < s.len() implies s[j].0 != k@ by {
                if s[j].0 == k@ {
                    assert(self.entries@[j].0@ == k@);
                    assert(key_bucket(self.entries@[j].0@) == b);
                    assert(l.contains(j as usize));
                    let u = choose|u: int| 0 <= u < l.len() && l[u] == j as usize;
                    assert(s[l[u] as int].0 != k@);
                }
            }
            lemma_map_of_absent(s, k@);
        }
        None
    }
}

} // verus!
