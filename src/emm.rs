use vstd::prelude::*;
use crate::bytemap::{ByteMap, map_of, bytes_to_vec};
use crate::crypto_helper::{
    prf, prf_spec, fixed_encrypt, fixed_decrypt, aes_cbc_encrypt_of, aes_cbc_decrypt_of,
    chacha20_key_of, CipherError, KeySeq,
};
use crate::encoding::{encode_i32, bincode_i32_of};
use crate::mm::MM;

verus! {

/// The first half of the key pair derived for `keyword`: it locates the entries.
pub open spec fn key1_of(key: Seq<u8>, keyword: Seq<u8>) -> Seq<u8> {
    prf_spec(keyword, key).subrange(0, 16)
}

/// The second half of the key pair derived for `keyword`: it encrypts the values.
pub open spec fn key2_of(key: Seq<u8>, keyword: Seq<u8>) -> Seq<u8> {
    prf_spec(keyword, key).subrange(16, 32)
}

/// The storage token of the value at position `c` of a keyword's list.
pub open spec fn emm_token(key1: Seq<u8>, c: int) -> Seq<u8> {
    prf_spec(bincode_i32_of(c as i32), key1)
}

/// The entries stored for one keyword: position `c` goes to the token for `c`,
/// its value encrypted under the second key. A 32-bit counter numbers the
/// positions, so no more than `i32::MAX` values are stored.
pub open spec fn keyword_entries(key: Seq<u8>, keyword: Seq<u8>, vals: Seq<Seq<u8>>) -> Seq<(Seq<u8>, Seq<u8>)> {
    Seq::new(
        if vals.len() <= i32::MAX { vals.len() } else { i32::MAX as nat },
        |c: int| (emm_token(key1_of(key, keyword), c), aes_cbc_encrypt_of(key2_of(key, keyword), vals[c])),
    )
}

/// Every value of the multi-map that setup encrypted decrypts back under its
/// keyword's key.
pub open spec fn values_decrypt(key: Seq<u8>, mm: Seq<(Seq<u8>, Seq<Seq<u8>>)>) -> bool {
    forall|i: int, c: int| 0 <= i < mm.len() && 0 <= c < mm[i].1.len() && c < i32::MAX
        ==> aes_cbc_decrypt_of(key2_of(key, mm[i].0), #[trigger] aes_cbc_encrypt_of(key2_of(key, mm[i].0), mm[i].1[c]))
            == Some(mm[i].1[c])
}

/// The entries stored for a whole multi-map, keyword after keyword.
pub open spec fn setup_entries(key: Seq<u8>, mm: Seq<(Seq<u8>, Seq<Seq<u8>>)>) -> Seq<(Seq<u8>, Seq<u8>)>
    decreases mm.len(),
{
    if mm.len() == 0 {
        Seq::empty()
    } else {
        setup_entries(key, mm.drop_last()) + keyword_entries(key, mm.last().0, mm.last().1)
    }
}

/// `hits` are the values stored at the tokens for counters 0, 1, 2, ... up to
/// the first counter that misses, scanning at most `bound` counters.
pub open spec fn is_scan(m: Map<Seq<u8>, Seq<u8>>, key1: Seq<u8>, bound: int, hits: Seq<Seq<u8>>) -> bool {
    &&& hits.len() <= bound
    &&& forall|c: int| 0 <= c < hits.len()
        ==> m.contains_key(#[trigger] emm_token(key1, c)) && hits[c] == m[emm_token(key1, c)]
    &&& hits.len() < bound ==> !m.contains_key(emm_token(key1, hits.len() as int))
}

/// Every ciphertext decrypts under `key`.
pub open spec fn decrypts_all(key: Seq<u8>, encs: Seq<Seq<u8>>) -> bool {
    forall|i: int| 0 <= i < encs.len() ==> (#[trigger] aes_cbc_decrypt_of(key, encs[i])) is Some
}

/// The plaintexts of `encs` under `key`.
pub open spec fn decrypted(key: Seq<u8>, encs: Seq<Seq<u8>>) -> Seq<Seq<u8>> {
    Seq::new(encs.len(), |i: int| aes_cbc_decrypt_of(key, encs[i])->Some_0)
}

pub open spec fn bytes_view(v: Seq<Vec<u8>>) -> Seq<Seq<u8>> {
    v.map_values(|b: Vec<u8>| b@)
}

/// What a response-revealing lookup finds: the scan's hits decrypted under
/// `key2`, or `None` where one of them does not decrypt.
pub open spec fn rr_spec(server: EMMServer, key1: Seq<u8>, key2: Seq<u8>) -> Option<Seq<Seq<u8>>> {
    let hits = choose|h: Seq<Seq<u8>>| is_scan(server.view(), key1, server.scan_bound(), h);
    if decrypts_all(key2, hits) {
        Some(decrypted(key2, hits))
    } else {
        None
    }
}

/// Two scans of one map with one key and bound find the same values.
pub proof fn lemma_scan_unique(m: Map<Seq<u8>, Seq<u8>>, key1: Seq<u8>, bound: int, h1: Seq<Seq<u8>>, h2: Seq<Seq<u8>>)
    requires
        is_scan(m, key1, bound, h1),
        is_scan(m, key1, bound, h2),
    ensures
        h1 == h2,
{
    if h1.len() < h2.len() {
        assert(m.contains_key(emm_token(key1, h1.len() as int)));
    } else if h2.len() < h1.len() {
        assert(m.contains_key(emm_token(key1, h2.len() as int)));
    }
    assert(h1.len() == h2.len());
    assert forall|c: int| 0 <= c < h1.len() implies h1[c] == h2[c] by {
        let t = emm_token(key1, c);
    }
    assert(h1 =~= h2);
}

/// Splits a 32-byte token into two 16-byte keys.
fn split_key(kp: &[u8; 32]) -> (r: ([u8; 16], [u8; 16]))
    ensures
        r.0@ == kp@.subrange(0, 16),
        r.1@ == kp@.subrange(16, 32),
{
    let mut k1 = [0u8; 16];
    let mut k2 = [0u8; 16];
    let mut i: usize = 0;
    while i < 16
        invariant
            i <= 16,
            forall|j: int| 0 <= j < i ==> k1@[j] == kp@[j] && k2@[j] == kp@[j + 16],
        decreases 16 - i,
    {
        k1.set(i, kp[i]);
        k2.set(i, kp[i + 16]);
        i += 1;
    }
    assert(k1@ =~= kp@.subrange(0, 16));
    assert(k2@ =~= kp@.subrange(16, 32));
    (k1, k2)
}

/// Decrypts every ciphertext under `key`; fails if any of them fails.
pub fn decrypt_emm_helper(key: &[u8], enc_results: Vec<Vec<u8>>) -> (r: Result<Vec<Vec<u8>>, CipherError>)
    requires
        key@.len() == 16,
    ensures
        r is Ok <==> decrypts_all(key@, bytes_view(enc_results@)),
        r is Ok ==> bytes_view(r->Ok_0@) == decrypted(key@, bytes_view(enc_results@)),
{
    let ghost encs = bytes_view(enc_results@);
    let mut dec_results: Vec<Vec<u8>> = Vec::new();
    let mut i: usize = 0;
    while i < enc_results.len()
        invariant
            i <= enc_results@.len(),
            encs == bytes_view(enc_results@),
            key@.len() == 16,
            dec_results@.len() == i,
            forall|j: int| 0 <= j < i ==> (#[trigger] aes_cbc_decrypt_of(key@, encs[j])) is Some,
            forall|j: int| 0 <= j < i ==> dec_results@[j]@ == aes_cbc_decrypt_of(key@, encs[j])->Some_0,
        decreases enc_results@.len() - i,
    {
        match fixed_decrypt(enc_results[i].as_slice(), key) {
            Ok(v) => dec_results.push(v),
            Err(e) => {
                assert(!decrypts_all(key@, encs)) by {
                    assert(aes_cbc_decrypt_of(key@, encs[i as int]) is None);
                }
                return Err(e);
            }
        }
        i += 1;
    }
    assert(bytes_view(dec_results@) =~= decrypted(key@, encs));
    Ok(dec_results)
}

/// The server half of the encrypted multi-map: ciphertexts stored at tokens.
pub struct EMMServer {
    data: ByteMap,
}

impl EMMServer {
    /// The stored ciphertexts by token.
    pub closed spec fn view(&self) -> Map<Seq<u8>, Seq<u8>> {
        self.data.view()
    }

    /// The insertions that built the storage, in order.
    pub closed spec fn entries(&self) -> Seq<(Seq<u8>, Seq<u8>)> {
        self.data.entries()
    }

    /// How many counters a scan tries at most: one per stored entry, and no
    /// more than a 32-bit counter reaches.
    pub open spec fn scan_bound(&self) -> int {
        if self.entries().len() < i32::MAX { self.entries().len() as int } else { i32::MAX as int }
    }

    pub fn new_emm_server() -> (r: EMMServer)
        ensures
            r.entries().len() == 0,
            r.view() == Map::<Seq<u8>, Seq<u8>>::empty(),
    {
        EMMServer { data: ByteMap::new() }
    }

    /// The storage.
    pub fn data(&self) -> (r: &ByteMap)
        ensures
            r.entries() == self.entries(),
            r.view() == self.view(),
    {
        &self.data
    }

    /// A server holding the storage `data`.
    pub fn from_map(data: ByteMap) -> (r: EMMServer)
        ensures
            r.entries() == data.entries(),
            r.view() == data.view(),
    {
        EMMServer { data }
    }

    /// Response-hiding lookup: the ciphertexts at counters 0, 1, 2, ... up to
    /// the first missing token, returned untouched.
    pub fn eval_emm_rh(&self, key: &[u8]) -> (r: Vec<Vec<u8>>)
        requires
            key@.len() == 16,
        ensures
            is_scan(self.view(), key@, self.scan_bound(), bytes_view(r@)),
    {
        let n = self.data.num_entries();
        let mut enc_results: Vec<Vec<u8>> = Vec::new();
        let mut c: i32 = 0;
        let mut missed = false;
        while !missed && (c as usize) < n && c < i32::MAX
            invariant
                0 <= c,
                c as int <= n as int,
                n == self.entries().len(),
                key@.len() == 16,
                enc_results@.len() == c,
                forall|j: int| 0 <= j < c ==> self.view().contains_key(#[trigger] emm_token(key@, j))
                    && enc_results@[j]@ == self.view()[emm_token(key@, j)],
                missed ==> !self.view().contains_key(emm_token(key@, c as int)),
            decreases i32::MAX - c, (if missed { 0int } else { 1int }),
        {
            let counter_bytes = encode_i32(c);
            let enc_key = prf(counter_bytes.as_slice(), key);
            match self.data.get(enc_key.as_slice()) {
                Some(enc_value) => {
                    enc_results.push(enc_value.clone());
                    c = c + 1;
                },
                None => {
                    missed = true;
                },
            }
        }
        let ghost hv = bytes_view(enc_results@);
        assert(forall|j: int| 0 <= j < c ==> hv[j] == enc_results@[j]@);
        enc_results
    }

    /// Response-revealing lookup: the same scan, each hit decrypted under `key2`.
    pub fn eval_emm_rr(&self, key1: &[u8], key2: &[u8]) -> (r: Result<Vec<Vec<u8>>, CipherError>)
        requires
            key1@.len() == 16,
            key2@.len() == 16,
        ensures
            forall|hits: Seq<Seq<u8>>| #[trigger] is_scan(self.view(), key1@, self.scan_bound(), hits) ==> {
                &&& (r is Ok <==> decrypts_all(key2@, hits))
                &&& (r is Ok ==> bytes_view(r->Ok_0@) == decrypted(key2@, hits))
            },
            r is Ok <==> rr_spec(*self, key1@, key2@) is Some,
            r is Ok ==> bytes_view(r->Ok_0@) == rr_spec(*self, key1@, key2@)->Some_0,
    {
        let enc_results = self.eval_emm_rh(key1);
        let ghost h = bytes_view(enc_results@);
        let r = decrypt_emm_helper(key2, enc_results);
        assert forall|hits: Seq<Seq<u8>>| #[trigger] is_scan(self.view(), key1@, self.scan_bound(), hits)
            implies hits == h by {
            lemma_scan_unique(self.view(), key1@, self.scan_bound(), hits, h);
        }
        assert(is_scan(self.view(), key1@, self.scan_bound(), h));
        r
    }
}

/// Adding the entries of one more keyword extends the entries of the prefix.
proof fn lemma_setup_entries_step(key: Seq<u8>, mm: Seq<(Seq<u8>, Seq<Seq<u8>>)>, i: int)
    requires
        0 <= i < mm.len(),
    ensures
        setup_entries(key, mm.take(i + 1))
            == setup_entries(key, mm.take(i)) + keyword_entries(key, mm[i].0, mm[i].1),
{
    assert(mm.take(i + 1).drop_last() =~= mm.take(i));
}

/// The client half of the encrypted multi-map: the master key, and the second
/// key of the last tokenized keyword, used to decrypt that keyword's results.
pub struct EMMClient {
    key: [u8; 16],
    last_token_key: [u8; 16],
}

impl EMMClient {
    pub closed spec fn key(&self) -> Seq<u8> {
        self.key@
    }

    pub closed spec fn last_token_key(&self) -> Seq<u8> {
        self.last_token_key@
    }

    pub fn new_emm_client() -> (r: EMMClient)
        ensures
            r.key() == seq![0u8; 16],
            r.last_token_key() == seq![0u8; 16],
    {
        let r = EMMClient { key: [0u8; 16], last_token_key: [0u8; 16] };
        assert(r.key() =~= seq![0u8; 16]);
        assert(r.last_token_key() =~= seq![0u8; 16]);
        r
    }

    /// Draws a fresh master key and encrypts `mm` under it: the value at
    /// position `c` of a keyword's list is stored, encrypted under the
    /// keyword's second key, at the token for `c` under its first key.
    pub fn setup_emm(&mut self, mm: &MM, keys: &mut KeySeq) -> (r: EMMServer)
        ensures
            final(self).key() == chacha20_key_of(old(keys).next),
            final(self).last_token_key() == old(self).last_token_key(),
            final(keys).next == (if old(keys).next == u64::MAX { 0 } else { (old(keys).next + 1) as u64 }),
            r.entries() == setup_entries(final(self).key(), mm.entries()),
            r.view() == map_of(setup_entries(final(self).key(), mm.entries())),
            values_decrypt(final(self).key(), mm.entries()),
    {
        let key = keys.fresh_key();
        let ghost ents = mm.entries();
        let mut data = ByteMap::new();
        let mut i: usize = 0;
        while i < mm.data.len()
            invariant
                i <= mm.data@.len(),
                ents == mm.entries(),
                key@.len() == 16,
                data.entries() == setup_entries(key@, ents.take(i as int)),
                forall|i2: int, c: int| 0 <= i2 < i && 0 <= c < ents[i2].1.len() && c < i32::MAX
                    ==> aes_cbc_decrypt_of(key2_of(key@, ents[i2].0), #[trigger] aes_cbc_encrypt_of(key2_of(key@, ents[i2].0), ents[i2].1[c]))
                        == Some(ents[i2].1[c]),
            decreases mm.data@.len() - i,
        {
            let keyword = &mm.data[i].0;
            let vals = &mm.data[i].1;
            let key_pair = prf(keyword.as_slice(), key.as_slice());
            let (key1, key2) = split_key(&key_pair);
            let ghost base = data.entries();
            let ghost kents = keyword_entries(key@, ents[i as int].0, ents[i as int].1);
            assert(ents[i as int].1 == bytes_view(vals@));
            let limit: usize = if vals.len() <= i32::MAX as usize { vals.len() } else { i32::MAX as usize };
            assert(kents.len() == limit);
            let mut c: usize = 0;
            while c < limit
                invariant
                    c <= limit,
                    limit <= vals@.len(),
                    limit <= i32::MAX,
                    kents.len() == limit,
                    key1@ == key1_of(key@, keyword@),
                    key2@ == key2_of(key@, keyword@),
                    key1@.len() == 16,
                    key2@.len() == 16,
                    ents[i as int].0 == keyword@,
                    ents[i as int].1 == bytes_view(vals@),
                    kents == keyword_entries(key@, ents[i as int].0, ents[i as int].1),
                    data.entries() == base + kents.take(c as int),
                    limit == (if vals@.len() <= i32::MAX { vals@.len() } else { i32::MAX as nat }),
                    forall|i2: int, c2: int| 0 <= i2 < i && 0 <= c2 < ents[i2].1.len() && c2 < i32::MAX
                        ==> aes_cbc_decrypt_of(key2_of(key@, ents[i2].0), #[trigger] aes_cbc_encrypt_of(key2_of(key@, ents[i2].0), ents[i2].1[c2]))
                            == Some(ents[i2].1[c2]),
                    forall|c2: int| 0 <= c2 < c
                        ==> aes_cbc_decrypt_of(key2_of(key@, ents[i as int].0), #[trigger] aes_cbc_encrypt_of(key2_of(key@, ents[i as int].0), ents[i as int].1[c2]))
                            == Some(ents[i as int].1[c2]),
                decreases limit - c,
            {
                let counter_bytes = encode_i32(c as i32);
                let enc_key = prf(counter_bytes.as_slice(), key1.as_slice());
                let enc_value = fixed_encrypt(vals[c].as_slice(), key2.as_slice());
                assert(ents[i as int].1[c as int] == vals@[c as int]@);
                let ghost before = data.entries();
                data.insert(bytes_to_vec(enc_key.as_slice()), enc_value);
                proof {
                    assert(kents.take(c as int + 1) =~= kents.take(c as int).push(kents[c as int]));
                    assert(data.entries() =~= base + kents.take(c as int + 1));
                }
                c += 1;
            }
            proof {
                assert(kents.take(c as int) =~= kents);
                lemma_setup_entries_step(key@, ents, i as int);
            }
            assert(forall|c2: int| 0 <= c2 < ents[i as int].1.len() && c2 < i32::MAX && (#[trigger] ents[i as int].1[c2]).len() >= 0
                ==> c2 < c);
            i += 1;
        }
        assert(ents.take(i as int) =~= ents);
        self.key = key;
        assert(self.key() == key@);
        EMMServer::from_map(data)
    }

    /// The key pair for `keyword`; the second key is remembered for
    /// `decrypt_emm`.
    pub fn tokenize_emm(&mut self, keyword: &Vec<u8>) -> (r: ([u8; 16], [u8; 16]))
        ensures
            r.0@ == key1_of(old(self).key(), keyword@),
            r.1@ == key2_of(old(self).key(), keyword@),
            final(self).key() == old(self).key(),
            final(self).last_token_key() == r.1@,
    {
        let key_pair = prf(keyword.as_slice(), self.key.as_slice());
        let (key1, key2) = split_key(&key_pair);
        self.last_token_key = key2;
        (key1, key2)
    }

    /// Decrypts the results of the last tokenized keyword.
    pub fn decrypt_emm(&mut self, enc_results: Vec<Vec<u8>>) -> (r: Result<Vec<Vec<u8>>, CipherError>)
        ensures
            *final(self) == *old(self),
            r is Ok <==> decrypts_all(old(self).last_token_key(), bytes_view(enc_results@)),
            r is Ok ==> bytes_view(r->Ok_0@) == decrypted(old(self).last_token_key(), bytes_view(enc_results@)),
    {
        decrypt_emm_helper(self.last_token_key.as_slice(), enc_results)
    }
}

/// Values of `keyword` as a lookup with `key` finds them in `m`: the scan's
/// hits, decrypted under the keyword's second key, or `None` where one of them
/// does not decrypt.
pub open spec fn lookup_result(m: Map<Seq<u8>, Seq<u8>>, bound: int, key: Seq<u8>, keyword: Seq<u8>, hits: Seq<Seq<u8>>) -> Option<Seq<Seq<u8>>> {
    if decrypts_all(key2_of(key, keyword), hits) {
        Some(decrypted(key2_of(key, keyword), hits))
    } else {
        None
    }
}

/// A client and its server in one value, for local use.
pub struct EMM {
    client: EMMClient,
    server: EMMServer,
}

impl EMM {
    pub closed spec fn client(&self) -> EMMClient {
        self.client
    }

    pub closed spec fn server(&self) -> EMMServer {
        self.server
    }

    pub fn new_emm() -> (r: EMM)
        ensures
            r.client().key() == seq![0u8; 16],
            r.server().view() == Map::<Seq<u8>, Seq<u8>>::empty(),
    {
        EMM { client: EMMClient::new_emm_client(), server: EMMServer::new_emm_server() }
    }

    /// Encrypts `mm` under a fresh key and keeps the server storage.
    pub fn setup_emm(&mut self, mm: &MM, keys: &mut KeySeq)
        ensures
            final(self).client().key() == chacha20_key_of(old(keys).next),
            final(keys).next == (if old(keys).next == u64::MAX { 0 } else { (old(keys).next + 1) as u64 }),
            final(self).server().entries() == setup_entries(final(self).client().key(), mm.entries()),
            values_decrypt(final(self).client().key(), mm.entries()),
    {
        self.server = self.client.setup_emm(mm, keys);
    }

    /// Response-revealing search: the server decrypts the hits.
    pub fn search_emm_rr(&mut self, keyword: &Vec<u8>) -> (r: Result<Vec<Vec<u8>>, CipherError>)
        ensures
            final(self).client().key() == old(self).client().key(),
            final(self).server() == old(self).server(),
            forall|hits: Seq<Seq<u8>>|
                #[trigger] is_scan(old(self).server().view(), key1_of(old(self).client().key(), keyword@),
                    old(self).server().scan_bound(), hits) ==> {
                    &&& (r is Ok <==> lookup_result(old(self).server().view(), old(self).server().scan_bound(),
                        old(self).client().key(), keyword@, hits) is Some)
                    &&& (r is Ok ==> bytes_view(r->Ok_0@) == lookup_result(old(self).server().view(),
                        old(self).server().scan_bound(), old(self).client().key(), keyword@, hits)->Some_0)
                },
    {
        let (key1, key2) = self.client.tokenize_emm(keyword);
        self.server.eval_emm_rr(key1.as_slice(), key2.as_slice())
    }

    /// Response-hiding search: the server returns ciphertexts and the client
    /// decrypts them.
    pub fn search_emm_rh(&mut self, keyword: &Vec<u8>) -> (r: Result<Vec<Vec<u8>>, CipherError>)
        ensures
            final(self).client().key() == old(self).client().key(),
            final(self).server() == old(self).server(),
            forall|hits: Seq<Seq<u8>>|
                #[trigger] is_scan(old(self).server().view(), key1_of(old(self).client().key(), keyword@),
                    old(self).server().scan_bound(), hits) ==> {
                    &&& (r is Ok <==> lookup_result(old(self).server().view(), old(self).server().scan_bound(),
                        old(self).client().key(), keyword@, hits) is Some)
                    &&& (r is Ok ==> bytes_view(r->Ok_0@) == lookup_result(old(self).server().view(),
                        old(self).server().scan_bound(), old(self).client().key(), keyword@, hits)->Some_0)
                },
    {
        let (key1, _key2) = self.client.tokenize_emm(keyword);
        let enc_results = self.server.eval_emm_rh(key1.as_slice());
        let ghost h = bytes_view(enc_results@);
        let r = self.client.decrypt_emm(enc_results);
        assert forall|hits: Seq<Seq<u8>>|
            #[trigger] is_scan(self.server.view(), key1@, self.server.scan_bound(), hits) implies hits == h by {
            lemma_scan_unique(self.server.view(), key1@, self.server.scan_bound(), hits, h);
        }
        r
    }
}

/// Gap truncation: if the entry at position `k` of a keyword's list is not
/// stored, a scan returns no more than the `k` values before it, and exactly
/// those when they are all stored and the scan may go that far.
pub proof fn lemma_gap_truncates(m: Map<Seq<u8>, Seq<u8>>, key1: Seq<u8>, bound: int, hits: Seq<Seq<u8>>, k: int)
    requires
        is_scan(m, key1, bound, hits),
        0 <= k,
        !m.contains_key(emm_token(key1, k)),
    ensures
        hits.len() <= k,
        forall|c: int| 0 <= c < hits.len() ==> hits[c] == m[#[trigger] emm_token(key1, c)],
        (k <= bound && forall|c: int| 0 <= c < k ==> m.contains_key(#[trigger] emm_token(key1, c))) ==> hits.len() == k,
{
    if hits.len() > k {
        assert(m.contains_key(emm_token(key1, k)));
    }
    if k <= bound && (forall|c: int| 0 <= c < k ==> m.contains_key(#[trigger] emm_token(key1, c))) && hits.len() < k {
        assert(m.contains_key(emm_token(key1, hits.len() as int)));
    }
}

/// The entries for a prefix of the multi-map come first.
proof fn lemma_setup_entries_prefix(key: Seq<u8>, mm: Seq<(Seq<u8>, Seq<Seq<u8>>)>, n: int)
    requires
        0 <= n <= mm.len(),
    ensures
        setup_entries(key, mm.take(n)).len() <= setup_entries(key, mm).len(),
        setup_entries(key, mm.take(n)) == setup_entries(key, mm).take(setup_entries(key, mm.take(n)).len() as int),
    decreases mm.len(),
{
    if n == mm.len() {
        assert(mm.take(n) =~= mm);
    } else {
        assert(mm.drop_last().take(n) =~= mm.take(n));
        lemma_setup_entries_prefix(key, mm.drop_last(), n);
        let a = setup_entries(key, mm.take(n));
        let d = setup_entries(key, mm.drop_last());
        assert(setup_entries(key, mm) == d + keyword_entries(key, mm.last().0, mm.last().1));
        assert(a =~= setup_entries(key, mm).take(a.len() as int));
    }
}

/// With no repeated key, every entry's value is the map's value.
proof fn lemma_map_of_distinct(s: Seq<(Seq<u8>, Seq<u8>)>, j: int)
    requires
        0 <= j < s.len(),
        forall|a: int, b: int| 0 <= a < s.len() && 0 <= b < s.len() && a != b ==> s[a].0 != s[b].0,
    ensures
        map_of(s).contains_key(s[j].0),
        map_of(s)[s[j].0] == s[j].1,
    decreases s.len(),
{
    if j < s.len() - 1 {
        assert(s.last().0 != s[j].0);
        assert(s.drop_last()[j] == s[j]);
        lemma_map_of_distinct(s.drop_last(), j);
    }
}

/// Round trip of the encrypted multi-map, up to the cipher: after setup, a
/// scan for the `i`-th keyword finds the encryptions of its values, in their
/// order, provided that no two stored entries share a token and that the
/// token after the keyword's last value is not stored.
pub proof fn lemma_emm_round_trip(key: Seq<u8>, mm: Seq<(Seq<u8>, Seq<Seq<u8>>)>, i: int, bound: int, hits: Seq<Seq<u8>>)
    requires
        0 <= i < mm.len(),
        mm[i].1.len() < i32::MAX,
        mm[i].1.len() <= bound,
        forall|a: int, b: int| 0 <= a < setup_entries(key, mm).len() && 0 <= b < setup_entries(key, mm).len() && a != b
            ==> setup_entries(key, mm)[a].0 != setup_entries(key, mm)[b].0,
        !map_of(setup_entries(key, mm)).contains_key(emm_token(key1_of(key, mm[i].0), mm[i].1.len() as int)),
        is_scan(map_of(setup_entries(key, mm)), key1_of(key, mm[i].0), bound, hits),
    ensures
        hits == mm[i].1.map_values(|v: Seq<u8>| aes_cbc_encrypt_of(key2_of(key, mm[i].0), v)),
{
    let ents = setup_entries(key, mm);
    let m = map_of(ents);
    let k1 = key1_of(key, mm[i].0);
    let vals = mm[i].1;
    let kents = keyword_entries(key, mm[i].0, vals);
    lemma_setup_entries_step(key, mm, i);
    lemma_setup_entries_prefix(key, mm, i + 1);
    let pre = setup_entries(key, mm.take(i));
    let upto = setup_entries(key, mm.take(i + 1));
    assert(upto == pre + kents);
    assert forall|c: int| 0 <= c < vals.len() implies
        m.contains_key(#[trigger] emm_token(k1, c)) && m[emm_token(k1, c)] == aes_cbc_encrypt_of(key2_of(key, mm[i].0), vals[c]) by {
        let j = pre.len() + c;
        assert(upto[j] == kents[c]);
        assert(ents[j] == upto[j]);
        lemma_map_of_distinct(ents, j);
    }
    lemma_gap_truncates(m, k1, bound, hits, vals.len() as int);
    assert(hits.len() == vals.len());
    assert forall|c: int| 0 <= c < hits.len() implies hits[c] == aes_cbc_encrypt_of(key2_of(key, mm[i].0), vals[c]) by {
        assert(hits[c] == m[emm_token(k1, c)]);
    }
    assert(hits =~= vals.map_values(|v: Seq<u8>| aes_cbc_encrypt_of(key2_of(key, mm[i].0), v)));
}

/// Round trip of the encrypted multi-map: after setup, a response-revealing
/// lookup of the `i`-th keyword decrypts to exactly its values, in their
/// order, provided that no two stored entries share a token, that the token
/// after the keyword's last value is not stored.
pub proof fn lemma_emm_round_trip_values(key: Seq<u8>, mm: Seq<(Seq<u8>, Seq<Seq<u8>>)>, i: int, bound: int, hits: Seq<Seq<u8>>)
    requires
        values_decrypt(key, mm),
        0 <= i < mm.len(),
        mm[i].1.len() < i32::MAX,
        mm[i].1.len() <= bound,
        forall|a: int, b: int| 0 <= a < setup_entries(key, mm).len() && 0 <= b < setup_entries(key, mm).len() && a != b
            ==> setup_entries(key, mm)[a].0 != setup_entries(key, mm)[b].0,
        !map_of(setup_entries(key, mm)).contains_key(emm_token(key1_of(key, mm[i].0), mm[i].1.len() as int)),
        is_scan(map_of(setup_entries(key, mm)), key1_of(key, mm[i].0), bound, hits),
    ensures
        decrypts_all(key2_of(key, mm[i].0), hits),
        decrypted(key2_of(key, mm[i].0), hits) == mm[i].1,
{
    lemma_emm_round_trip(key, mm, i, bound, hits);
    let k2 = key2_of(key, mm[i].0);
    assert forall|c: int| 0 <= c < hits.len() implies (#[trigger] aes_cbc_decrypt_of(k2, hits[c])) == Some(mm[i].1[c]) by {
        assert(hits[c] == aes_cbc_encrypt_of(k2, mm[i].1[c]));
    }
    assert(decrypted(k2, hits) =~= mm[i].1);
}

/// A keyword whose first token is not stored finds nothing: a keyword never
/// inserted gives an empty answer unless its first token collides with a
/// stored one.
pub proof fn lemma_absent_keyword_empty(m: Map<Seq<u8>, Seq<u8>>, key1: Seq<u8>, bound: int, hits: Seq<Seq<u8>>)
    requires
        is_scan(m, key1, bound, hits),
        !m.contains_key(emm_token(key1, 0)),
    ensures
        hits.len() == 0,
{
    lemma_gap_truncates(m, key1, bound, hits, 0);
}

} // verus!
