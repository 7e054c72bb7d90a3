use vstd::prelude::*;
use crypto::aes::{cbc_decryptor, cbc_encryptor, KeySize};
use crypto::blockmodes::NoPadding;
use crypto::buffer::{ReadBuffer, RefReadBuffer, RefWriteBuffer, WriteBuffer};
use crypto::digest::Digest;
use crypto::symmetriccipher::SymmetricCipherError;
use rand_core::{RngCore, SeedableRng};

verus! {

/// A failure reported by the block cipher while decrypting.
#[derive(Debug, Clone, Copy, PartialEq, Eq, Structural)]
pub enum CipherError {
    InvalidLength,
    InvalidPadding,
}

/// What AES-128 in CBC mode, with an all-zero IV and PKCS#7 padding, writes
/// for `plain` under `key`: the padded plaintext encrypted block by block.
pub open spec fn aes_cbc_encrypt_of(key: Seq<u8>, plain: Seq<u8>) -> Seq<u8> {
    aes_cbc_blocks_of(key, pkcs7_pad(plain))
}

/// What AES-128 in CBC mode with an all-zero IV and no padding writes for the
/// whole blocks `blocks` under `key`.
pub uninterp spec fn aes_cbc_blocks_of(key: Seq<u8>, blocks: Seq<u8>) -> Seq<u8>;

/// What AES-128 CBC decryption with an all-zero IV and no padding yields for
/// `cipher` under `key`: the padded plaintext, or `None` where the cipher
/// reports an error.
pub uninterp spec fn aes_cbc_raw_decrypt_of(key: Seq<u8>, cipher: Seq<u8>) -> Option<Seq<u8>>;

/// The PKCS#7 padding of `p` to 16-byte blocks: `n` bytes of value `n`, where
/// `n` (from 1 to 16) brings the length to a multiple of 16.
pub open spec fn pkcs7_pad(p: Seq<u8>) -> Seq<u8> {
    let n = 16 - p.len() % 16;
    p + Seq::new(n as nat, |i: int| n as u8)
}

/// The plaintext under PKCS#7 padding: `None` unless the length is a
/// positive multiple of 16 and the last byte `n` is from 1 to 16 with the last
/// `n` bytes all equal to `n`.
pub open spec fn pkcs7_unpad(b: Seq<u8>) -> Option<Seq<u8>> {
    if b.len() == 0 || b.len() % 16 != 0 {
        None
    } else {
        let n = b.last() as int;
        if 1 <= n <= 16 && forall|i: int| b.len() - n <= i < b.len() ==> b[i] == n as u8 {
            Some(b.take(b.len() - n))
        } else {
            None
        }
    }
}

/// What decryption yields for `cipher` under `key`: the unpadded plaintext,
/// or `None` where the cipher or the padding check fails.
pub open spec fn aes_cbc_decrypt_of(key: Seq<u8>, cipher: Seq<u8>) -> Option<Seq<u8>> {
    match aes_cbc_raw_decrypt_of(key, cipher) {
        Some(b) => pkcs7_unpad(b),
        None => None,
    }
}

/// Removing the padding gives back what was padded.
pub proof fn lemma_pkcs7_round_trip(p: Seq<u8>)
    ensures
        pkcs7_unpad(pkcs7_pad(p)) == Some(p),
        pkcs7_pad(p).len() == 16 * (p.len() / 16 + 1),
{
    let n = 16 - p.len() % 16;
    let q = pkcs7_pad(p);
    assert(q.len() == p.len() + n);
    assert(q.len() == 16 * (p.len() / 16 + 1));
    assert(q.len() % 16 == 0);
    assert(q.last() == n as u8);
    assert(q.take(q.len() - n) =~= p);
}

/// Whether `b` is a lower-case hex digit, `0`-`9` or `a`-`f`.
pub open spec fn is_lower_hex(b: u8) -> bool {
    (48 <= b <= 57) || (97 <= b <= 102)
}

/// The lower-case hex digits of the SHA3-256 digest of `data`, as bytes.
pub uninterp spec fn sha3_256_hex_of(data: Seq<u8>) -> Seq<u8>;

/// The first sixteen bytes drawn from a ChaCha20 generator seeded with `seed`.
pub uninterp spec fn chacha20_key_of(seed: u64) -> Seq<u8>;

/// The keyed pseudorandom function: the first 32 hex digits of the SHA3-256
/// digest of the deterministic encryption of `input` under `key`.
pub open spec fn prf_spec(input: Seq<u8>, key: Seq<u8>) -> Seq<u8> {
    sha3_256_hex_of(aes_cbc_encrypt_of(key, input)).take(32)
}

/// Relies on rand_chacha's `ChaCha20Rng::seed_from_u64` and `fill_bytes`: a
/// generator seeded with the same number yields the same bytes.
#[verifier::external_body]
pub fn gen_key(seed: u64) -> (r: [u8; 16])
    ensures
        r@ == chacha20_key_of(seed),
{
    let mut rng = rand_chacha::ChaCha20Rng::seed_from_u64(seed);
    let mut key = [0u8; 16];
    rng.fill_bytes(&mut key);
    key
}

/// Relies on rust-crypto's `aes::cbc_encryptor` with `NoPadding` and a zero
/// IV. The input is whole blocks, so the cipher reports no error, and the
/// output buffer has room for all of it, so one call writes every block (one
/// ciphertext block per plaintext block). `aes::cbc_decryptor` with
/// `NoPadding` under the same key and IV gives the blocks back.
#[verifier::external_body]
fn aes_cbc_encrypt_blocks(blocks: &[u8], key: &[u8]) -> (r: Vec<u8>)
    requires
        key@.len() == 16,
        blocks@.len() % 16 == 0,
    ensures
        r@ == aes_cbc_blocks_of(key@, blocks@),
        r@.len() == blocks@.len(),
        aes_cbc_raw_decrypt_of(key@, r@) == Some(blocks@),
{
    let mut enc = cbc_encryptor(KeySize::KeySize128, key, &[0u8; 16], NoPadding);
    let mut out = vec![0u8; blocks.len() + 16];
    let mut input = RefReadBuffer::new(blocks);
    let mut output = RefWriteBuffer::new(&mut out);
    let _ = enc.encrypt(&mut input, &mut output, true);
    output.take_read_buffer().take_remaining().to_vec()
}

/// Relies on rust-crypto's `aes::cbc_decryptor` with `NoPadding` and a zero
/// IV: the decrypted blocks, as many bytes as the input, or the cipher's
/// `InvalidLength` where the input is not a whole number of blocks. Without
/// padding the cipher strips nothing, and the output buffer has room for
/// every block.
#[verifier::external_body]
fn aes_cbc_decrypt_raw(ciphertext_bytes: &[u8], key: &[u8]) -> (r: Result<Vec<u8>, CipherError>)
    requires
        key@.len() == 16,
    ensures
        r is Ok <==> aes_cbc_raw_decrypt_of(key@, ciphertext_bytes@) is Some,
        r is Ok ==> r->Ok_0@ == aes_cbc_raw_decrypt_of(key@, ciphertext_bytes@)->Some_0,
        r is Ok ==> r->Ok_0@.len() == ciphertext_bytes@.len(),
        ciphertext_bytes@.len() % 16 != 0 ==> r is Err && r->Err_0 == CipherError::InvalidLength,
{
    let mut dec = cbc_decryptor(KeySize::KeySize128, key, &[0u8; 16], NoPadding);
    let mut out = vec![0u8; ciphertext_bytes.len() + 16];
    let mut input = RefReadBuffer::new(ciphertext_bytes);
    let mut output = RefWriteBuffer::new(&mut out);
    let res = dec.decrypt(&mut input, &mut output, true);
    let bytes = output.take_read_buffer().take_remaining().to_vec();
    match res {
        Ok(_) => Ok(bytes),
        Err(SymmetricCipherError::InvalidLength) => Err(CipherError::InvalidLength),
        Err(SymmetricCipherError::InvalidPadding) => Err(CipherError::InvalidPadding),
    }
}

/// Pads `p` to whole 16-byte blocks by PKCS#7.
pub fn pkcs7_padded(p: &[u8]) -> (r: Vec<u8>)
    ensures
        r@ == pkcs7_pad(p@),
{
    let n: usize = 16 - p.len() % 16;
    let mut r = crate::bytemap::bytes_to_vec(p);
    let mut i: usize = 0;
    while i < n
        invariant
            i <= n,
            n == 16 - p@.len() % 16,
            r@ == p@ + Seq::new(i as nat, |j: int| n as u8),
        decreases n - i,
    {
        r.push(n as u8);
        i += 1;
        assert(r@ =~= p@ + Seq::new(i as nat, |j: int| n as u8));
    }
    r
}

/// Deterministic encryption: AES-128 in CBC mode with a zero IV and PKCS#7
/// padding. Every plaintext decrypts back, and the ciphertext is one block
/// longer than the whole blocks of the plaintext.
pub fn fixed_encrypt(plaintext_bytes: &[u8], key: &[u8]) -> (r: Vec<u8>)
    requires
        key@.len() == 16,
    ensures
        r@ == aes_cbc_encrypt_of(key@, plaintext_bytes@),
        aes_cbc_decrypt_of(key@, r@) == Some(plaintext_bytes@),
        r@.len() == 16 * (plaintext_bytes@.len() / 16 + 1),
{
    let padded = pkcs7_padded(plaintext_bytes);
    proof {
        lemma_pkcs7_round_trip(plaintext_bytes@);
    }
    aes_cbc_encrypt_blocks(padded.as_slice(), key)
}

/// Strips PKCS#7 padding, or reports that it is malformed.
pub fn pkcs7_strip(b: Vec<u8>) -> (r: Option<Vec<u8>>)
    ensures
        r is Some <==> pkcs7_unpad(b@) is Some,
        r is Some ==> r->Some_0@ == pkcs7_unpad(b@)->Some_0,
{
    let len = b.len();
    if len == 0 || len % 16 != 0 {
        return None;
    }
    let n = b[len - 1];
    if n == 0 || n > 16 {
        return None;
    }
    let start: usize = len - n as usize;
    let mut i: usize = start;
    while i < len
        invariant
            start <= i <= len,
            len == b@.len(),
            start == b@.len() - n as int,
            n == b@.last(),
            forall|j: int| start <= j < i ==> b@[j] == n,
        decreases len - i,
    {
        if b[i] != n {
            return None;
        }
        i += 1;
    }
    let mut out = b;
    out.truncate(start);
    assert(out@ =~= b@.take(start as int));
    Some(out)
}

/// Decrypts with AES-128 in CBC mode with a zero IV and strips the PKCS#7
/// padding: the plaintext, the cipher's error for a ciphertext that is not
/// whole blocks, or `InvalidPadding` for malformed padding.
pub fn fixed_decrypt(ciphertext_bytes: &[u8], key: &[u8]) -> (r: Result<Vec<u8>, CipherError>)
    requires
        key@.len() == 16,
    ensures
        r is Ok <==> aes_cbc_decrypt_of(key@, ciphertext_bytes@) is Some,
        r is Ok ==> r->Ok_0@ == aes_cbc_decrypt_of(key@, ciphertext_bytes@)->Some_0,
        aes_cbc_raw_decrypt_of(key@, ciphertext_bytes@) is Some && r is Err ==> r == Err::<Vec<u8>, CipherError>(CipherError::InvalidPadding),
        ciphertext_bytes@.len() % 16 != 0 ==> r == Err::<Vec<u8>, CipherError>(CipherError::InvalidLength),
{
    let raw = aes_cbc_decrypt_raw(ciphertext_bytes, key)?;
    match pkcs7_strip(raw) {
        Some(p) => Ok(p),
        None => Err(CipherError::InvalidPadding),
    }
}

/// Relies on rust-crypto's `Sha3::sha3_256` and `Digest::result_str`: the
/// 32-byte digest written as 64 lower-case hex digits (rustc-serialize's
/// `ToHex` writes from `0123456789abcdef`).
#[verifier::external_body]
fn sha3_256_hex(data: &[u8]) -> (r: Vec<u8>)
    ensures
        r@ == sha3_256_hex_of(data@),
        r@.len() == 64,
        forall|i: int| 0 <= i < r@.len() ==> is_lower_hex(#[trigger] r@[i]),
{
    let mut hasher = crypto::sha3::Sha3::sha3_256();
    hasher.input(data);
    hasher.result_str().into_bytes()
}

/// Derives a 32-byte token from `plaintext_bytes` under a 16-byte key.
pub fn prf(plaintext_bytes: &[u8], key: &[u8]) -> (r: [u8; 32])
    requires
        key@.len() == 16,
    ensures
        r@ == prf_spec(plaintext_bytes@, key@),
        forall|i: int| 0 <= i < 32 ==> is_lower_hex(#[trigger] r@[i]),
{
    let ciphertext = fixed_encrypt(plaintext_bytes, key);
    let digest = sha3_256_hex(ciphertext.as_slice());
    let mut result = [0u8; 32];
    let mut i: usize = 0;
    while i < 32
        invariant
            i <= 32,
            digest@.len() == 64,
            forall|j: int| 0 <= j < i ==> result@[j] == digest@[j],
        decreases 32 - i,
    {
        result.set(i, digest[i]);
        i += 1;
    }
    assert(result@ =~= digest@.take(32));
    result
}

/// Determinism of the pseudorandom function: the same key and input always
/// give the same token.
pub proof fn lemma_prf_deterministic(input: Seq<u8>, key: Seq<u8>, t1: Seq<u8>, t2: Seq<u8>)
    requires
        t1 == prf_spec(input, key),
        t2 == prf_spec(input, key),
    ensures
        t1 == t2,
{
}

/// A source of fresh keys: each key is drawn from a generator seeded with the
/// next number of an explicit sequence, so that runs are reproducible.
pub struct KeySeq {
    pub next: u64,
}

impl KeySeq {
    pub fn new(start: u64) -> (r: KeySeq)
        ensures
            r.next == start,
    {
        KeySeq { next: start }
    }

    /// Draws the key for the current seed and moves to the next one.
    pub fn fresh_key(&mut self) -> (r: [u8; 16])
        ensures
            r@ == chacha20_key_of(old(self).next),
            final(self).next == (if old(self).next == u64::MAX { 0 } else { (old(self).next + 1) as u64 }),
    {
        let k = gen_key(self.next);
        self.next = if self.next == u64::MAX { 0 } else { self.next + 1 };
        k
    }
}

} // verus!
