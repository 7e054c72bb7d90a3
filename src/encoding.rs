use vstd::prelude::*;

verus! {

/// The bincode encoding of the pair of strings `(tag, a)`.
pub uninterp spec fn bincode_str2_of(tag: Seq<char>, a: Seq<char>) -> Seq<u8>;

/// The bincode encoding of the triple of strings `(tag, a, b)`.
pub uninterp spec fn bincode_str3_of(tag: Seq<char>, a: Seq<char>, b: Seq<char>) -> Seq<u8>;

/// The bincode encoding of `(tag, a, b, side)` with `side` a 32-bit integer.
pub uninterp spec fn bincode_str3_i32_of(tag: Seq<char>, a: Seq<char>, b: Seq<char>, side: i32) -> Seq<u8>;

/// The bincode encoding of the 32-bit integer `c`: its four bytes, least
/// significant first.
pub open spec fn bincode_i32_of(c: i32) -> Seq<u8> {
    let u = c as u32;
    seq![(u & 0xff) as u8, ((u >> 8u32) & 0xff) as u8, ((u >> 16u32) & 0xff) as u8, ((u >> 24u32) & 0xff) as u8]
}

/// The bincode encoding of the string `s`.
pub uninterp spec fn bincode_string_of(s: Seq<char>) -> Seq<u8>;

/// The bincode encoding of a pair of 32-byte tokens: fixed-size arrays are
/// written byte after byte, with no length.
pub open spec fn bincode_token_pair_of(a: Seq<u8>, b: Seq<u8>) -> Seq<u8> {
    a + b
}

/// What bincode decodes from `b` as a string, where it succeeds.
pub uninterp spec fn bincode_string_decode_of(b: Seq<u8>) -> Option<Seq<char>>;

/// What bincode decodes from `b` as a pair of 32-byte tokens: the first 64
/// bytes split in two, trailing bytes being allowed; `None` for fewer bytes.
pub open spec fn bincode_token_pair_decode_of(b: Seq<u8>) -> Option<(Seq<u8>, Seq<u8>)> {
    if b.len() >= 64 {
        Some((b.subrange(0, 32), b.subrange(32, 64)))
    } else {
        None
    }
}

/// Relies on `bincode::serialize` of a `(&str, &str)`; writing strings into a
/// `Vec` cannot fail.
#[verifier::external_body]
pub fn encode_str2(tag: &str, a: &str) -> (r: Vec<u8>)
    ensures
        r@ == bincode_str2_of(tag@, a@),
{
    bincode::serialize(&(tag, a)).unwrap()
}

/// Relies on `bincode::serialize` of a `(&str, &str, &str)`; writing strings
/// into a `Vec` cannot fail.
#[verifier::external_body]
pub fn encode_str3(tag: &str, a: &str, b: &str) -> (r: Vec<u8>)
    ensures
        r@ == bincode_str3_of(tag@, a@, b@),
{
    bincode::serialize(&(tag, a, b)).unwrap()
}

/// Relies on `bincode::serialize` of a `(&str, &str, &str, i32)`; writing
/// strings and integers into a `Vec` cannot fail.
#[verifier::external_body]
pub fn encode_str3_i32(tag: &str, a: &str, b: &str, side: i32) -> (r: Vec<u8>)
    ensures
        r@ == bincode_str3_i32_of(tag@, a@, b@, side),
{
    bincode::serialize(&(tag, a, b, side)).unwrap()
}

/// Encodes a 32-bit integer as bincode does.
pub fn encode_i32(c: i32) -> (r: Vec<u8>)
    ensures
        r@ == bincode_i32_of(c),
{
    let u = c as u32;
    let mut r: Vec<u8> = Vec::new();
    r.push((u & 0xff) as u8);
    r.push(((u >> 8u32) & 0xff) as u8);
    r.push(((u >> 16u32) & 0xff) as u8);
    r.push(((u >> 24u32) & 0xff) as u8);
    assert(r@ =~= bincode_i32_of(c));
    r
}

/// Relies on `bincode::serialize` of a `&str`; it cannot fail, and
/// `bincode::deserialize::<String>` reads the same string back.
#[verifier::external_body]
pub fn encode_string(s: &str) -> (r: Vec<u8>)
    ensures
        r@ == bincode_string_of(s@),
        bincode_string_decode_of(r@) == Some(s@),
{
    bincode::serialize(s).unwrap()
}

/// Encodes a pair of 32-byte tokens as bincode does.
pub fn encode_token_pair(a: &[u8; 32], b: &[u8; 32]) -> (r: Vec<u8>)
    ensures
        r@ == bincode_token_pair_of(a@, b@),
        bincode_token_pair_decode_of(r@) == Some((a@, b@)),
{
    let mut r: Vec<u8> = Vec::new();
    let mut i: usize = 0;
    while i < 32
        invariant
            i <= 32,
            r@ == a@.take(i as int),
        decreases 32 - i,
    {
        r.push(a[i]);
        i += 1;
        assert(r@ =~= a@.take(i as int));
    }
    let mut j: usize = 0;
    while j < 32
        invariant
            j <= 32,
            a@.len() == 32,
            r@ == a@ + b@.take(j as int),
        decreases 32 - j,
    {
        r.push(b[j]);
        j += 1;
        assert(r@ =~= a@ + b@.take(j as int));
    }
    assert(a@.take(32) =~= a@);
    assert(b@.take(32) =~= b@);
    assert(r@.subrange(0, 32) =~= a@);
    assert(r@.subrange(32, 64) =~= b@);
    r
}

/// Relies on `bincode::deserialize::<String>`: the decoded string, or `None`
/// where bincode reports an error.
#[verifier::external_body]
pub fn decode_string(b: &[u8]) -> (r: Option<String>)
    ensures
        r is Some <==> bincode_string_decode_of(b@) is Some,
        r is Some ==> r->Some_0@ == bincode_string_decode_of(b@)->Some_0,
{
    bincode::deserialize::<String>(b).ok()
}

/// Decodes a pair of 32-byte tokens as bincode does.
pub fn decode_token_pair(b: &[u8]) -> (r: Option<([u8; 32], [u8; 32])>)
    ensures
        r is Some <==> bincode_token_pair_decode_of(b@) is Some,
        r is Some ==> (r->Some_0.0@, r->Some_0.1@) == bincode_token_pair_decode_of(b@)->Some_0,
{
    if b.len() < 64 {
        return None;
    }
    let mut x = [0u8; 32];
    let mut y = [0u8; 32];
    let mut i: usize = 0;
    while i < 32
        invariant
            i <= 32,
            b@.len() >= 64,
            forall|j: int| 0 <= j < i ==> x@[j] == b@[j] && y@[j] == b@[j + 32],
        decreases 32 - i,
    {
        x.set(i, b[i]);
        y.set(i, b[i + 32]);
        i += 1;
    }
    assert(x@ =~= b@.subrange(0, 32));
    assert(y@ =~= b@.subrange(32, 64));
    Some((x, y))
}

} // verus!
