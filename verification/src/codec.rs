//! Byte-level encoding shared by keys and stored records.
//!
//! Keys use fixed-width big-endian integers so that the engine's
//! lexicographic key order matches numeric order, and tuple keys are plain
//! concatenations so that a parent key is a byte prefix of its children's
//! keys.  Stored records use length-prefixed fields read back by positional
//! readers; every reader has a lemma stating that it inverts the writer.

use vstd::prelude::*;
use vstd::utf8::*;

verus! {

/// Big-endian bytes of a `u32`.
pub open spec fn u32_be(n: u32) -> Seq<u8> {
    seq![(n >> 24) as u8, (n >> 16) as u8, (n >> 8) as u8, n as u8]
}

/// Big-endian bytes of a `u64`.
pub open spec fn u64_be(n: u64) -> Seq<u8> {
    seq![
        (n >> 56) as u8,
        (n >> 48) as u8,
        (n >> 40) as u8,
        (n >> 32) as u8,
        (n >> 24) as u8,
        (n >> 16) as u8,
        (n >> 8) as u8,
        n as u8,
    ]
}

/// `p` is a byte prefix of `s`.
pub open spec fn is_prefix_of(p: Seq<u8>, s: Seq<u8>) -> bool {
    p.len() <= s.len() && s.take(p.len() as int) == p
}

/// Strict lexicographic order on byte strings, the order in which the
/// engine iterates keys.
pub open spec fn lex_lt(a: Seq<u8>, b: Seq<u8>) -> bool
    decreases a.len(),
{
    if b.len() == 0 {
        false
    } else if a.len() == 0 {
        true
    } else if a[0] < b[0] {
        true
    } else if a[0] > b[0] {
        false
    } else {
        lex_lt(a.skip(1), b.skip(1))
    }
}

pub open spec fn combine_u32(b0: u8, b1: u8, b2: u8, b3: u8) -> u32 {
    (((b0 as u32) << 24) | ((b1 as u32) << 16) | ((b2 as u32) << 8) | (b3 as u32))
}

pub open spec fn combine_u64(b: Seq<u8>) -> u64
    recommends
        b.len() == 8,
{
    (((b[0] as u64) << 56) | ((b[1] as u64) << 48) | ((b[2] as u64) << 40) | ((b[3] as u64) << 32)
        | ((b[4] as u64) << 24) | ((b[5] as u64) << 16) | ((b[6] as u64) << 8) | (b[7] as u64))
}

/// Reads a big-endian `u32` at position `p`, returning the value and the
/// position just past it.
pub open spec fn read_u32(s: Seq<u8>, p: int) -> Option<(u32, int)> {
    if 0 <= p && p + 4 <= s.len() {
        Some((combine_u32(s[p], s[p + 1], s[p + 2], s[p + 3]), p + 4))
    } else {
        None
    }
}

/// Reads a big-endian `u64` at position `p`.
pub open spec fn read_u64(s: Seq<u8>, p: int) -> Option<(u64, int)> {
    if 0 <= p && p + 8 <= s.len() {
        Some((combine_u64(s.subrange(p, p + 8)), p + 8))
    } else {
        None
    }
}

/// A length-prefixed byte field.
pub open spec fn chunk_enc(b: Seq<u8>) -> Seq<u8> {
    u64_be(b.len() as u64) + b
}

/// Reads a length-prefixed byte field at position `p`.
pub open spec fn read_chunk(s: Seq<u8>, p: int) -> Option<(Seq<u8>, int)> {
    match read_u64(s, p) {
        Some((n, q)) => if q + n <= s.len() {
            Some((s.subrange(q, q + n), q + n))
        } else {
            None
        },
        None => None,
    }
}

/// A string stored as the length-prefixed bytes of its UTF-8 encoding.
pub open spec fn str_enc(s: Seq<char>) -> Seq<u8> {
    chunk_enc(encode_utf8(s))
}

/// Reads a length-prefixed UTF-8 string at position `p`.
pub open spec fn read_str(s: Seq<u8>, p: int) -> Option<(Seq<char>, int)> {
    match read_chunk(s, p) {
        Some((b, q)) => if valid_utf8(b) {
            Some((decode_utf8(b), q))
        } else {
            None
        },
        None => None,
    }
}

proof fn lemma_u32_recompose(n: u32)
    ensures
        combine_u32((n >> 24) as u8, (n >> 16) as u8, (n >> 8) as u8, n as u8) == n,
{
    assert((((((n >> 24) as u8) as u32) << 24) | ((((n >> 16) as u8) as u32) << 16) | ((((n
        >> 8) as u8) as u32) << 8) | ((n as u8) as u32)) == n) by (bit_vector);
}

proof fn lemma_u64_recompose(n: u64)
    ensures
        combine_u64(u64_be(n)) == n,
{
    assert((((((n >> 56) as u8) as u64) << 56) | ((((n >> 48) as u8) as u64) << 48) | ((((n
        >> 40) as u8) as u64) << 40) | ((((n >> 32) as u8) as u64) << 32) | ((((n >> 24) as u8)
        as u64) << 24) | ((((n >> 16) as u8) as u64) << 16) | ((((n >> 8) as u8) as u64) << 8) | ((
    n as u8) as u64)) == n) by (bit_vector);
}

/// Reading a `u32` where one was written yields it back.
pub proof fn lemma_read_u32_at(s: Seq<u8>, p: int, n: u32)
    requires
        0 <= p,
        p + 4 <= s.len(),
        s.subrange(p, p + 4) == u32_be(n),
    ensures
        read_u32(s, p) == Some((n, p + 4)),
{
    assert(s[p] == u32_be(n)[0]);
    assert(s[p + 1] == u32_be(n)[1]);
    assert(s[p + 2] == u32_be(n)[2]);
    assert(s[p + 3] == u32_be(n)[3]);
    lemma_u32_recompose(n);
}

/// Reading a `u64` where one was written yields it back.
pub proof fn lemma_read_u64_at(s: Seq<u8>, p: int, n: u64)
    requires
        0 <= p,
        p + 8 <= s.len(),
        s.subrange(p, p + 8) == u64_be(n),
    ensures
        read_u64(s, p) == Some((n, p + 8)),
{
    lemma_u64_recompose(n);
}

/// Reading a chunk where one was written yields the payload back.
pub proof fn lemma_read_chunk_at(s: Seq<u8>, p: int, b: Seq<u8>)
    requires
        0 <= p,
        b.len() <= u64::MAX,
        p + chunk_enc(b).len() <= s.len(),
        s.subrange(p, p + chunk_enc(b).len() as int) == chunk_enc(b),
    ensures
        read_chunk(s, p) == Some((b, p + 8 + b.len())),
{
    let whole = s.subrange(p, p + chunk_enc(b).len() as int);
    assert(s.subrange(p, p + 8) =~= whole.subrange(0, 8));
    assert(whole.subrange(0, 8) =~= u64_be(b.len() as u64));
    lemma_read_u64_at(s, p, b.len() as u64);
    assert(s.subrange(p + 8, p + 8 + b.len()) =~= whole.subrange(8, 8 + b.len() as int));
    assert(whole.subrange(8, 8 + b.len() as int) =~= b);
}

/// Reading a string where one was written yields it back.
pub proof fn lemma_read_str_at(s: Seq<u8>, p: int, t: Seq<char>)
    requires
        0 <= p,
        encode_utf8(t).len() <= u64::MAX,
        p + str_enc(t).len() <= s.len(),
        s.subrange(p, p + str_enc(t).len() as int) == str_enc(t),
    ensures
        read_str(s, p) == Some((t, p + str_enc(t).len())),
{
    lemma_read_chunk_at(s, p, encode_utf8(t));
    encode_utf8_valid_utf8(t);
    encode_utf8_decode_utf8(t);
}

/// Appends the big-endian bytes of `n`.
pub fn write_u32(out: &mut Vec<u8>, n: u32)
    ensures
        final(out)@ == old(out)@ + u32_be(n),
{
    out.push((n >> 24) as u8);
    out.push(#[verifier::truncate] ((n >> 16) as u8));
    out.push(#[verifier::truncate] ((n >> 8) as u8));
    out.push(#[verifier::truncate] (n as u8));
    assert(out@ =~= old(out)@ + u32_be(n));
}

/// Appends the big-endian bytes of `n`.
pub fn write_u64(out: &mut Vec<u8>, n: u64)
    ensures
        final(out)@ == old(out)@ + u64_be(n),
{
    out.push((n >> 56) as u8);
    out.push(#[verifier::truncate] ((n >> 48) as u8));
    out.push(#[verifier::truncate] ((n >> 40) as u8));
    out.push(#[verifier::truncate] ((n >> 32) as u8));
    out.push(#[verifier::truncate] ((n >> 24) as u8));
    out.push(#[verifier::truncate] ((n >> 16) as u8));
    out.push(#[verifier::truncate] ((n >> 8) as u8));
    out.push(#[verifier::truncate] (n as u8));
    assert(out@ =~= old(out)@ + u64_be(n));
}

/// Appends every byte of `b`.
pub fn write_bytes(out: &mut Vec<u8>, b: &Vec<u8>)
    ensures
        final(out)@ == old(out)@ + b@,
{
    let mut i: usize = 0;
    while i < b.len()
        invariant
            i <= b.len(),
            out@ == old(out)@ + b@.take(i as int),
        decreases b.len() - i,
    {
        out.push(b[i]);
        i = i + 1;
        assert(out@ =~= old(out)@ + b@.take(i as int));
    }
    assert(out@ =~= old(out)@ + b@);
}

/// Appends a length-prefixed byte field.
pub fn write_chunk(out: &mut Vec<u8>, b: &Vec<u8>)
    ensures
        final(out)@ == old(out)@ + chunk_enc(b@),
{
    let n: u64 = b.len() as u64;
    assert(n == b@.len());
    write_u64(out, n);
    write_bytes(out, b);
    assert(out@ =~= old(out)@ + chunk_enc(b@));
}

/// Appends a length-prefixed UTF-8 string.
pub fn write_str(out: &mut Vec<u8>, s: &String)
    ensures
        final(out)@ == old(out)@ + str_enc(s@),
{
    let b = vstd::string::StrSliceExecFns::as_bytes_vec(s.as_str());
    write_chunk(out, &b);
}

/// Bytes of `v` from `a` (inclusive) to `b` (exclusive).
pub fn sub_vec(v: &Vec<u8>, a: usize, b: usize) -> (r: Vec<u8>)
    requires
        a <= b <= v@.len(),
    ensures
        r@ == v@.subrange(a as int, b as int),
{
    let mut r: Vec<u8> = Vec::new();
    let mut i: usize = a;
    while i < b
        invariant
            a <= i <= b <= v@.len(),
            r@ == v@.subrange(a as int, i as int),
        decreases b - i,
    {
        r.push(v[i]);
        i = i + 1;
        assert(r@ =~= v@.subrange(a as int, i as int));
    }
    r
}

/// True when the two byte vectors hold the same bytes.
pub fn bytes_eq(a: &Vec<u8>, b: &Vec<u8>) -> (r: bool)
    ensures
        r <==> a@ == b@,
{
    if a.len() != b.len() {
        assert(a@ !~= b@);
        return false;
    }
    let mut i: usize = 0;
    while i < a.len()
        invariant
            i <= a@.len(),
            a@.len() == b@.len(),
            forall|j: int| 0 <= j < i ==> a@[j] == b@[j],
        decreases a@.len() - i,
    {
        if a[i] != b[i] {
            return false;
        }
        i = i + 1;
    }
    assert(a@ =~= b@);
    true
}

/// True when `p` is a byte prefix of `s`.
pub fn bytes_starts_with(s: &Vec<u8>, p: &Vec<u8>) -> (r: bool)
    ensures
        r <==> is_prefix_of(p@, s@),
{
    if p.len() > s.len() {
        return false;
    }
    let mut i: usize = 0;
    while i < p.len()
        invariant
            i <= p@.len() <= s@.len(),
            forall|j: int| 0 <= j < i ==> s@[j] == p@[j],
        decreases p@.len() - i,
    {
        if s[i] != p[i] {
            assert(s@.take(p@.len() as int)[i as int] != p@[i as int]);
            return false;
        }
        i = i + 1;
    }
    assert(s@.take(p@.len() as int) =~= p@);
    true
}

/// Relies on `String::from_utf8`: it succeeds exactly on valid UTF-8 input
/// and returns the string whose characters are that input's decoding.
#[verifier::external_body]
pub fn string_from_utf8(b: Vec<u8>) -> (r: Option<String>)
    ensures
        r is Some <==> valid_utf8(b@),
        r matches Some(s) ==> s@ == decode_utf8(b@),
{
    String::from_utf8(b).ok()
}

/// Reads a big-endian `u32` at position `p`.
pub fn read_u32_at(s: &Vec<u8>, p: usize) -> (r: Option<(u32, usize)>)
    ensures
        match r {
            Some((n, q)) => read_u32(s@, p as int) == Some((n, q as int)),
            None => read_u32(s@, p as int) is None,
        },
{
    if p < s.len() && 4 <= s.len() - p {
        let n: u32 = (((s[p] as u32) << 24) | ((s[p + 1] as u32) << 16) | ((s[p + 2] as u32) << 8)
            | (s[p + 3] as u32));
        Some((n, p + 4))
    } else {
        None
    }
}

/// Reads a big-endian `u64` at position `p`.
pub fn read_u64_at(s: &Vec<u8>, p: usize) -> (r: Option<(u64, usize)>)
    ensures
        match r {
            Some((n, q)) => read_u64(s@, p as int) == Some((n, q as int)),
            None => read_u64(s@, p as int) is None,
        },
{
    if p < s.len() && 8 <= s.len() - p {
        let n: u64 = (((s[p] as u64) << 56) | ((s[p + 1] as u64) << 48) | ((s[p + 2] as u64) << 40)
            | ((s[p + 3] as u64) << 32) | ((s[p + 4] as u64) << 24) | ((s[p + 5] as u64) << 16) | ((
        s[p + 6] as u64) << 8) | (s[p + 7] as u64));
        proof {
            let b = s@.subrange(p as int, p + 8);
            assert(b[0] == s@[p as int] && b[1] == s@[p + 1] && b[2] == s@[p + 2] && b[3] == s@[p
                + 3] && b[4] == s@[p + 4] && b[5] == s@[p + 5] && b[6] == s@[p + 6] && b[7] == s@[p
                + 7]);
        }
        Some((n, p + 8))
    } else {
        None
    }
}

/// Reads a length-prefixed byte field at position `p`.
pub fn read_chunk_at(s: &Vec<u8>, p: usize) -> (r: Option<(Vec<u8>, usize)>)
    ensures
        match r {
            Some((b, q)) => read_chunk(s@, p as int) == Some((b@, q as int)),
            None => read_chunk(s@, p as int) is None,
        },
{
    match read_u64_at(s, p) {
        Some((n, q)) => {
            if n <= (s.len() - q) as u64 {
                let end: usize = q + (n as usize);
                let b = sub_vec(s, q, end);
                Some((b, end))
            } else {
                None
            }
        },
        None => None,
    }
}

/// Reads a length-prefixed UTF-8 string at position `p`.
pub fn read_str_at(s: &Vec<u8>, p: usize) -> (r: Option<(String, usize)>)
    ensures
        match r {
            Some((t, q)) => read_str(s@, p as int) == Some((t@, q as int)),
            None => read_str(s@, p as int) is None,
        },
{
    match read_chunk_at(s, p) {
        Some((b, q)) => {
            let ghost bs = b@;
            match string_from_utf8(b) {
                Some(t) => Some((t, q)),
                None => None,
            }
        },
        None => None,
    }
}


/// Lexicographic order is transitive.
pub proof fn lemma_lex_lt_trans(a: Seq<u8>, b: Seq<u8>, c: Seq<u8>)
    requires
        lex_lt(a, b),
        lex_lt(b, c),
    ensures
        lex_lt(a, c),
    decreases a.len(),
{
    if a.len() == 0 {
    } else {
        if a[0] == b[0] && b[0] == c[0] {
            lemma_lex_lt_trans(a.skip(1), b.skip(1), c.skip(1));
        }
    }
}

/// Prepending a common prefix preserves lexicographic order.
pub proof fn lemma_lex_lt_append(p: Seq<u8>, a: Seq<u8>, b: Seq<u8>)
    requires
        lex_lt(a, b),
    ensures
        lex_lt(p + a, p + b),
    decreases p.len(),
{
    if p.len() == 0 {
        assert(p + a =~= a);
        assert(p + b =~= b);
    } else {
        lemma_lex_lt_append(p.skip(1), a, b);
        assert((p + a)[0] == p[0]);
        assert((p + b)[0] == p[0]);
        assert((p + a).skip(1) =~= p.skip(1) + a);
        assert((p + b).skip(1) =~= p.skip(1) + b);
    }
}

/// Big-endian encoding preserves numeric order in the byte order.
pub proof fn lemma_u32_be_order(a: u32, b: u32)
    requires
        a < b,
    ensures
        lex_lt(u32_be(a), u32_be(b)),
{
    assert(a < b ==> ((a >> 24) as u8) <= ((b >> 24) as u8)) by (bit_vector);
    assert(a < b && ((a >> 24) as u8) == ((b >> 24) as u8) ==> ((a >> 16) as u8) <= ((b
        >> 16) as u8)) by (bit_vector);
    assert(a < b && ((a >> 24) as u8) == ((b >> 24) as u8) && ((a >> 16) as u8) == ((b
        >> 16) as u8) ==> ((a >> 8) as u8) <= ((b >> 8) as u8)) by (bit_vector);
    assert(a < b && ((a >> 24) as u8) == ((b >> 24) as u8) && ((a >> 16) as u8) == ((b
        >> 16) as u8) && ((a >> 8) as u8) == ((b >> 8) as u8) ==> (a as u8) < (b
        as u8)) by (bit_vector);
    let x = u32_be(a);
    let y = u32_be(b);
    assert(x.skip(1) =~= seq![#[verifier::truncate] ((a >> 16) as u8), #[verifier::truncate] ((a >> 8) as u8), #[verifier::truncate] (a as u8)]);
    assert(y.skip(1) =~= seq![#[verifier::truncate] ((b >> 16) as u8), #[verifier::truncate] ((b >> 8) as u8), #[verifier::truncate] (b as u8)]);
    assert(x.skip(1).skip(1) =~= seq![#[verifier::truncate] ((a >> 8) as u8), #[verifier::truncate] (a as u8)]);
    assert(y.skip(1).skip(1) =~= seq![#[verifier::truncate] ((b >> 8) as u8), #[verifier::truncate] (b as u8)]);
    assert(x.skip(1).skip(1).skip(1) =~= seq![#[verifier::truncate] (a as u8)]);
    assert(y.skip(1).skip(1).skip(1) =~= seq![#[verifier::truncate] (b as u8)]);
    if x[0] < y[0] {
        assert(lex_lt(x, y));
    } else {
        assert(x[0] == y[0]);
        if x.skip(1)[0] < y.skip(1)[0] {
            assert(lex_lt(x.skip(1), y.skip(1)));
        } else {
            assert(x.skip(1)[0] == y.skip(1)[0]);
            if x.skip(1).skip(1)[0] < y.skip(1).skip(1)[0] {
                assert(lex_lt(x.skip(1).skip(1), y.skip(1).skip(1)));
            } else {
                assert(x.skip(1).skip(1)[0] == y.skip(1).skip(1)[0]);
                assert(x.skip(1).skip(1).skip(1)[0] < y.skip(1).skip(1).skip(1)[0]);
                assert(lex_lt(x.skip(1).skip(1).skip(1), y.skip(1).skip(1).skip(1)));
                assert(lex_lt(x.skip(1).skip(1), y.skip(1).skip(1)));
            }
            assert(lex_lt(x.skip(1), y.skip(1)));
        }
        assert(lex_lt(x, y));
    }
}

/// A four-byte key is exactly the big-endian encoding of its reading.
pub proof fn lemma_u32_be_of_bytes(s: Seq<u8>)
    requires
        s.len() == 4,
    ensures
        u32_be(combine_u32(s[0], s[1], s[2], s[3])) == s,
{
    let b0 = s[0];
    let b1 = s[1];
    let b2 = s[2];
    let b3 = s[3];
    assert(((((b0 as u32) << 24) | ((b1 as u32) << 16) | ((b2 as u32) << 8) | (b3 as u32))
        >> 24) as u8 == b0) by (bit_vector);
    assert(((((b0 as u32) << 24) | ((b1 as u32) << 16) | ((b2 as u32) << 8) | (b3 as u32))
        >> 16) as u8 == b1) by (bit_vector);
    assert(((((b0 as u32) << 24) | ((b1 as u32) << 16) | ((b2 as u32) << 8) | (b3 as u32))
        >> 8) as u8 == b2) by (bit_vector);
    assert(((((b0 as u32) << 24) | ((b1 as u32) << 16) | ((b2 as u32) << 8) | (b3
        as u32))) as u8 == b3) by (bit_vector);
    assert(u32_be(combine_u32(s[0], s[1], s[2], s[3])) =~= s);
}


/// Reads the rest of the buffer from `p` as a UTF-8 string: the form a
/// record's trailing text field takes.
pub open spec fn read_tail_str(s: Seq<u8>, p: int) -> Option<Seq<char>> {
    if 0 <= p <= s.len() {
        let b = s.subrange(p, s.len() as int);
        if valid_utf8(b) {
            Some(decode_utf8(b))
        } else {
            None
        }
    } else {
        None
    }
}

/// Reading a trailing string where one was written yields it back.
pub proof fn lemma_read_tail_str_at(s: Seq<u8>, p: int, t: Seq<char>)
    requires
        0 <= p <= s.len(),
        s.subrange(p, s.len() as int) == encode_utf8(t),
    ensures
        read_tail_str(s, p) == Some(t),
{
    encode_utf8_valid_utf8(t);
    encode_utf8_decode_utf8(t);
}

/// Reads the rest of the buffer from `p` as a UTF-8 string.
pub fn read_tail_str_at(s: &Vec<u8>, p: usize) -> (r: Option<String>)
    ensures
        match r {
            Some(t) => read_tail_str(s@, p as int) == Some(t@),
            None => read_tail_str(s@, p as int) is None,
        },
{
    if p <= s.len() {
        let b = sub_vec(s, p, s.len());
        string_from_utf8(b)
    } else {
        None
    }
}

} // verus!
