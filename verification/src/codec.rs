//! The wire encoding of records: `bincode` with fixed-width little-endian
//! integers, where trailing bytes after a value are ignored.
//!
//! Numbers and byte strings go through `bincode` itself; records, options,
//! enumerations and lists are put together from them, field after field. An
//! option is a tag byte and the value, an enumeration the number of its
//! variant in four bytes and the fields, a list its length in eight bytes and
//! the items.
use crate::bytes;
use vstd::prelude::*;

verus! {

/// One byte, and what follows it.
pub open spec fn dec_u8(b: Seq<u8>) -> Option<(u8, Seq<u8>)> {
    if b.len() >= 1 {
        Some((b[0], b.skip(1)))
    } else {
        None
    }
}

/// A four-byte number, and what follows it.
pub open spec fn dec_u32(b: Seq<u8>) -> Option<(u32, Seq<u8>)> {
    if b.len() >= 4 {
        Some((bytes::le_value(b.take(4)) as u32, b.skip(4)))
    } else {
        None
    }
}

/// An eight-byte number, and what follows it.
pub open spec fn dec_u64(b: Seq<u8>) -> Option<(u64, Seq<u8>)> {
    if b.len() >= 8 {
        Some((bytes::le_value(b.take(8)) as u64, b.skip(8)))
    } else {
        None
    }
}

/// A byte string behind its length, and what follows it.
pub open spec fn dec_bytes(b: Seq<u8>) -> Option<(Seq<u8>, Seq<u8>)> {
    match dec_u64(b) {
        Some((n, rest)) => if n <= rest.len() {
            Some((rest.take(n as int), rest.skip(n as int)))
        } else {
            None
        },
        None => None,
    }
}

/// The encoding of a byte.
pub open spec fn enc_u8(x: u8) -> Seq<u8> {
    seq![x]
}

/// The encoding of a four-byte number.
pub open spec fn enc_u32(x: u32) -> Seq<u8> {
    bytes::le_bytes(x as nat, 4)
}

/// The encoding of an eight-byte number.
pub open spec fn enc_u64(x: u64) -> Seq<u8> {
    bytes::le_bytes(x as nat, 8)
}

/// The encoding of a byte string.
pub open spec fn enc_bytes(s: Seq<u8>) -> Seq<u8> {
    bytes::le_bytes(s.len(), 8) + s
}

// ----------------------------------------------------------------------
// bincode
// ----------------------------------------------------------------------
/// `bincode::serialize` of a `u8`: that byte.
#[verifier::external_body]
fn serialize_u8(x: u8) -> (r: Vec<u8>)
    ensures
        r@ == enc_u8(x),
{
    bincode::serialize(&x).unwrap()
}

/// `bincode::serialize` of a `u32`: its four bytes, least significant first.
#[verifier::external_body]
fn serialize_u32(x: u32) -> (r: Vec<u8>)
    ensures
        r@ == enc_u32(x),
{
    bincode::serialize(&x).unwrap()
}

/// `bincode::serialize` of a `u64`: its eight bytes, least significant first.
#[verifier::external_body]
fn serialize_u64(x: u64) -> (r: Vec<u8>)
    ensures
        r@ == enc_u64(x),
{
    bincode::serialize(&x).unwrap()
}

/// `bincode::serialize` of a byte slice: its length as a `u64`, then the bytes.
#[verifier::external_body]
fn serialize_bytes(x: &[u8]) -> (r: Vec<u8>)
    ensures
        r@ == enc_bytes(x@),
{
    bincode::serialize(x).unwrap()
}

/// `bincode::deserialize` of a `u8`: the first byte, if there is one.
#[verifier::external_body]
fn deserialize_u8(b: &[u8]) -> (r: Option<u8>)
    ensures
        r == (match dec_u8(b@) {
            Some((x, _)) => Some(x),
            None => None,
        }),
{
    bincode::deserialize::<u8>(b).ok()
}

/// `bincode::deserialize` of a `u32`: the number in the first four bytes, if
/// there are that many.
#[verifier::external_body]
fn deserialize_u32(b: &[u8]) -> (r: Option<u32>)
    ensures
        r == (match dec_u32(b@) {
            Some((x, _)) => Some(x),
            None => None,
        }),
{
    bincode::deserialize::<u32>(b).ok()
}

/// `bincode::deserialize` of a `u64`: the number in the first eight bytes, if
/// there are that many.
#[verifier::external_body]
fn deserialize_u64(b: &[u8]) -> (r: Option<u64>)
    ensures
        r == (match dec_u64(b@) {
            Some((x, _)) => Some(x),
            None => None,
        }),
{
    bincode::deserialize::<u64>(b).ok()
}

/// `bincode::deserialize` of a `Vec<u8>`: as many bytes as the leading `u64`
/// says, if they are there.
#[verifier::external_body]
fn deserialize_bytes(b: &[u8]) -> (r: Option<Vec<u8>>)
    ensures
        bytes::value_view(r) == (match dec_bytes(b@) {
            Some((x, _)) => Some(x),
            None => None,
        }),
{
    bincode::deserialize::<Vec<u8>>(b).ok()
}

// ----------------------------------------------------------------------
// Writing
// ----------------------------------------------------------------------
/// Appends a byte.
pub fn put_u8(out: &mut Vec<u8>, x: u8)
    ensures
        final(out)@ == old(out)@ + enc_u8(x),
{
    let part = serialize_u8(x);
    bytes::append_bytes(out, part.as_slice());
}

/// Appends a four-byte number.
pub fn put_u32(out: &mut Vec<u8>, x: u32)
    ensures
        final(out)@ == old(out)@ + enc_u32(x),
{
    let part = serialize_u32(x);
    bytes::append_bytes(out, part.as_slice());
}

/// Appends an eight-byte number.
pub fn put_u64(out: &mut Vec<u8>, x: u64)
    ensures
        final(out)@ == old(out)@ + enc_u64(x),
{
    let part = serialize_u64(x);
    bytes::append_bytes(out, part.as_slice());
}

/// Appends a byte string behind its length.
pub fn put_bytes(out: &mut Vec<u8>, x: &[u8])
    ensures
        final(out)@ == old(out)@ + enc_bytes(x@),
{
    let part = serialize_bytes(x);
    bytes::append_bytes(out, part.as_slice());
}

// ----------------------------------------------------------------------
// Reading
// ----------------------------------------------------------------------
/// Reads a byte at `at`; the value ends one byte further.
pub fn get_u8(b: &[u8], at: usize) -> (r: Option<u8>)
    requires
        at <= b@.len(),
    ensures
        dec_u8(b@.skip(at as int)) == (match r {
            Some(x) => Some((x, b@.skip(at + 1))),
            None => None,
        }),
        r is Some ==> at + 1 <= b@.len() <= usize::MAX,
{
    let tail = vstd::slice::slice_subrange(b, at, b.len());
    assert(tail@ =~= b@.skip(at as int));
    assert(tail@.len() >= 1 ==> tail@.skip(1) =~= b@.skip(at + 1));
    deserialize_u8(tail)
}

/// Reads a four-byte number at `at`; it ends four bytes further.
pub fn get_u32(b: &[u8], at: usize) -> (r: Option<u32>)
    requires
        at <= b@.len(),
    ensures
        dec_u32(b@.skip(at as int)) == (match r {
            Some(x) => Some((x, b@.skip(at + 4))),
            None => None,
        }),
        r is Some ==> at + 4 <= b@.len() <= usize::MAX,
{
    let tail = vstd::slice::slice_subrange(b, at, b.len());
    assert(tail@ =~= b@.skip(at as int));
    assert(tail@.len() >= 4 ==> tail@.skip(4) =~= b@.skip(at + 4));
    deserialize_u32(tail)
}

/// Reads an eight-byte number at `at`; it ends eight bytes further.
pub fn get_u64(b: &[u8], at: usize) -> (r: Option<u64>)
    requires
        at <= b@.len(),
    ensures
        dec_u64(b@.skip(at as int)) == (match r {
            Some(x) => Some((x, b@.skip(at + 8))),
            None => None,
        }),
        r is Some ==> at + 8 <= b@.len() <= usize::MAX,
{
    let tail = vstd::slice::slice_subrange(b, at, b.len());
    assert(tail@ =~= b@.skip(at as int));
    assert(tail@.len() >= 8 ==> tail@.skip(8) =~= b@.skip(at + 8));
    deserialize_u64(tail)
}

/// Reads a byte string at `at`; it ends eight bytes and its length further.
pub fn get_bytes(b: &[u8], at: usize) -> (r: Option<Vec<u8>>)
    requires
        at <= b@.len(),
    ensures
        dec_bytes(b@.skip(at as int)) == (match r {
            Some(x) => Some((x@, b@.skip(at + 8 + x@.len()))),
            None => None,
        }),
        r is Some ==> at + 8 + r->0@.len() <= b@.len() <= usize::MAX,
{
    let tail = vstd::slice::slice_subrange(b, at, b.len());
    assert(tail@ =~= b@.skip(at as int));
    let r = deserialize_bytes(tail);
    proof {
        if let Some((n, rest)) = dec_u64(tail@) {
            if n <= rest.len() {
                assert(rest.skip(n as int) =~= b@.skip(at + 8 + n as int));
            }
        }
    }
    r
}

// ----------------------------------------------------------------------
// Round trips
// ----------------------------------------------------------------------
/// A number that was written is read back, and what follows is untouched.
pub proof fn lemma_u32_round_trip(x: u32, rest: Seq<u8>)
    ensures
        dec_u32(enc_u32(x) + rest) == Some((x, rest)),
{
    let b = enc_u32(x) + rest;
    bytes::lemma_le_bytes_len(x as nat, 4);
    bytes::lemma_pow256();
    bytes::lemma_le_round_trip(x as nat, 4);
    assert(b.take(4) =~= enc_u32(x));
    assert(b.skip(4) =~= rest);
}

/// A number that was written is read back, and what follows is untouched.
pub proof fn lemma_u64_round_trip(x: u64, rest: Seq<u8>)
    ensures
        dec_u64(enc_u64(x) + rest) == Some((x, rest)),
{
    let b = enc_u64(x) + rest;
    bytes::lemma_le_bytes_len(x as nat, 8);
    bytes::lemma_pow256();
    bytes::lemma_le_round_trip(x as nat, 8);
    assert(b.take(8) =~= enc_u64(x));
    assert(b.skip(8) =~= rest);
}

/// A byte that was written is read back, and what follows is untouched.
pub proof fn lemma_u8_round_trip(x: u8, rest: Seq<u8>)
    ensures
        dec_u8(enc_u8(x) + rest) == Some((x, rest)),
{
    assert((enc_u8(x) + rest).skip(1) =~= rest);
}

/// A byte string that was written is read back, and what follows is untouched.
pub proof fn lemma_bytes_round_trip(s: Seq<u8>, rest: Seq<u8>)
    requires
        s.len() <= u64::MAX,
    ensures
        dec_bytes(enc_bytes(s) + rest) == Some((s, rest)),
{
    let n = s.len() as u64;
    lemma_u64_round_trip(n, s + rest);
    assert(enc_bytes(s) + rest =~= enc_u64(n) + (s + rest));
    assert((s + rest).take(n as int) =~= s);
    assert((s + rest).skip(n as int) =~= rest);
}

// ----------------------------------------------------------------------
// Lists of numbers
// ----------------------------------------------------------------------
/// The encodings of the numbers, one after the other.
pub open spec fn enc_u64_items(s: Seq<u64>) -> Seq<u8>
    decreases s.len(),
{
    if s.len() == 0 {
        Seq::empty()
    } else {
        enc_u64_items(s.drop_last()) + enc_u64(s.last())
    }
}

/// The encoding of a list of numbers.
pub open spec fn enc_u64s(s: Seq<u64>) -> Seq<u8> {
    bytes::le_bytes(s.len(), 8) + enc_u64_items(s)
}

/// `n` numbers, and what follows them.
pub open spec fn dec_u64_items(b: Seq<u8>, n: nat) -> Option<(Seq<u64>, Seq<u8>)>
    decreases n,
{
    if n == 0 {
        Some((Seq::empty(), b))
    } else {
        match dec_u64_items(b, (n - 1) as nat) {
            Some((items, rest)) => match dec_u64(rest) {
                Some((x, after)) => Some((items.push(x), after)),
                None => None,
            },
            None => None,
        }
    }
}

/// A list of numbers, and what follows it.
pub open spec fn dec_u64s(b: Seq<u8>) -> Option<(Seq<u64>, Seq<u8>)> {
    match dec_u64(b) {
        Some((n, rest)) => dec_u64_items(rest, n as nat),
        None => None,
    }
}

/// Where too few items can be read, more cannot be read either.
pub proof fn lemma_dec_u64_items_none(b: Seq<u8>, n: nat, m: nat)
    requires
        n <= m,
        dec_u64_items(b, n) is None,
    ensures
        dec_u64_items(b, m) is None,
    decreases m,
{
    if n < m {
        lemma_dec_u64_items_none(b, n, (m - 1) as nat);
    }
}

/// A list of numbers that was written is read back.
pub proof fn lemma_u64s_round_trip(s: Seq<u64>, rest: Seq<u8>)
    requires
        s.len() <= u64::MAX,
    ensures
        dec_u64s(enc_u64s(s) + rest) == Some((s, rest)),
{
    lemma_u64_round_trip(s.len() as u64, enc_u64_items(s) + rest);
    assert(enc_u64s(s) + rest =~= enc_u64(s.len() as u64) + (enc_u64_items(s) + rest));
    lemma_u64_items_round_trip(s, rest);
}

proof fn lemma_u64_items_round_trip(s: Seq<u64>, rest: Seq<u8>)
    ensures
        dec_u64_items(enc_u64_items(s) + rest, s.len()) == Some((s, rest)),
    decreases s.len(),
{
    if s.len() == 0 {
        assert(enc_u64_items(s) + rest =~= rest);
        assert(s =~= Seq::empty());
    } else {
        let x = s.last();
        lemma_u64_items_round_trip(s.drop_last(), enc_u64(x) + rest);
        assert(enc_u64_items(s) + rest =~= enc_u64_items(s.drop_last()) + (enc_u64(x) + rest));
        lemma_u64_round_trip(x, rest);
        assert(s.drop_last().push(x) =~= s);
    }
}

/// Appends a list of numbers.
pub fn put_u64s(out: &mut Vec<u8>, s: &[u64])
    ensures
        final(out)@ == old(out)@ + enc_u64s(s@),
{
    put_u64(out, s.len() as u64);
    let ghost start = out@;
    let mut i: usize = 0;
    while i < s.len()
        invariant
            i <= s@.len(),
            out@ == start + enc_u64_items(s@.take(i as int)),
        decreases s@.len() - i,
    {
        put_u64(out, s[i]);
        assert(s@.take(i + 1).drop_last() =~= s@.take(i as int));
        i = i + 1;
    }
    assert(s@.take(i as int) =~= s@);
    assert(out@ =~= old(out)@ + enc_u64s(s@));
}

/// Reads a list of numbers at `at`, with the place where it ends.
pub fn get_u64s(b: &[u8], at: usize) -> (r: Option<(Vec<u64>, usize)>)
    requires
        at <= b@.len(),
    ensures
        dec_u64s(b@.skip(at as int)) == (match r {
            Some((v, end)) => Some((v@, b@.skip(end as int))),
            None => None,
        }),
        r matches Some((_, end)) ==> end <= b@.len(),
{
    let n: u64 = match get_u64(b, at) {
        Some(n) => n,
        None => return None,
    };
    let ghost body = b@.skip(at + 8);
    let mut pos: usize = at + 8;
    let mut v: Vec<u64> = Vec::new();
    let mut i: u64 = 0;
    while i < n
        invariant
            i <= n,
            pos <= b@.len(),
            dec_u64_items(body, i as nat) == Some((v@, b@.skip(pos as int))),
            dec_u64s(b@.skip(at as int)) == dec_u64_items(body, n as nat),
        decreases n - i,
    {
        let x: u64 = match get_u64(b, pos) {
            Some(x) => x,
            None => {
                proof {
                    assert(dec_u64_items(body, (i + 1) as nat) is None);
                    lemma_dec_u64_items_none(body, (i + 1) as nat, n as nat);
                }
                return None;
            },
        };
        v.push(x);
        pos = pos + 8;
        i = i + 1;
    }
    Some((v, pos))
}

} // verus!
