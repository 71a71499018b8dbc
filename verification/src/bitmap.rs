//! Sets of numbers that compress well.
use roaring::RoaringBitmap;
use vstd::prelude::*;

verus! {

/// The set of numbers of the crate `roaring`, of which nothing inside is known.
#[verifier::external_type_specification]
#[verifier::external_body]
pub struct ExRoaringBitmap(RoaringBitmap);

/// The numbers that are in the set.
pub uninterp spec fn bitmap_ids(b: RoaringBitmap) -> Set<u32>;

/// How many numbers the parts of the set hold together.
pub uninterp spec fn bitmap_count(b: RoaringBitmap) -> u64;

/// The parts of the set stand in order, none twice, each holds a number, and
/// each has the form that its size asks for. So it is with a set that was made by
/// putting numbers into it; bytes may say otherwise.
pub uninterp spec fn bitmap_whole(b: RoaringBitmap) -> bool;

/// The numbers of the set that bytes stand for, if they stand for one.
pub uninterp spec fn bitmap_parsed(b: Seq<u8>) -> Option<Set<u32>>;

/// `RoaringBitmap::from_iter`, which puts the numbers in one after the other: the
/// set holds just these, and is as such sets are.
#[verifier::external_body]
pub(crate) fn bitmap_of(ids: &[u32]) -> (r: RoaringBitmap)
    ensures
        bitmap_ids(r) == ids@.to_set(),
        bitmap_whole(r),
{
    ids.iter().copied().collect()
}

/// `RoaringBitmap::contains`: whether the number is in the set.
#[verifier::external_body]
pub(crate) fn bitmap_has(b: &RoaringBitmap, x: u32) -> (r: bool)
    ensures
        r == bitmap_ids(*b).contains(x),
{
    b.contains(x)
}

/// `RoaringBitmap::len`: how many numbers the parts of the set hold together,
/// which are the numbers of the set where it is whole.
#[verifier::external_body]
pub(crate) fn bitmap_len(b: &RoaringBitmap) -> (r: u64)
    ensures
        r == bitmap_count(*b),
        bitmap_whole(*b) ==> r == bitmap_ids(*b).len(),
{
    b.len()
}

/// `RoaringBitmap::serialize_into` a vector, to which writing does not fail:
/// bytes that stand for the set. It starts with two words that are always there.
#[verifier::external_body]
pub(crate) fn bitmap_bytes(b: &RoaringBitmap) -> (r: Result<Vec<u8>, String>)
    requires
        bitmap_whole(*b),
    ensures
        r is Ok,
        r matches Ok(v) ==> v@.len() >= 8 && bitmap_parsed(v@) == Some(bitmap_ids(*b)),
{
    let mut out = Vec::new();
    match b.serialize_into(&mut out) {
        Ok(()) => Ok(out),
        Err(e) => Err(e.to_string()),
    }
}

/// `RoaringBitmap::deserialize_from`: the set that the bytes stand for, if they
/// stand for one.
#[verifier::external_body]
pub(crate) fn bitmap_parse(b: &[u8]) -> (r: Option<RoaringBitmap>)
    ensures
        r is Some <==> bitmap_parsed(b@) is Some,
        r matches Some(m) ==> bitmap_parsed(b@) == Some(bitmap_ids(m)),
{
    RoaringBitmap::deserialize_from(b).ok()
}

/// The bytes in which a set of numbers is sent.
pub fn filter_bytes(ids: &[u32]) -> (r: Result<Vec<u8>, String>)
    ensures
        r matches Ok(v) && sent_filter(v@) == Some(ids@.to_set()),
{
    let b = bitmap_of(ids);
    bitmap_bytes(&b)
}

/// The set that was sent: no bytes stand for none.
pub open spec fn sent_filter(b: Seq<u8>) -> Option<Set<u32>> {
    if b.len() == 0 {
        None
    } else {
        bitmap_parsed(b)
    }
}

/// The set that was sent.
pub fn read_filter(b: &[u8]) -> (r: Option<RoaringBitmap>)
    ensures
        r is Some <==> sent_filter(b@) is Some,
        r matches Some(m) ==> sent_filter(b@) == Some(bitmap_ids(m)),
{
    if b.len() == 0 {
        return None;
    }
    bitmap_parse(b)
}

/// A set of just these numbers.
pub fn filter_of(ids: &[u32]) -> (r: RoaringBitmap)
    ensures
        bitmap_ids(r) == ids@.to_set(),
        bitmap_whole(r),
{
    bitmap_of(ids)
}

} // verus!
