//! Compressed document-id sets, backed by `roaring::RoaringBitmap`.
//!
//! What a bitmap holds is named by `bitmap_set`; each operation the library
//! uses is a small wrapper whose contract is stated over that name.

use roaring::RoaringBitmap;
use vstd::prelude::*;

verus! {

#[verifier::external_type_specification]
#[verifier::external_body]
pub struct ExRoaringBitmap(RoaringBitmap);

/// The set of identifiers that a bitmap holds.
pub uninterp spec fn bitmap_set(b: RoaringBitmap) -> Set<u32>;

/// Relies on `RoaringBitmap::new`: an empty bitmap.
#[verifier::external_body]
pub(crate) fn bitmap_new() -> (r: RoaringBitmap)
    ensures
        bitmap_set(r) == Set::<u32>::empty(),
{
    RoaringBitmap::new()
}

/// Relies on `RoaringBitmap::insert`: adds one identifier, and returns whether
/// it was absent before.
#[verifier::external_body]
pub(crate) fn bitmap_insert(b: &mut RoaringBitmap, value: u32) -> (r: bool)
    ensures
        bitmap_set(*final(b)) == bitmap_set(*old(b)).insert(value),
        r == !bitmap_set(*old(b)).contains(value),
{
    b.insert(value)
}

/// Relies on `RoaringBitmap::remove`: drops one identifier, and returns
/// whether it was present.
#[verifier::external_body]
pub(crate) fn bitmap_remove(b: &mut RoaringBitmap, value: u32) -> (r: bool)
    ensures
        bitmap_set(*final(b)) == bitmap_set(*old(b)).remove(value),
        r == bitmap_set(*old(b)).contains(value),
{
    b.remove(value)
}

/// Relies on `RoaringBitmap::contains`: membership of one identifier.
#[verifier::external_body]
pub(crate) fn bitmap_contains(b: &RoaringBitmap, value: u32) -> (r: bool)
    ensures
        r == bitmap_set(*b).contains(value),
{
    b.contains(value)
}

/// Relies on `BitAnd` for `&RoaringBitmap`: the intersection of two bitmaps.
#[verifier::external_body]
pub(crate) fn bitmap_and(a: &RoaringBitmap, b: &RoaringBitmap) -> (r: RoaringBitmap)
    ensures
        bitmap_set(r) == bitmap_set(*a).intersect(bitmap_set(*b)),
{
    a & b
}

/// Relies on `BitOr` for `&RoaringBitmap`: the union of two bitmaps.
#[verifier::external_body]
pub(crate) fn bitmap_or(a: &RoaringBitmap, b: &RoaringBitmap) -> (r: RoaringBitmap)
    ensures
        bitmap_set(r) == bitmap_set(*a).union(bitmap_set(*b)),
{
    a | b
}

/// Relies on `Sub` for `&RoaringBitmap`: the identifiers of `a` not in `b`.
#[verifier::external_body]
pub(crate) fn bitmap_sub(a: &RoaringBitmap, b: &RoaringBitmap) -> (r: RoaringBitmap)
    ensures
        bitmap_set(r) == bitmap_set(*a).difference(bitmap_set(*b)),
{
    a - b
}

/// Relies on `RoaringBitmap::clone`: a copy with the same identifiers.
#[verifier::external_body]
pub(crate) fn bitmap_clone(b: &RoaringBitmap) -> (r: RoaringBitmap)
    ensures
        bitmap_set(r) == bitmap_set(*b),
{
    b.clone()
}

/// Relies on `RoaringBitmap::iter`, which yields each identifier once, in
/// ascending order.
#[verifier::external_body]
pub(crate) fn bitmap_to_vec(b: &RoaringBitmap) -> (r: Vec<u32>)
    ensures
        forall|i: int, j: int| 0 <= i < j < r@.len() ==> r@[i] < r@[j],
        forall|x: u32| r@.contains(x) <==> bitmap_set(*b).contains(x),
{
    b.iter().collect()
}

/// Builds a bitmap holding the identifiers of `ids`.
pub fn bitmap_from_ids(ids: &Vec<u32>) -> (r: RoaringBitmap)
    ensures
        bitmap_set(r) == ids@.to_set(),
{
    let mut b = bitmap_new();
    let mut i: usize = 0;
    while i < ids.len()
        invariant
            i <= ids.len(),
            bitmap_set(b) == ids@.subrange(0, i as int).to_set(),
        decreases ids.len() - i,
    {
        bitmap_insert(&mut b, ids[i]);
        proof {
            assert(ids@.subrange(0, i + 1) == ids@.subrange(0, i as int).push(ids@[i as int]));
            ids@.subrange(0, i as int).lemma_push_to_set_commute(ids@[i as int]);
        }
        i = i + 1;
    }
    assert(ids@.subrange(0, ids@.len() as int) == ids@);
    b
}

/// The identifiers of a bitmap, in ascending order.
pub fn bitmap_ids(b: &RoaringBitmap) -> (r: Vec<u32>)
    ensures
        forall|i: int, j: int| 0 <= i < j < r@.len() ==> r@[i] < r@[j],
        r@.to_set() == bitmap_set(*b),
{
    let r = bitmap_to_vec(b);
    assert(r@.to_set() =~= bitmap_set(*b));
    r
}

} // verus!
