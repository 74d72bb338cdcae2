//! Anchor-based paging over a sorted sequence of document identifiers.

use crate::backend::{is_scan_result, MemoryStore};
use crate::bitmap::{bitmap_and, bitmap_contains, bitmap_ids, bitmap_set};
use crate::codec::{from_be32, read_u32};
use crate::keys::{IndexKeyPrefix, Key, SUBSPACE_INDEXES};
use crate::order::{has_prefix, starts_with};
use crate::resolve::{index_prefix, scan_index_from};
use crate::query::SortedResultRet;
use roaring::RoaringBitmap;
use vstd::prelude::*;

verus! {

/// `a` is the first position of `anchor` in `ids`.
pub open spec fn is_anchor_at(ids: Seq<u32>, anchor: u32, a: int) -> bool {
    0 <= a < ids.len() && ids[a] == anchor && forall|j: int| 0 <= j < a ==> ids[j] != anchor
}

/// The window `[start, end)` of the page next to the anchor at `a`: the
/// `limit` identifiers after it when paging forward, before it otherwise.
pub open spec fn page_window(len: int, a: int, limit: int, forward: bool) -> (int, int) {
    if forward {
        (a + 1, if a + 1 + limit < len {
            a + 1 + limit
        } else {
            len
        })
    } else {
        (if a - limit > 0 {
            a - limit
        } else {
            0
        }, a)
    }
}

/// `r` is the page of `ids` next to `anchor`.
pub open spec fn is_page(ids: Seq<u32>, anchor: u32, limit: int, forward: bool, r: SortedResultRet) -> bool {
    &&& r.found_anchor <==> ids.contains(anchor)
    &&& r.found_anchor ==> exists|a: int|
        {
            &&& #[trigger] is_anchor_at(ids, anchor, a)
            &&& r.position == page_window(ids.len() as int, a, limit, forward).0
            &&& r.ids@ == ids.subrange(
                page_window(ids.len() as int, a, limit, forward).0,
                page_window(ids.len() as int, a, limit, forward).1,
            )
        }
    &&& !r.found_anchor ==> r.position == 0 && r.ids@.len() == 0
}

/// Returns the page of `ids` next to `anchor`, with `position` the zero-based
/// index of the page's first identifier in `ids`. When the anchor is absent,
/// `found_anchor` is false and the page is empty.
pub fn paginate(ids: &Vec<u32>, anchor: u32, limit: usize, forward: bool) -> (r: SortedResultRet)
    requires
        ids@.len() <= i32::MAX,
    ensures
        is_page(ids@, anchor, limit as int, forward, r),
{
    let n = ids.len();
    let mut a: usize = 0;
    while a < n && ids[a] != anchor
        invariant
            n == ids@.len(),
            a <= n,
            forall|j: int| 0 <= j < a ==> ids@[j] != anchor,
        decreases n - a,
    {
        a = a + 1;
    }
    if a == n {
        assert(!ids@.contains(anchor));
        return SortedResultRet { position: 0, ids: Vec::new(), found_anchor: false };
    }
    assert(ids@[a as int] == anchor);
    assert(is_anchor_at(ids@, anchor, a as int));
    let (start, end) = if forward {
        let end = if limit < n - (a + 1) {
            a + 1 + limit
        } else {
            n
        };
        (a + 1, end)
    } else {
        let start = if limit < a {
            a - limit
        } else {
            0
        };
        (start, a)
    };
    let mut page: Vec<u32> = Vec::new();
    let mut k: usize = start;
    while k < end
        invariant
            start <= k <= end <= n,
            n == ids@.len(),
            page@ == ids@.subrange(start as int, k as int),
        decreases end - k,
    {
        page.push(ids[k]);
        assert(ids@.subrange(start as int, k + 1) =~= ids@.subrange(start as int, k as int).push(ids@[k as int]));
        k = k + 1;
    }
    let r = SortedResultRet { position: start as i32, ids: page, found_anchor: true };
    assert(page_window(ids@.len() as int, a as int, limit as int, forward) == (start as int, end as int));
    r
}


/// The document id that ends an index key.
pub open spec fn doc_of(key: Seq<u8>) -> u32 {
    from_be32(key.subrange(key.len() - 4, key.len() as int))
}

/// The document ids of scanned index entries under `prefix` that lie in
/// `set`, in scan order.
pub open spec fn ids_in(s: Seq<(Vec<u8>, Vec<u8>)>, prefix: Seq<u8>, set: Set<u32>) -> Seq<u32>
    decreases s.len(),
{
    if s.len() == 0 {
        Seq::empty()
    } else {
        let k = s.last().0@;
        let rest = ids_in(s.drop_last(), prefix, set);
        if k.len() >= 4 && has_prefix(k, prefix) && set.contains(doc_of(k)) {
            rest.push(doc_of(k))
        } else {
            rest
        }
    }
}

/// The document ids of scanned index entries under `prefix` that are among
/// `results`, in scan order.
pub fn ids_of_entries(entries: &Vec<(Vec<u8>, Vec<u8>)>, prefix: &[u8], results: &RoaringBitmap) -> (r: Vec<u32>)
    ensures
        r@ == ids_in(entries@, prefix@, bitmap_set(*results)),
{
    let mut out: Vec<u32> = Vec::new();
    let mut i: usize = 0;
    while i < entries.len()
        invariant
            i <= entries@.len(),
            out@ == ids_in(entries@.subrange(0, i as int), prefix@, bitmap_set(*results)),
        decreases entries@.len() - i,
    {
        let key = entries[i].0.as_slice();
        proof {
            let s = entries@.subrange(0, i + 1);
            assert(s.drop_last() =~= entries@.subrange(0, i as int));
            assert(s.last() == entries@[i as int]);
        }
        if key.len() >= 4 && starts_with(key, prefix) {
            let doc = read_u32(key, key.len() - 4);
            if bitmap_contains(results, doc) {
                out.push(doc);
            }
        }
        i = i + 1;
    }
    assert(entries@.subrange(0, entries@.len() as int) =~= entries@);
    out
}

/// The documents of `results` in the order of the field's sorted index:
/// by the encoded value, then by document id. For the fixed-width encodings
/// of integers this is the order of the values.
pub fn sort_by_field(
    store: &MemoryStore,
    account_id: u32,
    collection: u8,
    field: u8,
    results: &RoaringBitmap,
    ascending: bool,
) -> (r: Vec<u32>)
    requires
        store.wf(),
    ensures
        exists|s: Seq<(Vec<u8>, Vec<u8>)>|
            {
                &&& #[trigger] is_scan_result(
                    s,
                    store@,
                    index_prefix(account_id, collection, field),
                    seq![(SUBSPACE_INDEXES + 1) as u8],
                    false,
                    ascending,
                    false,
                )
                &&& r@ == ids_in(s, index_prefix(account_id, collection, field), bitmap_set(*results))
            },
{
    let prefix = (IndexKeyPrefix { account_id, collection, field }).serialize(true);
    let entries = scan_index_from(store, &prefix, ascending);
    assert(prefix@ == index_prefix(account_id, collection, field));
    let r = ids_of_entries(&entries, prefix.as_slice(), results);
    assert(is_scan_result(entries@, store@, index_prefix(account_id, collection, field), seq![(SUBSPACE_INDEXES + 1) as u8], false, ascending, false));
    r
}

/// The documents of `results` that are in `set`, in ascending or descending
/// order of identifier.
pub fn sort_by_set(results: &RoaringBitmap, set: &RoaringBitmap, ascending: bool) -> (r: Vec<u32>)
    ensures
        r@.to_set() == bitmap_set(*results).intersect(bitmap_set(*set)),
        forall|i: int, j: int| 0 <= i < j < r@.len() ==> if ascending {
            r@[i] < r@[j]
        } else {
            r@[i] > r@[j]
        },
{
    let both = bitmap_and(results, set);
    let ids = bitmap_ids(&both);
    if ascending {
        return ids;
    }
    let mut out: Vec<u32> = Vec::new();
    let mut i: usize = ids.len();
    while i > 0
        invariant
            i <= ids@.len(),
            out@.len() == ids@.len() - i,
            forall|j: int| 0 <= j < out@.len() ==> out@[j] == ids@[ids@.len() - 1 - j],
        decreases i,
    {
        i = i - 1;
        out.push(ids[i]);
    }
    assert(out@.to_set() =~= ids@.to_set()) by {
        assert forall|x: u32| out@.contains(x) implies ids@.contains(x) by {
            let j = choose|j: int| 0 <= j < out@.len() && out@[j] == x;
            assert(ids@[ids@.len() - 1 - j] == x);
        }
        assert forall|x: u32| ids@.contains(x) implies out@.contains(x) by {
            let j = choose|j: int| 0 <= j < ids@.len() && ids@[j] == x;
            assert(out@[ids@.len() - 1 - j] == x);
        }
    }
    out
}

} // verus!
