//! Running queries against a store: resolving filter leaves through the
//! indexes and bitmaps, evaluating the filter, and sorting and paging the
//! matches.

use crate::backend::{bits_of, is_scan_result, MemoryStore};
use crate::bitmap::{bitmap_clone, bitmap_new, bitmap_set};
use crate::filter::{balanced, evaluate, evaluation};
use crate::keys::{be32, push_bytes, push_u32, with_subspace, SUBSPACE_BITMAPS, SUBSPACE_INDEXES};
use crate::query::{Comparator, Filter, ResultSet, SortedResultRet};
use crate::resolve::{has_keyword, index_matches, index_prefix, keyword_key, match_value};
use crate::sort::{ids_in, is_page, paginate, sort_by_field, sort_by_set};
use crate::Error;
use roaring::RoaringBitmap;
use vstd::prelude::*;

verus! {

/// The key of the bitmap that an `InBitmap` leaf names: the family byte
/// selects the class family, followed by the field and the key bytes.
pub open spec fn in_bitmap_key(account_id: u32, collection: u8, family: u8, field: u8, key: Seq<u8>) -> Seq<u8> {
    with_subspace(
        SUBSPACE_BITMAPS,
        be32(account_id) + seq![collection] + be32(0) + seq![family, field] + key,
        true,
    )
}

/// What a leaf selects in a store with values `m` and bitmaps `bm`.
/// Full-text leaves (`HasText`, `HasKeywords`) are answered by the full-text
/// index, whose answer is `text`; structural tokens and `DocumentSet` (which
/// carries its own set) select nothing here.
pub open spec fn resolves_to(
    m: Map<Seq<u8>, Seq<u8>>,
    bm: Map<Seq<u8>, Set<u32>>,
    account_id: u32,
    collection: u8,
    f: Filter,
    text: Set<u32>,
    r: Set<u32>,
) -> bool {
    match f {
        Filter::MatchValue { field, op, value } => forall|d: u32|
            r.contains(d) <==> index_matches(m, index_prefix(account_id, collection, field), op, value@, d),
        Filter::HasKeyword { field, value } => r == bits_of(bm, keyword_key(account_id, collection, field, value@)),
        Filter::InBitmap { family, field, key } => r == bits_of(
            bm,
            in_bitmap_key(account_id, collection, family, field, key@),
        ),
        Filter::HasKeywords { .. } | Filter::HasText { .. } => r == text,
        _ => r == Set::<u32>::empty(),
    }
}

/// The documents a filter leaf selects in the store.
pub fn resolve_leaf(
    store: &MemoryStore,
    account_id: u32,
    collection: u8,
    f: &Filter,
    text: &RoaringBitmap,
) -> (r: RoaringBitmap)
    requires
        store.wf(),
    ensures
        resolves_to(store@, store.bitmaps(), account_id, collection, *f, bitmap_set(*text), bitmap_set(r)),
{
    match f {
        Filter::MatchValue { field, op, value } => match_value(
            store,
            account_id,
            collection,
            *field,
            *op,
            value.as_slice(),
        ),
        Filter::HasKeyword { field, value } => has_keyword(
            store,
            account_id,
            collection,
            *field,
            value.as_str(),
        ),
        Filter::InBitmap { family, field, key } => {
            let mut bytes: Vec<u8> = Vec::new();
            bytes.push(SUBSPACE_BITMAPS);
            push_u32(&mut bytes, account_id);
            bytes.push(collection);
            push_u32(&mut bytes, 0);
            bytes.push(*family);
            bytes.push(*field);
            push_bytes(&mut bytes, key);
            assert(bytes@ =~= in_bitmap_key(account_id, collection, *family, *field, key@));
            store.get_bitmap(bytes.as_slice())
        },
        Filter::HasKeywords { .. } | Filter::HasText { .. } => bitmap_clone(text),
        _ => bitmap_new(),
    }
}

/// Evaluates `filters` over `document_ids`, resolving each leaf in the store.
/// `text[i]` is the full-text index's answer for a full-text leaf at `i`.
pub fn filter(
    store: &MemoryStore,
    account_id: u32,
    collection: u8,
    filters: &Vec<Filter>,
    text: &Vec<RoaringBitmap>,
    document_ids: RoaringBitmap,
) -> (r: Result<ResultSet, Error>)
    requires
        store.wf(),
        text@.len() == filters@.len(),
    ensures
        match r {
            Ok(rs) => balanced(filters@) && bitmap_set(rs.document_ids) == bitmap_set(document_ids)
                && exists|resolved: Seq<RoaringBitmap>|
                {
                    &&& resolved.len() == filters@.len()
                    &&& forall|i: int|
                        0 <= i < resolved.len() ==> resolves_to(
                            store@,
                            store.bitmaps(),
                            account_id,
                            collection,
                            filters@[i],
                            bitmap_set(text@[i]),
                            bitmap_set(#[trigger] resolved[i]),
                        )
                    &&& evaluation(filters@, resolved, bitmap_set(document_ids)) == Some(
                        bitmap_set(rs.results),
                    )
                },
            Err(e) => !balanced(filters@) && e is InternalError,
        },
{
    let mut resolved: Vec<RoaringBitmap> = Vec::new();
    let mut i: usize = 0;
    while i < filters.len()
        invariant
            store.wf(),
            i <= filters@.len(),
            text@.len() == filters@.len(),
            resolved@.len() == i,
            forall|j: int|
                0 <= j < i ==> resolves_to(
                    store@,
                    store.bitmaps(),
                    account_id,
                    collection,
                    filters@[j],
                    bitmap_set(text@[j]),
                    bitmap_set(#[trigger] resolved@[j]),
                ),
        decreases filters@.len() - i,
    {
        let b = resolve_leaf(store, account_id, collection, &filters[i], &text[i]);
        resolved.push(b);
        i = i + 1;
    }
    let r = evaluate(filters, &resolved, document_ids);
    proof {
        if r is Ok {
            assert(resolved@.len() == filters@.len());
        }
    }
    r
}

/// `ids` is `results` in the order `comparator` gives.
pub open spec fn sorted_as(
    m: Map<Seq<u8>, Seq<u8>>,
    account_id: u32,
    collection: u8,
    results: Set<u32>,
    comparator: Comparator,
    ids: Seq<u32>,
) -> bool {
    match comparator {
        Comparator::Field { field, ascending } => exists|s: Seq<(Vec<u8>, Vec<u8>)>|
            {
                &&& #[trigger] is_scan_result(
                    s,
                    m,
                    index_prefix(account_id, collection, field),
                    seq![(SUBSPACE_INDEXES + 1) as u8],
                    false,
                    ascending,
                    false,
                )
                &&& ids == ids_in(s, index_prefix(account_id, collection, field), results)
            },
        Comparator::DocumentSet { set, ascending } => {
            &&& ids.to_set() == results.intersect(bitmap_set(set))
            &&& forall|i: int, j: int|
                0 <= i < j < ids.len() ==> if ascending {
                    ids[i] < ids[j]
                } else {
                    ids[i] > ids[j]
                }
        },
    }
}

/// Sorts `results` by `comparator` and returns the page next to `anchor`;
/// fails when the sorted sequence is too long for a page position.
pub fn sort(
    store: &MemoryStore,
    account_id: u32,
    collection: u8,
    results: &RoaringBitmap,
    comparator: &Comparator,
    anchor: u32,
    limit: usize,
    forward: bool,
) -> (r: Result<SortedResultRet, Error>)
    requires
        store.wf(),
    ensures
        exists|ids: Seq<u32>|
            {
                &&& #[trigger] sorted_as(store@, account_id, collection, bitmap_set(*results), *comparator, ids)
                &&& match r {
                    Ok(page) => is_page(ids, anchor, limit as int, forward, page),
                    Err(e) => ids.len() > i32::MAX && e is InternalError,
                }
            },
{
    let ids = match comparator {
        Comparator::Field { field, ascending } => sort_by_field(
            store,
            account_id,
            collection,
            *field,
            results,
            *ascending,
        ),
        Comparator::DocumentSet { set, ascending } => sort_by_set(results, set, *ascending),
    };
    assert(sorted_as(store@, account_id, collection, bitmap_set(*results), *comparator, ids@));
    if ids.len() > 2147483647 {
        return Err(Error::InternalError("too many results to page".to_owned()));
    }
    Ok(paginate(&ids, anchor, limit, forward))
}

} // verus!
