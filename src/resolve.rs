//! Resolving value-comparison leaves of a filter through a field's sorted index.

use crate::backend::{bits_of, is_scan_result, MemoryStore};
use crate::bitmap::{bitmap_insert, bitmap_new, bitmap_set};
use crate::codec::read_u32;
use crate::keys::{
    be32, bitmap_class_bytes, push_bytes, with_subspace, BitmapClass, BitmapKey, IndexKeyPrefix, Key,
    SUBSPACE_BITMAPS, SUBSPACE_INDEXES,
};
use crate::order::{compare_bytes, has_prefix, lemma_prefix_in_range, lex_lt, starts_with};
use crate::query::Operator;
use crate::sort::doc_of;
use roaring::RoaringBitmap;
use vstd::prelude::*;

verus! {

/// Bytes before the field value in an index key: subspace, account id,
/// collection and field.
pub const INDEX_HEAD_LEN: usize = 7;

/// The stored value inside an index key.
pub open spec fn value_part(key: Seq<u8>) -> Seq<u8> {
    key.subrange(INDEX_HEAD_LEN as int, key.len() - 4)
}

/// `a op b` in the byte order of encoded values.
pub open spec fn op_holds(op: Operator, a: Seq<u8>, b: Seq<u8>) -> bool {
    match op {
        Operator::LowerThan => lex_lt(a, b),
        Operator::LowerEqualThan => lex_lt(a, b) || a == b,
        Operator::GreaterThan => lex_lt(b, a),
        Operator::GreaterEqualThan => lex_lt(b, a) || a == b,
        Operator::Equal => a == b,
    }
}

/// The index prefix of a field: subspace, account id, collection and field.
pub open spec fn index_prefix(account_id: u32, collection: u8, field: u8) -> Seq<u8> {
    with_subspace(
        (IndexKeyPrefix { account_id, collection, field }).key_subspace(),
        (IndexKeyPrefix { account_id, collection, field }).key_body(),
        true,
    )
}

/// `k` is an index entry under `prefix` whose value satisfies `op value`.
pub open spec fn key_matches(k: Seq<u8>, prefix: Seq<u8>, op: Operator, value: Seq<u8>) -> bool {
    &&& has_prefix(k, prefix)
    &&& k.len() >= INDEX_HEAD_LEN + 4
    &&& op_holds(op, value_part(k), value)
}

/// Document `d` has an entry under `prefix` in `m` whose value satisfies
/// `op value`.
pub open spec fn index_matches(m: Map<Seq<u8>, Seq<u8>>, prefix: Seq<u8>, op: Operator, value: Seq<u8>, d: u32) -> bool {
    exists|k: Seq<u8>| m.contains_key(k) && #[trigger] key_matches(k, prefix, op, value) && doc_of(k) == d
}

fn compare_op(op: Operator, a: &[u8], b: &[u8]) -> (r: bool)
    ensures
        r == op_holds(op, a@, b@),
{
    let c = compare_bytes(a, b);
    match op {
        Operator::LowerThan => c < 0,
        Operator::LowerEqualThan => c <= 0,
        Operator::GreaterThan => c > 0,
        Operator::GreaterEqualThan => c >= 0,
        Operator::Equal => c == 0,
    }
}

/// The documents of scanned entries under `prefix` whose value satisfies
/// `op value`.
pub fn matching_documents(entries: &Vec<(Vec<u8>, Vec<u8>)>, prefix: &[u8], op: Operator, value: &[u8]) -> (r: RoaringBitmap)
    ensures
        forall|d: u32|
            bitmap_set(r).contains(d) <==> exists|j: int|
                0 <= j < entries@.len() && #[trigger] key_matches(entries@[j].0@, prefix@, op, value@)
                    && doc_of(entries@[j].0@) == d,
{
    let mut b = bitmap_new();
    let mut i: usize = 0;
    while i < entries.len()
        invariant
            i <= entries@.len(),
            forall|d: u32|
                bitmap_set(b).contains(d) <==> exists|j: int|
                    0 <= j < i && #[trigger] key_matches(entries@[j].0@, prefix@, op, value@) && doc_of(
                        entries@[j].0@,
                    ) == d,
        decreases entries@.len() - i,
    {
        let key = entries[i].0.as_slice();
        let ghost before = bitmap_set(b);
        if key.len() >= INDEX_HEAD_LEN + 4 && starts_with(key, prefix) {
            let v = slice_bytes(key, INDEX_HEAD_LEN, key.len() - 4);
            if compare_op(op, v.as_slice(), value) {
                let doc = read_u32(key, key.len() - 4);
                bitmap_insert(&mut b, doc);
                assert(key_matches(entries@[i as int].0@, prefix@, op, value@));
            }
        }
        assert forall|d: u32| bitmap_set(b).contains(d) <==> exists|j: int|
            0 <= j < i + 1 && #[trigger] key_matches(entries@[j].0@, prefix@, op, value@) && doc_of(entries@[j].0@)
                == d by {
            if exists|j: int|
                0 <= j < i + 1 && #[trigger] key_matches(entries@[j].0@, prefix@, op, value@) && doc_of(
                    entries@[j].0@,
                ) == d {
                let j = choose|j: int|
                    0 <= j < i + 1 && #[trigger] key_matches(entries@[j].0@, prefix@, op, value@) && doc_of(
                        entries@[j].0@,
                    ) == d;
                if j < i {
                    assert(before.contains(d));
                }
            }
        }
        i = i + 1;
    }
    b
}

fn slice_bytes(b: &[u8], from: usize, to: usize) -> (r: Vec<u8>)
    requires
        from <= to <= b@.len(),
    ensures
        r@ == b@.subrange(from as int, to as int),
{
    let mut out: Vec<u8> = Vec::new();
    let mut k: usize = from;
    while k < to
        invariant
            from <= k <= to <= b@.len(),
            out@ == b@.subrange(from as int, k as int),
        decreases to - k,
    {
        out.push(b[k]);
        assert(b@.subrange(from as int, k + 1) =~= b@.subrange(from as int, k as int).push(b@[k as int]));
        k = k + 1;
    }
    out
}

/// The entries of the store from `prefix` to the end of the index subspace.
pub(crate) fn scan_index_from(store: &MemoryStore, prefix: &Vec<u8>, ascending: bool) -> (r: Vec<(Vec<u8>, Vec<u8>)>)
    requires
        store.wf(),
        prefix@.len() >= 1,
        prefix@[0] == SUBSPACE_INDEXES,
    ensures
        is_scan_result(r@, store@, prefix@, seq![(SUBSPACE_INDEXES + 1) as u8], false, ascending, false),
        forall|k: Seq<u8>| store@.contains_key(k) && has_prefix(k, prefix@) ==> exists|j: int|
            0 <= j < r@.len() && #[trigger] r@[j].0@ == k,
{
    let mut end: Vec<u8> = Vec::new();
    end.push(SUBSPACE_INDEXES + 1);
    let r = store.scan(prefix.as_slice(), end.as_slice(), false, ascending, false);
    assert(end@ =~= seq![(SUBSPACE_INDEXES + 1) as u8]);
    assert forall|k: Seq<u8>| store@.contains_key(k) && has_prefix(k, prefix@) implies exists|j: int|
        0 <= j < r@.len() && #[trigger] r@[j].0@ == k by {
        lemma_prefix_in_range(k, prefix@);
    }
    r
}

/// The documents whose indexed value of `field` satisfies `op value`.
pub fn match_value(
    store: &MemoryStore,
    account_id: u32,
    collection: u8,
    field: u8,
    op: Operator,
    value: &[u8],
) -> (r: RoaringBitmap)
    requires
        store.wf(),
    ensures
        forall|d: u32|
            bitmap_set(r).contains(d) <==> index_matches(
                store@,
                index_prefix(account_id, collection, field),
                op,
                value@,
                d,
            ),
{
    let prefix = (IndexKeyPrefix { account_id, collection, field }).serialize(true);
    let entries = scan_index_from(store, &prefix, true);
    let r = matching_documents(&entries, prefix.as_slice(), op, value);
    assert forall|d: u32| bitmap_set(r).contains(d) <==> index_matches(
        store@,
        index_prefix(account_id, collection, field),
        op,
        value@,
        d,
    ) by {
        if bitmap_set(r).contains(d) {
            let j = choose|j: int|
                0 <= j < entries@.len() && #[trigger] key_matches(entries@[j].0@, prefix@, op, value@) && doc_of(
                    entries@[j].0@,
                ) == d;
            assert(store@.contains_key(entries@[j].0@));
        }
        if index_matches(store@, prefix@, op, value@, d) {
            let k = choose|k: Seq<u8>| store@.contains_key(k) && #[trigger] key_matches(k, prefix@, op, value@) && doc_of(k) == d;
            let j = choose|j: int| 0 <= j < entries@.len() && #[trigger] entries@[j].0@ == k;
            assert(key_matches(entries@[j].0@, prefix@, op, value@));
        }
    }
    r
}

/// The key of the bitmap of documents holding keyword `value` in `field`.
pub open spec fn keyword_key(account_id: u32, collection: u8, field: u8, value: Seq<char>) -> Seq<u8> {
    with_subspace(
        SUBSPACE_BITMAPS,
        be32(account_id) + seq![collection] + be32(0) + seq![2u8, field] + vstd::utf8::encode_utf8(value),
        true,
    )
}

/// The documents holding keyword `value` in `field`.
pub fn has_keyword(store: &MemoryStore, account_id: u32, collection: u8, field: u8, value: &str) -> (r: RoaringBitmap)
    requires
        store.wf(),
    ensures
        bitmap_set(r) == bits_of(store.bitmaps(), keyword_key(account_id, collection, field, value@)),
{
    let mut token: Vec<u8> = Vec::new();
    push_bytes_of(&mut token, value.as_bytes());
    let key = BitmapKey { account_id, collection, class: BitmapClass::Text { field, token }, block_num: 0 };
    let bytes = key.serialize(true);
    assert(bitmap_class_bytes(key.class) == seq![2u8, field] + vstd::utf8::encode_utf8(value@));
    assert(bytes@ =~= keyword_key(account_id, collection, field, value@));
    store.get_bitmap(bytes.as_slice())
}

fn push_bytes_of(out: &mut Vec<u8>, bytes: &[u8])
    ensures
        final(out)@ == old(out)@ + bytes@,
{
    let v = slice_bytes(bytes, 0, bytes.len());
    assert(bytes@.subrange(0, bytes@.len() as int) =~= bytes@);
    push_bytes(out, &v);
}

} // verus!
