use mail_store::engine::{filter, sort};
use mail_store::query::Comparator;
use mail_store::backend::BatchOp;
use roaring::RoaringBitmap;
use mail_store::resolve::match_value;
use mail_store::filter::evaluate;
use mail_store::query::{Filter, Operator};
use mail_store::codec::Serialize;
use mail_store::bitmap::bitmap_from_ids;
use mail_store::sort::{sort_by_field, sort_by_set};
use mail_store::backend::{IterateParams, MemoryStore};
use mail_store::keys::{IndexKey, IndexKeyPrefix, Key, LogKey};
use mail_store::order::compare_bytes;

fn log_key(change_id: u64) -> LogKey {
    LogKey { account_id: 1, collection: 2, change_id }
}

fn store_with_logs(ids: &[u64]) -> MemoryStore {
    let mut s = MemoryStore::new();
    for id in ids {
        s.set(&log_key(*id).serialize(true), &id.to_be_bytes());
    }
    s
}

#[test]
fn byte_order() {
    assert!(compare_bytes(b"abc", b"abd") < 0);
    assert!(compare_bytes(b"ab", b"abc") < 0);
    assert!(compare_bytes(b"abc", b"ab") > 0);
    assert_eq!(compare_bytes(b"", b""), 0);
    assert!(compare_bytes(&[0xff], &[0x00, 0x01]) > 0);
}

#[test]
fn scan_ascending_within_bounds() {
    let s = store_with_logs(&[7, 3, 300, 5, 1]);
    let params = IterateParams { begin: log_key(3), end: log_key(300), first: false, ascending: true, values: true };
    let found = s.iterate(&params);
    let keys: Vec<Vec<u8>> = found.iter().map(|(k, _)| k.clone()).collect();
    assert_eq!(keys, vec![log_key(3).serialize(true), log_key(5).serialize(true), log_key(7).serialize(true)]);
    assert_eq!(found[0].1, 3u64.to_be_bytes().to_vec());
}

#[test]
fn scan_descending_first_and_without_values() {
    let s = store_with_logs(&[7, 3, 300, 5, 1]);
    let desc = s.iterate(&IterateParams { begin: log_key(0), end: log_key(1000), first: false, ascending: false, values: false });
    assert_eq!(desc.len(), 5);
    assert_eq!(desc[0].0, log_key(300).serialize(true));
    assert_eq!(desc[4].0, log_key(1).serialize(true));
    assert!(desc.iter().all(|(_, v)| v.is_empty()));
    let first = s.iterate(&IterateParams { begin: log_key(4), end: log_key(1000), first: true, ascending: true, values: true });
    assert_eq!(first.len(), 1);
    assert_eq!(first[0].0, log_key(5).serialize(true));
    let last = s.iterate(&IterateParams { begin: log_key(4), end: log_key(300), first: true, ascending: false, values: true });
    assert_eq!(last[0].0, log_key(7).serialize(true));
    let none = s.iterate(&IterateParams { begin: log_key(8), end: log_key(9), first: true, ascending: true, values: true });
    assert!(none.is_empty());
}

#[test]
fn prefix_range_holds_exactly_its_field() {
    let mut s = MemoryStore::new();
    let keys = [
        IndexKey { account_id: 1, collection: 1, document_id: 9, field: 3, key: b"b".to_vec() },
        IndexKey { account_id: 1, collection: 1, document_id: 4, field: 3, key: b"a".to_vec() },
        IndexKey { account_id: 1, collection: 1, document_id: 4, field: 4, key: b"a".to_vec() },
        IndexKey { account_id: 1, collection: 1, document_id: 4, field: 2, key: b"\xff\xff".to_vec() },
        IndexKey { account_id: 1, collection: 2, document_id: 4, field: 3, key: b"a".to_vec() },
    ];
    for k in keys.iter() {
        s.set(&k.serialize(true), b"");
    }
    let params = IterateParams {
        begin: IndexKeyPrefix { account_id: 1, collection: 1, field: 3 },
        end: IndexKeyPrefix { account_id: 1, collection: 1, field: 4 },
        first: false,
        ascending: true,
        values: false,
    };
    let found = s.iterate(&params);
    assert_eq!(found.len(), 2);
    assert_eq!(found[0].0, keys[1].serialize(true));
    assert_eq!(found[1].0, keys[0].serialize(true));
}

#[test]
fn sort_by_indexed_field() {
    let mut s = MemoryStore::new();
    let entries: [(u32, &[u8]); 4] = [(1, b"carol"), (2, b"alice"), (3, b"bob"), (4, b"dave")];
    for (doc, subject) in entries.iter() {
        let k = IndexKey { account_id: 5, collection: 0, document_id: *doc, field: 2, key: subject.to_vec() };
        s.set(&k.serialize(true), b"");
    }
    let other = IndexKey { account_id: 5, collection: 0, document_id: 9, field: 3, key: b"aaa".to_vec() };
    s.set(&other.serialize(true), b"");
    let results = bitmap_from_ids(&vec![1, 2, 3, 9]);
    assert_eq!(sort_by_field(&s, 5, 0, 2, &results, true), vec![2, 3, 1]);
    assert_eq!(sort_by_field(&s, 5, 0, 2, &results, false), vec![1, 3, 2]);
}

#[test]
fn sort_by_document_set() {
    let results = bitmap_from_ids(&vec![1, 2, 3, 4, 5]);
    let set = bitmap_from_ids(&vec![5, 3, 1, 10]);
    assert_eq!(sort_by_set(&results, &set, true), vec![1, 3, 5]);
    assert_eq!(sort_by_set(&results, &set, false), vec![5, 3, 1]);
}

fn store_with_sizes() -> MemoryStore {
    let mut s = MemoryStore::new();
    let sizes: [(u32, u32); 5] = [(1, 500), (2, 1500), (3, 100), (4, 1500), (5, 9000)];
    for (doc, size) in sizes.iter() {
        let k = IndexKey { account_id: 1, collection: 0, document_id: *doc, field: 6, key: size.serialize() };
        s.set(&k.serialize(true), b"");
    }
    let unrelated = IndexKey { account_id: 1, collection: 0, document_id: 8, field: 7, key: 1500u32.serialize() };
    s.set(&unrelated.serialize(true), b"");
    s
}

#[test]
fn value_comparisons_through_the_index() {
    let s = store_with_sizes();
    let v = 1500u32.serialize();
    let ids = |op| mail_store::bitmap::bitmap_ids(&match_value(&s, 1, 0, 6, op, &v));
    assert_eq!(ids(Operator::Equal), vec![2, 4]);
    assert_eq!(ids(Operator::LowerThan), vec![1, 3]);
    assert_eq!(ids(Operator::LowerEqualThan), vec![1, 2, 3, 4]);
    assert_eq!(ids(Operator::GreaterThan), vec![5]);
    assert_eq!(ids(Operator::GreaterEqualThan), vec![2, 4, 5]);
}

#[test]
fn filter_over_resolved_index_leaves() {
    let s = store_with_sizes();
    let filters = vec![Filter::Not, Filter::gt(6, 1000u32), Filter::End];
    let resolved = vec![
        RoaringBitmap::new(),
        match_value(&s, 1, 0, 6, Operator::GreaterThan, &1000u32.serialize()),
        RoaringBitmap::new(),
    ];
    let universe = bitmap_from_ids(&vec![1, 2, 3, 4, 5, 6]);
    let rs = evaluate(&filters, &resolved, universe).ok().unwrap();
    assert_eq!(mail_store::bitmap::bitmap_ids(&rs.results), vec![1, 3, 6]);
}

#[test]
fn field_255_is_scanned_on_its_own() {
    let mut s = MemoryStore::new();
    let a = IndexKey { account_id: 1, collection: 3, document_id: 1, field: 255, key: 5u32.serialize() };
    let b = IndexKey { account_id: 1, collection: 4, document_id: 2, field: 0, key: 5u32.serialize() };
    s.set(&a.serialize(true), b"");
    s.set(&b.serialize(true), b"");
    let ids = mail_store::bitmap::bitmap_ids(&match_value(&s, 1, 3, 255, Operator::Equal, &5u32.serialize()));
    assert_eq!(ids, vec![1]);
    let all = bitmap_from_ids(&vec![1, 2]);
    assert_eq!(sort_by_field(&s, 1, 3, 255, &all, true), vec![1]);
}

#[test]
fn filter_resolves_leaves_in_the_store() {
    let mut s = store_with_sizes();
    let tag = vec![b'b', 0, 0, 0, 1, 0, 0, 0, 0, 0, 1, 9, b'x'];
    s.write(&vec![
        BatchOp::SetBit { key: tag.clone(), document_id: 2 },
        BatchOp::SetBit { key: tag.clone(), document_id: 5 },
    ])
    .ok()
    .unwrap();
    let filters = vec![
        Filter::Or,
        Filter::gt(6, 1000u32),
        Filter::lt(6, 200u32),
        Filter::End,
        Filter::Not,
        Filter::InBitmap { family: 1, field: 9, key: b"x".to_vec() },
        Filter::End,
    ];
    let text = (0..filters.len()).map(|_| RoaringBitmap::new()).collect();
    let universe = bitmap_from_ids(&vec![1, 2, 3, 4, 5, 6]);
    let rs = filter(&s, 1, 0, &filters, &text, universe).ok().unwrap();
    assert_eq!(mail_store::bitmap::bitmap_ids(&rs.results), vec![3, 4]);
    let unbalanced = vec![Filter::eq(6, 1u32), Filter::End];
    let text2 = vec![RoaringBitmap::new(), RoaringBitmap::new()];
    assert!(filter(&s, 1, 0, &unbalanced, &text2, RoaringBitmap::new()).is_err());
}

#[test]
fn sort_dispatches_on_the_comparator() {
    let s = store_with_sizes();
    let results = bitmap_from_ids(&vec![1, 2, 3, 4, 5]);
    let page = sort(&s, 1, 0, &results, &Comparator::ascending(6), 3, 2, true).ok().unwrap();
    assert!(page.found_anchor);
    assert_eq!(page.position, 1);
    assert_eq!(page.ids, vec![1, 2]);
    let down = sort(&s, 1, 0, &results, &Comparator::descending(6), 5, 10, true).ok().unwrap();
    assert_eq!(down.ids, vec![4, 2, 1, 3]);
    let by_set = Comparator::DocumentSet { set: bitmap_from_ids(&vec![2, 4, 9]), ascending: false };
    let page = sort(&s, 1, 0, &results, &by_set, 4, 5, true).ok().unwrap();
    assert_eq!(page.position, 1);
    assert_eq!(page.ids, vec![2]);
}
