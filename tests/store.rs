use mail_store::backend::{BatchOp, BlobStore, MemoryStore};
use mail_store::rules::RuleType;
use mail_store::keys::{BitmapClass, BitmapKey, Key};
use mail_store::resolve::has_keyword;
use mail_store::Error;

#[test]
fn point_operations() {
    let mut s = MemoryStore::new();
    assert!(s.get(b"k").is_none());
    s.set(b"k", b"v1");
    s.set(b"k", b"v2");
    assert_eq!(s.get(b"k"), Some(b"v2".to_vec()));
    assert!(s.delete(b"k"));
    assert!(!s.delete(b"k"));
    assert!(s.get(b"k").is_none());
}

#[test]
fn competing_batches_one_wins_and_retry_succeeds() {
    let mut s = MemoryStore::new();
    s.set(b"counter", b"1");
    let guard = |expected: &[u8], new: &[u8]| {
        vec![
            BatchOp::AssertValue { key: b"counter".to_vec(), value: Some(expected.to_vec()) },
            BatchOp::Put { key: b"counter".to_vec(), value: new.to_vec() },
        ]
    };
    let first = guard(b"1", b"2");
    let second = guard(b"1", b"3");
    assert!(s.write(&first).is_ok());
    assert!(matches!(s.write(&second), Err(Error::AssertValueFailed)));
    assert_eq!(s.get(b"counter"), Some(b"2".to_vec()));
    let current = s.get(b"counter").unwrap();
    assert!(s.write(&guard(&current, b"3")).is_ok());
    assert_eq!(s.get(b"counter"), Some(b"3".to_vec()));
}

#[test]
fn failed_batch_changes_nothing() {
    let mut s = MemoryStore::new();
    s.set(b"a", b"1");
    let batch = vec![
        BatchOp::Put { key: b"b".to_vec(), value: b"2".to_vec() },
        BatchOp::Clear { key: b"a".to_vec() },
        BatchOp::AssertValue { key: b"c".to_vec(), value: Some(b"x".to_vec()) },
    ];
    assert!(s.write(&batch).is_err());
    assert_eq!(s.get(b"a"), Some(b"1".to_vec()));
    assert!(s.get(b"b").is_none());
    let absent = vec![
        BatchOp::AssertValue { key: b"c".to_vec(), value: None },
        BatchOp::Put { key: b"c".to_vec(), value: b"3".to_vec() },
        BatchOp::Clear { key: b"a".to_vec() },
    ];
    assert!(s.write(&absent).is_ok());
    assert_eq!(s.get(b"c"), Some(b"3".to_vec()));
    assert!(s.get(b"a").is_none());
}

#[test]
fn blob_round_trip() {
    let mut s = MemoryStore::new();
    let data = b"0123456789".to_vec();
    assert!(s.put_blob(b"blob", &data).is_ok());
    assert_eq!(s.get_blob(b"blob", 2..5).ok().unwrap(), Some(b"234".to_vec()));
    assert_eq!(s.get_blob(b"blob", 0..u32::MAX).ok().unwrap(), Some(data.clone()));
    assert_eq!(s.get_blob(b"blob", 8..20).ok().unwrap(), Some(b"89".to_vec()));
    assert_eq!(s.get_blob(b"blob", 5..2).ok().unwrap(), Some(vec![]));
    assert_eq!(s.get_blob(b"none", 0..3).ok().unwrap(), None);
    assert!(!s.delete_blob(b"none").ok().unwrap());
    assert!(s.delete_blob(b"blob").ok().unwrap());
    assert_eq!(s.get_blob(b"blob", 0..3).ok().unwrap(), None);
}

#[test]
fn rule_patterns() {
    let mut body = RuleType::Body { pattern: "/viagra/i".to_string(), raw: false };
    *body.pattern().unwrap() = "/cialis/".to_string();
    assert_eq!(body.pattern().map(|p| p.clone()), Some("/cialis/".to_string()));
    let mut eval = RuleType::Eval { function: "check".to_string(), params: vec![] };
    assert!(eval.pattern().is_none());
    assert!(RuleType::Empty.pattern().is_none());
}

#[test]
fn batches_set_and_clear_bits() {
    let mut s = MemoryStore::new();
    let batch = vec![
        BatchOp::SetBit { key: b"tag:seen".to_vec(), document_id: 3 },
        BatchOp::SetBit { key: b"tag:seen".to_vec(), document_id: 7 },
        BatchOp::SetBit { key: b"tag:flagged".to_vec(), document_id: 3 },
        BatchOp::ClearBit { key: b"tag:seen".to_vec(), document_id: 3 },
    ];
    assert!(s.write(&batch).is_ok());
    assert_eq!(mail_store::bitmap::bitmap_ids(&s.get_bitmap(b"tag:seen")), vec![7]);
    assert_eq!(mail_store::bitmap::bitmap_ids(&s.get_bitmap(b"tag:flagged")), vec![3]);
    assert!(s.get_bitmap(b"tag:none").is_empty());
    let rejected = vec![
        BatchOp::SetBit { key: b"tag:seen".to_vec(), document_id: 9 },
        BatchOp::AssertValue { key: b"missing".to_vec(), value: Some(vec![1]) },
    ];
    assert!(matches!(s.write(&rejected), Err(Error::AssertValueFailed)));
    assert_eq!(mail_store::bitmap::bitmap_ids(&s.get_bitmap(b"tag:seen")), vec![7]);
}

#[test]
fn keyword_bitmaps() {
    let mut s = MemoryStore::new();
    let key = BitmapKey {
        account_id: 2,
        collection: 1,
        class: BitmapClass::Text { field: 4, token: "día".as_bytes().to_vec() },
        block_num: 0,
    };
    let batch = vec![
        BatchOp::SetBit { key: key.serialize(true), document_id: 11 },
        BatchOp::SetBit { key: key.serialize(true), document_id: 12 },
    ];
    assert!(s.write(&batch).is_ok());
    assert_eq!(mail_store::bitmap::bitmap_ids(&has_keyword(&s, 2, 1, 4, "día")), vec![11, 12]);
    assert!(has_keyword(&s, 2, 1, 4, "dia").is_empty());
    assert!(has_keyword(&s, 2, 1, 5, "día").is_empty());
}
