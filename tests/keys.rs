use mail_store::codec::{Deserialize, Serialize};
use mail_store::keys::{
    BitmapClass, BitmapKey, BlobClass, BlobHash, BlobKey, BlobOp, IndexKey, IndexKeyPrefix, Key,
    LogKey, ValueClass, ValueKey, SUBSPACE_BITMAPS, SUBSPACE_INDEXES, SUBSPACE_LOGS,
};

#[test]
fn log_key_encoding_is_big_endian() {
    let k = LogKey { account_id: 0x01020304, collection: 7, change_id: 0x1122334455667788 };
    assert_eq!(
        k.serialize(true),
        vec![SUBSPACE_LOGS, 1, 2, 3, 4, 7, 0x11, 0x22, 0x33, 0x44, 0x55, 0x66, 0x77, 0x88]
    );
    assert_eq!(k.serialize(false)[0], 1);
    assert_eq!(k.subspace(), b'l');
}

#[test]
fn subspace_bytes() {
    assert_eq!(SUBSPACE_BITMAPS, b'b');
    assert_eq!(SUBSPACE_INDEXES, b'i');
    assert_eq!(mail_store::keys::SUBSPACE_VALUES, b'v');
    assert_eq!(mail_store::keys::SUBSPACE_BLOBS, b'o');
    assert_eq!(mail_store::keys::SUBSPACE_ACLS, b'a');
    assert_eq!(mail_store::keys::SUBSPACE_COUNTERS, b'c');
}

#[test]
fn bitmap_key_encoding() {
    let k = BitmapKey {
        account_id: 1,
        collection: 2,
        class: BitmapClass::Text { field: 3, token: b"ab".to_vec() },
        block_num: 5,
    };
    assert_eq!(k.serialize(true), vec![b'b', 0, 0, 0, 1, 2, 0, 0, 0, 5, 2, 3, b'a', b'b']);
    let t = BitmapKey { account_id: 1, collection: 2, class: BitmapClass::Tag { field: 3, value: 9 }, block_num: 0 };
    assert_eq!(t.serialize(false), vec![0, 0, 0, 1, 2, 0, 0, 0, 0, 1, 3, 0, 0, 0, 9]);
}

#[test]
fn value_key_encoding() {
    let k = ValueKey { account_id: 1, collection: 2, document_id: 3, class: ValueClass::Property(4) };
    assert_eq!(k.serialize(true), vec![b'v', 0, 0, 0, 1, 2, 0, 0, 0, 3, 0, 4]);
    let n = ValueKey { account_id: 1, collection: 2, document_id: 3, class: ValueClass::Named(b"x".to_vec()) };
    assert_eq!(n.serialize(false), vec![0, 0, 0, 1, 2, 0, 0, 0, 3, 2, b'x']);
}

#[test]
fn blob_key_encoding() {
    let k = BlobKey { account_id: 1, collection: 2, document_id: 3, hash: BlobHash([7u8; 32]), op: BlobOp::Commit };
    let bytes = k.serialize(true);
    assert_eq!(bytes.len(), 1 + 4 + 1 + 4 + 32 + 1);
    assert_eq!(bytes[0], b'o');
    assert_eq!(bytes[10], 7);
    assert_eq!(*bytes.last().unwrap(), 1);
}

#[test]
fn distinct_keys_encode_differently() {
    // A key and a longer key whose extra bytes could be mistaken for a field.
    let a = IndexKey { account_id: 1, collection: 1, document_id: 0x00000102, field: 1, key: vec![] };
    let b = IndexKey { account_id: 1, collection: 1, document_id: 0x00000102, field: 1, key: vec![0] };
    let c = IndexKey { account_id: 1, collection: 1, document_id: 0x00010200, field: 1, key: vec![] };
    assert_ne!(a.serialize(true), b.serialize(true));
    assert_ne!(a.serialize(true), c.serialize(true));
    assert_ne!(b.serialize(true), c.serialize(true));
    let v1 = ValueKey { account_id: 1, collection: 1, document_id: 1, class: ValueClass::Acl(2) };
    let v2 = ValueKey { account_id: 1, collection: 1, document_id: 1, class: ValueClass::Named(vec![0, 0, 0, 2]) };
    assert_ne!(v1.serialize(true), v2.serialize(true));
}

#[test]
fn index_prefix_is_strict_prefix() {
    let p = IndexKeyPrefix { account_id: 9, collection: 3, field: 4 };
    let k = IndexKey { account_id: 9, collection: 3, document_id: 77, field: 4, key: b"subject".to_vec() };
    let pb = p.serialize(true);
    let kb = k.serialize(true);
    assert!(pb.len() < kb.len());
    assert_eq!(&kb[..pb.len()], &pb[..]);
    let other = IndexKey { account_id: 9, collection: 3, document_id: 77, field: 5, key: b"subject".to_vec() };
    let ob = other.serialize(true);
    assert_ne!(&ob[..pb.len()], &pb[..]);
    assert_eq!(pb, vec![b'i', 0, 0, 0, 9, 3, 4]);
    assert_eq!(&kb[kb.len() - 4..], &[0, 0, 0, 77]);
}

#[test]
fn integers_round_trip() {
    let bytes = 0xdeadbeefu32.serialize();
    assert_eq!(bytes, vec![0xde, 0xad, 0xbe, 0xef]);
    assert_eq!(u32::deserialize(&bytes).ok(), Some(0xdeadbeef));
    let big = 0x0102030405060708u64.serialize();
    assert_eq!(u64::deserialize(&big).ok(), Some(0x0102030405060708));
}

#[test]
fn malformed_bytes_are_an_internal_error() {
    assert!(matches!(u32::deserialize(&[1, 2, 3]), Err(mail_store::Error::InternalError(_))));
    assert!(matches!(u64::deserialize(&[1, 2, 3, 4]), Err(mail_store::Error::InternalError(_))));
    assert!(matches!(BlobHash::deserialize(&[0u8; 31]), Err(mail_store::Error::InternalError(_))));
}

#[test]
fn blob_hash_is_the_content_digest() {
    let h = BlobHash::from_content(b"");
    assert_eq!(h.0[0], 0xaf);
    assert_eq!(h.0[1], 0x13);
    assert_eq!(h.0[31], 0x62);
    let a = BlobHash::from_content(b"same content");
    let b = BlobHash::from_content(b"same content");
    let c = BlobHash::from_content(b"other content");
    assert_eq!(a.0, b.0);
    assert_ne!(a.0, c.0);
    let bytes = a.serialize();
    let back = BlobHash::deserialize(&bytes).ok().unwrap();
    assert_eq!(back.0, b.0);
}

#[test]
fn blob_class_default_is_reserved_for_account_zero() {
    assert!(BlobClass::default() == BlobClass::Reserved { account_id: 0 });
}

#[test]
fn error_from_string() {
    let e: mail_store::Error = String::from("boom").into();
    assert!(matches!(e, mail_store::Error::InternalError(m) if m == "boom"));
}
