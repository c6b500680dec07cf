use meilidb::database::document_key::{DocumentKey, DocumentKeyAttr, DOC_KEY_ATTR_LEN, DOC_KEY_LEN};
use meilidb::database::lexicographic::{lex_less, same_bytes};
use meilidb::database::schema::SchemaAttr;

#[test]
fn document_key_layout_is_exact() {
    let key = DocumentKey::new(0x0102_0304_0506_0708);
    assert_eq!(key.as_bytes().len(), DOC_KEY_LEN);
    assert_eq!(key.as_bytes(), &b"doc-\x01\x02\x03\x04\x05\x06\x07\x08"[..]);
    assert_eq!(key.document_id(), 0x0102_0304_0506_0708);
}

#[test]
fn attribute_key_layout_is_exact() {
    let key = DocumentKeyAttr::new(0x0102_0304_0506_0708, SchemaAttr::new(0x0a0b_0c0d));
    assert_eq!(key.as_bytes().len(), DOC_KEY_ATTR_LEN);
    assert_eq!(key.as_bytes(), &b"doc-\x01\x02\x03\x04\x05\x06\x07\x08-\x0a\x0b\x0c\x0d"[..]);
    assert_eq!(key.document_id(), 0x0102_0304_0506_0708);
    assert_eq!(key.attribute(), SchemaAttr::new(0x0a0b_0c0d));
}

#[test]
fn extreme_identifiers_round_trip() {
    for id in [0u64, 1, 255, 256, u64::MAX - 1, u64::MAX] {
        for attr in [0u32, 1, 255, 256, u32::MAX] {
            let key = DocumentKeyAttr::new(id, SchemaAttr::new(attr));
            assert_eq!(key.document_id(), id);
            assert_eq!(key.attribute().as_u32(), attr);
            let back = DocumentKeyAttr::from_bytes(key.as_bytes()).unwrap();
            assert_eq!(back, key);
            assert_eq!(DocumentKey::from_bytes(key.as_bytes()), Some(DocumentKey::new(id)));
            assert_eq!(key.into_document_key(), DocumentKey::new(id));
        }
        let key = DocumentKey::new(id);
        assert_eq!(DocumentKey::from_bytes(key.as_bytes()), Some(key));
    }
}

#[test]
fn keys_order_as_document_then_attribute() {
    let samples: [(u64, u32); 9] = [
        (0, 0),
        (0, 1),
        (0, u32::MAX),
        (1, 0),
        (255, 7),
        (256, 0),
        (256, 65536),
        (u64::MAX, 0),
        (u64::MAX, u32::MAX),
    ];
    for &(a, x) in samples.iter() {
        for &(b, y) in samples.iter() {
            let left = DocumentKeyAttr::new(a, SchemaAttr::new(x));
            let right = DocumentKeyAttr::new(b, SchemaAttr::new(y));
            assert_eq!(lex_less(left.as_bytes(), right.as_bytes()), (a, x) < (b, y));
            assert_eq!(left.as_bytes() < right.as_bytes(), (a, x) < (b, y));
            assert_eq!(same_bytes(left.as_bytes(), right.as_bytes()), (a, x) == (b, y));
        }
    }
}

#[test]
fn document_key_bounds_its_attributes() {
    let document = DocumentKey::new(41);
    let next = DocumentKey::new(42);
    let low = document.with_attribute_min();
    let high = document.with_attribute_max();
    assert_eq!(low, DocumentKeyAttr::new(41, SchemaAttr::new(0)));
    assert_eq!(high, DocumentKeyAttr::new(41, SchemaAttr::max()));
    assert_eq!(document.with_attribute(SchemaAttr::new(5)), DocumentKeyAttr::new(41, SchemaAttr::new(5)));
    assert!(lex_less(document.as_bytes(), low.as_bytes()));
    assert!(lex_less(low.as_bytes(), high.as_bytes()));
    assert!(lex_less(high.as_bytes(), next.as_bytes()));
    let middle = DocumentKeyAttr::new(41, SchemaAttr::new(9));
    assert_eq!(middle.with_attribute_min(), low);
    assert_eq!(middle.with_attribute_max(), high);
}

#[test]
fn malformed_keys_do_not_decode() {
    assert_eq!(DocumentKey::from_bytes(b"doc-1234567"), None);
    assert_eq!(DocumentKey::from_bytes(b"dog-12345678"), None);
    assert_eq!(DocumentKey::from_bytes(b""), None);
    assert_eq!(DocumentKeyAttr::from_bytes(b"doc-12345678-123"), None);
    assert_eq!(DocumentKeyAttr::from_bytes(b"doc-12345678+1234"), None);
    assert_eq!(DocumentKeyAttr::from_bytes(b"data-schema"), None);
    assert!(DocumentKeyAttr::from_bytes(b"doc-12345678-1234").is_some());
    assert!(DocumentKeyAttr::from_bytes(b"doc-12345678-1234 and more").is_some());
}

#[test]
fn lexicographic_order_on_byte_strings() {
    assert!(lex_less(b"", b"a"));
    assert!(!lex_less(b"", b""));
    assert!(lex_less(b"a", b"ab"));
    assert!(!lex_less(b"ab", b"a"));
    assert!(lex_less(b"ab", b"b"));
    assert!(lex_less(b"data-schema", b"doc-"));
    assert!(!lex_less(b"abc", b"abc"));
    assert!(same_bytes(b"abc", b"abc"));
    assert!(!same_bytes(b"abc", b"abd"));
    assert!(!same_bytes(b"abc", b"ab"));
}
