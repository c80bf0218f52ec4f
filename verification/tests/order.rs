use resp_codec::bytes::ByteOrder;
use resp_codec::frame::{
    BulkString, RespArray, RespDouble, RespFrame, RespMap, SimpleString,
};
use resp_codec::order::{frame_cmp, frame_eq};

#[test]
fn integers_compare_numerically() {
    let a = RespFrame::Integer(-2);
    let b = RespFrame::Integer(10);
    assert_eq!(frame_cmp(&a, &b), Some(ByteOrder::Less));
    assert_eq!(frame_cmp(&b, &a), Some(ByteOrder::Greater));
    assert_eq!(frame_cmp(&a, &a), Some(ByteOrder::Equal));
}

#[test]
fn strings_compare_bytewise() {
    let a = RespFrame::SimpleString(SimpleString::new(b"abc".to_vec()));
    let b = RespFrame::SimpleString(SimpleString::new(b"abd".to_vec()));
    let c = RespFrame::SimpleString(SimpleString::new(b"ab".to_vec()));
    assert_eq!(frame_cmp(&a, &b), Some(ByteOrder::Less));
    assert_eq!(frame_cmp(&c, &a), Some(ByteOrder::Less));
    assert_eq!(frame_cmp(&a, &a), Some(ByteOrder::Equal));
}

#[test]
fn cross_variant_comparison_is_incomparable() {
    let i = RespFrame::Integer(1);
    let a = RespFrame::Array(RespArray::new(vec![RespFrame::Integer(1)]));
    let s = RespFrame::SimpleString(SimpleString::new(b"1".to_vec()));
    assert_eq!(frame_cmp(&i, &a), None);
    assert_eq!(frame_cmp(&i, &s), None);
    assert_eq!(frame_cmp(&s, &a), None);
}

#[test]
fn arrays_compare_elementwise_with_short_circuit() {
    let a = RespFrame::Array(RespArray::new(vec![
        RespFrame::Integer(1),
        RespFrame::Integer(5),
    ]));
    let b = RespFrame::Array(RespArray::new(vec![
        RespFrame::Integer(1),
        RespFrame::Integer(7),
    ]));
    let shorter = RespFrame::Array(RespArray::new(vec![RespFrame::Integer(1)]));
    assert_eq!(frame_cmp(&a, &b), Some(ByteOrder::Less));
    assert_eq!(frame_cmp(&shorter, &a), Some(ByteOrder::Less));
    assert_eq!(frame_cmp(&a, &a), Some(ByteOrder::Equal));
    let mixed = RespFrame::Array(RespArray::new(vec![
        RespFrame::Integer(1),
        RespFrame::SimpleString(SimpleString::new(b"x".to_vec())),
    ]));
    assert_eq!(frame_cmp(&a, &mixed), None);
}

#[test]
fn maps_compare_by_keys_then_values() {
    let mut m1 = RespMap::new();
    m1.insert(b"a".to_vec(), RespFrame::Integer(1));
    let mut m2 = RespMap::new();
    m2.insert(b"b".to_vec(), RespFrame::Integer(1));
    let mut m3 = RespMap::new();
    m3.insert(b"a".to_vec(), RespFrame::Integer(2));
    let f1 = RespFrame::MapFrame(m1);
    let f2 = RespFrame::MapFrame(m2);
    let f3 = RespFrame::MapFrame(m3);
    assert_eq!(frame_cmp(&f1, &f2), Some(ByteOrder::Less));
    assert_eq!(frame_cmp(&f1, &f3), Some(ByteOrder::Less));
    assert_eq!(frame_cmp(&f1, &f1), Some(ByteOrder::Equal));
}

#[test]
fn booleans_order_false_before_true() {
    assert_eq!(
        frame_cmp(&RespFrame::Boolean(false), &RespFrame::Boolean(true)),
        Some(ByteOrder::Less)
    );
    assert_eq!(
        frame_cmp(&RespFrame::Boolean(true), &RespFrame::Boolean(true)),
        Some(ByteOrder::Equal)
    );
}

#[test]
fn doubles_compare_only_when_texts_agree() {
    let a = RespFrame::Double(RespDouble::new(b"1.5".to_vec()));
    let b = RespFrame::Double(RespDouble::new(b"1.50".to_vec()));
    assert_eq!(frame_cmp(&a, &a), Some(ByteOrder::Equal));
    assert_eq!(frame_cmp(&a, &b), None);
}

#[test]
fn frame_eq_agrees_with_structural_equality() {
    let a = RespFrame::Array(RespArray::new(vec![
        RespFrame::BulkString(BulkString::new(b"x".to_vec())),
        RespFrame::Integer(3),
    ]));
    let same = RespFrame::Array(RespArray::new(vec![
        RespFrame::BulkString(BulkString::new(b"x".to_vec())),
        RespFrame::Integer(3),
    ]));
    let other = RespFrame::Array(RespArray::new(vec![
        RespFrame::BulkString(BulkString::new(b"x".to_vec())),
        RespFrame::Integer(4),
    ]));
    assert!(frame_eq(&a, &same));
    assert!(!frame_eq(&a, &other));
    assert_eq!(a, same);
    assert_ne!(a, other);
}
