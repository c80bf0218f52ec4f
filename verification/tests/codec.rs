use resp_codec::decode::{decode, RespDecode};
use resp_codec::encode::RespEncode;
use resp_codec::error::DecodeError;
use resp_codec::frame::{
    BulkError, BulkString, RespArray, RespDouble, RespFrame, RespMap, RespNull, RespNullArray,
    RespNullBulkString, RespSet, SimpleError, SimpleString,
};

fn round_trip(f: RespFrame) {
    let bytes = f.encode().expect("frame should encode");
    let (back, used) = decode(&bytes).expect("encoding should decode");
    assert_eq!(back, f);
    assert_eq!(used, bytes.len());
}

#[test]
fn round_trip_simple_string() {
    round_trip(RespFrame::SimpleString(SimpleString::new(b"OK".to_vec())));
}

#[test]
fn round_trip_error() {
    round_trip(RespFrame::Error(SimpleError::new(b"Error message".to_vec())));
}

#[test]
fn round_trip_bulk_error() {
    round_trip(RespFrame::BulkError(BulkError::new(b"oops".to_vec())));
}

#[test]
fn round_trip_integers() {
    round_trip(RespFrame::Integer(0));
    round_trip(RespFrame::Integer(42));
    round_trip(RespFrame::Integer(-7));
    round_trip(RespFrame::Integer(i64::MAX));
    round_trip(RespFrame::Integer(i64::MIN));
}

#[test]
fn round_trip_bulk_string_with_embedded_crlf() {
    round_trip(RespFrame::BulkString(BulkString::new(b"ab\r\ncd".to_vec())));
}

#[test]
fn round_trip_null_forms() {
    round_trip(RespFrame::NullBulkString(RespNullBulkString));
    round_trip(RespFrame::NullArray(RespNullArray));
    round_trip(RespFrame::Null(RespNull));
}

#[test]
fn round_trip_booleans() {
    round_trip(RespFrame::Boolean(true));
    round_trip(RespFrame::Boolean(false));
}

#[test]
fn round_trip_double_texts() {
    round_trip(RespFrame::Double(RespDouble::new(b"3.14".to_vec())));
    round_trip(RespFrame::Double(RespDouble::new(b"-2.5e-3".to_vec())));
    round_trip(RespFrame::Double(RespDouble::new(b"inf".to_vec())));
    round_trip(RespFrame::Double(RespDouble::new(b"-inf".to_vec())));
    round_trip(RespFrame::Double(RespDouble::new(b"nan".to_vec())));
}

#[test]
fn round_trip_nested_aggregates() {
    let mut m = RespMap::new();
    m.insert(b"k".to_vec(), RespFrame::Integer(9));
    let inner = RespFrame::Array(RespArray::new(vec![
        RespFrame::Integer(1),
        RespFrame::SimpleString(SimpleString::new(b"hi".to_vec())),
    ]));
    let f = RespFrame::Array(RespArray::new(vec![
        inner,
        RespFrame::SetFrame(RespSet::new(vec![RespFrame::Boolean(true)])),
        RespFrame::MapFrame(m),
    ]));
    round_trip(f);
}

#[test]
fn incomplete_then_complete_every_split_point() {
    let f = RespFrame::Array(RespArray::new(vec![
        RespFrame::Integer(1),
        RespFrame::BulkString(BulkString::new(b"hello".to_vec())),
        RespFrame::Array(RespArray::new(vec![RespFrame::Integer(2)])),
    ]));
    let bytes = f.encode().unwrap();
    for k in 0..bytes.len() {
        assert_eq!(
            decode(&bytes[..k]),
            Err(DecodeError::Incomplete),
            "split at {k} must be incomplete"
        );
    }
    let (back, used) = decode(&bytes).unwrap();
    assert_eq!(back, f);
    assert_eq!(used, bytes.len());
}

#[test]
fn map_emits_ascending_key_order_whatever_insertion_order() {
    let mut m = RespMap::new();
    m.insert(b"zeta".to_vec(), RespFrame::Integer(3));
    m.insert(b"alpha".to_vec(), RespFrame::Integer(1));
    m.insert(b"mid".to_vec(), RespFrame::Integer(2));
    let bytes = RespFrame::MapFrame(m).encode().unwrap();
    assert_eq!(
        bytes,
        b"%3\r\n+alpha\r\n:1\r\n+mid\r\n:2\r\n+zeta\r\n:3\r\n".to_vec()
    );

    let mut m2 = RespMap::new();
    m2.insert(b"alpha".to_vec(), RespFrame::Integer(1));
    m2.insert(b"mid".to_vec(), RespFrame::Integer(2));
    m2.insert(b"zeta".to_vec(), RespFrame::Integer(3));
    assert_eq!(RespFrame::MapFrame(m2).encode().unwrap(), bytes);
}

#[test]
fn map_insert_replaces_existing_key() {
    let mut m = RespMap::new();
    m.insert(b"k".to_vec(), RespFrame::Integer(1));
    m.insert(b"k".to_vec(), RespFrame::Integer(2));
    assert_eq!(m.len(), 1);
    assert!(m.has_key(b"k"));
    assert!(!m.has_key(b"other"));
    let bytes = RespFrame::MapFrame(m).encode().unwrap();
    assert_eq!(bytes, b"%1\r\n+k\r\n:2\r\n".to_vec());
}

#[test]
fn null_sentinels_are_distinct_variants() {
    let (null_bulk, _) = decode(b"$-1\r\n").unwrap();
    assert_eq!(null_bulk, RespFrame::NullBulkString(RespNullBulkString));
    let (null_array, _) = decode(b"*-1\r\n").unwrap();
    assert_eq!(null_array, RespFrame::NullArray(RespNullArray));
    let (null, _) = decode(b"_\r\n").unwrap();
    assert_eq!(null, RespFrame::Null(RespNull));
    assert_ne!(null_bulk, null_array);
    assert_ne!(null_bulk, null);
    assert_ne!(null_array, null);
}

fn is_malformed(r: Result<(RespFrame, usize), DecodeError>) -> bool {
    matches!(r, Err(DecodeError::Malformed(_)))
}

#[test]
fn short_bulk_payload_is_malformed() {
    assert!(is_malformed(decode(b"$3\r\nab\r\n")));
}

#[test]
fn non_numeric_integer_is_malformed() {
    assert!(is_malformed(decode(b":abc\r\n")));
    assert!(is_malformed(decode(b":\r\n")));
    assert!(is_malformed(decode(b":+\r\n")));
    assert!(is_malformed(decode(b":12a\r\n")));
}

#[test]
fn integer_overflow_is_malformed() {
    assert!(is_malformed(decode(b":9223372036854775808\r\n")));
    assert!(is_malformed(decode(b":-9223372036854775809\r\n")));
    let (min, _) = decode(b":-9223372036854775808\r\n").unwrap();
    assert_eq!(min, RespFrame::Integer(i64::MIN));
}

#[test]
fn signed_integers_decode() {
    let (five, _) = decode(b":+5\r\n").unwrap();
    assert_eq!(five, RespFrame::Integer(5));
    let (zero, _) = decode(b":-0\r\n").unwrap();
    assert_eq!(zero, RespFrame::Integer(0));
}

#[test]
fn bad_length_headers_are_malformed() {
    assert!(is_malformed(decode(b"$03\r\nabc\r\n")));
    assert!(is_malformed(decode(b"$-2\r\n")));
    assert!(is_malformed(decode(b"*-2\r\n")));
    assert!(is_malformed(decode(b"~-1\r\n")));
    assert!(is_malformed(decode(b"%-1\r\n")));
    assert!(is_malformed(decode(b"!-1\r\n")));
}

#[test]
fn missing_trailing_crlf_is_malformed() {
    assert!(is_malformed(decode(b"$3\r\nabcXY")));
}

#[test]
fn bad_double_texts_are_malformed() {
    assert!(is_malformed(decode(b",3.\r\n")));
    assert!(is_malformed(decode(b",.5\r\n")));
    assert!(is_malformed(decode(b",e5\r\n")));
    assert!(is_malformed(decode(b",1e\r\n")));
    assert!(is_malformed(decode(b",+inf\r\n")));
    assert!(is_malformed(decode(b",\r\n")));
}

#[test]
fn good_double_texts_decode() {
    let (d, _) = decode(b",+1.25e+9\r\n").unwrap();
    assert_eq!(d, RespFrame::Double(RespDouble::new(b"+1.25e+9".to_vec())));
    let (e, _) = decode(b",10E2\r\n").unwrap();
    assert_eq!(e, RespFrame::Double(RespDouble::new(b"10E2".to_vec())));
}

#[test]
fn bad_boolean_is_malformed() {
    assert!(is_malformed(decode(b"#x\r\n")));
    assert!(is_malformed(decode(b"#tt\r\n")));
}

#[test]
fn null_with_payload_is_malformed() {
    assert!(is_malformed(decode(b"_x\r\n")));
}

#[test]
fn unknown_tag_is_malformed() {
    assert!(is_malformed(decode(b"@abc\r\n")));
}

#[test]
fn duplicate_map_key_is_malformed() {
    assert!(is_malformed(decode(b"%2\r\n+a\r\n:1\r\n+a\r\n:2\r\n")));
}

#[test]
fn non_text_map_key_is_malformed() {
    assert!(is_malformed(decode(b"%1\r\n:1\r\n:2\r\n")));
}

#[test]
fn recursive_nesting_decodes_completely() {
    let buf = b"*2\r\n:1\r\n*1\r\n:2\r\n";
    let (f, used) = decode(buf).unwrap();
    assert_eq!(used, 16);
    assert_eq!(
        f,
        RespFrame::Array(RespArray::new(vec![
            RespFrame::Integer(1),
            RespFrame::Array(RespArray::new(vec![RespFrame::Integer(2)])),
        ]))
    );
}

#[test]
fn decode_stops_at_frame_end() {
    let buf = b"+OK\r\n:1\r\n";
    let (f, used) = decode(buf).unwrap();
    assert_eq!(f, RespFrame::SimpleString(SimpleString::new(b"OK".to_vec())));
    assert_eq!(used, 5);
    let (g, used2) = decode(&buf[used..]).unwrap();
    assert_eq!(g, RespFrame::Integer(1));
    assert_eq!(used2, 4);
}

#[test]
fn empty_buffer_is_incomplete() {
    assert_eq!(decode(b""), Err(DecodeError::Incomplete));
}

#[test]
fn sets_keep_insertion_order_and_allow_duplicates() {
    let buf = b"~3\r\n:2\r\n:1\r\n:2\r\n";
    let (f, used) = decode(buf).unwrap();
    assert_eq!(used, buf.len());
    assert_eq!(
        f,
        RespFrame::SetFrame(RespSet::new(vec![
            RespFrame::Integer(2),
            RespFrame::Integer(1),
            RespFrame::Integer(2),
        ]))
    );
    round_trip(f);
}

#[test]
fn crlf_in_simple_text_is_an_encode_error() {
    let bad = RespFrame::SimpleString(SimpleString::new(b"a\rb".to_vec()));
    assert!(bad.encode().is_err());
    let bad2 = RespFrame::Error(SimpleError::new(b"a\nb".to_vec()));
    assert!(bad2.encode().is_err());
}

#[test]
fn bad_double_text_is_an_encode_error() {
    assert!(RespDouble::new(b"abc".to_vec()).encode().is_err());
    assert!(RespFrame::Double(RespDouble::new(b"1..2".to_vec())).encode().is_err());
}

#[test]
fn payload_types_encode_directly() {
    assert_eq!(SimpleString::new(b"OK".to_vec()).encode().unwrap(), b"+OK\r\n".to_vec());
    assert_eq!(SimpleError::new(b"bad".to_vec()).encode().unwrap(), b"-bad\r\n".to_vec());
    assert_eq!(BulkError::new(b"oops".to_vec()).encode().unwrap(), b"!4\r\noops\r\n".to_vec());
    assert_eq!(BulkString::new(b"get".to_vec()).encode().unwrap(), b"$3\r\nget\r\n".to_vec());
    assert_eq!(RespNullBulkString.encode().unwrap(), b"$-1\r\n".to_vec());
    assert_eq!(RespNullArray.encode().unwrap(), b"*-1\r\n".to_vec());
    assert_eq!(RespNull.encode().unwrap(), b"_\r\n".to_vec());
    assert_eq!(42i64.encode().unwrap(), b":42\r\n".to_vec());
    assert_eq!((-3i64).encode().unwrap(), b":-3\r\n".to_vec());
    assert_eq!(true.encode().unwrap(), b"#t\r\n".to_vec());
    assert_eq!(false.encode().unwrap(), b"#f\r\n".to_vec());
    assert_eq!(RespDouble::new(b"1.5".to_vec()).encode().unwrap(), b",1.5\r\n".to_vec());
    assert_eq!(
        RespArray::new(vec![RespFrame::Integer(1)]).encode().unwrap(),
        b"*1\r\n:1\r\n".to_vec()
    );
    assert_eq!(
        RespSet::new(vec![RespFrame::Integer(1)]).encode().unwrap(),
        b"~1\r\n:1\r\n".to_vec()
    );
    assert_eq!(RespMap::new().encode().unwrap(), b"%0\r\n".to_vec());
}

#[test]
fn example_command_array_encodes_exactly() {
    let f = RespFrame::Array(RespArray::new(vec![
        RespFrame::BulkString(BulkString::new(b"get".to_vec())),
        RespFrame::BulkString(BulkString::new(b"hello".to_vec())),
    ]));
    assert_eq!(f.encode().unwrap(), b"*2\r\n$3\r\nget\r\n$5\r\nhello\r\n".to_vec());
}

#[test]
fn decode_through_the_trait() {
    let (f, used) = <RespFrame as RespDecode>::decode(b"+PONG\r\n").unwrap();
    assert_eq!(f, RespFrame::SimpleString(SimpleString::new(b"PONG".to_vec())));
    assert_eq!(used, 7);
}
