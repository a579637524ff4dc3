use session_store::codec::{decode_record, decode_value, encode_record, encode_value};
use session_store::record::{DataValue, Record, SessionId};

fn pair(k: &str, v: DataValue) -> (String, DataValue) {
    (k.to_string(), v)
}

fn encode_ok(r: &Record) -> Vec<u8> {
    let mut out = Vec::new();
    encode_record(r, &mut out).expect("record must encode");
    out
}

#[test]
fn round_trip_empty_data() {
    let rec = Record { id: SessionId(0), data: Vec::new(), expiry_date: 0 };
    let bytes = encode_ok(&rec);
    let back = decode_record(&bytes).expect("must decode");
    assert_eq!(back, rec);
}

#[test]
fn round_trip_counter() {
    let rec = Record {
        id: SessionId(42),
        data: vec![pair("counter", DataValue::Int(0))],
        expiry_date: 1_700_000_010,
    };
    let bytes = encode_ok(&rec);
    let back = decode_record(&bytes).expect("must decode");
    assert_eq!(back, rec);
}

#[test]
fn round_trip_deeply_nested() {
    let inner = DataValue::Object(vec![
        pair("flag", DataValue::Bool(true)),
        pair("items", DataValue::List(vec![
            DataValue::Null,
            DataValue::Int(-7),
            DataValue::Text("héllo, wörld — 你好".to_string()),
            DataValue::List(vec![DataValue::List(vec![DataValue::Object(vec![pair(
                "deep",
                DataValue::Int(i128::MIN),
            )])])]),
        ])),
    ]);
    let rec = Record {
        id: SessionId(-1),
        data: vec![pair("nested", inner), pair("empty", DataValue::Object(Vec::new()))],
        expiry_date: -5,
    };
    let bytes = encode_ok(&rec);
    let back = decode_record(&bytes).expect("must decode");
    assert_eq!(back, rec);
}

#[test]
fn round_trip_extreme_values() {
    let rec = Record {
        id: SessionId(i128::MIN),
        data: vec![
            pair("max", DataValue::Int(i128::MAX)),
            pair("min", DataValue::Int(i128::MIN)),
            pair("zero", DataValue::Int(0)),
            pair("neg", DataValue::Int(-1)),
            pair("empty_text", DataValue::Text(String::new())),
            pair("empty_list", DataValue::List(Vec::new())),
            pair("f", DataValue::Bool(false)),
        ],
        expiry_date: i64::MAX,
    };
    let bytes = encode_ok(&rec);
    let back = decode_record(&bytes).expect("must decode");
    assert_eq!(back, rec);

    let rec2 = Record { id: SessionId(i128::MAX), data: Vec::new(), expiry_date: i64::MIN };
    let back2 = decode_record(&encode_ok(&rec2)).expect("must decode");
    assert_eq!(back2, rec2);
}

#[test]
fn int_wire_form_is_sign_then_magnitude() {
    let mut out = Vec::new();
    encode_value(&DataValue::Int(0), &mut out).unwrap();
    let mut expected = vec![3u8, 0u8];
    expected.extend_from_slice(&[0u8; 16]);
    assert_eq!(out, expected);

    let mut out_neg = Vec::new();
    encode_value(&DataValue::Int(-1), &mut out_neg).unwrap();
    let mut expected_neg = vec![3u8, 1u8];
    expected_neg.extend_from_slice(&[0u8; 16]);
    assert_eq!(out_neg, expected_neg);

    let mut out_five = Vec::new();
    encode_value(&DataValue::Int(5), &mut out_five).unwrap();
    let mut expected_five = vec![3u8, 0u8, 5u8];
    expected_five.extend_from_slice(&[0u8; 15]);
    assert_eq!(out_five, expected_five);
}

#[test]
fn text_wire_form_is_length_then_utf8() {
    let mut out = Vec::new();
    encode_value(&DataValue::Text("ab".to_string()), &mut out).unwrap();
    assert_eq!(out, vec![4u8, 2, 0, 0, 0, b'a', b'b']);

    // a multi-byte character really goes through UTF-8, not one byte per char
    let mut out2 = Vec::new();
    encode_value(&DataValue::Text("é".to_string()), &mut out2).unwrap();
    assert_eq!(out2, vec![4u8, 2, 0, 0, 0, 0xC3, 0xA9]);
    let (back, used) = decode_value(&out2, 0).expect("must decode");
    assert_eq!(used, out2.len());
    assert_eq!(back, DataValue::Text("é".to_string()));
}

#[test]
fn decode_fails_closed_on_malformed_input() {
    // empty input
    assert!(decode_value(&[], 0).is_err());
    // unknown tag
    assert!(decode_value(&[9u8], 0).is_err());
    // truncated integer payload
    assert!(decode_value(&[3u8, 0, 1, 2], 0).is_err());
    // bad sign byte
    let mut bad_sign = vec![3u8, 2u8];
    bad_sign.extend_from_slice(&[0u8; 16]);
    assert!(decode_value(&bad_sign, 0).is_err());
    // magnitude too large for a signed value
    let mut too_big = vec![3u8, 0u8];
    too_big.extend_from_slice(&[0xFFu8; 16]);
    assert!(decode_value(&too_big, 0).is_err());
    // text whose bytes are not UTF-8
    let bad_text = vec![4u8, 1, 0, 0, 0, 0xFF];
    assert!(decode_value(&bad_text, 0).is_err());
    // text truncated before its declared length
    let short_text = vec![4u8, 5, 0, 0, 0, b'a'];
    assert!(decode_value(&short_text, 0).is_err());
    // list truncated before its declared count
    let short_list = vec![5u8, 2, 0, 0, 0, 0u8];
    assert!(decode_value(&short_list, 0).is_err());
}

#[test]
fn decode_record_fails_closed() {
    let rec = Record {
        id: SessionId(9),
        data: vec![pair("k", DataValue::Null)],
        expiry_date: 44,
    };
    let bytes = encode_ok(&rec);
    // truncation of a valid record
    assert!(decode_record(&bytes[..bytes.len() - 1]).is_err());
    // trailing garbage after a valid record
    let mut padded = bytes.clone();
    padded.push(0);
    assert!(decode_record(&padded).is_err());
    // a corrupted interior byte must not yield a record silently reshaped:
    // flipping the tag of the top-level object makes it undecodable
    let mut flipped = bytes.clone();
    flipped[0] = 9;
    assert!(decode_record(&flipped).is_err());
    // a top-level value that is not an object
    let mut not_object = Vec::new();
    encode_value(&DataValue::Int(3), &mut not_object).unwrap();
    assert!(decode_record(&not_object).is_err());
}

#[test]
fn decode_record_requires_all_fields() {
    // an object missing `expiry_date`
    let incomplete = DataValue::Object(vec![
        pair("data", DataValue::Object(Vec::new())),
        pair("id", DataValue::Int(1)),
    ]);
    let mut bytes = Vec::new();
    encode_value(&incomplete, &mut bytes).unwrap();
    assert!(decode_record(&bytes).is_err());

    // an expiry that does not fit 64 bits
    let huge_expiry = DataValue::Object(vec![
        pair("data", DataValue::Object(Vec::new())),
        pair("expiry_date", DataValue::Int(i128::MAX)),
        pair("id", DataValue::Int(1)),
    ]);
    let mut bytes2 = Vec::new();
    encode_value(&huge_expiry, &mut bytes2).unwrap();
    assert!(decode_record(&bytes2).is_err());
}

#[test]
fn decode_record_ignores_unknown_fields() {
    // an object written with an additive field decodes for this reader
    let newer_writer = DataValue::Object(vec![
        pair("data", DataValue::Object(vec![pair("counter", DataValue::Int(3))])),
        pair("expiry_date", DataValue::Int(77)),
        pair("id", DataValue::Int(12)),
        pair("added_later", DataValue::Text("ignored".to_string())),
    ]);
    let mut bytes = Vec::new();
    encode_value(&newer_writer, &mut bytes).unwrap();
    let back = decode_record(&bytes).expect("additive fields must not break decoding");
    assert_eq!(back.id, SessionId(12));
    assert_eq!(back.expiry_date, 77);
    assert_eq!(back.data, vec![pair("counter", DataValue::Int(3))]);
}
