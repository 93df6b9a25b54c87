use krpc_client::codec::{
    decode_bool_untagged, decode_bytes_untagged, decode_dictionary_untagged,
    decode_double_bits_untagged, decode_enum_tag, decode_float_bits_untagged,
    decode_items_untagged, decode_nullable_class, decode_sint32_untagged, decode_string_untagged,
    decode_u32_untagged, decode_u64_untagged, encode_bool_untagged, encode_bytes_untagged,
    encode_class_handle, encode_dictionary_untagged, encode_double_bits_untagged,
    encode_enum_tag, encode_float_bits_untagged, encode_items_untagged, encode_sint32_untagged,
    encode_string_untagged, encode_u32_untagged, encode_u64_untagged, tuple_item,
};
use krpc_client::error::RpcError;

#[test]
fn u64_round_trip() {
    for v in [0u64, 1, 127, 128, 300, 16383, 16384, u64::MAX] {
        let enc = encode_u64_untagged(v);
        assert_eq!(decode_u64_untagged(&enc).unwrap(), v);
    }
    assert_eq!(encode_u64_untagged(300), vec![0xAC, 0x02]);
    assert_eq!(encode_u64_untagged(0), vec![0x00]);
}

#[test]
fn u64_rejects_trailing_and_padding() {
    assert!(matches!(
        decode_u64_untagged(&vec![0x01, 0x00]),
        Err(RpcError::Encoding(_))
    ));
    // non-canonical zero-padded form
    assert!(matches!(
        decode_u64_untagged(&vec![0x80, 0x00]),
        Err(RpcError::Encoding(_))
    ));
    // truncated
    assert!(matches!(
        decode_u64_untagged(&vec![0x80]),
        Err(RpcError::Encoding(_))
    ));
}

#[test]
fn u32_round_trip_and_range() {
    for v in [0u32, 1, 255, 70000, u32::MAX] {
        let enc = encode_u32_untagged(v);
        assert_eq!(decode_u32_untagged(&enc).unwrap(), v);
    }
    let too_big = encode_u64_untagged(u32::MAX as u64 + 1);
    assert!(matches!(
        decode_u32_untagged(&too_big),
        Err(RpcError::Encoding(_))
    ));
}

#[test]
fn bool_round_trip() {
    assert!(decode_bool_untagged(&encode_bool_untagged(true)).unwrap());
    assert!(!decode_bool_untagged(&encode_bool_untagged(false)).unwrap());
    assert!(matches!(
        decode_bool_untagged(&encode_u64_untagged(2)),
        Err(RpcError::Encoding(_))
    ));
}

#[test]
fn sint32_round_trip() {
    for v in [0i32, 1, -1, 63, -64, 64, i32::MAX, i32::MIN] {
        let enc = encode_sint32_untagged(v);
        assert_eq!(decode_sint32_untagged(&enc).unwrap(), v);
    }
    assert_eq!(encode_sint32_untagged(-1), vec![0x01]);
    assert_eq!(encode_sint32_untagged(1), vec![0x02]);
}

#[test]
fn scalar_bits_round_trip() {
    let f = 1.5f32;
    let enc = encode_float_bits_untagged(f.to_bits());
    assert_eq!(enc.len(), 4);
    assert_eq!(f32::from_bits(decode_float_bits_untagged(&enc).unwrap()), f);

    let d = -2.25f64;
    let enc = encode_double_bits_untagged(d.to_bits());
    assert_eq!(enc.len(), 8);
    assert_eq!(f64::from_bits(decode_double_bits_untagged(&enc).unwrap()), d);

    assert!(matches!(
        decode_float_bits_untagged(&vec![1, 2, 3]),
        Err(RpcError::Encoding(_))
    ));
}

#[test]
fn bytes_round_trip() {
    let b = vec![1u8, 2, 3];
    let enc = encode_bytes_untagged(&b);
    assert_eq!(enc, vec![3, 1, 2, 3]);
    assert_eq!(decode_bytes_untagged(&enc).unwrap(), b);
    let empty: Vec<u8> = Vec::new();
    assert_eq!(
        decode_bytes_untagged(&encode_bytes_untagged(&empty)).unwrap(),
        empty
    );
}

#[test]
fn string_round_trip() {
    for s in ["", "hello", "h\u{e9}llo \u{1F680}"] {
        let enc = encode_string_untagged(s);
        assert_eq!(decode_string_untagged(&enc).unwrap(), s);
    }
    // invalid UTF-8 payload
    let bad = encode_bytes_untagged(&vec![0xFF, 0xFE]);
    assert!(matches!(
        decode_string_untagged(&bad),
        Err(RpcError::Encoding(_))
    ));
}

#[test]
fn items_round_trip() {
    let items = vec![encode_u64_untagged(1), encode_u64_untagged(300)];
    let enc = encode_items_untagged(&items);
    let back = decode_items_untagged(&enc).unwrap();
    assert_eq!(back, items);

    let empty: Vec<Vec<u8>> = Vec::new();
    assert_eq!(
        decode_items_untagged(&encode_items_untagged(&empty)).unwrap(),
        empty
    );
}

#[test]
fn tuple_arity_mismatch_is_encoding_error() {
    let pair = vec![encode_u64_untagged(7), encode_bool_untagged(true)];
    let enc = encode_items_untagged(&pair);
    let items = decode_items_untagged(&enc).unwrap();
    assert!(tuple_item(&items, 0).is_ok());
    assert!(tuple_item(&items, 1).is_ok());
    // a decoder for a wider tuple asks for one item more and must fail
    assert!(matches!(tuple_item(&items, 2), Err(RpcError::Encoding(_))));
}

#[test]
fn dictionary_round_trip() {
    let entries = vec![
        (encode_u64_untagged(1), encode_string_untagged("one")),
        (encode_u64_untagged(2), encode_string_untagged("two")),
    ];
    let enc = encode_dictionary_untagged(&entries);
    assert_eq!(decode_dictionary_untagged(&enc).unwrap(), entries);
}

#[test]
fn enum_discipline() {
    let tags = vec![10i32, -5, 3];
    for i in 0..tags.len() {
        let enc = encode_enum_tag(&tags, i).unwrap();
        assert_eq!(decode_enum_tag(&tags, &enc).unwrap(), i);
    }
    // a tag outside the declared set never maps to a variant
    let stray = encode_sint32_untagged(7);
    assert!(matches!(
        decode_enum_tag(&tags, &stray),
        Err(RpcError::Encoding(_))
    ));
    assert!(matches!(
        encode_enum_tag(&tags, 3),
        Err(RpcError::Encoding(_))
    ));
}

#[test]
fn nullable_class_handles() {
    // a null handle decodes as the absent value, a real one as itself
    assert_eq!(
        decode_nullable_class(&encode_u64_untagged(0)).unwrap(),
        None
    );
    assert_eq!(
        decode_nullable_class(&encode_u64_untagged(42)).unwrap(),
        Some(42)
    );
    // encoding null into a non-nullable position fails
    assert!(matches!(
        encode_class_handle(0, false),
        Err(RpcError::Encoding(_))
    ));
    assert_eq!(encode_class_handle(0, true).unwrap(), vec![0]);
    assert_eq!(encode_class_handle(9, false).unwrap(), encode_u64_untagged(9));
}
