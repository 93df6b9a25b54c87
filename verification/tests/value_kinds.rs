use krpc_client::codec::encode_u64_untagged;
use krpc_client::messages::{ErrorMsg, ProcedureResult, Response};
use krpc_client::schema::{DecodeUntagged, EncodeUntagged, FromResponse, ToArgument};

#[test]
fn value_kinds_round_trip_through_the_interface() {
    assert_eq!(u64::decode_untagged(&42u64.encode_untagged()).unwrap(), 42);
    assert_eq!(u32::decode_untagged(&7u32.encode_untagged()).unwrap(), 7);
    assert_eq!(i32::decode_untagged(&(-3i32).encode_untagged()).unwrap(), -3);
    assert!(bool::decode_untagged(&true.encode_untagged()).unwrap());
    let s = "orbit".to_string();
    assert_eq!(String::decode_untagged(&s.encode_untagged()).unwrap(), s);
    let b = vec![1u8, 2, 3];
    assert_eq!(Vec::<u8>::decode_untagged(&b.encode_untagged()).unwrap(), b);
}

#[test]
fn arguments_carry_their_position_and_value() {
    let a = 42u64.to_argument(3).unwrap();
    assert_eq!(a.position, 3);
    assert_eq!(a.value, encode_u64_untagged(42));
}

#[test]
fn responses_read_as_their_declared_type() {
    let resp = Response {
        error: None,
        results: vec![ProcedureResult { error: None, value: encode_u64_untagged(9) }],
    };
    assert_eq!(u64::from_response(resp).unwrap(), 9);

    let failed = Response {
        error: Some(ErrorMsg {
            service: String::new(),
            name: String::new(),
            description: "down".to_string(),
            stack_trace: String::new(),
        }),
        results: Vec::new(),
    };
    assert!(u64::from_response(failed).is_err());

    // a void return reads as unit from any successful response
    let empty = Response { error: None, results: Vec::new() };
    assert!(<() as FromResponse>::from_response(empty).is_ok());
}
