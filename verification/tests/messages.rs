use krpc_client::client::{response_value, single_call_request, Client};
use krpc_client::codec::{encode_string_untagged, encode_u64_untagged, decode_u64_untagged,
    decode_string_untagged};
use krpc_client::error::RpcError;
use krpc_client::messages::{
    decode_argument, decode_conn_response, decode_pc, decode_request, decode_response,
    decode_status, decode_stream, decode_stream_update, encode_argument, encode_conn_request, encode_response,
    encode_conn_response, encode_error, encode_pc, encode_pr, encode_request, encode_status,
    encode_stream, encode_stream_update, decode_event, encode_event, Event, decode_services,
    encode_services, Service, Services, Argument, ConnectionRequest, ConnectionResponse,
    ConnectionStatus, ConnectionType, ErrorMsg, ProcedureCall, ProcedureResult, Request,
    Response, Status, Stream, StreamResult, StreamUpdate,
};

fn sample_call() -> ProcedureCall {
    ProcedureCall {
        service: "SpaceCenter".to_string(),
        procedure: "get_ActiveVessel".to_string(),
        arguments: vec![Argument { position: 0, value: encode_u64_untagged(42) }],
        service_id: 0,
        procedure_id: 0,
    }
}

#[test]
fn argument_message_round_trip() {
    let a = Argument { position: 3, value: vec![1, 2, 3] };
    let mut buf = Vec::new();
    encode_argument(&mut buf, &a);
    let back = decode_argument(&buf).unwrap();
    assert_eq!(back.position, 3);
    assert_eq!(back.value, vec![1, 2, 3]);
}

#[test]
fn default_argument_encodes_to_nothing() {
    let a = Argument { position: 0, value: Vec::new() };
    let mut buf = Vec::new();
    encode_argument(&mut buf, &a);
    assert!(buf.is_empty());
    let back = decode_argument(&buf).unwrap();
    assert_eq!(back.position, 0);
    assert!(back.value.is_empty());
}

#[test]
fn procedure_call_round_trip() {
    let c = sample_call();
    let mut buf = Vec::new();
    encode_pc(&mut buf, &c);
    let back = decode_pc(&buf).unwrap();
    assert_eq!(back.service, "SpaceCenter");
    assert_eq!(back.procedure, "get_ActiveVessel");
    assert_eq!(back.arguments.len(), 1);
    assert_eq!(back.arguments[0].position, 0);
    assert_eq!(back.arguments[0].value, encode_u64_untagged(42));
}

#[test]
fn request_round_trip() {
    let r = Request { calls: vec![sample_call()] };
    let mut buf = Vec::new();
    encode_request(&mut buf, &r);
    let back = decode_request(&buf).unwrap();
    assert_eq!(back.calls.len(), 1);
    assert_eq!(back.calls[0].procedure, "get_ActiveVessel");
}

#[test]
fn response_round_trip_with_error() {
    let r = Response {
        error: Some(ErrorMsg {
            service: "KRPC".to_string(),
            name: "Boom".to_string(),
            description: "it broke".to_string(),
            stack_trace: String::new(),
        }),
        results: vec![ProcedureResult { error: None, value: encode_u64_untagged(7) }],
    };
    let mut buf = Vec::new();
    encode_response(&mut buf, &r);
    let back = decode_response(&buf).unwrap();
    let e = back.error.unwrap();
    assert_eq!(e.name, "Boom");
    assert_eq!(e.description, "it broke");
    assert_eq!(back.results.len(), 1);
    assert_eq!(back.results[0].value, encode_u64_untagged(7));
}

#[test]
fn stream_update_round_trip() {
    let u = StreamUpdate {
        results: vec![
            StreamResult {
                id: 5,
                result: Some(ProcedureResult { error: None, value: encode_u64_untagged(1) }),
            },
            StreamResult {
                id: 9,
                result: Some(ProcedureResult { error: None, value: encode_u64_untagged(2) }),
            },
        ],
    };
    let mut buf = Vec::new();
    encode_stream_update(&mut buf, &u);
    let back = decode_stream_update(&buf).unwrap();
    assert_eq!(back.results.len(), 2);
    assert_eq!(back.results[0].id, 5);
    assert_eq!(back.results[1].id, 9);
    assert_eq!(back.results[1].result.as_ref().unwrap().value, encode_u64_untagged(2));
}

#[test]
fn stream_message_round_trip() {
    let mut buf = Vec::new();
    encode_stream(&mut buf, &Stream { id: 77 });
    assert_eq!(decode_stream(&buf).unwrap().id, 77);
}

#[test]
fn connection_handshake_round_trip() {
    let mut buf = Vec::new();
    encode_conn_request(&mut buf, &ConnectionRequest {
        conn_type: ConnectionType::Stream,
        client_name: "test client".to_string(),
        client_identifier: vec![9, 8, 7],
    });
    assert!(!buf.is_empty());

    let mut rbuf = Vec::new();
    encode_conn_response(&mut rbuf, &ConnectionResponse {
        status: ConnectionStatus::Okay,
        message: String::new(),
        client_identifier: vec![1, 2, 3, 4],
    });
    let back = decode_conn_response(&rbuf).unwrap();
    assert!(matches!(back.status, ConnectionStatus::Okay));
    assert_eq!(back.client_identifier, vec![1, 2, 3, 4]);
}

#[test]
fn rejected_handshake_reports_connection_error() {
    let mut rbuf = Vec::new();
    encode_conn_response(&mut rbuf, &ConnectionResponse {
        status: ConnectionStatus::WrongType,
        message: "wrong socket".to_string(),
        client_identifier: Vec::new(),
    });
    let back = decode_conn_response(&rbuf).unwrap();
    let checked = krpc_client::client::check_connection_response(&back);
    assert!(matches!(checked, Err(RpcError::Connection(_))));
}

#[test]
fn status_reports_its_version() {
    // a server status answer carrying a version string, as the client
    // would see it inside a procedure result
    let mut status_bytes = Vec::new();
    encode_status(&mut status_bytes, &Status { version: "0.5.4".to_string() });
    let resp = Response {
        error: None,
        results: vec![ProcedureResult { error: None, value: status_bytes }],
    };
    let mut wire = Vec::new();
    encode_response(&mut wire, &resp);
    let back = decode_response(&wire).unwrap();
    let value = response_value(back).unwrap();
    let status = decode_status(&value).unwrap();
    assert!(!status.version.is_empty());
    assert_eq!(status.version, "0.5.4");
}

#[test]
fn typed_handle_round_trip() {
    // the same vessel handle comes back from two calls, and its name
    // decodes the same both times
    let handle_response = |id: u64| Response {
        error: None,
        results: vec![ProcedureResult { error: None, value: encode_u64_untagged(id) }],
    };
    let v1 = decode_u64_untagged(&response_value(handle_response(42)).unwrap()).unwrap();
    let v2 = decode_u64_untagged(&response_value(handle_response(42)).unwrap()).unwrap();
    assert_eq!(v1, v2);

    let name_response = Response {
        error: None,
        results: vec![ProcedureResult {
            error: None,
            value: encode_string_untagged("Kerbal 1"),
        }],
    };
    let s = decode_string_untagged(&response_value(name_response).unwrap()).unwrap();
    assert_eq!(s, "Kerbal 1");
}

#[test]
fn this_binding_carries_the_handle_as_argument_zero() {
    // a method call on a handle carries the handle's id as the first
    // positional argument on the wire
    let args = vec![Argument { position: 0, value: encode_u64_untagged(42) }];
    let call = Client::proc_call("SpaceCenter", "Vessel_get_Name", args);
    assert_eq!(call.arguments.len(), 1);
    assert_eq!(call.arguments[0].position, 0);
    assert_eq!(call.arguments[0].value, encode_u64_untagged(42));
    let req = single_call_request(call);
    assert_eq!(req.calls.len(), 1);
}

#[test]
fn response_errors_surface_as_protocol_errors() {
    let failed = Response {
        error: Some(ErrorMsg {
            service: String::new(),
            name: String::new(),
            description: "no signal".to_string(),
            stack_trace: String::new(),
        }),
        results: Vec::new(),
    };
    assert!(matches!(response_value(failed), Err(RpcError::Protocol(_))));

    let empty = Response { error: None, results: Vec::new() };
    assert!(matches!(response_value(empty), Err(RpcError::Client)));

    let failed_result = Response {
        error: None,
        results: vec![ProcedureResult {
            error: Some(ErrorMsg {
                service: String::new(),
                name: String::new(),
                description: "bad call".to_string(),
                stack_trace: String::new(),
            }),
            value: Vec::new(),
        }],
    };
    assert!(matches!(response_value(failed_result), Err(RpcError::Protocol(_))));
}

#[test]
fn error_message_round_trip() {
    let e = ErrorMsg {
        service: "KRPC".to_string(),
        name: "ArgumentException".to_string(),
        description: "bad argument".to_string(),
        stack_trace: "at Foo.Bar()".to_string(),
    };
    let mut buf = Vec::new();
    encode_error(&mut buf, &e);
    let back = krpc_client::messages::decode_error(&buf).unwrap();
    assert_eq!(back.service, "KRPC");
    assert_eq!(back.name, "ArgumentException");
    assert_eq!(back.description, "bad argument");
    assert_eq!(back.stack_trace, "at Foo.Bar()");
}

#[test]
fn procedure_result_round_trip() {
    let p = ProcedureResult { error: None, value: encode_u64_untagged(123) };
    let mut buf = Vec::new();
    encode_pr(&mut buf, &p);
    let back = krpc_client::messages::decode_pr(&buf).unwrap();
    assert!(back.error.is_none());
    assert_eq!(back.value, encode_u64_untagged(123));
}

#[test]
fn event_round_trip() {
    let mut buf = Vec::new();
    encode_event(&mut buf, &Event { stream: Some(Stream { id: 31 }) });
    let back = decode_event(&buf).unwrap();
    assert_eq!(back.stream.unwrap().id, 31);

    let mut empty = Vec::new();
    encode_event(&mut empty, &Event { stream: None });
    assert!(decode_event(&empty).unwrap().stream.is_none());
}

#[test]
fn services_round_trip() {
    let s = Services {
        services: vec![
            Service { name: "KRPC".to_string() },
            Service { name: "SpaceCenter".to_string() },
        ],
    };
    let mut buf = Vec::new();
    encode_services(&mut buf, &s);
    let back = decode_services(&buf).unwrap();
    assert_eq!(back.services.len(), 2);
    assert_eq!(back.services[0].name, "KRPC");
    assert_eq!(back.services[1].name, "SpaceCenter");
}
