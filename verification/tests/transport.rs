use krpc_client::client::{add_stream_call, get_status_call, remove_stream_call,
    set_stream_rate_call, Client};
use krpc_client::codec::{encode_bool_untagged, encode_u64_untagged};
use krpc_client::error::RpcError;
use krpc_client::framing::{encode_frame, Framer};
use krpc_client::messages::{ProcedureResult, StreamResult, StreamUpdate};

#[test]
fn frame_round_trip() {
    let payload = vec![1u8, 2, 3, 4, 5];
    let frame = encode_frame(&payload);
    let mut f = Framer::new();
    f.push_chunk(&frame);
    assert_eq!(f.take_frame().unwrap(), Some(payload));
    assert_eq!(f.take_frame().unwrap(), None);
}

#[test]
fn frames_survive_one_byte_chunking() {
    // a framed message remains decodable however the transport chunks it
    let payload: Vec<u8> = (0u8..100).collect();
    let frame = encode_frame(&payload);
    let mut f = Framer::new();
    for b in frame.iter() {
        f.push_chunk(&vec![*b]);
    }
    assert_eq!(f.take_frame().unwrap(), Some(payload));
}

#[test]
fn partial_frames_wait_for_more_bytes() {
    let payload = vec![9u8; 10];
    let frame = encode_frame(&payload);
    let mut f = Framer::new();
    let (head, tail) = frame.split_at(4);
    f.push_chunk(&head.to_vec());
    assert_eq!(f.take_frame().unwrap(), None);
    f.push_chunk(&tail.to_vec());
    assert_eq!(f.take_frame().unwrap(), Some(payload));
}

#[test]
fn two_frames_come_out_in_order() {
    let a = vec![1u8, 1];
    let b = vec![2u8, 2, 2];
    let mut bytes = encode_frame(&a);
    bytes.extend_from_slice(&encode_frame(&b));
    let mut f = Framer::new();
    f.push_chunk(&bytes);
    assert_eq!(f.take_frame().unwrap(), Some(a));
    assert_eq!(f.take_frame().unwrap(), Some(b));
    assert_eq!(f.take_frame().unwrap(), None);
}

#[test]
fn oversized_frames_hit_the_guard() {
    // a length prefix far past the guard is an error, not a wait
    let mut f = Framer::new();
    let huge = encode_u64_untagged(1 << 40);
    f.push_chunk(&huge);
    assert!(matches!(f.take_frame(), Err(RpcError::Connection(_))));
}

fn push(id: u64, v: u64) -> StreamResult {
    StreamResult {
        id,
        result: Some(ProcedureResult { error: None, value: encode_u64_untagged(v) }),
    }
}

#[test]
fn stream_updates_apply_newest_last() {
    // pushes for one id overwrite in order: a reader sees the values in
    // never-decreasing push order, never an older value after a newer one
    let mut c = Client::new_state();
    c.update_streams(StreamUpdate { results: vec![push(1, 10), push(2, 20)] }).unwrap();
    assert_eq!(c.read_stream(1).unwrap(), encode_u64_untagged(10));
    c.update_streams(StreamUpdate { results: vec![push(1, 11), push(1, 12)] }).unwrap();
    assert_eq!(c.read_stream(1).unwrap(), encode_u64_untagged(12));
    assert_eq!(c.read_stream(2).unwrap(), encode_u64_untagged(20));
}

#[test]
fn stream_lifecycle_removes_the_entry() {
    let mut c = Client::new_state();
    c.update_streams(StreamUpdate { results: vec![push(7, 1)] }).unwrap();
    assert!(c.read_stream(7).is_ok());
    c.remove_stream(7).unwrap();
    assert!(matches!(c.read_stream(7), Err(RpcError::Encoding(_))));
}

#[test]
fn unknown_streams_read_as_encoding_errors() {
    let c = Client::new_state();
    assert!(matches!(c.read_stream(99), Err(RpcError::Encoding(_))));
}

#[test]
fn broken_clients_fail_stream_reads_with_connection_errors() {
    // after the update connection is lost, every stream read fails
    let mut c = Client::new_state();
    c.update_streams(StreamUpdate { results: vec![push(1, 10)] }).unwrap();
    c.mark_broken();
    assert!(matches!(c.read_stream(1), Err(RpcError::Connection(_))));
    assert!(matches!(c.read_stream(2), Err(RpcError::Connection(_))));
}

#[test]
fn updates_without_results_are_client_errors() {
    let mut c = Client::new_state();
    let r = c.update_streams(StreamUpdate {
        results: vec![push(1, 10), StreamResult { id: 2, result: None }],
    });
    assert!(matches!(r, Err(RpcError::Client)));
    // the entries before the malformed one still applied
    assert_eq!(c.read_stream(1).unwrap(), encode_u64_untagged(10));
}

#[test]
fn builtin_stream_calls_carry_their_arguments() {
    let inner = Client::proc_call("SpaceCenter", "get_UT", Vec::new());
    let add = add_stream_call(&inner, true);
    assert_eq!(add.service, "KRPC");
    assert_eq!(add.procedure, "AddStream");
    assert_eq!(add.arguments.len(), 2);
    assert_eq!(add.arguments[1].value, encode_bool_untagged(true));

    let rem = remove_stream_call(5);
    assert_eq!(rem.service, "KRPC");
    assert_eq!(rem.procedure, "RemoveStream");
    assert_eq!(rem.arguments[0].value, encode_u64_untagged(5));

    let rate = set_stream_rate_call(5, 1.0f32.to_bits());
    assert_eq!(rate.procedure, "SetStreamRate");
    assert_eq!(rate.arguments.len(), 2);

    let status = get_status_call();
    assert_eq!(status.service, "KRPC");
    assert_eq!(status.procedure, "GetStatus");
    assert!(status.arguments.is_empty());
}
