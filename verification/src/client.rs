//! The pure call-plane of the client: building procedure calls and
//! requests, checking connection handshakes, extracting the single
//! result of a response, applying pushed stream updates to the registry,
//! and the built-in calls that manage streams on the server. What
//! touches a socket lives outside the library and hands values in and
//! out of these functions.

use vstd::prelude::*;

use crate::codec::{enc_bool, enc_u64, enc_float_bits, encode_bool_untagged,
    encode_u64_untagged, encode_float_bits_untagged};
use crate::error::RpcError;
use crate::messages::{Argument, ConnectionRequest, ConnectionResponse, ConnectionStatus,
    ConnectionType, ProcedureCall, ProcedureResult, Request, Response, StreamResult,
    StreamUpdate, enc_pc, encode_pc, arg_views, lemma_arg_views, pc_views, lemma_pc_views};
use crate::stream::{StreamWrangler, apply_updates};
use crate::codec::clone_bytes;

verus! {

/// The protocol state a client carries between calls: the registry of
/// stream values and the identifier the server assigned at handshake.
/// The sockets, locks and background reader that feed it live outside
/// the library.
pub struct Client {
    pub streams: StreamWrangler,
    pub identifier: Vec<u8>,
}

/// Every entry of a stream update carries a result.
pub open spec fn all_have_results(rs: Seq<StreamResult>) -> bool {
    forall|i: int| 0 <= i < rs.len() ==> (#[trigger] rs[i]).result is Some
}

/// How many leading entries of a stream update carry a result.
pub open spec fn some_prefix_len(rs: Seq<StreamResult>) -> int
    decreases rs.len(),
{
    if rs.len() == 0 {
        0
    } else if rs[0].result is None {
        0
    } else {
        1 + some_prefix_len(rs.drop_first())
    }
}

/// The id/result pairs of a run of stream-update entries, in order.
pub open spec fn update_pairs(rs: Seq<StreamResult>) -> Seq<(u64, ProcedureResult)>
    decreases rs.len(),
{
    if rs.len() == 0 {
        Seq::empty()
    } else {
        match rs[0].result {
            Some(p) => seq![(rs[0].id, p)] + update_pairs(rs.drop_first()),
            None => update_pairs(rs.drop_first()),
        }
    }
}

impl Client {
    /// A fresh client state: no streams, no identifier yet.
    pub fn new_state() -> (r: Client)
        ensures
            r.streams.entries() == Map::<u64, ProcedureResult>::empty(),
            !r.streams.is_broken(),
            r.identifier@ == Seq::<u8>::empty(),
    {
        Client { streams: StreamWrangler::new(), identifier: Vec::new() }
    }

    /// Builds the call of one procedure of one service, with the given
    /// encoded arguments in their given order.
    pub fn proc_call(service: &str, procedure: &str, args: Vec<Argument>) -> (r: ProcedureCall)
        ensures
            r@.service == service@,
            r@.procedure == procedure@,
            r@.arguments == arg_views(args@),
            r@.service_id == 0,
            r@.procedure_id == 0,
    {
        ProcedureCall {
            service: service.to_owned(),
            procedure: procedure.to_owned(),
            arguments: args,
            service_id: 0,
            procedure_id: 0,
        }
    }

    /// Applies one pushed stream update to the registry: each entry's
    /// result replaces the cell of its stream id, in the order pushed,
    /// the most recent value winning. An entry without a result is a
    /// client error; entries before it still apply.
    pub fn update_streams(&mut self, update: StreamUpdate) -> (r: Result<(), RpcError>)
        ensures
            r is Ok <==> all_have_results(update.results@),
            r is Ok ==> final(self).streams.entries()
                == apply_updates(old(self).streams.entries(), update_pairs(update.results@)),
            r matches Err(e) ==> e is Client && final(self).streams.entries()
                == apply_updates(old(self).streams.entries(),
                    update_pairs(update.results@.take(some_prefix_len(update.results@)))),
            final(self).streams.is_broken() == old(self).streams.is_broken(),
            final(self).identifier == old(self).identifier,
    {
        let ghost all = update.results@;
        let mut rest = update.results;
        let ghost mut consumed: Seq<StreamResult> = Seq::empty();
        proof {
            assert(consumed + rest@ =~= all);
            assert(update_pairs(consumed).len() == 0);
            assert(self.streams.entries()
                == apply_updates(self.streams.entries(), update_pairs(consumed)));
        }
        while rest.len() > 0
            invariant
                all == update.results@,
                consumed + rest@ == all,
                forall|i: int| 0 <= i < consumed.len()
                    ==> (#[trigger] consumed[i]).result is Some,
                self.streams.entries()
                    == apply_updates(old(self).streams.entries(), update_pairs(consumed)),
                self.streams.is_broken() == old(self).streams.is_broken(),
                self.identifier == old(self).identifier,
            decreases rest@.len(),
        {
            let ghost old_consumed = consumed;
            let ghost old_rest = rest@;
            let entry = rest.remove(0);
            match entry.result {
                Some(pr) => {
                    let id = entry.id;
                    let ghost before = self.streams.entries();
                    let res = self.streams.insert(id, pr);
                    proof {
                        consumed = old_consumed.push(entry);
                        assert(consumed + rest@ =~= all);
                        lemma_update_pairs_push_some(old_consumed, entry);
                        lemma_apply_updates_snoc(old(self).streams.entries(),
                            update_pairs(old_consumed), (id, entry.result->Some_0));
                        assert(update_pairs(consumed)
                            =~= update_pairs(old_consumed).push((id, entry.result->Some_0)));
                    }
                },
                None => {
                    proof {
                        assert(old_rest[0].result is None);
                        lemma_some_prefix_is_consumed(all, old_consumed, old_rest);
                        assert(all[old_consumed.len() as int] == old_rest[0]);
                        assert(!all_have_results(all));
                        assert(all.take(some_prefix_len(all)) == old_consumed);
                    }
                    return Err(RpcError::Client);
                },
            }
        }
        proof {
            assert(consumed =~= all);
            assert forall|i: int| 0 <= i < all.len()
                implies (#[trigger] all[i]).result is Some by {
                assert(all[i] == consumed[i]);
            };
        }
        Ok(())
    }

    /// Reads the latest value bytes of a stream from the registry.
    pub fn read_stream(&self, id: u64) -> (r: Result<Vec<u8>, RpcError>)
        ensures
            self.streams.is_broken() ==> (r matches Err(e) && e is Connection),
            !self.streams.is_broken() && !self.streams.entries().contains_key(id)
                ==> (r matches Err(e) && e is Encoding),
            !self.streams.is_broken() && self.streams.entries().contains_key(id)
                ==> (r matches Ok(b) && b@ == self.streams.entries()[id].value@),
    {
        self.streams.get(id)
    }

    /// Deregisters a stream id from the registry.
    pub fn remove_stream(&mut self, id: u64) -> (r: Result<(), RpcError>)
        ensures
            r is Ok,
            final(self).streams.entries() == old(self).streams.entries().remove(id),
            !final(self).streams.entries().contains_key(id),
            final(self).streams.is_broken() == old(self).streams.is_broken(),
            final(self).identifier == old(self).identifier,
    {
        self.streams.remove(id);
        Ok(())
    }

    /// Marks the client broken for stream purposes: the update
    /// connection is gone, and every later stream read fails with a
    /// connection error.
    pub fn mark_broken(&mut self)
        ensures
            final(self).streams.entries() == old(self).streams.entries(),
            final(self).streams.is_broken(),
            final(self).identifier == old(self).identifier,
    {
        self.streams.mark_broken();
    }
}

proof fn lemma_update_pairs_push_some(rs: Seq<StreamResult>, e: StreamResult)
    requires
        e.result is Some,
    ensures
        update_pairs(rs.push(e)) == update_pairs(rs).push((e.id, e.result->Some_0)),
    decreases rs.len(),
{
    if rs.len() == 0 {
        reveal_with_fuel(update_pairs, 3);
        assert(rs.push(e)[0] == e);
        assert(rs.push(e).drop_first() =~= Seq::<StreamResult>::empty());
        assert(update_pairs(rs.push(e))
            == seq![(rs.push(e)[0].id, rs.push(e)[0].result->Some_0)]
                + update_pairs(rs.push(e).drop_first()));
        assert(update_pairs(rs.push(e))
            =~= update_pairs(rs).push((e.id, e.result->Some_0)));
    } else {
        assert(rs.push(e)[0] == rs[0]);
        assert(rs.push(e).drop_first() =~= rs.drop_first().push(e));
        lemma_update_pairs_push_some(rs.drop_first(), e);
        assert(update_pairs(rs.push(e))
            =~= update_pairs(rs).push((e.id, e.result->Some_0)));
    }
}

proof fn lemma_apply_updates_snoc(
    m: Map<u64, ProcedureResult>,
    us: Seq<(u64, ProcedureResult)>,
    u: (u64, ProcedureResult),
)
    ensures
        apply_updates(m, us.push(u)) == apply_updates(m, us).insert(u.0, u.1),
    decreases us.len(),
{
    if us.len() == 0 {
        reveal_with_fuel(apply_updates, 3);
        assert(us.push(u)[0] == u);
        assert(us.push(u).drop_first() =~= Seq::<(u64, ProcedureResult)>::empty());
        assert(apply_updates(m, us.push(u))
            == apply_updates(m.insert(us.push(u)[0].0, us.push(u)[0].1),
                us.push(u).drop_first()));
        assert(apply_updates(m, us.push(u)) == m.insert(u.0, u.1));
        assert(apply_updates(m, us) == m);
    } else {
        assert(us.push(u)[0] == us[0]);
        assert(us.push(u).drop_first() =~= us.drop_first().push(u));
        lemma_apply_updates_snoc(m.insert(us[0].0, us[0].1), us.drop_first(), u);
        assert(apply_updates(m, us.push(u))
            == apply_updates(m.insert(us[0].0, us[0].1), us.drop_first().push(u)));
        assert(apply_updates(m, us)
            == apply_updates(m.insert(us[0].0, us[0].1), us.drop_first()));
    }
}

proof fn lemma_some_prefix_is_consumed(
    all: Seq<StreamResult>,
    consumed: Seq<StreamResult>,
    rest: Seq<StreamResult>,
)
    requires
        all == consumed + rest,
        forall|i: int| 0 <= i < consumed.len() ==> (#[trigger] consumed[i]).result is Some,
        rest.len() > 0,
        rest[0].result is None,
    ensures
        some_prefix_len(all) == consumed.len(),
        all.take(some_prefix_len(all)) == consumed,
    decreases consumed.len(),
{
    if consumed.len() == 0 {
        assert(all[0] == rest[0]);
        assert(all.take(0) =~= consumed);
    } else {
        assert(all[0] == consumed[0]);
        assert(all.drop_first() =~= consumed.drop_first() + rest);
        assert(forall|i: int| 0 <= i < consumed.drop_first().len()
            ==> consumed.drop_first()[i] == consumed[i + 1]);
        lemma_some_prefix_is_consumed(all.drop_first(), consumed.drop_first(), rest);
        assert(some_prefix_len(all) == 1 + some_prefix_len(all.drop_first()));
        assert(all.take(some_prefix_len(all)) =~= consumed);
    }
}


/// Builds the handshake a client sends first on a fresh connection.
pub fn connection_request(conn_type: ConnectionType, name: &str, identifier: Vec<u8>) -> (r:
    ConnectionRequest)
    ensures
        r@.conn_type == conn_type,
        r@.client_name == name@,
        r@.client_identifier == identifier@,
{
    ConnectionRequest {
        conn_type,
        client_name: name.to_owned(),
        client_identifier: identifier,
    }
}

/// Judges the server's handshake answer: a status of OK yields the
/// client identifier the server assigned; any other status is a
/// connection error carrying the server's message.
pub fn check_connection_response(resp: &ConnectionResponse) -> (r: Result<Vec<u8>, RpcError>)
    ensures
        resp@.status is Okay ==> (r matches Ok(b) && b@ == resp@.client_identifier),
        !(resp@.status is Okay) ==> (r matches Err(e) && e is Connection),
{
    match resp.status {
        ConnectionStatus::Okay => Ok(clone_bytes(&resp.client_identifier)),
        _ => Err(RpcError::Connection(resp.message.clone())),
    }
}

/// Wraps one call in a single-call request.
pub fn single_call_request(call: ProcedureCall) -> (r: Request)
    ensures
        r@.calls == seq![call@],
{
    let ghost cv = call@;
    let mut calls: Vec<ProcedureCall> = Vec::new();
    calls.push(call);
    proof {
        lemma_pc_views(calls@);
        assert(pc_views(calls@) =~= seq![cv]);
    }
    Request { calls }
}

/// Extracts the value of the single result of a response. A server
/// error on the response or on the result is a protocol error carrying
/// the server's description; a response without a result is a client
/// error; otherwise the result's value bytes come back.
pub fn response_value(resp: Response) -> (r: Result<Vec<u8>, RpcError>)
    ensures
        resp@.error is Some ==> (r matches Err(e) && e is Protocol),
        resp@.error is None && resp@.results.len() == 0
            ==> (r matches Err(e) && e is Client),
        resp@.error is None && resp@.results.len() > 0 && resp@.results[0].error is Some
            ==> (r matches Err(e) && e is Protocol),
        resp@.error is None && resp@.results.len() > 0 && resp@.results[0].error is None
            ==> (r matches Ok(b) && b@ == resp@.results[0].value),
{
    proof {
        crate::messages::lemma_pr_views(resp.results@);
    }
    match resp.error {
        Some(e) => Err(RpcError::Protocol(e.description)),
        None => {
            if resp.results.len() == 0 {
                Err(RpcError::Client)
            } else {
                let mut results = resp.results;
                let first = results.remove(0);
                match first.error {
                    Some(e) => Err(RpcError::Protocol(e.description)),
                    None => Ok(first.value),
                }
            }
        },
    }
}

/// Builds the built-in call that registers a stream on the server: its
/// arguments are the streamed call, encoded as a message, and the start
/// flag.
pub fn add_stream_call(call: &ProcedureCall, start: bool) -> (r: ProcedureCall)
    ensures
        r@.service == "KRPC"@,
        r@.procedure == "AddStream"@,
        r@.arguments.len() == 2,
        r@.arguments[0].position == 0,
        r@.arguments[0].value == enc_pc(call@),
        r@.arguments[1].position == 1,
        r@.arguments[1].value == enc_bool(start),
{
    let mut cb: Vec<u8> = Vec::new();
    encode_pc(&mut cb, call);
    proof {
        assert(cb@ =~= enc_pc(call@));
    }
    let mut args: Vec<Argument> = Vec::new();
    args.push(Argument { position: 0, value: cb });
    args.push(Argument { position: 1, value: encode_bool_untagged(start) });
    let r = Client::proc_call("KRPC", "AddStream", args);
    proof {
        lemma_arg_views(args@);
    }
    r
}

/// Builds the built-in call that cancels a stream on the server.
pub fn remove_stream_call(id: u64) -> (r: ProcedureCall)
    ensures
        r@.service == "KRPC"@,
        r@.procedure == "RemoveStream"@,
        r@.arguments.len() == 1,
        r@.arguments[0].position == 0,
        r@.arguments[0].value == enc_u64(id),
{
    let mut args: Vec<Argument> = Vec::new();
    args.push(Argument { position: 0, value: encode_u64_untagged(id) });
    let r = Client::proc_call("KRPC", "RemoveStream", args);
    proof {
        lemma_arg_views(args@);
    }
    r
}

/// Builds the built-in call that sets a stream's update rate. The rate
/// travels as the bit pattern of a 32-bit scalar; the caller keeps it
/// positive and finite.
pub fn set_stream_rate_call(id: u64, rate_bits: u32) -> (r: ProcedureCall)
    ensures
        r@.service == "KRPC"@,
        r@.procedure == "SetStreamRate"@,
        r@.arguments.len() == 2,
        r@.arguments[0].position == 0,
        r@.arguments[0].value == enc_u64(id),
        r@.arguments[1].position == 1,
        r@.arguments[1].value == enc_float_bits(rate_bits),
{
    let mut args: Vec<Argument> = Vec::new();
    args.push(Argument { position: 0, value: encode_u64_untagged(id) });
    args.push(Argument { position: 1, value: encode_float_bits_untagged(rate_bits) });
    let r = Client::proc_call("KRPC", "SetStreamRate", args);
    proof {
        lemma_arg_views(args@);
    }
    r
}

/// Builds the built-in call that asks for the server's status report.
pub fn get_status_call() -> (r: ProcedureCall)
    ensures
        r@.service == "KRPC"@,
        r@.procedure == "GetStatus"@,
        r@.arguments.len() == 0,
{
    let args: Vec<Argument> = Vec::new();
    let r = Client::proc_call("KRPC", "GetStatus", args);
    proof {
        lemma_arg_views(args@);
    }
    r
}

} // verus!
