use vstd::prelude::*;

verus! {

/// The single error sum of the library.
///
/// `Connection` covers transport failures, including a handshake whose
/// status is not OK. `Client` covers invariant violations inside the
/// client. `Encoding` covers malformed wire data: truncated buffers,
/// enum tags out of range, tuple arity mismatches, nulls in non-nullable
/// positions, invalid UTF-8. `Protocol` carries an error message that the
/// server attached to a response or to a single procedure result.
#[derive(Debug, Clone)]
pub enum RpcError {
    Connection(String),
    Client,
    Encoding(String),
    Protocol(String),
}

} // verus!
