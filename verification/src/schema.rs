//! The value-kind interface of the codec: every type a procedure can
//! take or return knows its untagged wire form. Encoding never fails;
//! decoding succeeds exactly on the type's own encodings; and a whole
//! response turns into a value by taking its single result and decoding
//! that result's value bytes.

use vstd::prelude::*;
use vstd::utf8::encode_utf8;

use crate::client::response_value;
use crate::codec::{enc_bool, enc_bytes, enc_sint32, enc_string, enc_u32, enc_u64,
    decode_bool_untagged, decode_bytes_untagged, decode_sint32_untagged, decode_string_untagged,
    decode_u32_untagged, decode_u64_untagged, encode_bool_untagged, encode_bytes_untagged,
    encode_sint32_untagged, encode_string_untagged, encode_u32_untagged, encode_u64_untagged};
use crate::error::RpcError;
use crate::messages::{Argument, ArgumentV, Response, ResponseV};

verus! {

/// A value with an untagged wire form.
pub trait EncodeUntagged {
    /// The untagged encoding of the value.
    spec fn enc_spec(&self) -> Seq<u8>;

    /// Encodes the value in its untagged wire form.
    fn encode_untagged(&self) -> (r: Vec<u8>)
        ensures
            r@ == self.enc_spec(),
    ;
}

/// A value that can be read back from its untagged wire form.
pub trait DecodeUntagged: Sized {
    /// The untagged encoding a value decodes from.
    spec fn dec_spec(v: Self) -> Seq<u8>;

    /// The values whose encodings the machine can hold.
    spec fn dec_wf(v: Self) -> bool;

    /// Decodes a value: what comes back is a value whose encoding the
    /// buffer is, and every representable encoding decodes.
    fn decode_untagged(buf: &Vec<u8>) -> (r: Result<Self, RpcError>)
        ensures
            r matches Ok(v) ==> buf@ == Self::dec_spec(v),
            forall|v: Self| Self::dec_wf(v) && buf@ == #[trigger] Self::dec_spec(v)
                ==> r is Ok,
            r matches Err(e) ==> e is Encoding,
    ;
}

impl EncodeUntagged for bool {
    open spec fn enc_spec(&self) -> Seq<u8> {
        enc_bool(*self)
    }

    fn encode_untagged(&self) -> (r: Vec<u8>) {
        encode_bool_untagged(*self)
    }
}

impl DecodeUntagged for bool {
    open spec fn dec_spec(v: Self) -> Seq<u8> {
        enc_bool(v)
    }

    open spec fn dec_wf(v: Self) -> bool {
        true
    }

    fn decode_untagged(buf: &Vec<u8>) -> (r: Result<Self, RpcError>) {
        decode_bool_untagged(buf)
    }
}

impl EncodeUntagged for u32 {
    open spec fn enc_spec(&self) -> Seq<u8> {
        enc_u32(*self)
    }

    fn encode_untagged(&self) -> (r: Vec<u8>) {
        encode_u32_untagged(*self)
    }
}

impl DecodeUntagged for u32 {
    open spec fn dec_spec(v: Self) -> Seq<u8> {
        enc_u32(v)
    }

    open spec fn dec_wf(v: Self) -> bool {
        true
    }

    fn decode_untagged(buf: &Vec<u8>) -> (r: Result<Self, RpcError>) {
        decode_u32_untagged(buf)
    }
}

impl EncodeUntagged for u64 {
    open spec fn enc_spec(&self) -> Seq<u8> {
        enc_u64(*self)
    }

    fn encode_untagged(&self) -> (r: Vec<u8>) {
        encode_u64_untagged(*self)
    }
}

impl DecodeUntagged for u64 {
    open spec fn dec_spec(v: Self) -> Seq<u8> {
        enc_u64(v)
    }

    open spec fn dec_wf(v: Self) -> bool {
        true
    }

    fn decode_untagged(buf: &Vec<u8>) -> (r: Result<Self, RpcError>) {
        decode_u64_untagged(buf)
    }
}

impl EncodeUntagged for i32 {
    open spec fn enc_spec(&self) -> Seq<u8> {
        enc_sint32(*self)
    }

    fn encode_untagged(&self) -> (r: Vec<u8>) {
        encode_sint32_untagged(*self)
    }
}

impl DecodeUntagged for i32 {
    open spec fn dec_spec(v: Self) -> Seq<u8> {
        enc_sint32(v)
    }

    open spec fn dec_wf(v: Self) -> bool {
        true
    }

    fn decode_untagged(buf: &Vec<u8>) -> (r: Result<Self, RpcError>) {
        decode_sint32_untagged(buf)
    }
}

impl EncodeUntagged for String {
    open spec fn enc_spec(&self) -> Seq<u8> {
        enc_string(self@)
    }

    fn encode_untagged(&self) -> (r: Vec<u8>) {
        encode_string_untagged(self.as_str())
    }
}

impl DecodeUntagged for String {
    open spec fn dec_spec(v: Self) -> Seq<u8> {
        enc_string(v@)
    }

    open spec fn dec_wf(v: Self) -> bool {
        encode_utf8(v@).len() <= u64::MAX
    }

    fn decode_untagged(buf: &Vec<u8>) -> (r: Result<Self, RpcError>) {
        decode_string_untagged(buf)
    }
}

impl EncodeUntagged for Vec<u8> {
    open spec fn enc_spec(&self) -> Seq<u8> {
        enc_bytes(self@)
    }

    fn encode_untagged(&self) -> (r: Vec<u8>) {
        encode_bytes_untagged(self)
    }
}

impl DecodeUntagged for Vec<u8> {
    open spec fn dec_spec(v: Self) -> Seq<u8> {
        enc_bytes(v@)
    }

    open spec fn dec_wf(v: Self) -> bool {
        v@.len() <= u64::MAX
    }

    fn decode_untagged(buf: &Vec<u8>) -> (r: Result<Self, RpcError>) {
        decode_bytes_untagged(buf)
    }
}

/// A value that can stand as one positional argument of a call.
pub trait ToArgument {
    /// The value bytes the argument carries.
    spec fn arg_spec(&self) -> Seq<u8>;

    /// Builds the argument at position `pos` carrying the value.
    /// Building always succeeds: encoding is total.
    fn to_argument(&self, pos: u32) -> (r: Result<Argument, RpcError>)
        ensures
            r is Ok,
            r matches Ok(a) ==> a@ == (ArgumentV { position: pos, value: self.arg_spec() }),
    ;
}

impl<T: EncodeUntagged> ToArgument for T {
    open spec fn arg_spec(&self) -> Seq<u8> {
        self.enc_spec()
    }

    fn to_argument(&self, pos: u32) -> (r: Result<Argument, RpcError>) {
        Ok(Argument { position: pos, value: self.encode_untagged() })
    }
}

/// A value that can be read out of a whole response.
pub trait FromResponse: Sized {
    /// What coming back from a given response means for the value.
    spec fn from_response_spec(v: Self, resp: ResponseV) -> bool;

    /// The responses a value is owed from.
    spec fn from_response_owed(resp: ResponseV) -> bool;

    /// Reads the value of the response's single result: what comes back
    /// satisfies the reading relation, and a response the type is owed
    /// a value from always yields one.
    fn from_response(resp: Response) -> (r: Result<Self, RpcError>)
        ensures
            r matches Ok(v) ==> Self::from_response_spec(v, resp@),
            Self::from_response_owed(resp@) ==> r is Ok,
    ;
}

/// A void return: any response reads as unit.
impl FromResponse for () {
    open spec fn from_response_spec(v: Self, resp: ResponseV) -> bool {
        true
    }

    open spec fn from_response_owed(resp: ResponseV) -> bool {
        true
    }

    fn from_response(resp: Response) -> (r: Result<Self, RpcError>) {
        Ok(())
    }
}

/// Any decodable value reads from the value bytes of the response's
/// single result, when neither the response nor the result carries an
/// error; it is owed whenever those bytes encode a representable value.
impl<T: DecodeUntagged> FromResponse for T {
    open spec fn from_response_spec(v: Self, resp: ResponseV) -> bool {
        &&& resp.error is None
        &&& resp.results.len() > 0
        &&& resp.results[0].error is None
        &&& resp.results[0].value == T::dec_spec(v)
    }

    open spec fn from_response_owed(resp: ResponseV) -> bool {
        &&& resp.error is None
        &&& resp.results.len() > 0
        &&& resp.results[0].error is None
        &&& exists|v: T| T::dec_wf(v) && resp.results[0].value == #[trigger] T::dec_spec(v)
    }

    fn from_response(resp: Response) -> (r: Result<Self, RpcError>) {
        let value = match response_value(resp) {
            Ok(b) => b,
            Err(e) => {
                return Err(e);
            },
        };
        T::decode_untagged(&value)
    }
}

} // verus!
