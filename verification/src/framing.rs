//! Length-delimited framing: every message on either connection travels
//! as a varint byte-length prefix followed by that many bytes of body.
//! The splitter accumulates bytes as they arrive — in whatever chunks
//! the transport delivers them — and hands out one complete frame at a
//! time, with a guard against unbounded buffering.

use vstd::prelude::*;

use crate::error::RpcError;
use crate::varint::{varint_enc, spec_parse_varint, lemma_parse_varint_enc,
    lemma_parse_varint_sound, encode_varint, decode_varint};
use crate::wire::vec_subrange;

verus! {

/// The frame around a payload: its length as a varint, then the payload.
pub open spec fn frame_enc(p: Seq<u8>) -> Seq<u8> {
    varint_enc(p.len()) + p
}

/// Longest frame body the splitter accepts: the unbounded-growth guard.
pub const MAX_FRAME_LEN: u64 = 0x4000000;

/// Wraps a payload in a length-delimited frame.
pub fn encode_frame(payload: &Vec<u8>) -> (r: Vec<u8>)
    ensures
        r@ == frame_enc(payload@),
{
    let mut out: Vec<u8> = Vec::new();
    encode_varint(&mut out, payload.len() as u64);
    out.extend_from_slice(payload.as_slice());
    proof {
        assert(out@ =~= frame_enc(payload@));
    }
    out
}

/// Splits a byte stream into length-delimited frames. Bytes go in as
/// they arrive; complete frames come out, one at a time, however the
/// stream was chunked.
pub struct Framer {
    buffered: Vec<u8>,
}

impl Framer {
    /// The bytes received and not yet handed out as frames.
    pub closed spec fn buf(&self) -> Seq<u8> {
        self.buffered@
    }

    pub fn new() -> (r: Framer)
        ensures
            r.buf() == Seq::<u8>::empty(),
    {
        Framer { buffered: Vec::new() }
    }

    /// Takes in the next chunk of the byte stream, whatever its size.
    pub fn push_chunk(&mut self, chunk: &Vec<u8>)
        ensures
            final(self).buf() == old(self).buf() + chunk@,
    {
        self.buffered.extend_from_slice(chunk.as_slice());
    }

    /// Hands out the next frame's payload, if a complete frame has
    /// arrived, and removes it from the buffer; says `None`, leaving the
    /// buffer as it is, while the frame at the front is still incomplete.
    /// A frame longer than the guard allows, or a length prefix that is
    /// not a canonical varint, is an error, and nothing else is.
    pub fn take_frame(&mut self) -> (r: Result<Option<Vec<u8>>, RpcError>)
        ensures
            r matches Ok(Some(p)) ==> {
                &&& old(self).buf() == frame_enc(p@) + final(self).buf()
                &&& p@.len() <= MAX_FRAME_LEN
            },
            r matches Ok(None) ==> {
                &&& *final(self) == *old(self)
                &&& (spec_parse_varint(old(self).buf()) matches Some(nc)
                    ==> nc.0 + nc.1 > old(self).buf().len())
            },
            r is Err ==> *final(self) == *old(self),
            // a complete, guard-sized frame at the front always comes out
            forall|p: Seq<u8>, rest: Seq<u8>|
                old(self).buf() == #[trigger] (frame_enc(p) + rest) && p.len() <= MAX_FRAME_LEN
                    ==> (r matches Ok(q) && q matches Some(q2) && q2@ == p
                        && final(self).buf() == rest),
    {
        let ghost s = self.buffered@;
        let blen: usize = self.buffered.len();
        proof {
            assert(s.skip(0) =~= s);
        }
        let (n, c) = match decode_varint(&self.buffered, 0) {
            Ok(nc) => nc,
            Err(_) => {
                // an incomplete prefix may still grow into a varint; a
                // non-canonical or oversized one never parses, but the
                // distinction is not needed: no complete frame is here
                proof {
                    if spec_parse_varint(s) is Some {
                        lemma_parse_varint_sound(s);
                        assert(spec_parse_varint(s)->Some_0.0 > u64::MAX);
                        assert(blen <= usize::MAX && usize::MAX <= u64::MAX);
                    }
                    assert forall|p: Seq<u8>, rest: Seq<u8>|
                        s == #[trigger] (frame_enc(p) + rest) && p.len() <= MAX_FRAME_LEN
                        implies false by {
                        lemma_parse_varint_enc(p.len(), p + rest);
                        assert(frame_enc(p) + rest =~= varint_enc(p.len()) + (p + rest));
                    };
                }
                return Ok(None);
            },
        };
        if n > MAX_FRAME_LEN {
            proof {
                assert forall|p: Seq<u8>, rest: Seq<u8>|
                    s == #[trigger] (frame_enc(p) + rest) && p.len() <= MAX_FRAME_LEN
                    implies false by {
                    lemma_parse_varint_enc(p.len(), p + rest);
                    assert(frame_enc(p) + rest =~= varint_enc(p.len()) + (p + rest));
                };
            }
            return Err(RpcError::Connection("frame exceeds the length guard".to_owned()));
        }
        let remaining: usize = self.buffered.len() - c;
        if n > remaining as u64 {
            proof {
                assert forall|p: Seq<u8>, rest: Seq<u8>|
                    s == #[trigger] (frame_enc(p) + rest) && p.len() <= MAX_FRAME_LEN
                    implies false by {
                    lemma_parse_varint_enc(p.len(), p + rest);
                    assert(frame_enc(p) + rest =~= varint_enc(p.len()) + (p + rest));
                    assert(s.len() >= varint_enc(p.len()).len() + p.len());
                };
            }
            return Ok(None);
        }
        let end: usize = c + (n as usize);
        let payload = vec_subrange(&self.buffered, c, end);
        let rest = vec_subrange(&self.buffered, end, self.buffered.len());
        self.buffered = rest;
        proof {
            lemma_parse_varint_sound(s);
            assert(s.subrange(0, c as int) == varint_enc(n as nat));
            assert(payload@.len() == n as nat);
            assert(s =~= (s.subrange(0, c as int) + payload@) + self.buffered@);
            assert(frame_enc(payload@) + self.buffered@
                =~= (varint_enc(n as nat) + payload@) + self.buffered@);
            assert forall|p: Seq<u8>, rest2: Seq<u8>|
                s == #[trigger] (frame_enc(p) + rest2) && p.len() <= MAX_FRAME_LEN
                implies p == payload@ && self.buffered@ == rest2 by {
                lemma_parse_varint_enc(p.len(), p + rest2);
                assert(frame_enc(p) + rest2 =~= varint_enc(p.len()) + (p + rest2));
                assert(p.len() == n as nat);
                assert(varint_enc(p.len()).len() == c);
                assert(p =~= s.subrange(c as int, c + p.len()));
                assert(rest2 =~= s.skip(c + p.len()));
                assert(self.buffered@ =~= s.skip(c + n));
            };
        }
        Ok(Some(payload))
    }
}

} // verus!
