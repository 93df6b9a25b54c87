//! The untagged value codec: every procedure argument and result value
//! travels as the bare wire form of its declared type, with no field tag
//! around it. Primitives are varints, zig-zag varints, little-endian
//! scalars and length-prefixed bytes; composite values are small framed
//! messages whose fields hold the untagged encodings of their parts.

use vstd::prelude::*;
use vstd::string::StringSliceAdditionalSpecFns;
use vstd::utf8::{valid_utf8, decode_utf8, encode_utf8, decode_utf8_encode_utf8,
    encode_utf8_valid_utf8, encode_utf8_decode_utf8};

use crate::error::RpcError;
use crate::varint::{varint_enc, spec_parse_varint, lemma_parse_varint_enc,
    lemma_parse_varint_sound, encode_varint, decode_varint};
use crate::wire::{GField, WireField, le_bytes, le_val, pow256, fields_enc, field_enc,
    spec_parse_fields, fields_valid, field_valid, lemma_parse_fields_enc,
    lemma_parse_fields_sound, lemma_fields_enc_concat, lemma_le_bytes, lemma_le_val_bound,
    lemma_le_bytes_of_val, encode_field_len, decode_fields, wire_views, lemma_wire_views,
    vec_subrange,
    encode_le, decode_le};

verus! {

/// Untagged encoding of an unsigned 64-bit value: a varint.
pub open spec fn enc_u64(v: u64) -> Seq<u8> {
    varint_enc(v as nat)
}

/// Untagged encoding of an unsigned 32-bit value: a varint.
pub open spec fn enc_u32(v: u32) -> Seq<u8> {
    varint_enc(v as nat)
}

/// Untagged encoding of a boolean: a varint that is 0 or 1.
pub open spec fn enc_bool(b: bool) -> Seq<u8> {
    varint_enc(if b { 1nat } else { 0nat })
}

/// The zig-zag image of a signed 32-bit value.
pub open spec fn zigzag32(i: i32) -> nat {
    if i >= 0 {
        (2 * i) as nat
    } else {
        (-2 * i - 1) as nat
    }
}

/// Untagged encoding of a signed 32-bit value: a zig-zag varint.
pub open spec fn enc_sint32(i: i32) -> Seq<u8> {
    varint_enc(zigzag32(i))
}

/// Untagged encoding of a 32-bit scalar given by its bit pattern:
/// four little-endian bytes.
pub open spec fn enc_float_bits(bits: u32) -> Seq<u8> {
    le_bytes(bits as nat, 4)
}

/// Untagged encoding of a 64-bit scalar given by its bit pattern:
/// eight little-endian bytes.
pub open spec fn enc_double_bits(bits: u64) -> Seq<u8> {
    le_bytes(bits as nat, 8)
}

/// Untagged encoding of a byte string: length prefix, then the bytes.
pub open spec fn enc_bytes(b: Seq<u8>) -> Seq<u8> {
    varint_enc(b.len()) + b
}

/// Untagged encoding of a string: its UTF-8 bytes, length-prefixed.
pub open spec fn enc_string(s: Seq<char>) -> Seq<u8> {
    enc_bytes(encode_utf8(s))
}

/// Copies a byte vector.
pub fn clone_bytes(b: &Vec<u8>) -> (r: Vec<u8>)
    ensures
        r@ == b@,
{
    let r = vec_subrange(b, 0, b.len());
    proof {
        assert(b@.subrange(0, b@.len() as int) =~= b@);
    }
    r
}

/// Encodes an unsigned 64-bit value.
pub fn encode_u64_untagged(v: u64) -> (r: Vec<u8>)
    ensures
        r@ == enc_u64(v),
{
    let mut out: Vec<u8> = Vec::new();
    encode_varint(&mut out, v);
    proof {
        assert(out@ =~= enc_u64(v));
    }
    out
}

/// Encodes an unsigned 32-bit value.
pub fn encode_u32_untagged(v: u32) -> (r: Vec<u8>)
    ensures
        r@ == enc_u32(v),
{
    let mut out: Vec<u8> = Vec::new();
    encode_varint(&mut out, v as u64);
    proof {
        assert(out@ =~= enc_u32(v));
    }
    out
}

/// Encodes a boolean.
pub fn encode_bool_untagged(v: bool) -> (r: Vec<u8>)
    ensures
        r@ == enc_bool(v),
{
    let mut out: Vec<u8> = Vec::new();
    encode_varint(&mut out, if v { 1 } else { 0 });
    proof {
        assert(out@ =~= enc_bool(v));
    }
    out
}

/// Encodes a signed 32-bit value.
pub fn encode_sint32_untagged(v: i32) -> (r: Vec<u8>)
    ensures
        r@ == enc_sint32(v),
{
    let z: u64 = if v >= 0 {
        2 * (v as u64)
    } else {
        let m: u64 = (-(v as i64)) as u64;
        2 * m - 1
    };
    proof {
        assert(z as nat == zigzag32(v));
    }
    let mut out: Vec<u8> = Vec::new();
    encode_varint(&mut out, z);
    proof {
        assert(out@ =~= enc_sint32(v));
    }
    out
}

/// Encodes a 32-bit scalar bit pattern.
pub fn encode_float_bits_untagged(bits: u32) -> (r: Vec<u8>)
    ensures
        r@ == enc_float_bits(bits),
{
    let mut out: Vec<u8> = Vec::new();
    proof {
        crate::wire::lemma_pow256_bounds();
    }
    encode_le(&mut out, bits as u64, 4);
    proof {
        assert(out@ =~= enc_float_bits(bits));
    }
    out
}

/// Encodes a 64-bit scalar bit pattern.
pub fn encode_double_bits_untagged(bits: u64) -> (r: Vec<u8>)
    ensures
        r@ == enc_double_bits(bits),
{
    let mut out: Vec<u8> = Vec::new();
    proof {
        crate::wire::lemma_pow256_bounds();
    }
    encode_le(&mut out, bits, 8);
    proof {
        assert(out@ =~= enc_double_bits(bits));
    }
    out
}

/// Encodes a byte string.
pub fn encode_bytes_untagged(b: &Vec<u8>) -> (r: Vec<u8>)
    ensures
        r@ == enc_bytes(b@),
{
    let mut out: Vec<u8> = Vec::new();
    encode_varint(&mut out, b.len() as u64);
    out.extend_from_slice(b.as_slice());
    proof {
        assert(out@ =~= enc_bytes(b@));
    }
    out
}

/// Encodes a string as length-prefixed UTF-8.
pub fn encode_string_untagged(s: &str) -> (r: Vec<u8>)
    ensures
        r@ == enc_string(s@),
{
    let bytes = s.as_bytes();
    let mut out: Vec<u8> = Vec::new();
    encode_varint(&mut out, bytes.len() as u64);
    out.extend_from_slice(bytes);
    proof {
        assert(out@ =~= enc_string(s@));
    }
    out
}

/// Relies on `String::from_utf8` of std: it succeeds exactly on UTF-8
/// input, and then returns the string whose characters the bytes encode,
/// as vstd's UTF-8 model states encoding.
#[verifier::external_body]
pub(crate) fn string_from_utf8(v: Vec<u8>) -> (r: Option<String>)
    ensures
        r matches Some(s) ==> valid_utf8(v@) && s@ == decode_utf8(v@),
        r is None ==> !valid_utf8(v@),
{
    String::from_utf8(v).ok()
}

/// Decodes an unsigned 64-bit value: succeeds exactly on the untagged
/// encoding of one.
pub fn decode_u64_untagged(buf: &Vec<u8>) -> (r: Result<u64, RpcError>)
    ensures
        r matches Ok(v) ==> buf@ == enc_u64(v),
        forall|v: u64| buf@ == #[trigger] enc_u64(v) ==> r is Ok,
        r matches Err(e) ==> e is Encoding,
{
    let ghost s = buf@;
    proof {
        assert(s.skip(0) =~= s);
    }
    match decode_varint(buf, 0) {
        Err(e) => {
            proof {
                assert forall|v: u64| s == #[trigger] enc_u64(v) implies false by {
                    lemma_parse_varint_enc(v as nat, Seq::empty());
                    assert(varint_enc(v as nat) + Seq::empty() =~= varint_enc(v as nat));
                };
            }
            Err(e)
        },
        Ok((v, p)) => {
            if p != buf.len() {
                proof {
                    assert forall|v2: u64| s == #[trigger] enc_u64(v2) implies false by {
                        lemma_parse_varint_enc(v2 as nat, Seq::empty());
                        assert(varint_enc(v2 as nat) + Seq::empty() =~= varint_enc(v2 as nat));
                    };
                }
                Err(RpcError::Encoding("trailing bytes after value".to_owned()))
            } else {
                proof {
                    lemma_parse_varint_sound(s);
                    assert(s.subrange(0, p as int) =~= s);
                }
                Ok(v)
            }
        },
    }
}

/// Decodes an unsigned 32-bit value: succeeds exactly on the untagged
/// encoding of one.
pub fn decode_u32_untagged(buf: &Vec<u8>) -> (r: Result<u32, RpcError>)
    ensures
        r matches Ok(v) ==> buf@ == enc_u32(v),
        forall|v: u32| buf@ == #[trigger] enc_u32(v) ==> r is Ok,
        r matches Err(e) ==> e is Encoding,
{
    let v = match decode_u64_untagged(buf) {
        Ok(v) => v,
        Err(e) => {
            proof {
                assert forall|v2: u32| buf@ == #[trigger] enc_u32(v2) implies false by {
                    assert(enc_u32(v2) == enc_u64(v2 as u64));
                };
            }
            return Err(e);
        },
    };
    if v > u32::MAX as u64 {
        proof {
            assert forall|v2: u32| buf@ == #[trigger] enc_u32(v2) implies false by {
                assert(enc_u32(v2) == enc_u64(v2 as u64));
                lemma_parse_varint_enc(v2 as nat, Seq::empty());
                lemma_parse_varint_enc(v as nat, Seq::empty());
                assert(varint_enc(v2 as nat) + Seq::empty() =~= varint_enc(v2 as nat));
                assert(varint_enc(v as nat) + Seq::empty() =~= varint_enc(v as nat));
            };
        }
        return Err(RpcError::Encoding("value exceeds 32 bits".to_owned()));
    }
    Ok(v as u32)
}

/// Decodes a boolean: succeeds exactly on the untagged encoding of one.
pub fn decode_bool_untagged(buf: &Vec<u8>) -> (r: Result<bool, RpcError>)
    ensures
        r matches Ok(v) ==> buf@ == enc_bool(v),
        forall|v: bool| buf@ == #[trigger] enc_bool(v) ==> r is Ok,
        r matches Err(e) ==> e is Encoding,
{
    let v = match decode_u64_untagged(buf) {
        Ok(v) => v,
        Err(e) => {
            proof {
                assert(enc_bool(true) == enc_u64(1u64));
                assert(enc_bool(false) == enc_u64(0u64));
            }
            return Err(e);
        },
    };
    if v > 1 {
        proof {
            assert forall|v2: bool| buf@ == #[trigger] enc_bool(v2) implies false by {
                let w: u64 = if v2 { 1u64 } else { 0u64 };
                assert(enc_bool(v2) == enc_u64(w));
                lemma_parse_varint_enc(w as nat, Seq::empty());
                lemma_parse_varint_enc(v as nat, Seq::empty());
                assert(varint_enc(w as nat) + Seq::empty() =~= varint_enc(w as nat));
                assert(varint_enc(v as nat) + Seq::empty() =~= varint_enc(v as nat));
            };
        }
        return Err(RpcError::Encoding("boolean out of range".to_owned()));
    }
    Ok(v == 1)
}

/// Decodes a signed 32-bit value: succeeds exactly on the untagged
/// zig-zag encoding of one.
pub fn decode_sint32_untagged(buf: &Vec<u8>) -> (r: Result<i32, RpcError>)
    ensures
        r matches Ok(v) ==> buf@ == enc_sint32(v),
        forall|v: i32| buf@ == #[trigger] enc_sint32(v) ==> r is Ok,
        r matches Err(e) ==> e is Encoding,
{
    let z = match decode_u64_untagged(buf) {
        Ok(v) => v,
        Err(e) => {
            proof {
                assert forall|v2: i32| buf@ == #[trigger] enc_sint32(v2) implies false by {
                    assert(zigzag32(v2) <= u64::MAX);
                    assert(enc_sint32(v2) == enc_u64(zigzag32(v2) as u64));
                };
            }
            return Err(e);
        },
    };
    if z > u32::MAX as u64 {
        proof {
            assert forall|v2: i32| buf@ == #[trigger] enc_sint32(v2) implies false by {
                let w: u64 = zigzag32(v2) as u64;
                assert(enc_sint32(v2) == enc_u64(w));
                lemma_parse_varint_enc(w as nat, Seq::empty());
                lemma_parse_varint_enc(z as nat, Seq::empty());
                assert(varint_enc(w as nat) + Seq::empty() =~= varint_enc(w as nat));
                assert(varint_enc(z as nat) + Seq::empty() =~= varint_enc(z as nat));
            };
        }
        return Err(RpcError::Encoding("zig-zag value exceeds 32 bits".to_owned()));
    }
    let v: i32 = if z % 2 == 0 {
        (z / 2) as i32
    } else {
        ((-((z / 2) as i64)) - 1) as i32
    };
    proof {
        assert(zigzag32(v) == z as nat);
        assert(buf@ == enc_sint32(v));
    }
    Ok(v)
}

/// Decodes a 32-bit scalar bit pattern: succeeds exactly on four bytes.
pub fn decode_float_bits_untagged(buf: &Vec<u8>) -> (r: Result<u32, RpcError>)
    ensures
        r matches Ok(v) ==> buf@ == enc_float_bits(v),
        forall|v: u32| buf@ == #[trigger] enc_float_bits(v) ==> r is Ok,
        r matches Err(e) ==> e is Encoding,
{
    proof {
        crate::wire::lemma_pow256_bounds();
        assert forall|v: u32| buf@ == #[trigger] enc_float_bits(v) implies buf@.len() == 4 by {
            lemma_le_bytes(v as nat, 4);
        };
    }
    if buf.len() != 4 {
        return Err(RpcError::Encoding("scalar width mismatch".to_owned()));
    }
    let v: u64 = decode_le(buf, 0, 4);
    proof {
        assert(buf@.subrange(0, 4) =~= buf@);
        lemma_le_val_bound(buf@);
        lemma_le_bytes_of_val(buf@);
    }
    Ok(v as u32)
}

/// Decodes a 64-bit scalar bit pattern: succeeds exactly on eight bytes.
pub fn decode_double_bits_untagged(buf: &Vec<u8>) -> (r: Result<u64, RpcError>)
    ensures
        r matches Ok(v) ==> buf@ == enc_double_bits(v),
        forall|v: u64| buf@ == #[trigger] enc_double_bits(v) ==> r is Ok,
        r matches Err(e) ==> e is Encoding,
{
    proof {
        crate::wire::lemma_pow256_bounds();
        assert forall|v: u64| buf@ == #[trigger] enc_double_bits(v) implies buf@.len() == 8 by {
            lemma_le_bytes(v as nat, 8);
        };
    }
    if buf.len() != 8 {
        return Err(RpcError::Encoding("scalar width mismatch".to_owned()));
    }
    let v: u64 = decode_le(buf, 0, 8);
    proof {
        assert(buf@.subrange(0, 8) =~= buf@);
        lemma_le_val_bound(buf@);
        lemma_le_bytes_of_val(buf@);
    }
    Ok(v)
}

/// Decodes a byte string: succeeds exactly on a length prefix followed
/// by that many bytes and nothing more.
pub fn decode_bytes_untagged(buf: &Vec<u8>) -> (r: Result<Vec<u8>, RpcError>)
    ensures
        r matches Ok(b) ==> buf@ == enc_bytes(b@),
        forall|b: Seq<u8>| b.len() <= u64::MAX && buf@ == #[trigger] enc_bytes(b) ==> r is Ok,
        r matches Err(e) ==> e is Encoding,
{
    let ghost s = buf@;
    proof {
        assert(s.skip(0) =~= s);
    }
    let (l, p) = match decode_varint(buf, 0) {
        Ok(lp) => lp,
        Err(e) => {
            proof {
                assert forall|b: Seq<u8>| b.len() <= u64::MAX && s == #[trigger] enc_bytes(b)
                    implies false by {
                    lemma_parse_varint_enc(b.len(), b);
                };
            }
            return Err(e);
        },
    };
    let remaining: usize = buf.len() - p;
    if l != remaining as u64 {
        proof {
            assert forall|b: Seq<u8>| b.len() <= u64::MAX && s == #[trigger] enc_bytes(b)
                implies false by {
                lemma_parse_varint_enc(b.len(), b);
                assert(varint_enc(b.len()).len() == p);
                assert(s.len() == varint_enc(b.len()).len() + b.len());
            };
        }
        return Err(RpcError::Encoding("byte string length mismatch".to_owned()));
    }
    let b = vec_subrange(buf, p, buf.len());
    proof {
        lemma_parse_varint_sound(s);
        assert(s.subrange(0, p as int) == varint_enc(l as nat));
        assert(b@.len() == l as nat);
        assert(s =~= s.subrange(0, p as int) + b@);
    }
    Ok(b)
}

/// Decodes a string: succeeds exactly on the length-prefixed UTF-8
/// encoding of one.
pub fn decode_string_untagged(buf: &Vec<u8>) -> (r: Result<String, RpcError>)
    ensures
        r matches Ok(v) ==> buf@ == enc_string(v@),
        forall|t: Seq<char>| encode_utf8(t).len() <= u64::MAX && buf@ == #[trigger] enc_string(t)
            ==> r is Ok,
        r matches Err(e) ==> e is Encoding,
{
    let b = match decode_bytes_untagged(buf) {
        Ok(b) => b,
        Err(e) => {
            proof {
                assert forall|t: Seq<char>|
                    encode_utf8(t).len() <= u64::MAX && buf@ == #[trigger] enc_string(t)
                    implies false by {
                    assert(buf@ == enc_bytes(encode_utf8(t)));
                };
            }
            return Err(e);
        },
    };
    let ghost bs = b@;
    match string_from_utf8(b) {
        Some(s) => {
            proof {
                broadcast use decode_utf8_encode_utf8;
                assert(encode_utf8(s@) == bs);
            }
            Ok(s)
        },
        None => {
            proof {
                assert forall|t: Seq<char>|
                    encode_utf8(t).len() <= u64::MAX && buf@ == #[trigger] enc_string(t)
                    implies false by {
                    broadcast use encode_utf8_valid_utf8;
                    assert(buf@ == enc_bytes(encode_utf8(t)));
                    lemma_parse_varint_enc(encode_utf8(t).len(), encode_utf8(t));
                    lemma_parse_varint_enc(bs.len(), bs);
                    assert(buf@ == enc_bytes(bs));
                    assert(varint_enc(encode_utf8(t).len()) + encode_utf8(t)
                        == varint_enc(bs.len()) + bs);
                    assert(encode_utf8(t).len() == bs.len());
                    let a = varint_enc(bs.len());
                    assert forall|i: int| 0 <= i < bs.len()
                        implies encode_utf8(t)[i] == bs[i] by {
                        assert((a + encode_utf8(t))[a.len() + i] == encode_utf8(t)[i]);
                        assert((a + bs)[a.len() + i] == bs[i]);
                    };
                    assert(encode_utf8(t) =~= bs);
                };
            }
            Err(RpcError::Encoding("invalid UTF-8".to_owned()))
        },
    }
}

/// The byte-sequence views of a run of byte vectors.
pub open spec fn bytes_views(s: Seq<Vec<u8>>) -> Seq<Seq<u8>>
    decreases s.len(),
{
    if s.len() == 0 {
        Seq::empty()
    } else {
        seq![s[0]@] + bytes_views(s.drop_first())
    }
}

pub proof fn lemma_bytes_views(s: Seq<Vec<u8>>)
    ensures
        bytes_views(s).len() == s.len(),
        forall|i: int| 0 <= i < s.len() ==> bytes_views(s)[i] == s[i]@,
    decreases s.len(),
{
    if s.len() > 0 {
        lemma_bytes_views(s.drop_first());
        assert(forall|i: int| 1 <= i < s.len()
            ==> bytes_views(s)[i] == bytes_views(s.drop_first())[i - 1]);
    }
}

/// The fields of an item-collection message: one length-prefixed field,
/// numbered 1, per item, in order. Tuples, lists and sets all share this
/// shape; they differ only in what the items mean.
pub open spec fn items_fields(items: Seq<Seq<u8>>) -> Seq<GField>
    decreases items.len(),
{
    if items.len() == 0 {
        Seq::empty()
    } else {
        seq![GField::Len(1, items[0])] + items_fields(items.drop_first())
    }
}

/// Untagged encoding of an item collection.
pub open spec fn enc_items(items: Seq<Seq<u8>>) -> Seq<u8> {
    fields_enc(items_fields(items))
}

/// Each item's length fits the wire's length prefix.
pub open spec fn items_wf(items: Seq<Seq<u8>>) -> bool {
    forall|i: int| 0 <= i < items.len() ==> #[trigger] items[i].len() <= u64::MAX
}

pub proof fn lemma_items_fields(items: Seq<Seq<u8>>)
    ensures
        items_fields(items).len() == items.len(),
        forall|i: int| 0 <= i < items.len()
            ==> items_fields(items)[i] == GField::Len(1, items[i]),
    decreases items.len(),
{
    if items.len() > 0 {
        lemma_items_fields(items.drop_first());
        assert(forall|i: int| 1 <= i < items.len()
            ==> items_fields(items)[i] == items_fields(items.drop_first())[i - 1]);
    }
}

/// Encodes a tuple, list or set from the untagged encodings of its items.
pub fn encode_items_untagged(items: &Vec<Vec<u8>>) -> (r: Vec<u8>)
    ensures
        r@ == enc_items(bytes_views(items@)),
{
    let mut out: Vec<u8> = Vec::new();
    let mut i: usize = 0;
    proof {
        assert(items@.subrange(0, 0) =~= Seq::<Vec<u8>>::empty());
        assert(out@ =~= enc_items(bytes_views(items@.subrange(0, 0))));
    }
    while i < items.len()
        invariant
            i <= items@.len(),
            out@ == enc_items(bytes_views(items@.subrange(0, i as int))),
        decreases items@.len() - i,
    {
        let ghost pre = items@.subrange(0, i as int);
        encode_field_len(&mut out, 1, &items[i]);
        proof {
            let x = items@[i as int]@;
            assert(items@.subrange(0, i + 1) =~= pre.push(items@[i as int]));
            lemma_bytes_views_push(pre, items@[i as int]);
            assert(bytes_views(pre) + seq![x] =~= bytes_views(pre).push(x));
            lemma_items_fields_push(bytes_views(pre), x);
            lemma_fields_enc_concat(items_fields(bytes_views(pre)), seq![GField::Len(1, x)]);
            crate::wire::lemma_fields_enc_single(GField::Len(1, x));
            assert(out@ =~= enc_items(bytes_views(items@.subrange(0, i + 1))));
        }
        i = i + 1;
    }
    proof {
        assert(items@.subrange(0, items@.len() as int) =~= items@);
    }
    out
}

proof fn lemma_bytes_views_push(s: Seq<Vec<u8>>, x: Vec<u8>)
    ensures
        bytes_views(s.push(x)) == bytes_views(s) + seq![x@],
{
    lemma_bytes_views(s);
    lemma_bytes_views(s.push(x));
    assert(bytes_views(s.push(x)) =~= bytes_views(s) + seq![x@]);
}

proof fn lemma_items_fields_push(items: Seq<Seq<u8>>, x: Seq<u8>)
    ensures
        items_fields(items.push(x)) == items_fields(items) + seq![GField::Len(1, x)],
{
    lemma_items_fields(items);
    lemma_items_fields(items.push(x));
    assert(items_fields(items.push(x)) =~= items_fields(items) + seq![GField::Len(1, x)]);
}

/// Decodes a tuple, list or set message into the untagged encodings of
/// its items: succeeds exactly on an encoded item collection.
pub fn decode_items_untagged(buf: &Vec<u8>) -> (r: Result<Vec<Vec<u8>>, RpcError>)
    ensures
        r matches Ok(items) ==> buf@ == enc_items(bytes_views(items@)),
        forall|iss: Seq<Seq<u8>>| items_wf(iss) && buf@ == #[trigger] enc_items(iss) ==> r is Ok,
        r matches Err(e) ==> e is Encoding,
{
    let ghost s = buf@;
    let fields = match decode_fields(buf) {
        Ok(fs) => fs,
        Err(e) => {
            proof {
                assert forall|iss: Seq<Seq<u8>>| items_wf(iss) && s == #[trigger] enc_items(iss)
                    implies false by {
                    lemma_items_fields(iss);
                    lemma_items_fields_valid(iss);
                    lemma_parse_fields_enc(items_fields(iss));
                };
            }
            return Err(e);
        },
    };
    let ghost fvs = wire_views(fields@);
    let mut items: Vec<Vec<u8>> = Vec::new();
    let mut i: usize = 0;
    proof {
        lemma_wire_views(fields@);
    }
    while i < fields.len()
        invariant
            i <= fields@.len(),
            s == buf@,
            fvs == wire_views(fields@),
            spec_parse_fields(s) == Some(fvs),
            fvs.len() == fields@.len(),
            forall|j: int| 0 <= j < fields@.len() ==> fvs[j] == fields@[j]@,
            items@.len() == i,
            forall|j: int| 0 <= j < i ==> fvs[j] == GField::Len(1, #[trigger] items@[j]@),
        decreases fields@.len() - i,
    {
        match &fields[i] {
            WireField::Len(n, p) => {
                if *n != 1 {
                    proof {
                        assert forall|iss: Seq<Seq<u8>>|
                            items_wf(iss) && s == #[trigger] enc_items(iss)
                            implies false by {
                            lemma_items_fields(iss);
                            lemma_items_fields_valid(iss);
                            lemma_parse_fields_enc(items_fields(iss));
                            assert(fvs == items_fields(iss));
                            assert(fvs[i as int] == GField::Len(1, iss[i as int]));
                            assert(fvs[i as int] == fields@[i as int]@);
                        };
                    }
                    return Err(RpcError::Encoding("unexpected field in collection".to_owned()));
                }
                let pc = clone_bytes(p);
                proof {
                    assert(fields@[i as int]@ == GField::Len(1, pc@));
                }
                items.push(pc);
            },
            _ => {
                proof {
                    assert forall|iss: Seq<Seq<u8>>|
                        items_wf(iss) && s == #[trigger] enc_items(iss)
                        implies false by {
                        lemma_items_fields(iss);
                        lemma_items_fields_valid(iss);
                        lemma_parse_fields_enc(items_fields(iss));
                        assert(fvs == items_fields(iss));
                        assert(fvs[i as int] == GField::Len(1, iss[i as int]));
                        assert(fvs[i as int] == fields@[i as int]@);
                    };
                }
                return Err(RpcError::Encoding("unexpected field in collection".to_owned()));
            },
        }
        i = i + 1;
    }
    proof {
        lemma_bytes_views(items@);
        lemma_items_fields(bytes_views(items@));
        assert(fvs =~= items_fields(bytes_views(items@)));
        lemma_parse_fields_sound(s);
    }
    Ok(items)
}

/// Returns item `i` of a decoded tuple; an arity mismatch — asking for
/// an item past the end — is an encoding error, and nothing else is.
pub fn tuple_item<'a>(items: &'a Vec<Vec<u8>>, i: usize) -> (r: Result<&'a Vec<u8>, RpcError>)
    ensures
        r matches Ok(b) ==> i < items@.len() && b@ == items@[i as int]@,
        r is Err <==> i >= items@.len(),
        r matches Err(e) ==> e is Encoding,
{
    if i >= items.len() {
        Err(RpcError::Encoding("tuple item out of range".to_owned()))
    } else {
        Ok(&items[i])
    }
}

/// The views of a run of key/value byte-vector pairs.
pub open spec fn pair_views(s: Seq<(Vec<u8>, Vec<u8>)>) -> Seq<(Seq<u8>, Seq<u8>)>
    decreases s.len(),
{
    if s.len() == 0 {
        Seq::empty()
    } else {
        seq![(s[0].0@, s[0].1@)] + pair_views(s.drop_first())
    }
}

pub proof fn lemma_pair_views(s: Seq<(Vec<u8>, Vec<u8>)>)
    ensures
        pair_views(s).len() == s.len(),
        forall|i: int| 0 <= i < s.len() ==> pair_views(s)[i] == (s[i].0@, s[i].1@),
    decreases s.len(),
{
    if s.len() > 0 {
        lemma_pair_views(s.drop_first());
        assert(forall|i: int| 1 <= i < s.len()
            ==> pair_views(s)[i] == pair_views(s.drop_first())[i - 1]);
    }
}

/// The fields of one dictionary entry: key bytes then value bytes.
pub open spec fn entry_fields(k: Seq<u8>, v: Seq<u8>) -> Seq<GField> {
    seq![GField::Len(1, k), GField::Len(2, v)]
}

/// Encoding of one dictionary entry message.
pub open spec fn enc_entry(k: Seq<u8>, v: Seq<u8>) -> Seq<u8> {
    fields_enc(entry_fields(k, v))
}

/// The fields of a dictionary message: one length-prefixed field,
/// numbered 1, per entry, holding the entry message.
pub open spec fn dict_fields(entries: Seq<(Seq<u8>, Seq<u8>)>) -> Seq<GField>
    decreases entries.len(),
{
    if entries.len() == 0 {
        Seq::empty()
    } else {
        seq![GField::Len(1, enc_entry(entries[0].0, entries[0].1))]
            + dict_fields(entries.drop_first())
    }
}

/// Untagged encoding of a dictionary.
pub open spec fn enc_dictionary(entries: Seq<(Seq<u8>, Seq<u8>)>) -> Seq<u8> {
    fields_enc(dict_fields(entries))
}

/// Every key, value and entry encoding fits the wire's length prefix.
pub open spec fn dict_wf(entries: Seq<(Seq<u8>, Seq<u8>)>) -> bool {
    forall|i: int| 0 <= i < entries.len() ==> {
        &&& (#[trigger] entries[i]).0.len() <= u64::MAX
        &&& entries[i].1.len() <= u64::MAX
        &&& enc_entry(entries[i].0, entries[i].1).len() <= u64::MAX
    }
}

pub proof fn lemma_dict_fields(entries: Seq<(Seq<u8>, Seq<u8>)>)
    ensures
        dict_fields(entries).len() == entries.len(),
        forall|i: int| 0 <= i < entries.len() ==> dict_fields(entries)[i]
            == GField::Len(1, enc_entry((#[trigger] entries[i]).0, entries[i].1)),
    decreases entries.len(),
{
    if entries.len() > 0 {
        lemma_dict_fields(entries.drop_first());
        assert forall|i: int| 0 <= i < entries.len() implies dict_fields(entries)[i]
            == GField::Len(1, enc_entry((#[trigger] entries[i]).0, entries[i].1)) by {
            if i > 0 {
                assert(dict_fields(entries)[i] == dict_fields(entries.drop_first())[i - 1]);
                assert(entries.drop_first()[i - 1] == entries[i]);
            }
        };
    }
}

proof fn lemma_items_fields_valid(iss: Seq<Seq<u8>>)
    requires
        items_wf(iss),
    ensures
        fields_valid(items_fields(iss)),
{
    lemma_items_fields(iss);
    assert forall|i: int| 0 <= i < items_fields(iss).len()
        implies field_valid(#[trigger] items_fields(iss)[i]) by {
        assert(items_fields(iss)[i] == GField::Len(1, iss[i]));
        assert(iss[i].len() <= u64::MAX);
    };
}

proof fn lemma_entry_fields_valid(k: Seq<u8>, v: Seq<u8>)
    requires
        k.len() <= u64::MAX,
        v.len() <= u64::MAX,
    ensures
        fields_valid(entry_fields(k, v)),
{
    let fs = entry_fields(k, v);
    assert forall|i: int| 0 <= i < fs.len() implies field_valid(#[trigger] fs[i]) by {
        assert(fs[0] == GField::Len(1, k));
        assert(fs[1] == GField::Len(2, v));
    };
}

proof fn lemma_dict_fields_valid(es: Seq<(Seq<u8>, Seq<u8>)>)
    requires
        dict_wf(es),
    ensures
        fields_valid(dict_fields(es)),
{
    lemma_dict_fields(es);
    assert forall|i: int| 0 <= i < dict_fields(es).len()
        implies field_valid(#[trigger] dict_fields(es)[i]) by {
        assert(dict_fields(es)[i] == GField::Len(1, enc_entry(es[i].0, es[i].1)));
        assert(enc_entry(es[i].0, es[i].1).len() <= u64::MAX);
    };
}

proof fn lemma_dict_fields_push(entries: Seq<(Seq<u8>, Seq<u8>)>, k: Seq<u8>, v: Seq<u8>)
    ensures
        dict_fields(entries.push((k, v)))
            == dict_fields(entries) + seq![GField::Len(1, enc_entry(k, v))],
{
    lemma_dict_fields(entries);
    lemma_dict_fields(entries.push((k, v)));
    let lhs = dict_fields(entries.push((k, v)));
    let rhs = dict_fields(entries) + seq![GField::Len(1, enc_entry(k, v))];
    assert forall|i: int| 0 <= i < lhs.len() implies lhs[i] == rhs[i] by {
        if i < entries.len() {
            assert(entries.push((k, v))[i] == entries[i]);
        } else {
            assert(entries.push((k, v))[i] == (k, v));
            assert(rhs[i] == GField::Len(1, enc_entry(k, v)));
        }
    };
    assert(lhs =~= rhs);
}

/// Encodes one dictionary entry message from encoded key and value.
fn encode_entry(k: &Vec<u8>, v: &Vec<u8>) -> (r: Vec<u8>)
    ensures
        r@ == enc_entry(k@, v@),
{
    let mut out: Vec<u8> = Vec::new();
    encode_field_len(&mut out, 1, k);
    encode_field_len(&mut out, 2, v);
    proof {
        let fs = entry_fields(k@, v@);
        assert(fs[0] == GField::Len(1, k@));
        assert(fs.drop_first() =~= seq![GField::Len(2, v@)]);
        crate::wire::lemma_fields_enc_single(GField::Len(2, v@));
        assert(fields_enc(fs) == field_enc(fs[0]) + fields_enc(fs.drop_first()));
        assert(out@ =~= enc_entry(k@, v@));
    }
    out
}

/// Encodes a dictionary from encoded key/value pairs.
pub fn encode_dictionary_untagged(entries: &Vec<(Vec<u8>, Vec<u8>)>) -> (r: Vec<u8>)
    ensures
        r@ == enc_dictionary(pair_views(entries@)),
{
    let mut out: Vec<u8> = Vec::new();
    let mut i: usize = 0;
    proof {
        assert(entries@.subrange(0, 0) =~= Seq::<(Vec<u8>, Vec<u8>)>::empty());
        assert(out@ =~= enc_dictionary(pair_views(entries@.subrange(0, 0))));
    }
    while i < entries.len()
        invariant
            i <= entries@.len(),
            out@ == enc_dictionary(pair_views(entries@.subrange(0, i as int))),
        decreases entries@.len() - i,
    {
        let ghost pre = entries@.subrange(0, i as int);
        let entry = encode_entry(&entries[i].0, &entries[i].1);
        encode_field_len(&mut out, 1, &entry);
        proof {
            let kv = entries@[i as int];
            assert(entries@.subrange(0, i + 1) =~= pre.push(kv));
            lemma_pair_views(pre);
            lemma_pair_views(pre.push(kv));
            assert(pair_views(pre.push(kv)) =~= pair_views(pre).push((kv.0@, kv.1@)));
            lemma_dict_fields_push(pair_views(pre), kv.0@, kv.1@);
            lemma_fields_enc_concat(dict_fields(pair_views(pre)),
                seq![GField::Len(1, enc_entry(kv.0@, kv.1@))]);
            crate::wire::lemma_fields_enc_single(GField::Len(1, enc_entry(kv.0@, kv.1@)));
            assert(out@ =~= enc_dictionary(pair_views(entries@.subrange(0, i + 1))));
        }
        i = i + 1;
    }
    proof {
        assert(entries@.subrange(0, entries@.len() as int) =~= entries@);
    }
    out
}

/// Decodes one dictionary entry message.
fn decode_entry(buf: &Vec<u8>) -> (r: Result<(Vec<u8>, Vec<u8>), RpcError>)
    ensures
        r matches Ok(kv) ==> buf@ == enc_entry(kv.0@, kv.1@),
        forall|k: Seq<u8>, v: Seq<u8>|
            k.len() <= u64::MAX && v.len() <= u64::MAX && buf@ == #[trigger] enc_entry(k, v)
            ==> r is Ok,
        r matches Err(e) ==> e is Encoding,
{
    let ghost s = buf@;
    proof {
        assert forall|k: Seq<u8>, v: Seq<u8>|
            k.len() <= u64::MAX && v.len() <= u64::MAX && s == #[trigger] enc_entry(k, v)
            implies spec_parse_fields(s) == Some(entry_fields(k, v)) by {
            lemma_entry_fields_valid(k, v);
            lemma_parse_fields_enc(entry_fields(k, v));
        };
    }
    let fields = match decode_fields(buf) {
        Ok(fs) => fs,
        Err(e) => {
            return Err(e);
        },
    };
    proof {
        lemma_wire_views(fields@);
    }
    if fields.len() != 2 {
        return Err(RpcError::Encoding("malformed dictionary entry".to_owned()));
    }
    let ghost fvs = wire_views(fields@);
    let k: Vec<u8> = match &fields[0] {
        WireField::Len(n, p) => {
            if *n != 1 {
                return Err(RpcError::Encoding("malformed dictionary entry".to_owned()));
            }
            clone_bytes(p)
        },
        _ => {
            return Err(RpcError::Encoding("malformed dictionary entry".to_owned()));
        },
    };
    let v: Vec<u8> = match &fields[1] {
        WireField::Len(n, p) => {
            if *n != 2 {
                return Err(RpcError::Encoding("malformed dictionary entry".to_owned()));
            }
            clone_bytes(p)
        },
        _ => {
            return Err(RpcError::Encoding("malformed dictionary entry".to_owned()));
        },
    };
    proof {
        assert(fvs =~= entry_fields(k@, v@));
        lemma_parse_fields_sound(s);
    }
    Ok((k, v))
}

/// Decodes a dictionary message into encoded key/value pairs: succeeds
/// exactly on an encoded dictionary.
pub fn decode_dictionary_untagged(buf: &Vec<u8>) -> (r: Result<Vec<(Vec<u8>, Vec<u8>)>, RpcError>)
    ensures
        r matches Ok(es) ==> buf@ == enc_dictionary(pair_views(es@)),
        forall|es: Seq<(Seq<u8>, Seq<u8>)>| dict_wf(es) && buf@ == #[trigger] enc_dictionary(es)
            ==> r is Ok,
        r matches Err(e) ==> e is Encoding,
{
    let ghost s = buf@;
    proof {
        assert forall|es: Seq<(Seq<u8>, Seq<u8>)>|
            dict_wf(es) && s == #[trigger] enc_dictionary(es)
            implies spec_parse_fields(s) == Some(dict_fields(es)) by {
            lemma_dict_fields(es);
            lemma_dict_fields_valid(es);
            lemma_parse_fields_enc(dict_fields(es));
        };
    }
    let fields = match decode_fields(buf) {
        Ok(fs) => fs,
        Err(e) => {
            return Err(e);
        },
    };
    let ghost fvs = wire_views(fields@);
    let mut entries: Vec<(Vec<u8>, Vec<u8>)> = Vec::new();
    let mut i: usize = 0;
    proof {
        lemma_wire_views(fields@);
    }
    while i < fields.len()
        invariant
            i <= fields@.len(),
            s == buf@,
            fvs == wire_views(fields@),
            spec_parse_fields(s) == Some(fvs),
            fvs.len() == fields@.len(),
            forall|j: int| 0 <= j < fields@.len() ==> fvs[j] == fields@[j]@,
            entries@.len() == i,
            forall|j: int| 0 <= j < i ==> fvs[j]
                == GField::Len(1, enc_entry((#[trigger] entries@[j]).0@, entries@[j].1@)),
            forall|es: Seq<(Seq<u8>, Seq<u8>)>| dict_wf(es) && s == #[trigger] enc_dictionary(es)
                ==> spec_parse_fields(s) == Some(dict_fields(es)),
        decreases fields@.len() - i,
    {
        let p: Vec<u8> = match &fields[i] {
            WireField::Len(n, p) => {
                if *n != 1 {
                    proof {
                        assert forall|es: Seq<(Seq<u8>, Seq<u8>)>|
                            dict_wf(es) && s == #[trigger] enc_dictionary(es)
                            implies false by {
                            lemma_dict_fields(es);
                            assert(fvs == dict_fields(es));
                            assert(fvs[i as int]
                                == GField::Len(1, enc_entry(es[i as int].0, es[i as int].1)));
                            assert(fvs[i as int] == fields@[i as int]@);
                        };
                    }
                    return Err(RpcError::Encoding("unexpected field in dictionary".to_owned()));
                }
                clone_bytes(p)
            },
            _ => {
                proof {
                    assert forall|es: Seq<(Seq<u8>, Seq<u8>)>|
                        dict_wf(es) && s == #[trigger] enc_dictionary(es)
                        implies false by {
                        lemma_dict_fields(es);
                        assert(fvs == dict_fields(es));
                        assert(fvs[i as int]
                            == GField::Len(1, enc_entry(es[i as int].0, es[i as int].1)));
                        assert(fvs[i as int] == fields@[i as int]@);
                    };
                }
                return Err(RpcError::Encoding("unexpected field in dictionary".to_owned()));
            },
        };
        proof {
            assert(fields@[i as int]@ == GField::Len(1, p@));
        }
        let kv = match decode_entry(&p) {
            Ok(kv) => kv,
            Err(e) => {
                proof {
                    assert forall|es: Seq<(Seq<u8>, Seq<u8>)>|
                        dict_wf(es) && s == #[trigger] enc_dictionary(es)
                        implies false by {
                        lemma_dict_fields(es);
                        assert(fvs == dict_fields(es));
                        assert(fvs[i as int]
                            == GField::Len(1, enc_entry(es[i as int].0, es[i as int].1)));
                        assert(fvs[i as int] == fields@[i as int]@);
                        assert(p@ == enc_entry(es[i as int].0, es[i as int].1));
                        assert(es[i as int].0.len() <= u64::MAX);
                        assert(es[i as int].1.len() <= u64::MAX);
                    };
                }
                return Err(e);
            },
        };
        entries.push(kv);
        i = i + 1;
    }
    proof {
        lemma_pair_views(entries@);
        lemma_dict_fields(pair_views(entries@));
        assert forall|j: int| 0 <= j < fvs.len()
            implies fvs[j] == dict_fields(pair_views(entries@))[j] by {
            assert(pair_views(entries@)[j] == (entries@[j].0@, entries@[j].1@));
            assert(dict_fields(pair_views(entries@))[j]
                == GField::Len(1, enc_entry(entries@[j].0@, entries@[j].1@)));
        };
        assert(fvs =~= dict_fields(pair_views(entries@)));
        lemma_parse_fields_sound(s);
    }
    Ok(entries)
}

/// Encodes a remote-object handle. A handle id of 0 denotes null, which
/// only a nullable position may carry: encoding null into a non-nullable
/// position is an encoding error, and nothing else is.
pub fn encode_class_handle(id: u64, nullable: bool) -> (r: Result<Vec<u8>, RpcError>)
    ensures
        r matches Ok(b) ==> b@ == enc_u64(id),
        r is Err <==> (id == 0 && !nullable),
        r matches Err(e) ==> e is Encoding,
{
    if id == 0 && !nullable {
        Err(RpcError::Encoding("null handle in non-nullable position".to_owned()))
    } else {
        Ok(encode_u64_untagged(id))
    }
}

/// Decodes a nullable remote-object handle: id 0 is the absent value.
pub fn decode_nullable_class(buf: &Vec<u8>) -> (r: Result<Option<u64>, RpcError>)
    ensures
        r matches Ok(o) ==> {
            &&& (o matches Some(id) ==> buf@ == enc_u64(id) && id != 0)
            &&& (o is None ==> buf@ == enc_u64(0))
        },
        forall|id: u64| buf@ == #[trigger] enc_u64(id) ==> r is Ok,
        r matches Err(e) ==> e is Encoding,
{
    match decode_u64_untagged(buf) {
        Ok(0) => Ok(None),
        Ok(id) => Ok(Some(id)),
        Err(e) => Err(e),
    }
}

proof fn lemma_enc_sint32_injective(a: i32, b: i32)
    requires
        enc_sint32(a) == enc_sint32(b),
    ensures
        a == b,
{
    lemma_parse_varint_enc(zigzag32(a), Seq::empty());
    lemma_parse_varint_enc(zigzag32(b), Seq::empty());
    assert(varint_enc(zigzag32(a)) + Seq::<u8>::empty() =~= varint_enc(zigzag32(a)));
    assert(varint_enc(zigzag32(b)) + Seq::<u8>::empty() =~= varint_enc(zigzag32(b)));
    assert(zigzag32(a) == zigzag32(b));
}

/// Encodes the declared variant at `idx` of an enumeration whose
/// server-assigned tags are `tags`.
pub fn encode_enum_tag(tags: &Vec<i32>, idx: usize) -> (r: Result<Vec<u8>, RpcError>)
    ensures
        r matches Ok(b) ==> idx < tags@.len() && b@ == enc_sint32(tags@[idx as int]),
        r is Err <==> idx >= tags@.len(),
        r matches Err(e) ==> e is Encoding,
{
    if idx >= tags.len() {
        Err(RpcError::Encoding("enumeration variant out of range".to_owned()))
    } else {
        Ok(encode_sint32_untagged(tags[idx]))
    }
}

/// Decodes an enumeration value against its declared tags: yields the
/// first variant whose tag matches. A tag outside the declared set is an
/// encoding error — it never falls back to any variant — and decoding
/// fails exactly when the buffer encodes no declared variant.
pub fn decode_enum_tag(tags: &Vec<i32>, buf: &Vec<u8>) -> (r: Result<usize, RpcError>)
    ensures
        r matches Ok(j) ==> {
            &&& j < tags@.len()
            &&& buf@ == enc_sint32(tags@[j as int])
            &&& forall|k: int| 0 <= k < j ==> tags@[k] != tags@[j as int]
        },
        r is Err ==> forall|j: int| 0 <= j < tags@.len() ==> buf@ != enc_sint32(tags@[j]),
        r matches Err(e) ==> e is Encoding,
{
    let v = match decode_sint32_untagged(buf) {
        Ok(v) => v,
        Err(e) => {
            return Err(e);
        },
    };
    let mut j: usize = 0;
    while j < tags.len()
        invariant
            j <= tags@.len(),
            buf@ == enc_sint32(v),
            forall|k: int| 0 <= k < j ==> tags@[k] != v,
        decreases tags@.len() - j,
    {
        if tags[j] == v {
            return Ok(j);
        }
        j = j + 1;
    }
    proof {
        assert forall|k: int| 0 <= k < tags@.len() implies buf@ != enc_sint32(tags@[k]) by {
            if buf@ == enc_sint32(tags@[k]) {
                lemma_enc_sint32_injective(tags@[k], v);
            }
        };
    }
    Err(RpcError::Encoding("enumeration tag out of range".to_owned()))
}

} // verus!
