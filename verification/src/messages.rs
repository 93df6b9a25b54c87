//! The protocol's envelope messages: the framed protocol-buffer messages
//! that carry calls, results, stream updates and connection handshakes.
//! Each message has an executable struct, a view, a canonical encoding
//! that omits default-valued fields, and a decoder that folds over the
//! wire fields, keeping the last occurrence of a scalar field, appending
//! repeated fields, and skipping unknown ones.

use vstd::prelude::*;
use vstd::utf8::{valid_utf8, decode_utf8, encode_utf8, encode_utf8_valid_utf8,
    encode_utf8_decode_utf8};
use vstd::string::StrSliceExecFns;

use crate::error::RpcError;
use crate::wire::{GField, WireField, fields_enc, field_enc, spec_parse_fields, fields_valid,
    field_valid, lemma_parse_fields_enc, lemma_parse_fields_sound, lemma_fields_enc_concat,
    lemma_fields_enc_single, encode_field_varint, encode_field_len, decode_fields, wire_views,
    lemma_wire_views};
use crate::codec::{clone_bytes, string_from_utf8};

verus! {

/// One positional argument of a procedure call: its position and the
/// untagged encoding of its value.
pub struct Argument {
    pub position: u32,
    pub value: Vec<u8>,
}

#[verifier::ext_equal]
pub struct ArgumentV {
    pub position: u32,
    pub value: Seq<u8>,
}

impl View for Argument {
    type V = ArgumentV;

    open spec fn view(&self) -> ArgumentV {
        ArgumentV { position: self.position, value: self.value@ }
    }
}

pub open spec fn argument_default() -> ArgumentV {
    ArgumentV { position: 0, value: Seq::empty() }
}

/// Canonical fields: position in field 1, value bytes in field 2,
/// defaults omitted.
pub open spec fn argument_fields(a: ArgumentV) -> Seq<GField> {
    (if a.position == 0 {
        Seq::<GField>::empty()
    } else {
        seq![GField::Varint(1, a.position as u64)]
    }) + (if a.value.len() == 0 {
        Seq::<GField>::empty()
    } else {
        seq![GField::Len(2, a.value)]
    })
}

pub open spec fn enc_argument(a: ArgumentV) -> Seq<u8> {
    fields_enc(argument_fields(a))
}

pub open spec fn argument_wf(a: ArgumentV) -> bool {
    a.value.len() <= u64::MAX
}

pub open spec fn argument_apply(a: ArgumentV, f: GField) -> Option<ArgumentV> {
    match f {
        GField::Varint(1u32, v) => if v <= u32::MAX as u64 {
            Some(ArgumentV { position: v as u32, value: a.value })
        } else {
            None
        },
        GField::Len(2u32, p) => Some(ArgumentV { position: a.position, value: p }),
        _ => Some(a),
    }
}

pub open spec fn argument_fold(fs: Seq<GField>, acc: ArgumentV) -> Option<ArgumentV>
    decreases fs.len(),
{
    if fs.len() == 0 {
        Some(acc)
    } else {
        match argument_apply(acc, fs[0]) {
            None => None,
            Some(a2) => argument_fold(fs.drop_first(), a2),
        }
    }
}

/// What a buffer means as an `Argument` message, if anything.
pub open spec fn spec_decode_argument(s: Seq<u8>) -> Option<ArgumentV> {
    match spec_parse_fields(s) {
        None => None,
        Some(fs) => argument_fold(fs, argument_default()),
    }
}

/// Decoding inverts encoding: the canonical encoding of any argument
/// decodes to that argument.
pub proof fn lemma_argument_roundtrip(a: ArgumentV)
    requires
        argument_wf(a),
    ensures
        spec_decode_argument(enc_argument(a)) == Some(a),
{
    let fs = argument_fields(a);
    assert forall|i: int| 0 <= i < fs.len() implies field_valid(#[trigger] fs[i]) by {
        lemma_argument_fields_shape(a);
    };
    lemma_parse_fields_enc(fs);
    lemma_argument_fields_shape(a);
    let d = argument_default();
    if a.position == 0 && a.value.len() == 0 {
        assert(a.value =~= Seq::<u8>::empty());
        assert(a =~= d);
        assert(argument_fold(fs, d) == Some(d));
    } else if a.position != 0 && a.value.len() == 0 {
        let f1 = GField::Varint(1, a.position as u64);
        assert(fs =~= seq![f1]);
        assert(fs[0] == f1);
        assert(fs.drop_first() =~= Seq::<GField>::empty());
        let a1 = ArgumentV { position: a.position, value: d.value };
        assert(argument_apply(d, f1) == Some(a1));
        assert(argument_fold(fs, d) == argument_fold(fs.drop_first(), a1));
        assert(argument_fold(fs.drop_first(), a1) == Some(a1));
        assert(a1 =~= a);
    } else if a.position == 0 && a.value.len() != 0 {
        let f2 = GField::Len(2, a.value);
        assert(fs =~= seq![f2]);
        assert(fs[0] == f2);
        assert(fs.drop_first() =~= Seq::<GField>::empty());
        let a1 = ArgumentV { position: d.position, value: a.value };
        assert(argument_apply(d, f2) == Some(a1));
        assert(argument_fold(fs, d) == argument_fold(fs.drop_first(), a1));
        assert(argument_fold(fs.drop_first(), a1) == Some(a1));
        assert(a1 =~= a);
    } else {
        let f1 = GField::Varint(1, a.position as u64);
        let f2 = GField::Len(2, a.value);
        assert(fs =~= seq![f1, f2]);
        assert(fs[0] == f1);
        assert(fs.drop_first() =~= seq![f2]);
        assert(fs.drop_first()[0] == f2);
        assert(fs.drop_first().drop_first() =~= Seq::<GField>::empty());
        let a1 = ArgumentV { position: a.position, value: d.value };
        let a2 = ArgumentV { position: a.position, value: a.value };
        assert(argument_apply(d, f1) == Some(a1));
        assert(argument_fold(fs, d) == argument_fold(fs.drop_first(), a1));
        assert(argument_apply(a1, f2) == Some(a2));
        assert(argument_fold(fs.drop_first(), a1)
            == argument_fold(fs.drop_first().drop_first(), a2));
        assert(argument_fold(fs.drop_first().drop_first(), a2) == Some(a2));
        assert(a2 =~= a);
    }
}

proof fn lemma_argument_fields_shape(a: ArgumentV)
    requires
        argument_wf(a),
    ensures
        fields_valid(argument_fields(a)),
        a.position == 0 && a.value.len() == 0 ==> argument_fields(a) =~= Seq::<GField>::empty(),
        a.position != 0 && a.value.len() == 0
            ==> argument_fields(a) =~= seq![GField::Varint(1u32, a.position as u64)],
        a.position == 0 && a.value.len() != 0
            ==> argument_fields(a) =~= seq![GField::Len(2u32, a.value)],
        a.position != 0 && a.value.len() != 0
            ==> argument_fields(a)
                =~= seq![GField::Varint(1u32, a.position as u64), GField::Len(2u32, a.value)],
{
    let fs = argument_fields(a);
    assert forall|i: int| 0 <= i < fs.len() implies field_valid(#[trigger] fs[i]) by {
        if a.position != 0 && a.value.len() != 0 {
            assert(fs =~= seq![GField::Varint(1u32, a.position as u64),
                GField::Len(2u32, a.value)]);
        } else if a.position != 0 {
            assert(fs =~= seq![GField::Varint(1u32, a.position as u64)]);
        } else if a.value.len() != 0 {
            assert(fs =~= seq![GField::Len(2u32, a.value)]);
        }
    };
}

/// Appends the canonical encoding of an argument.
pub fn encode_argument(out: &mut Vec<u8>, a: &Argument)
    ensures
        final(out)@ == old(out)@ + enc_argument(a@),
{
    let ghost orig = out@;
    if a.position != 0 {
        encode_field_varint(out, 1, a.position as u64);
    }
    if a.value.len() > 0 {
        encode_field_len(out, 2, &a.value);
    }
    proof {
        let av = a@;
        let f1 = GField::Varint(1u32, av.position as u64);
        let f2 = GField::Len(2u32, av.value);
        if av.position != 0 && av.value.len() != 0 {
            assert(argument_fields(av) =~= seq![f1] + seq![f2]);
            lemma_fields_enc_concat(seq![f1], seq![f2]);
            lemma_fields_enc_single(f1);
            lemma_fields_enc_single(f2);
            assert(out@ =~= orig + enc_argument(av));
        } else if av.position != 0 {
            assert(argument_fields(av) =~= seq![f1]);
            lemma_fields_enc_single(f1);
            assert(out@ =~= orig + enc_argument(av));
        } else if av.value.len() != 0 {
            assert(argument_fields(av) =~= seq![f2]);
            lemma_fields_enc_single(f2);
            assert(out@ =~= orig + enc_argument(av));
        } else {
            assert(argument_fields(av) =~= Seq::<GField>::empty());
            assert(out@ =~= orig + enc_argument(av));
        }
    }
}

/// Decodes an `Argument` message: succeeds exactly on buffers that mean
/// one, and yields what they mean.
pub fn decode_argument(buf: &Vec<u8>) -> (r: Result<Argument, RpcError>)
    ensures
        r matches Ok(m) ==> spec_decode_argument(buf@) == Some(m@),
        r is Err ==> spec_decode_argument(buf@) is None,
        r matches Err(e) ==> e is Encoding,
{
    let fields = match decode_fields(buf) {
        Ok(fs) => fs,
        Err(e) => {
            return Err(e);
        },
    };
    let ghost fvs = wire_views(fields@);
    proof {
        lemma_wire_views(fields@);
    }
    let mut position: u32 = 0;
    let mut value: Vec<u8> = Vec::new();
    let mut i: usize = 0;
    proof {
        assert(fvs.skip(0) =~= fvs);
        assert(ArgumentV { position: position, value: value@ } =~= argument_default());
    }
    while i < fields.len()
        invariant
            i <= fields@.len(),
            fvs == wire_views(fields@),
            spec_parse_fields(buf@) == Some(fvs),
            fvs.len() == fields@.len(),
            forall|j: int| 0 <= j < fields@.len() ==> fvs[j] == fields@[j]@,
            argument_fold(fvs, argument_default())
                == argument_fold(fvs.skip(i as int),
                    ArgumentV { position: position, value: value@ }),
        decreases fields@.len() - i,
    {
        let ghost cur = ArgumentV { position: position, value: value@ };
        proof {
            assert(fvs.skip(i as int)[0] == fvs[i as int]);
            assert(fvs.skip(i as int).drop_first() =~= fvs.skip(i + 1));
        }
        match &fields[i] {
            WireField::Varint(n, v) => {
                if *n == 1 {
                    if *v > u32::MAX as u64 {
                        proof {
                            assert(argument_apply(cur, fvs[i as int]) is None);
                            assert(argument_fold(fvs, argument_default()) is None);
                        }
                        return Err(RpcError::Encoding("field value out of range".to_owned()));
                    }
                    position = *v as u32;
                }
            },
            WireField::Len(n, p) => {
                if *n == 2 {
                    value = clone_bytes(p);
                }
            },
            _ => {},
        }
        proof {
            let nxt = ArgumentV { position: position, value: value@ };
            assert(argument_apply(cur, fvs[i as int]) == Some(nxt));
        }
        i = i + 1;
    }
    proof {
        assert(fvs.skip(i as int).len() == 0);
    }
    Ok(Argument { position, value })
}

/// A string-valued field, omitted when empty.
pub open spec fn opt_str_field(num: u32, s: Seq<char>) -> Seq<GField> {
    if s.len() == 0 {
        Seq::<GField>::empty()
    } else {
        seq![GField::Len(num, encode_utf8(s))]
    }
}

/// Appends a string field, omitted when empty.
fn encode_opt_str_field(out: &mut Vec<u8>, num: u32, s: &str)
    requires
        1 <= num <= 0x1FFFFFFF,
    ensures
        final(out)@ == old(out)@ + fields_enc(opt_str_field(num, s@)),
{
    let ghost orig = out@;
    if s.unicode_len() > 0 {
        let b = s.as_bytes_vec();
        encode_field_len(out, num, &b);
        proof {
            assert(s@.len() != 0);
            assert(opt_str_field(num, s@) =~= seq![GField::Len(num, encode_utf8(s@))]);
            lemma_fields_enc_single(GField::Len(num, encode_utf8(s@)));
            assert(out@ =~= orig + fields_enc(opt_str_field(num, s@)));
        }
    } else {
        proof {
            assert(opt_str_field(num, s@) =~= Seq::<GField>::empty());
            assert(out@ =~= orig + fields_enc(opt_str_field(num, s@)));
        }
    }
}

/// An error reported by the server: where it arose and what it says.
pub struct ErrorMsg {
    pub service: String,
    pub name: String,
    pub description: String,
    pub stack_trace: String,
}

#[verifier::ext_equal]
pub struct ErrorMsgV {
    pub service: Seq<char>,
    pub name: Seq<char>,
    pub description: Seq<char>,
    pub stack_trace: Seq<char>,
}

impl View for ErrorMsg {
    type V = ErrorMsgV;

    open spec fn view(&self) -> ErrorMsgV {
        ErrorMsgV {
            service: self.service@,
            name: self.name@,
            description: self.description@,
            stack_trace: self.stack_trace@,
        }
    }
}

pub open spec fn error_default() -> ErrorMsgV {
    ErrorMsgV {
        service: Seq::empty(),
        name: Seq::empty(),
        description: Seq::empty(),
        stack_trace: Seq::empty(),
    }
}

/// Canonical fields: service 1, name 2, description 3, stack trace 4.
pub open spec fn error_fields(e: ErrorMsgV) -> Seq<GField> {
    opt_str_field(1, e.service) + opt_str_field(2, e.name) + opt_str_field(3, e.description)
        + opt_str_field(4, e.stack_trace)
}

pub open spec fn enc_error(e: ErrorMsgV) -> Seq<u8> {
    fields_enc(error_fields(e))
}

pub open spec fn error_wf(e: ErrorMsgV) -> bool {
    &&& encode_utf8(e.service).len() <= u64::MAX
    &&& encode_utf8(e.name).len() <= u64::MAX
    &&& encode_utf8(e.description).len() <= u64::MAX
    &&& encode_utf8(e.stack_trace).len() <= u64::MAX
}

pub open spec fn error_apply(e: ErrorMsgV, f: GField) -> Option<ErrorMsgV> {
    match f {
        GField::Len(1u32, p) => if valid_utf8(p) {
            Some(ErrorMsgV { service: decode_utf8(p), ..e })
        } else {
            None
        },
        GField::Len(2u32, p) => if valid_utf8(p) {
            Some(ErrorMsgV { name: decode_utf8(p), ..e })
        } else {
            None
        },
        GField::Len(3u32, p) => if valid_utf8(p) {
            Some(ErrorMsgV { description: decode_utf8(p), ..e })
        } else {
            None
        },
        GField::Len(4u32, p) => if valid_utf8(p) {
            Some(ErrorMsgV { stack_trace: decode_utf8(p), ..e })
        } else {
            None
        },
        _ => Some(e),
    }
}

pub open spec fn error_fold(fs: Seq<GField>, acc: ErrorMsgV) -> Option<ErrorMsgV>
    decreases fs.len(),
{
    if fs.len() == 0 {
        Some(acc)
    } else {
        match error_apply(acc, fs[0]) {
            None => None,
            Some(a2) => error_fold(fs.drop_first(), a2),
        }
    }
}

/// What a buffer means as an error message, if anything.
pub open spec fn spec_decode_error(s: Seq<u8>) -> Option<ErrorMsgV> {
    match spec_parse_fields(s) {
        None => None,
        Some(fs) => error_fold(fs, error_default()),
    }
}

proof fn lemma_error_fold_append(x: Seq<GField>, y: Seq<GField>, acc: ErrorMsgV)
    ensures
        error_fold(x + y, acc) == (match error_fold(x, acc) {
            None => None::<ErrorMsgV>,
            Some(m) => error_fold(y, m),
        }),
    decreases x.len(),
{
    if x.len() == 0 {
        assert(x + y =~= y);
    } else {
        assert((x + y)[0] == x[0]);
        assert((x + y).drop_first() =~= x.drop_first() + y);
        match error_apply(acc, x[0]) {
            None => {},
            Some(a2) => {
                lemma_error_fold_append(x.drop_first(), y, a2);
            },
        }
    }
}

proof fn lemma_error_fold_str(num: u32, s: Seq<char>, acc: ErrorMsgV, out: ErrorMsgV)
    requires
        error_apply(acc, GField::Len(num, encode_utf8(s))) == Some(out) || s.len() == 0,
        s.len() == 0 ==> out == acc,
    ensures
        error_fold(opt_str_field(num, s), acc) == Some(out),
{
    if s.len() == 0 {
        assert(opt_str_field(num, s) =~= Seq::<GField>::empty());
    } else {
        let f = GField::Len(num, encode_utf8(s));
        let fs = opt_str_field(num, s);
        assert(fs =~= seq![f]);
        assert(fs[0] == f);
        assert(fs.drop_first() =~= Seq::<GField>::empty());
        assert(error_fold(fs, acc) == error_fold(fs.drop_first(), out));
    }
}

/// Decoding inverts encoding for error messages.
pub proof fn lemma_error_roundtrip(e: ErrorMsgV)
    requires
        error_wf(e),
    ensures
        spec_decode_error(enc_error(e)) == Some(e),
{
    broadcast use encode_utf8_valid_utf8, encode_utf8_decode_utf8;
    let p1 = opt_str_field(1, e.service);
    let p2 = opt_str_field(2, e.name);
    let p3 = opt_str_field(3, e.description);
    let p4 = opt_str_field(4, e.stack_trace);
    let fs = error_fields(e);
    assert forall|i: int| 0 <= i < fs.len() implies field_valid(#[trigger] fs[i]) by {
        lemma_opt_str_valid(1, e.service);
        lemma_opt_str_valid(2, e.name);
        lemma_opt_str_valid(3, e.description);
        lemma_opt_str_valid(4, e.stack_trace);
        assert(fs == ((p1 + p2) + p3) + p4);
        if i < (p1 + p2 + p3).len() {
            if i < (p1 + p2).len() {
                if i < p1.len() {
                    assert(fs[i] == p1[i]);
                } else {
                    assert(fs[i] == p2[i - p1.len()]);
                }
            } else {
                assert(fs[i] == p3[i - (p1 + p2).len()]);
            }
        } else {
            assert(fs[i] == p4[i - (p1 + p2 + p3).len()]);
        }
    };
    lemma_parse_fields_enc(fs);
    let d = error_default();
    let m1 = ErrorMsgV { service: e.service, ..d };
    let m2 = ErrorMsgV { name: e.name, ..m1 };
    let m3 = ErrorMsgV { description: e.description, ..m2 };
    let m4 = ErrorMsgV { stack_trace: e.stack_trace, ..m3 };
    lemma_error_fold_str(1, e.service, d, m1);
    lemma_error_fold_str(2, e.name, m1, m2);
    lemma_error_fold_str(3, e.description, m2, m3);
    lemma_error_fold_str(4, e.stack_trace, m3, m4);
    lemma_error_fold_append(p1 + p2 + p3, p4, d);
    lemma_error_fold_append(p1 + p2, p3, d);
    lemma_error_fold_append(p1, p2, d);
    assert(fs == ((p1 + p2) + p3) + p4);
    assert(error_fold(fs, d) == Some(m4));
    assert(m4 =~= e);
}

proof fn lemma_opt_str_valid(num: u32, s: Seq<char>)
    requires
        1 <= num <= 0x1FFFFFFF,
        encode_utf8(s).len() <= u64::MAX,
    ensures
        fields_valid(opt_str_field(num, s)),
        opt_str_field(num, s).len() <= 1,
        forall|i: int| 0 <= i < opt_str_field(num, s).len()
            ==> opt_str_field(num, s)[i] == GField::Len(num, encode_utf8(s)),
{
    if s.len() != 0 {
        assert(opt_str_field(num, s) =~= seq![GField::Len(num, encode_utf8(s))]);
    }
}

/// Appends the canonical encoding of an error message.
pub fn encode_error(out: &mut Vec<u8>, e: &ErrorMsg)
    ensures
        final(out)@ == old(out)@ + enc_error(e@),
{
    let ghost orig = out@;
    encode_opt_str_field(out, 1, e.service.as_str());
    encode_opt_str_field(out, 2, e.name.as_str());
    encode_opt_str_field(out, 3, e.description.as_str());
    encode_opt_str_field(out, 4, e.stack_trace.as_str());
    proof {
        let ev = e@;
        let p1 = opt_str_field(1, ev.service);
        let p2 = opt_str_field(2, ev.name);
        let p3 = opt_str_field(3, ev.description);
        let p4 = opt_str_field(4, ev.stack_trace);
        lemma_fields_enc_concat(p1, p2);
        lemma_fields_enc_concat(p1 + p2, p3);
        lemma_fields_enc_concat((p1 + p2) + p3, p4);
        assert(error_fields(ev) == ((p1 + p2) + p3) + p4);
        assert(out@ =~= orig + enc_error(ev));
    }
}

/// Decodes an error message: succeeds exactly on buffers that mean one.
pub fn decode_error(buf: &Vec<u8>) -> (r: Result<ErrorMsg, RpcError>)
    ensures
        r matches Ok(m) ==> spec_decode_error(buf@) == Some(m@),
        r is Err ==> spec_decode_error(buf@) is None,
        r matches Err(e) ==> e is Encoding,
{
    let fields = match decode_fields(buf) {
        Ok(fs) => fs,
        Err(e) => {
            return Err(e);
        },
    };
    let ghost fvs = wire_views(fields@);
    proof {
        lemma_wire_views(fields@);
    }
    let mut m = ErrorMsg {
        service: String::new(),
        name: String::new(),
        description: String::new(),
        stack_trace: String::new(),
    };
    let mut i: usize = 0;
    proof {
        assert(fvs.skip(0) =~= fvs);
        assert(m@ =~= error_default());
    }
    while i < fields.len()
        invariant
            i <= fields@.len(),
            fvs == wire_views(fields@),
            spec_parse_fields(buf@) == Some(fvs),
            fvs.len() == fields@.len(),
            forall|j: int| 0 <= j < fields@.len() ==> fvs[j] == fields@[j]@,
            error_fold(fvs, error_default()) == error_fold(fvs.skip(i as int), m@),
        decreases fields@.len() - i,
    {
        let ghost cur = m@;
        proof {
            assert(fvs.skip(i as int)[0] == fvs[i as int]);
            assert(fvs.skip(i as int).drop_first() =~= fvs.skip(i + 1));
        }
        match &fields[i] {
            WireField::Len(n, p) => {
                if *n >= 1 && *n <= 4 {
                    let s = match string_from_utf8(clone_bytes(p)) {
                        Some(s) => s,
                        None => {
                            proof {
                                assert(error_apply(cur, fvs[i as int]) is None);
                                assert(error_fold(fvs, error_default()) is None);
                            }
                            return Err(RpcError::Encoding("invalid UTF-8 in field".to_owned()));
                        },
                    };
                    if *n == 1 {
                        m.service = s;
                    } else if *n == 2 {
                        m.name = s;
                    } else if *n == 3 {
                        m.description = s;
                    } else {
                        m.stack_trace = s;
                    }
                }
            },
            _ => {},
        }
        proof {
            assert(error_apply(cur, fvs[i as int]) == Some(m@));
        }
        i = i + 1;
    }
    proof {
        assert(fvs.skip(i as int).len() == 0);
    }
    Ok(m)
}

/// The outcome of one procedure: an error, or the untagged encoding of
/// the returned value (empty for a void return).
pub struct ProcedureResult {
    pub error: Option<ErrorMsg>,
    pub value: Vec<u8>,
}

#[verifier::ext_equal]
pub struct ProcedureResultV {
    pub error: Option<ErrorMsgV>,
    pub value: Seq<u8>,
}

impl View for ProcedureResult {
    type V = ProcedureResultV;

    open spec fn view(&self) -> ProcedureResultV {
        ProcedureResultV {
            error: match self.error {
                Some(e) => Some(e@),
                None => None,
            },
            value: self.value@,
        }
    }
}

pub open spec fn pr_default() -> ProcedureResultV {
    ProcedureResultV { error: None, value: Seq::empty() }
}

/// Canonical fields: error message 1, value bytes 2, defaults omitted.
pub open spec fn pr_fields(p: ProcedureResultV) -> Seq<GField> {
    (match p.error {
        Some(e) => seq![GField::Len(1u32, enc_error(e))],
        None => Seq::<GField>::empty(),
    }) + (if p.value.len() == 0 {
        Seq::<GField>::empty()
    } else {
        seq![GField::Len(2u32, p.value)]
    })
}

pub open spec fn enc_pr(p: ProcedureResultV) -> Seq<u8> {
    fields_enc(pr_fields(p))
}

pub open spec fn pr_wf(p: ProcedureResultV) -> bool {
    &&& (p.error matches Some(e) ==> error_wf(e) && enc_error(e).len() <= u64::MAX)
    &&& p.value.len() <= u64::MAX
}

pub open spec fn pr_apply(a: ProcedureResultV, f: GField) -> Option<ProcedureResultV> {
    match f {
        GField::Len(1u32, p) => match spec_decode_error(p) {
            Some(e) => Some(ProcedureResultV { error: Some(e), value: a.value }),
            None => None,
        },
        GField::Len(2u32, p) => Some(ProcedureResultV { error: a.error, value: p }),
        _ => Some(a),
    }
}

pub open spec fn pr_fold(fs: Seq<GField>, acc: ProcedureResultV) -> Option<ProcedureResultV>
    decreases fs.len(),
{
    if fs.len() == 0 {
        Some(acc)
    } else {
        match pr_apply(acc, fs[0]) {
            None => None,
            Some(a2) => pr_fold(fs.drop_first(), a2),
        }
    }
}

/// What a buffer means as a procedure result, if anything.
pub open spec fn spec_decode_pr(s: Seq<u8>) -> Option<ProcedureResultV> {
    match spec_parse_fields(s) {
        None => None,
        Some(fs) => pr_fold(fs, pr_default()),
    }
}

proof fn lemma_pr_fold_append(x: Seq<GField>, y: Seq<GField>, acc: ProcedureResultV)
    ensures
        pr_fold(x + y, acc) == (match pr_fold(x, acc) {
            None => None::<ProcedureResultV>,
            Some(m) => pr_fold(y, m),
        }),
    decreases x.len(),
{
    if x.len() == 0 {
        assert(x + y =~= y);
    } else {
        assert((x + y)[0] == x[0]);
        assert((x + y).drop_first() =~= x.drop_first() + y);
        match pr_apply(acc, x[0]) {
            None => {},
            Some(a2) => {
                lemma_pr_fold_append(x.drop_first(), y, a2);
            },
        }
    }
}

/// Decoding inverts encoding for procedure results.
pub proof fn lemma_pr_roundtrip(p: ProcedureResultV)
    requires
        pr_wf(p),
    ensures
        spec_decode_pr(enc_pr(p)) == Some(p),
{
    let p1 = match p.error {
        Some(e) => seq![GField::Len(1u32, enc_error(e))],
        None => Seq::<GField>::empty(),
    };
    let p2 = if p.value.len() == 0 {
        Seq::<GField>::empty()
    } else {
        seq![GField::Len(2u32, p.value)]
    };
    let fs = pr_fields(p);
    assert(fs == p1 + p2);
    assert forall|i: int| 0 <= i < fs.len() implies field_valid(#[trigger] fs[i]) by {
        if i < p1.len() {
            assert(fs[i] == p1[i]);
        } else {
            assert(fs[i] == p2[i - p1.len()]);
        }
    };
    lemma_parse_fields_enc(fs);
    let d = pr_default();
    let m1 = ProcedureResultV { error: p.error, value: d.value };
    assert(pr_fold(p1, d) == Some(m1)) by {
        match p.error {
            Some(e) => {
                lemma_error_roundtrip(e);
                assert(p1[0] == GField::Len(1u32, enc_error(e)));
                assert(p1.drop_first() =~= Seq::<GField>::empty());
                assert(pr_apply(d, p1[0]) == Some(m1));
                assert(pr_fold(p1, d) == pr_fold(p1.drop_first(), m1));
                assert(pr_fold(p1.drop_first(), m1) == Some(m1));
            },
            None => {
                assert(p1.len() == 0);
            },
        }
    };
    let m2 = ProcedureResultV { error: p.error, value: p.value };
    assert(pr_fold(p2, m1) == Some(m2)) by {
        if p.value.len() == 0 {
            assert(p2.len() == 0);
            assert(m1 =~= m2);
        } else {
            assert(p2[0] == GField::Len(2u32, p.value));
            assert(p2.drop_first() =~= Seq::<GField>::empty());
            assert(pr_apply(m1, p2[0]) == Some(m2));
            assert(pr_fold(p2, m1) == pr_fold(p2.drop_first(), m2));
            assert(pr_fold(p2.drop_first(), m2) == Some(m2));
        }
    };
    lemma_pr_fold_append(p1, p2, d);
    assert(m2 =~= p);
}

/// Appends the canonical encoding of a procedure result.
pub fn encode_pr(out: &mut Vec<u8>, p: &ProcedureResult)
    ensures
        final(out)@ == old(out)@ + enc_pr(p@),
{
    let ghost orig = out@;
    match &p.error {
        Some(e) => {
            let mut eb: Vec<u8> = Vec::new();
            encode_error(&mut eb, e);
            encode_field_len(out, 1, &eb);
            proof {
                lemma_fields_enc_single(GField::Len(1u32, enc_error(e@)));
            }
        },
        None => {},
    }
    if p.value.len() > 0 {
        encode_field_len(out, 2, &p.value);
    }
    proof {
        let pv = p@;
        let p1 = match pv.error {
            Some(e) => seq![GField::Len(1u32, enc_error(e))],
            None => Seq::<GField>::empty(),
        };
        let p2 = if pv.value.len() == 0 {
            Seq::<GField>::empty()
        } else {
            seq![GField::Len(2u32, pv.value)]
        };
        lemma_fields_enc_concat(p1, p2);
        if pv.value.len() != 0 {
            lemma_fields_enc_single(GField::Len(2u32, pv.value));
        }
        assert(pr_fields(pv) == p1 + p2);
        assert(out@ =~= orig + enc_pr(pv));
    }
}

/// Decodes a procedure result: succeeds exactly on buffers that mean one.
pub fn decode_pr(buf: &Vec<u8>) -> (r: Result<ProcedureResult, RpcError>)
    ensures
        r matches Ok(m) ==> spec_decode_pr(buf@) == Some(m@),
        r is Err ==> spec_decode_pr(buf@) is None,
        r matches Err(e) ==> e is Encoding,
{
    let fields = match decode_fields(buf) {
        Ok(fs) => fs,
        Err(e) => {
            return Err(e);
        },
    };
    let ghost fvs = wire_views(fields@);
    proof {
        lemma_wire_views(fields@);
    }
    let mut m = ProcedureResult { error: None, value: Vec::new() };
    let mut i: usize = 0;
    proof {
        assert(fvs.skip(0) =~= fvs);
        assert(m@ =~= pr_default());
    }
    while i < fields.len()
        invariant
            i <= fields@.len(),
            fvs == wire_views(fields@),
            spec_parse_fields(buf@) == Some(fvs),
            fvs.len() == fields@.len(),
            forall|j: int| 0 <= j < fields@.len() ==> fvs[j] == fields@[j]@,
            pr_fold(fvs, pr_default()) == pr_fold(fvs.skip(i as int), m@),
        decreases fields@.len() - i,
    {
        let ghost cur = m@;
        proof {
            assert(fvs.skip(i as int)[0] == fvs[i as int]);
            assert(fvs.skip(i as int).drop_first() =~= fvs.skip(i + 1));
        }
        match &fields[i] {
            WireField::Len(n, p) => {
                if *n == 1 {
                    let e = match decode_error(p) {
                        Ok(e) => e,
                        Err(e) => {
                            proof {
                                assert(pr_apply(cur, fvs[i as int]) is None);
                                assert(pr_fold(fvs, pr_default()) is None);
                            }
                            return Err(e);
                        },
                    };
                    m.error = Some(e);
                } else if *n == 2 {
                    m.value = clone_bytes(p);
                }
            },
            _ => {},
        }
        proof {
            assert(pr_apply(cur, fvs[i as int]) == Some(m@));
        }
        i = i + 1;
    }
    proof {
        assert(fvs.skip(i as int).len() == 0);
    }
    Ok(m)
}


/// A varint-valued field, omitted when zero.
pub open spec fn opt_varint_field(num: u32, v: u64) -> Seq<GField> {
    if v == 0 {
        Seq::<GField>::empty()
    } else {
        seq![GField::Varint(num, v)]
    }
}

/// Appends a varint field, omitted when zero.
fn encode_opt_varint_field(out: &mut Vec<u8>, num: u32, v: u64)
    requires
        1 <= num <= 0x1FFFFFFF,
    ensures
        final(out)@ == old(out)@ + fields_enc(opt_varint_field(num, v)),
{
    let ghost orig = out@;
    if v != 0 {
        encode_field_varint(out, num, v);
        proof {
            assert(opt_varint_field(num, v) =~= seq![GField::Varint(num, v)]);
            lemma_fields_enc_single(GField::Varint(num, v));
            assert(out@ =~= orig + fields_enc(opt_varint_field(num, v)));
        }
    } else {
        proof {
            assert(opt_varint_field(num, v) =~= Seq::<GField>::empty());
            assert(out@ =~= orig + fields_enc(opt_varint_field(num, v)));
        }
    }
}

/// A service-qualified, named server-side operation with positional
/// arguments.
pub struct ProcedureCall {
    pub service: String,
    pub procedure: String,
    pub arguments: Vec<Argument>,
    pub service_id: u32,
    pub procedure_id: u32,
}

#[verifier::ext_equal]
pub struct ProcedureCallV {
    pub service: Seq<char>,
    pub procedure: Seq<char>,
    pub arguments: Seq<ArgumentV>,
    pub service_id: u32,
    pub procedure_id: u32,
}

/// The views of a run of arguments.
pub open spec fn arg_views(s: Seq<Argument>) -> Seq<ArgumentV>
    decreases s.len(),
{
    if s.len() == 0 {
        Seq::empty()
    } else {
        seq![s[0]@] + arg_views(s.drop_first())
    }
}

pub proof fn lemma_arg_views(s: Seq<Argument>)
    ensures
        arg_views(s).len() == s.len(),
        forall|i: int| 0 <= i < s.len() ==> arg_views(s)[i] == s[i]@,
    decreases s.len(),
{
    if s.len() > 0 {
        lemma_arg_views(s.drop_first());
        assert(forall|i: int| 1 <= i < s.len()
            ==> arg_views(s)[i] == arg_views(s.drop_first())[i - 1]);
    }
}

impl View for ProcedureCall {
    type V = ProcedureCallV;

    open spec fn view(&self) -> ProcedureCallV {
        ProcedureCallV {
            service: self.service@,
            procedure: self.procedure@,
            arguments: arg_views(self.arguments@),
            service_id: self.service_id,
            procedure_id: self.procedure_id,
        }
    }
}

pub open spec fn pc_default() -> ProcedureCallV {
    ProcedureCallV {
        service: Seq::empty(),
        procedure: Seq::empty(),
        arguments: Seq::empty(),
        service_id: 0,
        procedure_id: 0,
    }
}

/// One length-prefixed field, numbered 3, per argument, in order.
pub open spec fn args_fields(args: Seq<ArgumentV>) -> Seq<GField>
    decreases args.len(),
{
    if args.len() == 0 {
        Seq::<GField>::empty()
    } else {
        seq![GField::Len(3u32, enc_argument(args[0]))] + args_fields(args.drop_first())
    }
}

pub proof fn lemma_args_fields(args: Seq<ArgumentV>)
    ensures
        args_fields(args).len() == args.len(),
        forall|i: int| 0 <= i < args.len()
            ==> args_fields(args)[i] == GField::Len(3u32, enc_argument(#[trigger] args[i])),
    decreases args.len(),
{
    if args.len() > 0 {
        lemma_args_fields(args.drop_first());
        assert forall|i: int| 0 <= i < args.len() implies args_fields(args)[i]
            == GField::Len(3u32, enc_argument(#[trigger] args[i])) by {
            if i > 0 {
                assert(args_fields(args)[i] == args_fields(args.drop_first())[i - 1]);
                assert(args.drop_first()[i - 1] == args[i]);
            }
        };
    }
}

/// Canonical fields: service 1, procedure 2, arguments 3, service id 4,
/// procedure id 5, defaults omitted.
pub open spec fn pc_fields(c: ProcedureCallV) -> Seq<GField> {
    opt_str_field(1, c.service) + opt_str_field(2, c.procedure) + args_fields(c.arguments)
        + opt_varint_field(4, c.service_id as u64) + opt_varint_field(5, c.procedure_id as u64)
}

pub open spec fn enc_pc(c: ProcedureCallV) -> Seq<u8> {
    fields_enc(pc_fields(c))
}

pub open spec fn pc_wf(c: ProcedureCallV) -> bool {
    &&& encode_utf8(c.service).len() <= u64::MAX
    &&& encode_utf8(c.procedure).len() <= u64::MAX
    &&& forall|i: int| 0 <= i < c.arguments.len() ==> {
        &&& argument_wf(#[trigger] c.arguments[i])
        &&& enc_argument(c.arguments[i]).len() <= u64::MAX
    }
}

pub open spec fn pc_apply(c: ProcedureCallV, f: GField) -> Option<ProcedureCallV> {
    match f {
        GField::Len(1u32, p) => if valid_utf8(p) {
            Some(ProcedureCallV { service: decode_utf8(p), ..c })
        } else {
            None
        },
        GField::Len(2u32, p) => if valid_utf8(p) {
            Some(ProcedureCallV { procedure: decode_utf8(p), ..c })
        } else {
            None
        },
        GField::Len(3u32, p) => match spec_decode_argument(p) {
            Some(a) => Some(ProcedureCallV { arguments: c.arguments.push(a), ..c }),
            None => None,
        },
        GField::Varint(4u32, v) => if v <= u32::MAX as u64 {
            Some(ProcedureCallV { service_id: v as u32, ..c })
        } else {
            None
        },
        GField::Varint(5u32, v) => if v <= u32::MAX as u64 {
            Some(ProcedureCallV { procedure_id: v as u32, ..c })
        } else {
            None
        },
        _ => Some(c),
    }
}

pub open spec fn pc_fold(fs: Seq<GField>, acc: ProcedureCallV) -> Option<ProcedureCallV>
    decreases fs.len(),
{
    if fs.len() == 0 {
        Some(acc)
    } else {
        match pc_apply(acc, fs[0]) {
            None => None,
            Some(a2) => pc_fold(fs.drop_first(), a2),
        }
    }
}

/// What a buffer means as a procedure call, if anything.
pub open spec fn spec_decode_pc(s: Seq<u8>) -> Option<ProcedureCallV> {
    match spec_parse_fields(s) {
        None => None,
        Some(fs) => pc_fold(fs, pc_default()),
    }
}

proof fn lemma_pc_fold_append(x: Seq<GField>, y: Seq<GField>, acc: ProcedureCallV)
    ensures
        pc_fold(x + y, acc) == (match pc_fold(x, acc) {
            None => None::<ProcedureCallV>,
            Some(m) => pc_fold(y, m),
        }),
    decreases x.len(),
{
    if x.len() == 0 {
        assert(x + y =~= y);
    } else {
        assert((x + y)[0] == x[0]);
        assert((x + y).drop_first() =~= x.drop_first() + y);
        match pc_apply(acc, x[0]) {
            None => {},
            Some(a2) => {
                lemma_pc_fold_append(x.drop_first(), y, a2);
            },
        }
    }
}

/// Folding the argument fields appends exactly those arguments.
proof fn lemma_pc_fold_args(args: Seq<ArgumentV>, acc: ProcedureCallV)
    requires
        forall|i: int| 0 <= i < args.len() ==> {
            &&& argument_wf(#[trigger] args[i])
            &&& enc_argument(args[i]).len() <= u64::MAX
        },
    ensures
        pc_fold(args_fields(args), acc)
            == Some(ProcedureCallV { arguments: acc.arguments + args, ..acc }),
    decreases args.len(),
{
    if args.len() == 0 {
        assert(acc.arguments + args =~= acc.arguments);
        assert(ProcedureCallV { arguments: acc.arguments + args, ..acc } =~= acc);
    } else {
        let a0 = args[0];
        let f0 = GField::Len(3u32, enc_argument(a0));
        let fs = args_fields(args);
        assert(fs[0] == f0);
        assert(fs.drop_first() =~= args_fields(args.drop_first()));
        lemma_argument_roundtrip(a0);
        let acc1 = ProcedureCallV { arguments: acc.arguments.push(a0), ..acc };
        assert(pc_apply(acc, f0) == Some(acc1));
        assert(pc_fold(fs, acc) == pc_fold(args_fields(args.drop_first()), acc1));
        assert(forall|i: int| 0 <= i < args.drop_first().len()
            ==> args.drop_first()[i] == args[i + 1]);
        lemma_pc_fold_args(args.drop_first(), acc1);
        assert(acc.arguments.push(a0) + args.drop_first() =~= acc.arguments + args);
    }
}

/// Decoding inverts encoding for procedure calls.
pub proof fn lemma_pc_roundtrip(c: ProcedureCallV)
    requires
        pc_wf(c),
    ensures
        spec_decode_pc(enc_pc(c)) == Some(c),
{
    broadcast use encode_utf8_valid_utf8, encode_utf8_decode_utf8;
    let q1 = opt_str_field(1, c.service);
    let q2 = opt_str_field(2, c.procedure);
    let q3 = args_fields(c.arguments);
    let q4 = opt_varint_field(4, c.service_id as u64);
    let q5 = opt_varint_field(5, c.procedure_id as u64);
    let fs = pc_fields(c);
    assert(fs == (((q1 + q2) + q3) + q4) + q5);
    lemma_opt_str_valid(1, c.service);
    lemma_opt_str_valid(2, c.procedure);
    lemma_args_fields(c.arguments);
    let s12 = q1 + q2;
    let s123 = s12 + q3;
    let s1234 = s123 + q4;
    assert(fs == s1234 + q5);
    assert forall|i: int| 0 <= i < fs.len() implies field_valid(#[trigger] fs[i]) by {
        if i < s1234.len() {
            assert(fs[i] == s1234[i]);
            if i < s123.len() {
                assert(s1234[i] == s123[i]);
                if i < s12.len() {
                    assert(s123[i] == s12[i]);
                    if i < q1.len() {
                        assert(s12[i] == q1[i]);
                    } else {
                        assert(s12[i] == q2[i - q1.len()]);
                    }
                } else {
                    assert(s123[i] == q3[i - s12.len()]);
                    assert(q3[i - s12.len()]
                        == GField::Len(3u32, enc_argument(c.arguments[i - s12.len()])));
                }
            } else {
                assert(s1234[i] == q4[i - s123.len()]);
                assert(q4[0] == GField::Varint(4u32, c.service_id as u64));
            }
        } else {
            assert(fs[i] == q5[i - s1234.len()]);
            assert(q5[0] == GField::Varint(5u32, c.procedure_id as u64));
        }
    };
    lemma_parse_fields_enc(fs);
    let d = pc_default();
    let m1 = ProcedureCallV { service: c.service, ..d };
    assert(pc_fold(q1, d) == Some(m1)) by {
        if c.service.len() == 0 {
            assert(q1.len() == 0);
            assert(m1 =~= d);
        } else {
            assert(q1 =~= seq![GField::Len(1u32, encode_utf8(c.service))]);
            assert(q1[0] == GField::Len(1u32, encode_utf8(c.service)));
            assert(q1.drop_first() =~= Seq::<GField>::empty());
            assert(pc_apply(d, q1[0]) == Some(m1));
            assert(pc_fold(q1, d) == pc_fold(q1.drop_first(), m1));
        }
    };
    let m2 = ProcedureCallV { procedure: c.procedure, ..m1 };
    assert(pc_fold(q2, m1) == Some(m2)) by {
        if c.procedure.len() == 0 {
            assert(q2.len() == 0);
            assert(m2 =~= m1);
        } else {
            assert(q2 =~= seq![GField::Len(2u32, encode_utf8(c.procedure))]);
            assert(q2[0] == GField::Len(2u32, encode_utf8(c.procedure)));
            assert(q2.drop_first() =~= Seq::<GField>::empty());
            assert(pc_apply(m1, q2[0]) == Some(m2));
            assert(pc_fold(q2, m1) == pc_fold(q2.drop_first(), m2));
        }
    };
    let m3 = ProcedureCallV { arguments: c.arguments, ..m2 };
    assert(pc_fold(q3, m2) == Some(m3)) by {
        lemma_pc_fold_args(c.arguments, m2);
        assert(m2.arguments + c.arguments =~= c.arguments);
        assert(ProcedureCallV { arguments: m2.arguments + c.arguments, ..m2 } =~= m3);
    };
    let m4 = ProcedureCallV { service_id: c.service_id, ..m3 };
    assert(pc_fold(q4, m3) == Some(m4)) by {
        if c.service_id == 0 {
            assert(q4.len() == 0);
            assert(m4 =~= m3);
        } else {
            assert(q4 =~= seq![GField::Varint(4u32, c.service_id as u64)]);
            assert(q4[0] == GField::Varint(4u32, c.service_id as u64));
            assert(q4.drop_first() =~= Seq::<GField>::empty());
            assert(pc_apply(m3, q4[0]) == Some(m4));
            assert(pc_fold(q4, m3) == pc_fold(q4.drop_first(), m4));
        }
    };
    let m5 = ProcedureCallV { procedure_id: c.procedure_id, ..m4 };
    assert(pc_fold(q5, m4) == Some(m5)) by {
        if c.procedure_id == 0 {
            assert(q5.len() == 0);
            assert(m5 =~= m4);
        } else {
            assert(q5 =~= seq![GField::Varint(5u32, c.procedure_id as u64)]);
            assert(q5[0] == GField::Varint(5u32, c.procedure_id as u64));
            assert(q5.drop_first() =~= Seq::<GField>::empty());
            assert(pc_apply(m4, q5[0]) == Some(m5));
            assert(pc_fold(q5, m4) == pc_fold(q5.drop_first(), m5));
        }
    };
    lemma_pc_fold_append(q1, q2, d);
    lemma_pc_fold_append(q1 + q2, q3, d);
    lemma_pc_fold_append((q1 + q2) + q3, q4, d);
    lemma_pc_fold_append(((q1 + q2) + q3) + q4, q5, d);
    assert(pc_fold(fs, d) == Some(m5));
    assert(m5 =~= c);
}

/// Appends the canonical encoding of a procedure call.
#[verifier::rlimit(60)]
pub fn encode_pc(out: &mut Vec<u8>, c: &ProcedureCall)
    ensures
        final(out)@ == old(out)@ + enc_pc(c@),
{
    let ghost orig = out@;
    let ghost cv = c@;
    let ghost q1 = opt_str_field(1, cv.service);
    let ghost q2 = opt_str_field(2, cv.procedure);
    encode_opt_str_field(out, 1, c.service.as_str());
    encode_opt_str_field(out, 2, c.procedure.as_str());
    proof {
        lemma_fields_enc_concat(q1, q2);
        assert(out@ =~= orig + fields_enc(q1 + q2));
    }
    let mut i: usize = 0;
    proof {
        lemma_arg_views(c.arguments@);
        assert(c.arguments@.subrange(0, 0) =~= Seq::<Argument>::empty());
        assert(args_fields(arg_views(c.arguments@.subrange(0, 0))).len() == 0);
        assert(out@ =~= orig + fields_enc(q1 + q2)
            + fields_enc(args_fields(arg_views(c.arguments@.subrange(0, 0)))));
    }
    while i < c.arguments.len()
        invariant
            i <= c.arguments@.len(),
            cv == c@,
            q1 == opt_str_field(1, cv.service),
            q2 == opt_str_field(2, cv.procedure),
            out@ == orig + fields_enc(q1 + q2)
                + fields_enc(args_fields(arg_views(c.arguments@.subrange(0, i as int)))),
        decreases c.arguments@.len() - i,
    {
        let ghost pre = c.arguments@.subrange(0, i as int);
        let mut ab: Vec<u8> = Vec::new();
        encode_argument(&mut ab, &c.arguments[i]);
        encode_field_len(out, 3, &ab);
        proof {
            let a = c.arguments@[i as int];
            assert(c.arguments@.subrange(0, i + 1) =~= pre.push(a));
            lemma_arg_views(pre);
            lemma_arg_views(pre.push(a));
            assert(arg_views(pre.push(a)) =~= arg_views(pre).push(a@));
            lemma_args_fields(arg_views(pre));
            lemma_args_fields(arg_views(pre).push(a@));
            let lhs = args_fields(arg_views(pre).push(a@));
            let rhs = args_fields(arg_views(pre)) + seq![GField::Len(3u32, enc_argument(a@))];
            assert forall|j: int| 0 <= j < lhs.len() implies lhs[j] == rhs[j] by {
                if j < pre.len() {
                    assert(arg_views(pre).push(a@)[j] == arg_views(pre)[j]);
                } else {
                    assert(arg_views(pre).push(a@)[j] == a@);
                }
            };
            assert(args_fields(arg_views(pre).push(a@))
                =~= args_fields(arg_views(pre)) + seq![GField::Len(3u32, enc_argument(a@))]);
            lemma_fields_enc_concat(args_fields(arg_views(pre)),
                seq![GField::Len(3u32, enc_argument(a@))]);
            lemma_fields_enc_single(GField::Len(3u32, enc_argument(a@)));
            assert(out@ =~= orig + fields_enc(q1 + q2)
                + fields_enc(args_fields(arg_views(c.arguments@.subrange(0, i + 1)))));
        }
        i = i + 1;
    }
    encode_opt_varint_field(out, 4, c.service_id as u64);
    encode_opt_varint_field(out, 5, c.procedure_id as u64);
    proof {
        let q3 = args_fields(cv.arguments);
        let q4 = opt_varint_field(4, cv.service_id as u64);
        let q5 = opt_varint_field(5, cv.procedure_id as u64);
        assert(c.arguments@.subrange(0, c.arguments@.len() as int) =~= c.arguments@);
        lemma_fields_enc_concat(q1 + q2, q3);
        lemma_fields_enc_concat((q1 + q2) + q3, q4);
        lemma_fields_enc_concat(((q1 + q2) + q3) + q4, q5);
        assert(pc_fields(cv) == (((q1 + q2) + q3) + q4) + q5);
        assert(out@ =~= orig + enc_pc(cv));
    }
}

/// Decodes a procedure call: succeeds exactly on buffers that mean one.
pub fn decode_pc(buf: &Vec<u8>) -> (r: Result<ProcedureCall, RpcError>)
    ensures
        r matches Ok(m) ==> spec_decode_pc(buf@) == Some(m@),
        r is Err ==> spec_decode_pc(buf@) is None,
        r matches Err(e) ==> e is Encoding,
{
    let fields = match decode_fields(buf) {
        Ok(fs) => fs,
        Err(e) => {
            return Err(e);
        },
    };
    let ghost fvs = wire_views(fields@);
    proof {
        lemma_wire_views(fields@);
    }
    let mut m = ProcedureCall {
        service: String::new(),
        procedure: String::new(),
        arguments: Vec::new(),
        service_id: 0,
        procedure_id: 0,
    };
    let mut i: usize = 0;
    proof {
        assert(fvs.skip(0) =~= fvs);
        assert(arg_views(m.arguments@) =~= Seq::<ArgumentV>::empty());
        assert(m@ =~= pc_default());
    }
    while i < fields.len()
        invariant
            i <= fields@.len(),
            fvs == wire_views(fields@),
            spec_parse_fields(buf@) == Some(fvs),
            fvs.len() == fields@.len(),
            forall|j: int| 0 <= j < fields@.len() ==> fvs[j] == fields@[j]@,
            pc_fold(fvs, pc_default()) == pc_fold(fvs.skip(i as int), m@),
        decreases fields@.len() - i,
    {
        let ghost cur = m@;
        proof {
            assert(fvs.skip(i as int)[0] == fvs[i as int]);
            assert(fvs.skip(i as int).drop_first() =~= fvs.skip(i + 1));
        }
        match &fields[i] {
            WireField::Len(n, p) => {
                if *n == 1 || *n == 2 {
                    let s = match string_from_utf8(clone_bytes(p)) {
                        Some(s) => s,
                        None => {
                            proof {
                                assert(pc_apply(cur, fvs[i as int]) is None);
                                assert(pc_fold(fvs, pc_default()) is None);
                            }
                            return Err(RpcError::Encoding("invalid UTF-8 in field".to_owned()));
                        },
                    };
                    if *n == 1 {
                        m.service = s;
                    } else {
                        m.procedure = s;
                    }
                } else if *n == 3 {
                    let a = match decode_argument(p) {
                        Ok(a) => a,
                        Err(e) => {
                            proof {
                                assert(pc_apply(cur, fvs[i as int]) is None);
                                assert(pc_fold(fvs, pc_default()) is None);
                            }
                            return Err(e);
                        },
                    };
                    let ghost old_args = m.arguments@;
                    m.arguments.push(a);
                    proof {
                        lemma_arg_views(old_args);
                        lemma_arg_views(old_args.push(a));
                        assert(arg_views(old_args.push(a)) =~= arg_views(old_args).push(a@));
                    }
                }
            },
            WireField::Varint(n, v) => {
                if *n == 4 || *n == 5 {
                    if *v > u32::MAX as u64 {
                        proof {
                            assert(pc_apply(cur, fvs[i as int]) is None);
                            assert(pc_fold(fvs, pc_default()) is None);
                        }
                        return Err(RpcError::Encoding("field value out of range".to_owned()));
                    }
                    if *n == 4 {
                        m.service_id = *v as u32;
                    } else {
                        m.procedure_id = *v as u32;
                    }
                }
            },
            _ => {},
        }
        proof {
            assert(pc_apply(cur, fvs[i as int]) == Some(m@));
        }
        i = i + 1;
    }
    proof {
        assert(fvs.skip(i as int).len() == 0);
    }
    Ok(m)
}

/// A request: the calls to perform. The client issues single-call
/// requests.
pub struct Request {
    pub calls: Vec<ProcedureCall>,
}

#[verifier::ext_equal]
pub struct RequestV {
    pub calls: Seq<ProcedureCallV>,
}

/// The views of a run of procedure calls.
pub open spec fn pc_views(s: Seq<ProcedureCall>) -> Seq<ProcedureCallV>
    decreases s.len(),
{
    if s.len() == 0 {
        Seq::empty()
    } else {
        seq![s[0]@] + pc_views(s.drop_first())
    }
}

pub proof fn lemma_pc_views(s: Seq<ProcedureCall>)
    ensures
        pc_views(s).len() == s.len(),
        forall|i: int| 0 <= i < s.len() ==> pc_views(s)[i] == s[i]@,
    decreases s.len(),
{
    if s.len() > 0 {
        lemma_pc_views(s.drop_first());
        assert(forall|i: int| 1 <= i < s.len()
            ==> pc_views(s)[i] == pc_views(s.drop_first())[i - 1]);
    }
}

impl View for Request {
    type V = RequestV;

    open spec fn view(&self) -> RequestV {
        RequestV { calls: pc_views(self.calls@) }
    }
}

/// One length-prefixed field, numbered 1, per call, in order.
pub open spec fn calls_fields(calls: Seq<ProcedureCallV>) -> Seq<GField>
    decreases calls.len(),
{
    if calls.len() == 0 {
        Seq::<GField>::empty()
    } else {
        seq![GField::Len(1u32, enc_pc(calls[0]))] + calls_fields(calls.drop_first())
    }
}

pub proof fn lemma_calls_fields(calls: Seq<ProcedureCallV>)
    ensures
        calls_fields(calls).len() == calls.len(),
        forall|i: int| 0 <= i < calls.len()
            ==> calls_fields(calls)[i] == GField::Len(1u32, enc_pc(#[trigger] calls[i])),
    decreases calls.len(),
{
    if calls.len() > 0 {
        lemma_calls_fields(calls.drop_first());
        assert forall|i: int| 0 <= i < calls.len() implies calls_fields(calls)[i]
            == GField::Len(1u32, enc_pc(#[trigger] calls[i])) by {
            if i > 0 {
                assert(calls_fields(calls)[i] == calls_fields(calls.drop_first())[i - 1]);
                assert(calls.drop_first()[i - 1] == calls[i]);
            }
        };
    }
}

pub open spec fn enc_request(r: RequestV) -> Seq<u8> {
    fields_enc(calls_fields(r.calls))
}

pub open spec fn request_wf(r: RequestV) -> bool {
    forall|i: int| 0 <= i < r.calls.len() ==> {
        &&& pc_wf(#[trigger] r.calls[i])
        &&& enc_pc(r.calls[i]).len() <= u64::MAX
    }
}

pub open spec fn request_apply(r: RequestV, f: GField) -> Option<RequestV> {
    match f {
        GField::Len(1u32, p) => match spec_decode_pc(p) {
            Some(c) => Some(RequestV { calls: r.calls.push(c) }),
            None => None,
        },
        _ => Some(r),
    }
}

pub open spec fn request_fold(fs: Seq<GField>, acc: RequestV) -> Option<RequestV>
    decreases fs.len(),
{
    if fs.len() == 0 {
        Some(acc)
    } else {
        match request_apply(acc, fs[0]) {
            None => None,
            Some(a2) => request_fold(fs.drop_first(), a2),
        }
    }
}

/// What a buffer means as a request, if anything.
pub open spec fn spec_decode_request(s: Seq<u8>) -> Option<RequestV> {
    match spec_parse_fields(s) {
        None => None,
        Some(fs) => request_fold(fs, RequestV { calls: Seq::empty() }),
    }
}

proof fn lemma_request_fold_calls(calls: Seq<ProcedureCallV>, acc: RequestV)
    requires
        forall|i: int| 0 <= i < calls.len() ==> {
            &&& pc_wf(#[trigger] calls[i])
            &&& enc_pc(calls[i]).len() <= u64::MAX
        },
    ensures
        request_fold(calls_fields(calls), acc) == Some(RequestV { calls: acc.calls + calls }),
    decreases calls.len(),
{
    if calls.len() == 0 {
        assert(acc.calls + calls =~= acc.calls);
        assert(RequestV { calls: acc.calls + calls } =~= acc);
    } else {
        let c0 = calls[0];
        let f0 = GField::Len(1u32, enc_pc(c0));
        let fs = calls_fields(calls);
        assert(fs[0] == f0);
        assert(fs.drop_first() =~= calls_fields(calls.drop_first()));
        lemma_pc_roundtrip(c0);
        let acc1 = RequestV { calls: acc.calls.push(c0) };
        assert(request_apply(acc, f0) == Some(acc1));
        assert(request_fold(fs, acc) == request_fold(calls_fields(calls.drop_first()), acc1));
        assert(forall|i: int| 0 <= i < calls.drop_first().len()
            ==> calls.drop_first()[i] == calls[i + 1]);
        lemma_request_fold_calls(calls.drop_first(), acc1);
        assert(acc.calls.push(c0) + calls.drop_first() =~= acc.calls + calls);
    }
}

/// Decoding inverts encoding for requests.
pub proof fn lemma_request_roundtrip(r: RequestV)
    requires
        request_wf(r),
    ensures
        spec_decode_request(enc_request(r)) == Some(r),
{
    let fs = calls_fields(r.calls);
    lemma_calls_fields(r.calls);
    assert forall|i: int| 0 <= i < fs.len() implies field_valid(#[trigger] fs[i]) by {
        assert(fs[i] == GField::Len(1u32, enc_pc(r.calls[i])));
    };
    lemma_parse_fields_enc(fs);
    let d = RequestV { calls: Seq::empty() };
    lemma_request_fold_calls(r.calls, d);
    assert(d.calls + r.calls =~= r.calls);
    assert(RequestV { calls: d.calls + r.calls } =~= r);
}

/// Appends the canonical encoding of a request.
pub fn encode_request(out: &mut Vec<u8>, r: &Request)
    ensures
        final(out)@ == old(out)@ + enc_request(r@),
{
    let ghost orig = out@;
    let mut i: usize = 0;
    proof {
        lemma_pc_views(r.calls@);
        assert(r.calls@.subrange(0, 0) =~= Seq::<ProcedureCall>::empty());
        assert(calls_fields(pc_views(r.calls@.subrange(0, 0))).len() == 0);
        assert(out@ =~= orig + fields_enc(calls_fields(pc_views(r.calls@.subrange(0, 0)))));
    }
    while i < r.calls.len()
        invariant
            i <= r.calls@.len(),
            out@ == orig + fields_enc(calls_fields(pc_views(r.calls@.subrange(0, i as int)))),
        decreases r.calls@.len() - i,
    {
        let ghost pre = r.calls@.subrange(0, i as int);
        let mut cb: Vec<u8> = Vec::new();
        encode_pc(&mut cb, &r.calls[i]);
        encode_field_len(out, 1, &cb);
        proof {
            let c = r.calls@[i as int];
            assert(r.calls@.subrange(0, i + 1) =~= pre.push(c));
            lemma_pc_views(pre);
            lemma_pc_views(pre.push(c));
            assert(pc_views(pre.push(c)) =~= pc_views(pre).push(c@));
            lemma_calls_fields(pc_views(pre));
            lemma_calls_fields(pc_views(pre).push(c@));
            let lhs = calls_fields(pc_views(pre).push(c@));
            let rhs = calls_fields(pc_views(pre)) + seq![GField::Len(1u32, enc_pc(c@))];
            assert forall|j: int| 0 <= j < lhs.len() implies lhs[j] == rhs[j] by {
                if j < pre.len() {
                    assert(pc_views(pre).push(c@)[j] == pc_views(pre)[j]);
                } else {
                    assert(pc_views(pre).push(c@)[j] == c@);
                }
            };
            assert(calls_fields(pc_views(pre).push(c@))
                =~= calls_fields(pc_views(pre)) + seq![GField::Len(1u32, enc_pc(c@))]);
            lemma_fields_enc_concat(calls_fields(pc_views(pre)),
                seq![GField::Len(1u32, enc_pc(c@))]);
            lemma_fields_enc_single(GField::Len(1u32, enc_pc(c@)));
            assert(out@ =~= orig
                + fields_enc(calls_fields(pc_views(r.calls@.subrange(0, i + 1)))));
        }
        i = i + 1;
    }
    proof {
        assert(r.calls@.subrange(0, r.calls@.len() as int) =~= r.calls@);
    }
}

/// Decodes a request: succeeds exactly on buffers that mean one.
pub fn decode_request(buf: &Vec<u8>) -> (r: Result<Request, RpcError>)
    ensures
        r matches Ok(m) ==> spec_decode_request(buf@) == Some(m@),
        r is Err ==> spec_decode_request(buf@) is None,
        r matches Err(e) ==> e is Encoding,
{
    let fields = match decode_fields(buf) {
        Ok(fs) => fs,
        Err(e) => {
            return Err(e);
        },
    };
    let ghost fvs = wire_views(fields@);
    proof {
        lemma_wire_views(fields@);
    }
    let mut m = Request { calls: Vec::new() };
    let mut i: usize = 0;
    proof {
        assert(fvs.skip(0) =~= fvs);
        assert(pc_views(m.calls@) =~= Seq::<ProcedureCallV>::empty());
        assert(m@ =~= RequestV { calls: Seq::empty() });
    }
    while i < fields.len()
        invariant
            i <= fields@.len(),
            fvs == wire_views(fields@),
            spec_parse_fields(buf@) == Some(fvs),
            fvs.len() == fields@.len(),
            forall|j: int| 0 <= j < fields@.len() ==> fvs[j] == fields@[j]@,
            request_fold(fvs, RequestV { calls: Seq::empty() })
                == request_fold(fvs.skip(i as int), m@),
        decreases fields@.len() - i,
    {
        let ghost cur = m@;
        proof {
            assert(fvs.skip(i as int)[0] == fvs[i as int]);
            assert(fvs.skip(i as int).drop_first() =~= fvs.skip(i + 1));
        }
        match &fields[i] {
            WireField::Len(n, p) => {
                if *n == 1 {
                    let c = match decode_pc(p) {
                        Ok(c) => c,
                        Err(e) => {
                            proof {
                                assert(request_apply(cur, fvs[i as int]) is None);
                                assert(request_fold(fvs, RequestV { calls: Seq::empty() })
                                    is None);
                            }
                            return Err(e);
                        },
                    };
                    let ghost old_calls = m.calls@;
                    m.calls.push(c);
                    proof {
                        lemma_pc_views(old_calls);
                        lemma_pc_views(old_calls.push(c));
                        assert(pc_views(old_calls.push(c)) =~= pc_views(old_calls).push(c@));
                    }
                }
            },
            _ => {},
        }
        proof {
            assert(request_apply(cur, fvs[i as int]) == Some(m@));
        }
        i = i + 1;
    }
    proof {
        assert(fvs.skip(i as int).len() == 0);
    }
    Ok(m)
}


/// A bytes-valued field, omitted when empty.
pub open spec fn opt_bytes_field(num: u32, b: Seq<u8>) -> Seq<GField> {
    if b.len() == 0 {
        Seq::<GField>::empty()
    } else {
        seq![GField::Len(num, b)]
    }
}

/// Appends a bytes field, omitted when empty.
fn encode_opt_bytes_field(out: &mut Vec<u8>, num: u32, b: &Vec<u8>)
    requires
        1 <= num <= 0x1FFFFFFF,
    ensures
        final(out)@ == old(out)@ + fields_enc(opt_bytes_field(num, b@)),
{
    let ghost orig = out@;
    if b.len() > 0 {
        encode_field_len(out, num, b);
        proof {
            assert(opt_bytes_field(num, b@) =~= seq![GField::Len(num, b@)]);
            lemma_fields_enc_single(GField::Len(num, b@));
            assert(out@ =~= orig + fields_enc(opt_bytes_field(num, b@)));
        }
    } else {
        proof {
            assert(opt_bytes_field(num, b@) =~= Seq::<GField>::empty());
            assert(out@ =~= orig + fields_enc(opt_bytes_field(num, b@)));
        }
    }
}

/// A response: the server's error, if the whole request failed, and one
/// result per call.
pub struct Response {
    pub error: Option<ErrorMsg>,
    pub results: Vec<ProcedureResult>,
}

#[verifier::ext_equal]
pub struct ResponseV {
    pub error: Option<ErrorMsgV>,
    pub results: Seq<ProcedureResultV>,
}

/// The views of a run of procedure results.
pub open spec fn pr_views(s: Seq<ProcedureResult>) -> Seq<ProcedureResultV>
    decreases s.len(),
{
    if s.len() == 0 {
        Seq::empty()
    } else {
        seq![s[0]@] + pr_views(s.drop_first())
    }
}

pub proof fn lemma_pr_views(s: Seq<ProcedureResult>)
    ensures
        pr_views(s).len() == s.len(),
        forall|i: int| 0 <= i < s.len() ==> pr_views(s)[i] == s[i]@,
    decreases s.len(),
{
    if s.len() > 0 {
        lemma_pr_views(s.drop_first());
        assert(forall|i: int| 1 <= i < s.len()
            ==> pr_views(s)[i] == pr_views(s.drop_first())[i - 1]);
    }
}

impl View for Response {
    type V = ResponseV;

    open spec fn view(&self) -> ResponseV {
        ResponseV {
            error: match self.error {
                Some(e) => Some(e@),
                None => None,
            },
            results: pr_views(self.results@),
        }
    }
}

pub open spec fn response_default() -> ResponseV {
    ResponseV { error: None, results: Seq::empty() }
}

/// One length-prefixed field, numbered 2, per result, in order.
pub open spec fn results_fields(rs: Seq<ProcedureResultV>) -> Seq<GField>
    decreases rs.len(),
{
    if rs.len() == 0 {
        Seq::<GField>::empty()
    } else {
        seq![GField::Len(2u32, enc_pr(rs[0]))] + results_fields(rs.drop_first())
    }
}

pub proof fn lemma_results_fields(rs: Seq<ProcedureResultV>)
    ensures
        results_fields(rs).len() == rs.len(),
        forall|i: int| 0 <= i < rs.len()
            ==> results_fields(rs)[i] == GField::Len(2u32, enc_pr(#[trigger] rs[i])),
    decreases rs.len(),
{
    if rs.len() > 0 {
        lemma_results_fields(rs.drop_first());
        assert forall|i: int| 0 <= i < rs.len() implies results_fields(rs)[i]
            == GField::Len(2u32, enc_pr(#[trigger] rs[i])) by {
            if i > 0 {
                assert(results_fields(rs)[i] == results_fields(rs.drop_first())[i - 1]);
                assert(rs.drop_first()[i - 1] == rs[i]);
            }
        };
    }
}

/// Canonical fields: error 1, results 2, defaults omitted.
pub open spec fn response_fields(r: ResponseV) -> Seq<GField> {
    (match r.error {
        Some(e) => seq![GField::Len(1u32, enc_error(e))],
        None => Seq::<GField>::empty(),
    }) + results_fields(r.results)
}

pub open spec fn enc_response(r: ResponseV) -> Seq<u8> {
    fields_enc(response_fields(r))
}

pub open spec fn response_wf(r: ResponseV) -> bool {
    &&& (r.error matches Some(e) ==> error_wf(e) && enc_error(e).len() <= u64::MAX)
    &&& forall|i: int| 0 <= i < r.results.len() ==> {
        &&& pr_wf(#[trigger] r.results[i])
        &&& enc_pr(r.results[i]).len() <= u64::MAX
    }
}

pub open spec fn response_apply(r: ResponseV, f: GField) -> Option<ResponseV> {
    match f {
        GField::Len(1u32, p) => match spec_decode_error(p) {
            Some(e) => Some(ResponseV { error: Some(e), results: r.results }),
            None => None,
        },
        GField::Len(2u32, p) => match spec_decode_pr(p) {
            Some(pr) => Some(ResponseV { error: r.error, results: r.results.push(pr) }),
            None => None,
        },
        _ => Some(r),
    }
}

pub open spec fn response_fold(fs: Seq<GField>, acc: ResponseV) -> Option<ResponseV>
    decreases fs.len(),
{
    if fs.len() == 0 {
        Some(acc)
    } else {
        match response_apply(acc, fs[0]) {
            None => None,
            Some(a2) => response_fold(fs.drop_first(), a2),
        }
    }
}

/// What a buffer means as a response, if anything.
pub open spec fn spec_decode_response(s: Seq<u8>) -> Option<ResponseV> {
    match spec_parse_fields(s) {
        None => None,
        Some(fs) => response_fold(fs, response_default()),
    }
}

proof fn lemma_response_fold_append(x: Seq<GField>, y: Seq<GField>, acc: ResponseV)
    ensures
        response_fold(x + y, acc) == (match response_fold(x, acc) {
            None => None::<ResponseV>,
            Some(m) => response_fold(y, m),
        }),
    decreases x.len(),
{
    if x.len() == 0 {
        assert(x + y =~= y);
    } else {
        assert((x + y)[0] == x[0]);
        assert((x + y).drop_first() =~= x.drop_first() + y);
        match response_apply(acc, x[0]) {
            None => {},
            Some(a2) => {
                lemma_response_fold_append(x.drop_first(), y, a2);
            },
        }
    }
}

proof fn lemma_response_fold_results(rs: Seq<ProcedureResultV>, acc: ResponseV)
    requires
        forall|i: int| 0 <= i < rs.len() ==> {
            &&& pr_wf(#[trigger] rs[i])
            &&& enc_pr(rs[i]).len() <= u64::MAX
        },
    ensures
        response_fold(results_fields(rs), acc)
            == Some(ResponseV { error: acc.error, results: acc.results + rs }),
    decreases rs.len(),
{
    if rs.len() == 0 {
        assert(acc.results + rs =~= acc.results);
        assert(ResponseV { error: acc.error, results: acc.results + rs } =~= acc);
    } else {
        let r0 = rs[0];
        let f0 = GField::Len(2u32, enc_pr(r0));
        let fs = results_fields(rs);
        assert(fs[0] == f0);
        assert(fs.drop_first() =~= results_fields(rs.drop_first()));
        lemma_pr_roundtrip(r0);
        let acc1 = ResponseV { error: acc.error, results: acc.results.push(r0) };
        assert(response_apply(acc, f0) == Some(acc1));
        assert(response_fold(fs, acc)
            == response_fold(results_fields(rs.drop_first()), acc1));
        assert(forall|i: int| 0 <= i < rs.drop_first().len()
            ==> rs.drop_first()[i] == rs[i + 1]);
        lemma_response_fold_results(rs.drop_first(), acc1);
        assert(acc.results.push(r0) + rs.drop_first() =~= acc.results + rs);
    }
}

/// Decoding inverts encoding for responses.
pub proof fn lemma_response_roundtrip(r: ResponseV)
    requires
        response_wf(r),
    ensures
        spec_decode_response(enc_response(r)) == Some(r),
{
    let p1 = match r.error {
        Some(e) => seq![GField::Len(1u32, enc_error(e))],
        None => Seq::<GField>::empty(),
    };
    let p2 = results_fields(r.results);
    let fs = response_fields(r);
    assert(fs == p1 + p2);
    lemma_results_fields(r.results);
    assert forall|i: int| 0 <= i < fs.len() implies field_valid(#[trigger] fs[i]) by {
        if i < p1.len() {
            assert(fs[i] == p1[i]);
        } else {
            assert(fs[i] == p2[i - p1.len()]);
            assert(p2[i - p1.len()] == GField::Len(2u32, enc_pr(r.results[i - p1.len()])));
        }
    };
    lemma_parse_fields_enc(fs);
    let d = response_default();
    let m1 = ResponseV { error: r.error, results: d.results };
    assert(response_fold(p1, d) == Some(m1)) by {
        match r.error {
            Some(e) => {
                lemma_error_roundtrip(e);
                assert(p1[0] == GField::Len(1u32, enc_error(e)));
                assert(p1.drop_first() =~= Seq::<GField>::empty());
                assert(response_apply(d, p1[0]) == Some(m1));
                assert(response_fold(p1, d) == response_fold(p1.drop_first(), m1));
            },
            None => {
                assert(p1.len() == 0);
                assert(m1 =~= d);
            },
        }
    };
    lemma_response_fold_results(r.results, m1);
    lemma_response_fold_append(p1, p2, d);
    assert(m1.results + r.results =~= r.results);
    assert(ResponseV { error: m1.error, results: m1.results + r.results } =~= r);
}

/// Appends the canonical encoding of a response.
pub fn encode_response(out: &mut Vec<u8>, r: &Response)
    ensures
        final(out)@ == old(out)@ + enc_response(r@),
{
    let ghost orig = out@;
    let ghost rv = r@;
    let ghost p1 = match rv.error {
        Some(e) => seq![GField::Len(1u32, enc_error(e))],
        None => Seq::<GField>::empty(),
    };
    match &r.error {
        Some(e) => {
            let mut eb: Vec<u8> = Vec::new();
            encode_error(&mut eb, e);
            encode_field_len(out, 1, &eb);
            proof {
                lemma_fields_enc_single(GField::Len(1u32, enc_error(e@)));
                assert(out@ =~= orig + fields_enc(p1));
            }
        },
        None => {
            proof {
                assert(out@ =~= orig + fields_enc(p1));
            }
        },
    }
    let mut i: usize = 0;
    proof {
        lemma_pr_views(r.results@);
        assert(r.results@.subrange(0, 0) =~= Seq::<ProcedureResult>::empty());
        assert(results_fields(pr_views(r.results@.subrange(0, 0))).len() == 0);
        assert(out@ =~= orig + fields_enc(p1)
            + fields_enc(results_fields(pr_views(r.results@.subrange(0, 0)))));
    }
    while i < r.results.len()
        invariant
            i <= r.results@.len(),
            rv == r@,
            p1 == (match rv.error {
                Some(e) => seq![GField::Len(1u32, enc_error(e))],
                None => Seq::<GField>::empty(),
            }),
            out@ == orig + fields_enc(p1)
                + fields_enc(results_fields(pr_views(r.results@.subrange(0, i as int)))),
        decreases r.results@.len() - i,
    {
        let ghost pre = r.results@.subrange(0, i as int);
        let mut rb: Vec<u8> = Vec::new();
        encode_pr(&mut rb, &r.results[i]);
        encode_field_len(out, 2, &rb);
        proof {
            let x = r.results@[i as int];
            assert(r.results@.subrange(0, i + 1) =~= pre.push(x));
            lemma_pr_views(pre);
            lemma_pr_views(pre.push(x));
            assert(pr_views(pre.push(x)) =~= pr_views(pre).push(x@));
            lemma_results_fields(pr_views(pre));
            lemma_results_fields(pr_views(pre).push(x@));
            let lhs = results_fields(pr_views(pre).push(x@));
            let rhs = results_fields(pr_views(pre)) + seq![GField::Len(2u32, enc_pr(x@))];
            assert forall|j: int| 0 <= j < lhs.len() implies lhs[j] == rhs[j] by {
                if j < pre.len() {
                    assert(pr_views(pre).push(x@)[j] == pr_views(pre)[j]);
                } else {
                    assert(pr_views(pre).push(x@)[j] == x@);
                }
            };
            assert(lhs =~= rhs);
            lemma_fields_enc_concat(results_fields(pr_views(pre)),
                seq![GField::Len(2u32, enc_pr(x@))]);
            lemma_fields_enc_single(GField::Len(2u32, enc_pr(x@)));
            assert(out@ =~= orig + fields_enc(p1)
                + fields_enc(results_fields(pr_views(r.results@.subrange(0, i + 1)))));
        }
        i = i + 1;
    }
    proof {
        assert(r.results@.subrange(0, r.results@.len() as int) =~= r.results@);
        lemma_fields_enc_concat(p1, results_fields(pr_views(r.results@)));
        assert(response_fields(rv) == p1 + results_fields(rv.results));
        assert(out@ =~= orig + enc_response(rv));
    }
}

/// Decodes a response: succeeds exactly on buffers that mean one.
pub fn decode_response(buf: &Vec<u8>) -> (r: Result<Response, RpcError>)
    ensures
        r matches Ok(m) ==> spec_decode_response(buf@) == Some(m@),
        r is Err ==> spec_decode_response(buf@) is None,
        r matches Err(e) ==> e is Encoding,
{
    let fields = match decode_fields(buf) {
        Ok(fs) => fs,
        Err(e) => {
            return Err(e);
        },
    };
    let ghost fvs = wire_views(fields@);
    proof {
        lemma_wire_views(fields@);
    }
    let mut m = Response { error: None, results: Vec::new() };
    let mut i: usize = 0;
    proof {
        assert(fvs.skip(0) =~= fvs);
        assert(pr_views(m.results@) =~= Seq::<ProcedureResultV>::empty());
        assert(m@ =~= response_default());
    }
    while i < fields.len()
        invariant
            i <= fields@.len(),
            fvs == wire_views(fields@),
            spec_parse_fields(buf@) == Some(fvs),
            fvs.len() == fields@.len(),
            forall|j: int| 0 <= j < fields@.len() ==> fvs[j] == fields@[j]@,
            response_fold(fvs, response_default()) == response_fold(fvs.skip(i as int), m@),
        decreases fields@.len() - i,
    {
        let ghost cur = m@;
        proof {
            assert(fvs.skip(i as int)[0] == fvs[i as int]);
            assert(fvs.skip(i as int).drop_first() =~= fvs.skip(i + 1));
        }
        match &fields[i] {
            WireField::Len(n, p) => {
                if *n == 1 {
                    let e = match decode_error(p) {
                        Ok(e) => e,
                        Err(e) => {
                            proof {
                                assert(response_apply(cur, fvs[i as int]) is None);
                                assert(response_fold(fvs, response_default()) is None);
                            }
                            return Err(e);
                        },
                    };
                    m.error = Some(e);
                } else if *n == 2 {
                    let pr = match decode_pr(p) {
                        Ok(pr) => pr,
                        Err(e) => {
                            proof {
                                assert(response_apply(cur, fvs[i as int]) is None);
                                assert(response_fold(fvs, response_default()) is None);
                            }
                            return Err(e);
                        },
                    };
                    let ghost old_rs = m.results@;
                    m.results.push(pr);
                    proof {
                        lemma_pr_views(old_rs);
                        lemma_pr_views(old_rs.push(pr));
                        assert(pr_views(old_rs.push(pr)) =~= pr_views(old_rs).push(pr@));
                    }
                }
            },
            _ => {},
        }
        proof {
            assert(response_apply(cur, fvs[i as int]) == Some(m@));
        }
        i = i + 1;
    }
    proof {
        assert(fvs.skip(i as int).len() == 0);
    }
    Ok(m)
}

/// One entry of a stream update: the stream's id and its newest result.
pub struct StreamResult {
    pub id: u64,
    pub result: Option<ProcedureResult>,
}

#[verifier::ext_equal]
pub struct StreamResultV {
    pub id: u64,
    pub result: Option<ProcedureResultV>,
}

impl View for StreamResult {
    type V = StreamResultV;

    open spec fn view(&self) -> StreamResultV {
        StreamResultV {
            id: self.id,
            result: match self.result {
                Some(p) => Some(p@),
                None => None,
            },
        }
    }
}

pub open spec fn sr_default() -> StreamResultV {
    StreamResultV { id: 0, result: None }
}

/// Canonical fields: id 1, result 2, defaults omitted.
pub open spec fn sr_fields(s: StreamResultV) -> Seq<GField> {
    opt_varint_field(1, s.id) + (match s.result {
        Some(p) => seq![GField::Len(2u32, enc_pr(p))],
        None => Seq::<GField>::empty(),
    })
}

pub open spec fn enc_sr(s: StreamResultV) -> Seq<u8> {
    fields_enc(sr_fields(s))
}

pub open spec fn sr_wf(s: StreamResultV) -> bool {
    s.result matches Some(p) ==> pr_wf(p) && enc_pr(p).len() <= u64::MAX
}

pub open spec fn sr_apply(s: StreamResultV, f: GField) -> Option<StreamResultV> {
    match f {
        GField::Varint(1u32, v) => Some(StreamResultV { id: v, result: s.result }),
        GField::Len(2u32, p) => match spec_decode_pr(p) {
            Some(pr) => Some(StreamResultV { id: s.id, result: Some(pr) }),
            None => None,
        },
        _ => Some(s),
    }
}

pub open spec fn sr_fold(fs: Seq<GField>, acc: StreamResultV) -> Option<StreamResultV>
    decreases fs.len(),
{
    if fs.len() == 0 {
        Some(acc)
    } else {
        match sr_apply(acc, fs[0]) {
            None => None,
            Some(a2) => sr_fold(fs.drop_first(), a2),
        }
    }
}

/// What a buffer means as a stream result, if anything.
pub open spec fn spec_decode_sr(s: Seq<u8>) -> Option<StreamResultV> {
    match spec_parse_fields(s) {
        None => None,
        Some(fs) => sr_fold(fs, sr_default()),
    }
}

proof fn lemma_sr_fold_append(x: Seq<GField>, y: Seq<GField>, acc: StreamResultV)
    ensures
        sr_fold(x + y, acc) == (match sr_fold(x, acc) {
            None => None::<StreamResultV>,
            Some(m) => sr_fold(y, m),
        }),
    decreases x.len(),
{
    if x.len() == 0 {
        assert(x + y =~= y);
    } else {
        assert((x + y)[0] == x[0]);
        assert((x + y).drop_first() =~= x.drop_first() + y);
        match sr_apply(acc, x[0]) {
            None => {},
            Some(a2) => {
                lemma_sr_fold_append(x.drop_first(), y, a2);
            },
        }
    }
}

/// Decoding inverts encoding for stream results.
pub proof fn lemma_sr_roundtrip(s: StreamResultV)
    requires
        sr_wf(s),
    ensures
        spec_decode_sr(enc_sr(s)) == Some(s),
{
    let p1 = opt_varint_field(1, s.id);
    let p2 = match s.result {
        Some(p) => seq![GField::Len(2u32, enc_pr(p))],
        None => Seq::<GField>::empty(),
    };
    let fs = sr_fields(s);
    assert(fs == p1 + p2);
    assert forall|i: int| 0 <= i < fs.len() implies field_valid(#[trigger] fs[i]) by {
        if i < p1.len() {
            assert(fs[i] == p1[i]);
            assert(p1[0] == GField::Varint(1u32, s.id));
        } else {
            assert(fs[i] == p2[i - p1.len()]);
        }
    };
    lemma_parse_fields_enc(fs);
    let d = sr_default();
    let m1 = StreamResultV { id: s.id, result: d.result };
    assert(sr_fold(p1, d) == Some(m1)) by {
        if s.id == 0 {
            assert(p1.len() == 0);
            assert(m1 =~= d);
        } else {
            assert(p1 =~= seq![GField::Varint(1u32, s.id)]);
            assert(p1[0] == GField::Varint(1u32, s.id));
            assert(p1.drop_first() =~= Seq::<GField>::empty());
            assert(sr_apply(d, p1[0]) == Some(m1));
            assert(sr_fold(p1, d) == sr_fold(p1.drop_first(), m1));
        }
    };
    let m2 = StreamResultV { id: s.id, result: s.result };
    assert(sr_fold(p2, m1) == Some(m2)) by {
        match s.result {
            Some(p) => {
                lemma_pr_roundtrip(p);
                assert(p2[0] == GField::Len(2u32, enc_pr(p)));
                assert(p2.drop_first() =~= Seq::<GField>::empty());
                assert(sr_apply(m1, p2[0]) == Some(m2));
                assert(sr_fold(p2, m1) == sr_fold(p2.drop_first(), m2));
            },
            None => {
                assert(p2.len() == 0);
                assert(m2 =~= m1);
            },
        }
    };
    lemma_sr_fold_append(p1, p2, d);
    assert(m2 =~= s);
}

/// Appends the canonical encoding of a stream result.
pub fn encode_sr(out: &mut Vec<u8>, s: &StreamResult)
    ensures
        final(out)@ == old(out)@ + enc_sr(s@),
{
    let ghost orig = out@;
    encode_opt_varint_field(out, 1, s.id);
    match &s.result {
        Some(p) => {
            let mut pb: Vec<u8> = Vec::new();
            encode_pr(&mut pb, p);
            encode_field_len(out, 2, &pb);
            proof {
                lemma_fields_enc_single(GField::Len(2u32, enc_pr(p@)));
            }
        },
        None => {},
    }
    proof {
        let sv = s@;
        let p1 = opt_varint_field(1, sv.id);
        let p2 = match sv.result {
            Some(p) => seq![GField::Len(2u32, enc_pr(p))],
            None => Seq::<GField>::empty(),
        };
        lemma_fields_enc_concat(p1, p2);
        assert(sr_fields(sv) == p1 + p2);
        assert(out@ =~= orig + enc_sr(sv));
    }
}

/// Decodes a stream result: succeeds exactly on buffers that mean one.
pub fn decode_sr(buf: &Vec<u8>) -> (r: Result<StreamResult, RpcError>)
    ensures
        r matches Ok(m) ==> spec_decode_sr(buf@) == Some(m@),
        r is Err ==> spec_decode_sr(buf@) is None,
        r matches Err(e) ==> e is Encoding,
{
    let fields = match decode_fields(buf) {
        Ok(fs) => fs,
        Err(e) => {
            return Err(e);
        },
    };
    let ghost fvs = wire_views(fields@);
    proof {
        lemma_wire_views(fields@);
    }
    let mut m = StreamResult { id: 0, result: None };
    let mut i: usize = 0;
    proof {
        assert(fvs.skip(0) =~= fvs);
        assert(m@ =~= sr_default());
    }
    while i < fields.len()
        invariant
            i <= fields@.len(),
            fvs == wire_views(fields@),
            spec_parse_fields(buf@) == Some(fvs),
            fvs.len() == fields@.len(),
            forall|j: int| 0 <= j < fields@.len() ==> fvs[j] == fields@[j]@,
            sr_fold(fvs, sr_default()) == sr_fold(fvs.skip(i as int), m@),
        decreases fields@.len() - i,
    {
        let ghost cur = m@;
        proof {
            assert(fvs.skip(i as int)[0] == fvs[i as int]);
            assert(fvs.skip(i as int).drop_first() =~= fvs.skip(i + 1));
        }
        match &fields[i] {
            WireField::Varint(n, v) => {
                if *n == 1 {
                    m.id = *v;
                }
            },
            WireField::Len(n, p) => {
                if *n == 2 {
                    let pr = match decode_pr(p) {
                        Ok(pr) => pr,
                        Err(e) => {
                            proof {
                                assert(sr_apply(cur, fvs[i as int]) is None);
                                assert(sr_fold(fvs, sr_default()) is None);
                            }
                            return Err(e);
                        },
                    };
                    m.result = Some(pr);
                }
            },
            _ => {},
        }
        proof {
            assert(sr_apply(cur, fvs[i as int]) == Some(m@));
        }
        i = i + 1;
    }
    proof {
        assert(fvs.skip(i as int).len() == 0);
    }
    Ok(m)
}

/// A stream update: the newest results the server pushes, one entry per
/// active stream.
pub struct StreamUpdate {
    pub results: Vec<StreamResult>,
}

#[verifier::ext_equal]
pub struct StreamUpdateV {
    pub results: Seq<StreamResultV>,
}

/// The views of a run of stream results.
pub open spec fn sr_views(s: Seq<StreamResult>) -> Seq<StreamResultV>
    decreases s.len(),
{
    if s.len() == 0 {
        Seq::empty()
    } else {
        seq![s[0]@] + sr_views(s.drop_first())
    }
}

pub proof fn lemma_sr_views(s: Seq<StreamResult>)
    ensures
        sr_views(s).len() == s.len(),
        forall|i: int| 0 <= i < s.len() ==> sr_views(s)[i] == s[i]@,
    decreases s.len(),
{
    if s.len() > 0 {
        lemma_sr_views(s.drop_first());
        assert(forall|i: int| 1 <= i < s.len()
            ==> sr_views(s)[i] == sr_views(s.drop_first())[i - 1]);
    }
}

impl View for StreamUpdate {
    type V = StreamUpdateV;

    open spec fn view(&self) -> StreamUpdateV {
        StreamUpdateV { results: sr_views(self.results@) }
    }
}

/// One length-prefixed field, numbered 1, per entry, in order.
pub open spec fn srs_fields(rs: Seq<StreamResultV>) -> Seq<GField>
    decreases rs.len(),
{
    if rs.len() == 0 {
        Seq::<GField>::empty()
    } else {
        seq![GField::Len(1u32, enc_sr(rs[0]))] + srs_fields(rs.drop_first())
    }
}

pub proof fn lemma_srs_fields(rs: Seq<StreamResultV>)
    ensures
        srs_fields(rs).len() == rs.len(),
        forall|i: int| 0 <= i < rs.len()
            ==> srs_fields(rs)[i] == GField::Len(1u32, enc_sr(#[trigger] rs[i])),
    decreases rs.len(),
{
    if rs.len() > 0 {
        lemma_srs_fields(rs.drop_first());
        assert forall|i: int| 0 <= i < rs.len() implies srs_fields(rs)[i]
            == GField::Len(1u32, enc_sr(#[trigger] rs[i])) by {
            if i > 0 {
                assert(srs_fields(rs)[i] == srs_fields(rs.drop_first())[i - 1]);
                assert(rs.drop_first()[i - 1] == rs[i]);
            }
        };
    }
}

pub open spec fn enc_stream_update(u: StreamUpdateV) -> Seq<u8> {
    fields_enc(srs_fields(u.results))
}

pub open spec fn stream_update_wf(u: StreamUpdateV) -> bool {
    forall|i: int| 0 <= i < u.results.len() ==> {
        &&& sr_wf(#[trigger] u.results[i])
        &&& enc_sr(u.results[i]).len() <= u64::MAX
    }
}

pub open spec fn stream_update_apply(u: StreamUpdateV, f: GField) -> Option<StreamUpdateV> {
    match f {
        GField::Len(1u32, p) => match spec_decode_sr(p) {
            Some(s) => Some(StreamUpdateV { results: u.results.push(s) }),
            None => None,
        },
        _ => Some(u),
    }
}

pub open spec fn stream_update_fold(fs: Seq<GField>, acc: StreamUpdateV)
    -> Option<StreamUpdateV>
    decreases fs.len(),
{
    if fs.len() == 0 {
        Some(acc)
    } else {
        match stream_update_apply(acc, fs[0]) {
            None => None,
            Some(a2) => stream_update_fold(fs.drop_first(), a2),
        }
    }
}

/// What a buffer means as a stream update, if anything.
pub open spec fn spec_decode_stream_update(s: Seq<u8>) -> Option<StreamUpdateV> {
    match spec_parse_fields(s) {
        None => None,
        Some(fs) => stream_update_fold(fs, StreamUpdateV { results: Seq::empty() }),
    }
}

proof fn lemma_stream_update_fold_results(rs: Seq<StreamResultV>, acc: StreamUpdateV)
    requires
        forall|i: int| 0 <= i < rs.len() ==> {
            &&& sr_wf(#[trigger] rs[i])
            &&& enc_sr(rs[i]).len() <= u64::MAX
        },
    ensures
        stream_update_fold(srs_fields(rs), acc)
            == Some(StreamUpdateV { results: acc.results + rs }),
    decreases rs.len(),
{
    if rs.len() == 0 {
        assert(acc.results + rs =~= acc.results);
        assert(StreamUpdateV { results: acc.results + rs } =~= acc);
    } else {
        let r0 = rs[0];
        let f0 = GField::Len(1u32, enc_sr(r0));
        let fs = srs_fields(rs);
        assert(fs[0] == f0);
        assert(fs.drop_first() =~= srs_fields(rs.drop_first()));
        lemma_sr_roundtrip(r0);
        let acc1 = StreamUpdateV { results: acc.results.push(r0) };
        assert(stream_update_apply(acc, f0) == Some(acc1));
        assert(stream_update_fold(fs, acc)
            == stream_update_fold(srs_fields(rs.drop_first()), acc1));
        assert(forall|i: int| 0 <= i < rs.drop_first().len()
            ==> rs.drop_first()[i] == rs[i + 1]);
        lemma_stream_update_fold_results(rs.drop_first(), acc1);
        assert(acc.results.push(r0) + rs.drop_first() =~= acc.results + rs);
    }
}

/// Decoding inverts encoding for stream updates.
pub proof fn lemma_stream_update_roundtrip(u: StreamUpdateV)
    requires
        stream_update_wf(u),
    ensures
        spec_decode_stream_update(enc_stream_update(u)) == Some(u),
{
    let fs = srs_fields(u.results);
    lemma_srs_fields(u.results);
    assert forall|i: int| 0 <= i < fs.len() implies field_valid(#[trigger] fs[i]) by {
        assert(fs[i] == GField::Len(1u32, enc_sr(u.results[i])));
    };
    lemma_parse_fields_enc(fs);
    let d = StreamUpdateV { results: Seq::empty() };
    lemma_stream_update_fold_results(u.results, d);
    assert(d.results + u.results =~= u.results);
    assert(StreamUpdateV { results: d.results + u.results } =~= u);
}

/// Appends the canonical encoding of a stream update.
pub fn encode_stream_update(out: &mut Vec<u8>, u: &StreamUpdate)
    ensures
        final(out)@ == old(out)@ + enc_stream_update(u@),
{
    let ghost orig = out@;
    let mut i: usize = 0;
    proof {
        lemma_sr_views(u.results@);
        assert(u.results@.subrange(0, 0) =~= Seq::<StreamResult>::empty());
        assert(srs_fields(sr_views(u.results@.subrange(0, 0))).len() == 0);
        assert(out@ =~= orig + fields_enc(srs_fields(sr_views(u.results@.subrange(0, 0)))));
    }
    while i < u.results.len()
        invariant
            i <= u.results@.len(),
            out@ == orig + fields_enc(srs_fields(sr_views(u.results@.subrange(0, i as int)))),
        decreases u.results@.len() - i,
    {
        let ghost pre = u.results@.subrange(0, i as int);
        let mut sb: Vec<u8> = Vec::new();
        encode_sr(&mut sb, &u.results[i]);
        encode_field_len(out, 1, &sb);
        proof {
            let x = u.results@[i as int];
            assert(u.results@.subrange(0, i + 1) =~= pre.push(x));
            lemma_sr_views(pre);
            lemma_sr_views(pre.push(x));
            assert(sr_views(pre.push(x)) =~= sr_views(pre).push(x@));
            lemma_srs_fields(sr_views(pre));
            lemma_srs_fields(sr_views(pre).push(x@));
            let lhs = srs_fields(sr_views(pre).push(x@));
            let rhs = srs_fields(sr_views(pre)) + seq![GField::Len(1u32, enc_sr(x@))];
            assert forall|j: int| 0 <= j < lhs.len() implies lhs[j] == rhs[j] by {
                if j < pre.len() {
                    assert(sr_views(pre).push(x@)[j] == sr_views(pre)[j]);
                } else {
                    assert(sr_views(pre).push(x@)[j] == x@);
                }
            };
            assert(lhs =~= rhs);
            lemma_fields_enc_concat(srs_fields(sr_views(pre)),
                seq![GField::Len(1u32, enc_sr(x@))]);
            lemma_fields_enc_single(GField::Len(1u32, enc_sr(x@)));
            assert(out@ =~= orig
                + fields_enc(srs_fields(sr_views(u.results@.subrange(0, i + 1)))));
        }
        i = i + 1;
    }
    proof {
        assert(u.results@.subrange(0, u.results@.len() as int) =~= u.results@);
    }
}

/// Decodes a stream update: succeeds exactly on buffers that mean one.
pub fn decode_stream_update(buf: &Vec<u8>) -> (r: Result<StreamUpdate, RpcError>)
    ensures
        r matches Ok(m) ==> spec_decode_stream_update(buf@) == Some(m@),
        r is Err ==> spec_decode_stream_update(buf@) is None,
        r matches Err(e) ==> e is Encoding,
{
    let fields = match decode_fields(buf) {
        Ok(fs) => fs,
        Err(e) => {
            return Err(e);
        },
    };
    let ghost fvs = wire_views(fields@);
    proof {
        lemma_wire_views(fields@);
    }
    let mut m = StreamUpdate { results: Vec::new() };
    let mut i: usize = 0;
    proof {
        assert(fvs.skip(0) =~= fvs);
        assert(sr_views(m.results@) =~= Seq::<StreamResultV>::empty());
        assert(m@ =~= StreamUpdateV { results: Seq::empty() });
    }
    while i < fields.len()
        invariant
            i <= fields@.len(),
            fvs == wire_views(fields@),
            spec_parse_fields(buf@) == Some(fvs),
            fvs.len() == fields@.len(),
            forall|j: int| 0 <= j < fields@.len() ==> fvs[j] == fields@[j]@,
            stream_update_fold(fvs, StreamUpdateV { results: Seq::empty() })
                == stream_update_fold(fvs.skip(i as int), m@),
        decreases fields@.len() - i,
    {
        let ghost cur = m@;
        proof {
            assert(fvs.skip(i as int)[0] == fvs[i as int]);
            assert(fvs.skip(i as int).drop_first() =~= fvs.skip(i + 1));
        }
        match &fields[i] {
            WireField::Len(n, p) => {
                if *n == 1 {
                    let s = match decode_sr(p) {
                        Ok(s) => s,
                        Err(e) => {
                            proof {
                                assert(stream_update_apply(cur, fvs[i as int]) is None);
                                assert(stream_update_fold(fvs,
                                    StreamUpdateV { results: Seq::empty() }) is None);
                            }
                            return Err(e);
                        },
                    };
                    let ghost old_rs = m.results@;
                    m.results.push(s);
                    proof {
                        lemma_sr_views(old_rs);
                        lemma_sr_views(old_rs.push(s));
                        assert(sr_views(old_rs.push(s)) =~= sr_views(old_rs).push(s@));
                    }
                }
            },
            _ => {},
        }
        proof {
            assert(stream_update_apply(cur, fvs[i as int]) == Some(m@));
        }
        i = i + 1;
    }
    proof {
        assert(fvs.skip(i as int).len() == 0);
    }
    Ok(m)
}


/// A server-side stream, as returned by the stream-creating procedure:
/// its server-assigned id.
pub struct Stream {
    pub id: u64,
}

#[verifier::ext_equal]
pub struct StreamV {
    pub id: u64,
}

impl View for Stream {
    type V = StreamV;

    open spec fn view(&self) -> StreamV {
        StreamV { id: self.id }
    }
}

/// Canonical fields: id 1, omitted when zero.
pub open spec fn stream_fields(s: StreamV) -> Seq<GField> {
    opt_varint_field(1, s.id)
}

pub open spec fn enc_stream(s: StreamV) -> Seq<u8> {
    fields_enc(stream_fields(s))
}

pub open spec fn stream_apply(s: StreamV, f: GField) -> Option<StreamV> {
    match f {
        GField::Varint(1u32, v) => Some(StreamV { id: v }),
        _ => Some(s),
    }
}

pub open spec fn stream_fold(fs: Seq<GField>, acc: StreamV) -> Option<StreamV>
    decreases fs.len(),
{
    if fs.len() == 0 {
        Some(acc)
    } else {
        match stream_apply(acc, fs[0]) {
            None => None,
            Some(a2) => stream_fold(fs.drop_first(), a2),
        }
    }
}

/// What a buffer means as a stream message, if anything.
pub open spec fn spec_decode_stream(s: Seq<u8>) -> Option<StreamV> {
    match spec_parse_fields(s) {
        None => None,
        Some(fs) => stream_fold(fs, StreamV { id: 0 }),
    }
}

/// Decoding inverts encoding for stream messages.
pub proof fn lemma_stream_roundtrip(s: StreamV)
    ensures
        spec_decode_stream(enc_stream(s)) == Some(s),
{
    let fs = stream_fields(s);
    assert forall|i: int| 0 <= i < fs.len() implies field_valid(#[trigger] fs[i]) by {
        assert(fs[0] == GField::Varint(1u32, s.id));
    };
    lemma_parse_fields_enc(fs);
    let d = StreamV { id: 0 };
    if s.id == 0 {
        assert(fs.len() == 0);
        assert(s =~= d);
    } else {
        assert(fs =~= seq![GField::Varint(1u32, s.id)]);
        assert(fs[0] == GField::Varint(1u32, s.id));
        assert(fs.drop_first() =~= Seq::<GField>::empty());
        assert(stream_apply(d, fs[0]) == Some(s));
        assert(stream_fold(fs, d) == stream_fold(fs.drop_first(), s));
    }
}

/// Appends the canonical encoding of a stream message.
pub fn encode_stream(out: &mut Vec<u8>, s: &Stream)
    ensures
        final(out)@ == old(out)@ + enc_stream(s@),
{
    encode_opt_varint_field(out, 1, s.id);
}

/// Decodes a stream message: succeeds exactly on buffers that mean one.
pub fn decode_stream(buf: &Vec<u8>) -> (r: Result<Stream, RpcError>)
    ensures
        r matches Ok(m) ==> spec_decode_stream(buf@) == Some(m@),
        r is Err ==> spec_decode_stream(buf@) is None,
        r matches Err(e) ==> e is Encoding,
{
    let fields = match decode_fields(buf) {
        Ok(fs) => fs,
        Err(e) => {
            return Err(e);
        },
    };
    let ghost fvs = wire_views(fields@);
    proof {
        lemma_wire_views(fields@);
    }
    let mut m = Stream { id: 0 };
    let mut i: usize = 0;
    proof {
        assert(fvs.skip(0) =~= fvs);
        assert(m@ =~= StreamV { id: 0 });
    }
    while i < fields.len()
        invariant
            i <= fields@.len(),
            fvs == wire_views(fields@),
            spec_parse_fields(buf@) == Some(fvs),
            fvs.len() == fields@.len(),
            forall|j: int| 0 <= j < fields@.len() ==> fvs[j] == fields@[j]@,
            stream_fold(fvs, StreamV { id: 0 }) == stream_fold(fvs.skip(i as int), m@),
        decreases fields@.len() - i,
    {
        let ghost cur = m@;
        proof {
            assert(fvs.skip(i as int)[0] == fvs[i as int]);
            assert(fvs.skip(i as int).drop_first() =~= fvs.skip(i + 1));
        }
        match &fields[i] {
            WireField::Varint(n, v) => {
                if *n == 1 {
                    m.id = *v;
                }
            },
            _ => {},
        }
        proof {
            assert(stream_apply(cur, fvs[i as int]) == Some(m@));
        }
        i = i + 1;
    }
    proof {
        assert(fvs.skip(i as int).len() == 0);
    }
    Ok(m)
}

/// Which channel a connection handshake opens.
#[derive(Clone, Copy, Debug, PartialEq, Eq, Structural)]
pub enum ConnectionType {
    Rpc,
    Stream,
}

/// The wire tag of a connection type.
pub open spec fn conn_type_tag(t: ConnectionType) -> u64 {
    match t {
        ConnectionType::Rpc => 0,
        ConnectionType::Stream => 1,
    }
}

/// The handshake a client sends on a fresh connection.
pub struct ConnectionRequest {
    pub conn_type: ConnectionType,
    pub client_name: String,
    pub client_identifier: Vec<u8>,
}

#[verifier::ext_equal]
pub struct ConnectionRequestV {
    pub conn_type: ConnectionType,
    pub client_name: Seq<char>,
    pub client_identifier: Seq<u8>,
}

impl View for ConnectionRequest {
    type V = ConnectionRequestV;

    open spec fn view(&self) -> ConnectionRequestV {
        ConnectionRequestV {
            conn_type: self.conn_type,
            client_name: self.client_name@,
            client_identifier: self.client_identifier@,
        }
    }
}

pub open spec fn conn_request_default() -> ConnectionRequestV {
    ConnectionRequestV {
        conn_type: ConnectionType::Rpc,
        client_name: Seq::empty(),
        client_identifier: Seq::empty(),
    }
}

/// Canonical fields: type 1, client name 2, client identifier 3,
/// defaults omitted.
pub open spec fn conn_request_fields(c: ConnectionRequestV) -> Seq<GField> {
    opt_varint_field(1, conn_type_tag(c.conn_type)) + opt_str_field(2, c.client_name)
        + opt_bytes_field(3, c.client_identifier)
}

pub open spec fn enc_conn_request(c: ConnectionRequestV) -> Seq<u8> {
    fields_enc(conn_request_fields(c))
}

pub open spec fn conn_request_wf(c: ConnectionRequestV) -> bool {
    &&& encode_utf8(c.client_name).len() <= u64::MAX
    &&& c.client_identifier.len() <= u64::MAX
}

pub open spec fn conn_request_apply(c: ConnectionRequestV, f: GField)
    -> Option<ConnectionRequestV> {
    match f {
        GField::Varint(1u32, v) => if v == 0 {
            Some(ConnectionRequestV { conn_type: ConnectionType::Rpc, ..c })
        } else if v == 1 {
            Some(ConnectionRequestV { conn_type: ConnectionType::Stream, ..c })
        } else {
            None
        },
        GField::Len(2u32, p) => if valid_utf8(p) {
            Some(ConnectionRequestV { client_name: decode_utf8(p), ..c })
        } else {
            None
        },
        GField::Len(3u32, p) => Some(ConnectionRequestV { client_identifier: p, ..c }),
        _ => Some(c),
    }
}

pub open spec fn conn_request_fold(fs: Seq<GField>, acc: ConnectionRequestV)
    -> Option<ConnectionRequestV>
    decreases fs.len(),
{
    if fs.len() == 0 {
        Some(acc)
    } else {
        match conn_request_apply(acc, fs[0]) {
            None => None,
            Some(a2) => conn_request_fold(fs.drop_first(), a2),
        }
    }
}

/// What a buffer means as a connection request, if anything.
pub open spec fn spec_decode_conn_request(s: Seq<u8>) -> Option<ConnectionRequestV> {
    match spec_parse_fields(s) {
        None => None,
        Some(fs) => conn_request_fold(fs, conn_request_default()),
    }
}

proof fn lemma_conn_request_fold_append(x: Seq<GField>, y: Seq<GField>, acc: ConnectionRequestV)
    ensures
        conn_request_fold(x + y, acc) == (match conn_request_fold(x, acc) {
            None => None::<ConnectionRequestV>,
            Some(m) => conn_request_fold(y, m),
        }),
    decreases x.len(),
{
    if x.len() == 0 {
        assert(x + y =~= y);
    } else {
        assert((x + y)[0] == x[0]);
        assert((x + y).drop_first() =~= x.drop_first() + y);
        match conn_request_apply(acc, x[0]) {
            None => {},
            Some(a2) => {
                lemma_conn_request_fold_append(x.drop_first(), y, a2);
            },
        }
    }
}

/// Decoding inverts encoding for connection requests.
pub proof fn lemma_conn_request_roundtrip(c: ConnectionRequestV)
    requires
        conn_request_wf(c),
    ensures
        spec_decode_conn_request(enc_conn_request(c)) == Some(c),
{
    broadcast use encode_utf8_valid_utf8, encode_utf8_decode_utf8;
    let p1 = opt_varint_field(1, conn_type_tag(c.conn_type));
    let p2 = opt_str_field(2, c.client_name);
    let p3 = opt_bytes_field(3, c.client_identifier);
    let fs = conn_request_fields(c);
    assert(fs == (p1 + p2) + p3);
    lemma_opt_str_valid(2, c.client_name);
    assert forall|i: int| 0 <= i < fs.len() implies field_valid(#[trigger] fs[i]) by {
        if i < (p1 + p2).len() {
            assert(fs[i] == (p1 + p2)[i]);
            if i < p1.len() {
                assert((p1 + p2)[i] == p1[i]);
                assert(p1[0] == GField::Varint(1u32, conn_type_tag(c.conn_type)));
            } else {
                assert((p1 + p2)[i] == p2[i - p1.len()]);
            }
        } else {
            assert(fs[i] == p3[i - (p1 + p2).len()]);
            assert(p3[0] == GField::Len(3u32, c.client_identifier));
        }
    };
    lemma_parse_fields_enc(fs);
    let d = conn_request_default();
    let m1 = ConnectionRequestV { conn_type: c.conn_type, ..d };
    assert(conn_request_fold(p1, d) == Some(m1)) by {
        if conn_type_tag(c.conn_type) == 0 {
            assert(p1.len() == 0);
            assert(c.conn_type is Rpc);
            assert(m1 =~= d);
        } else {
            assert(p1 =~= seq![GField::Varint(1u32, conn_type_tag(c.conn_type))]);
            assert(p1[0] == GField::Varint(1u32, conn_type_tag(c.conn_type)));
            assert(p1.drop_first() =~= Seq::<GField>::empty());
            assert(c.conn_type is Stream);
            assert(conn_request_apply(d, p1[0]) == Some(m1));
            assert(conn_request_fold(p1, d) == conn_request_fold(p1.drop_first(), m1));
        }
    };
    let m2 = ConnectionRequestV { client_name: c.client_name, ..m1 };
    assert(conn_request_fold(p2, m1) == Some(m2)) by {
        if c.client_name.len() == 0 {
            assert(p2.len() == 0);
            assert(m2 =~= m1);
        } else {
            assert(p2 =~= seq![GField::Len(2u32, encode_utf8(c.client_name))]);
            assert(p2[0] == GField::Len(2u32, encode_utf8(c.client_name)));
            assert(p2.drop_first() =~= Seq::<GField>::empty());
            assert(conn_request_apply(m1, p2[0]) == Some(m2));
            assert(conn_request_fold(p2, m1) == conn_request_fold(p2.drop_first(), m2));
        }
    };
    let m3 = ConnectionRequestV { client_identifier: c.client_identifier, ..m2 };
    assert(conn_request_fold(p3, m2) == Some(m3)) by {
        if c.client_identifier.len() == 0 {
            assert(p3.len() == 0);
            assert(m3 =~= m2);
        } else {
            assert(p3 =~= seq![GField::Len(3u32, c.client_identifier)]);
            assert(p3[0] == GField::Len(3u32, c.client_identifier));
            assert(p3.drop_first() =~= Seq::<GField>::empty());
            assert(conn_request_apply(m2, p3[0]) == Some(m3));
            assert(conn_request_fold(p3, m2) == conn_request_fold(p3.drop_first(), m3));
        }
    };
    lemma_conn_request_fold_append(p1, p2, d);
    lemma_conn_request_fold_append(p1 + p2, p3, d);
    assert(conn_request_fold(fs, d) == Some(m3));
    assert(m3 =~= c);
}

/// Appends the canonical encoding of a connection request.
pub fn encode_conn_request(out: &mut Vec<u8>, c: &ConnectionRequest)
    ensures
        final(out)@ == old(out)@ + enc_conn_request(c@),
{
    let ghost orig = out@;
    let tag: u64 = match c.conn_type {
        ConnectionType::Rpc => 0,
        ConnectionType::Stream => 1,
    };
    encode_opt_varint_field(out, 1, tag);
    encode_opt_str_field(out, 2, c.client_name.as_str());
    encode_opt_bytes_field(out, 3, &c.client_identifier);
    proof {
        let cv = c@;
        let p1 = opt_varint_field(1, conn_type_tag(cv.conn_type));
        let p2 = opt_str_field(2, cv.client_name);
        let p3 = opt_bytes_field(3, cv.client_identifier);
        assert(tag == conn_type_tag(cv.conn_type));
        lemma_fields_enc_concat(p1, p2);
        lemma_fields_enc_concat(p1 + p2, p3);
        assert(conn_request_fields(cv) == (p1 + p2) + p3);
        assert(out@ =~= orig + enc_conn_request(cv));
    }
}

/// The status the server reports in a connection response.
#[derive(Clone, Copy, Debug, PartialEq, Eq, Structural)]
pub enum ConnectionStatus {
    Okay,
    MalformedMessage,
    Timeout,
    WrongType,
}

/// The wire tag of a connection status.
pub open spec fn conn_status_tag(s: ConnectionStatus) -> u64 {
    match s {
        ConnectionStatus::Okay => 0,
        ConnectionStatus::MalformedMessage => 1,
        ConnectionStatus::Timeout => 2,
        ConnectionStatus::WrongType => 3,
    }
}

/// The server's answer to a connection handshake.
pub struct ConnectionResponse {
    pub status: ConnectionStatus,
    pub message: String,
    pub client_identifier: Vec<u8>,
}

#[verifier::ext_equal]
pub struct ConnectionResponseV {
    pub status: ConnectionStatus,
    pub message: Seq<char>,
    pub client_identifier: Seq<u8>,
}

impl View for ConnectionResponse {
    type V = ConnectionResponseV;

    open spec fn view(&self) -> ConnectionResponseV {
        ConnectionResponseV {
            status: self.status,
            message: self.message@,
            client_identifier: self.client_identifier@,
        }
    }
}

pub open spec fn conn_response_default() -> ConnectionResponseV {
    ConnectionResponseV {
        status: ConnectionStatus::Okay,
        message: Seq::empty(),
        client_identifier: Seq::empty(),
    }
}

/// Canonical fields: status 1, message 2, client identifier 3,
/// defaults omitted.
pub open spec fn conn_response_fields(c: ConnectionResponseV) -> Seq<GField> {
    opt_varint_field(1, conn_status_tag(c.status)) + opt_str_field(2, c.message)
        + opt_bytes_field(3, c.client_identifier)
}

pub open spec fn enc_conn_response(c: ConnectionResponseV) -> Seq<u8> {
    fields_enc(conn_response_fields(c))
}

pub open spec fn conn_response_wf(c: ConnectionResponseV) -> bool {
    &&& encode_utf8(c.message).len() <= u64::MAX
    &&& c.client_identifier.len() <= u64::MAX
}

pub open spec fn conn_response_apply(c: ConnectionResponseV, f: GField)
    -> Option<ConnectionResponseV> {
    match f {
        GField::Varint(1u32, v) => if v == 0 {
            Some(ConnectionResponseV { status: ConnectionStatus::Okay, ..c })
        } else if v == 1 {
            Some(ConnectionResponseV { status: ConnectionStatus::MalformedMessage, ..c })
        } else if v == 2 {
            Some(ConnectionResponseV { status: ConnectionStatus::Timeout, ..c })
        } else if v == 3 {
            Some(ConnectionResponseV { status: ConnectionStatus::WrongType, ..c })
        } else {
            None
        },
        GField::Len(2u32, p) => if valid_utf8(p) {
            Some(ConnectionResponseV { message: decode_utf8(p), ..c })
        } else {
            None
        },
        GField::Len(3u32, p) => Some(ConnectionResponseV { client_identifier: p, ..c }),
        _ => Some(c),
    }
}

pub open spec fn conn_response_fold(fs: Seq<GField>, acc: ConnectionResponseV)
    -> Option<ConnectionResponseV>
    decreases fs.len(),
{
    if fs.len() == 0 {
        Some(acc)
    } else {
        match conn_response_apply(acc, fs[0]) {
            None => None,
            Some(a2) => conn_response_fold(fs.drop_first(), a2),
        }
    }
}

/// What a buffer means as a connection response, if anything.
pub open spec fn spec_decode_conn_response(s: Seq<u8>) -> Option<ConnectionResponseV> {
    match spec_parse_fields(s) {
        None => None,
        Some(fs) => conn_response_fold(fs, conn_response_default()),
    }
}

proof fn lemma_conn_response_fold_append(x: Seq<GField>, y: Seq<GField>,
    acc: ConnectionResponseV)
    ensures
        conn_response_fold(x + y, acc) == (match conn_response_fold(x, acc) {
            None => None::<ConnectionResponseV>,
            Some(m) => conn_response_fold(y, m),
        }),
    decreases x.len(),
{
    if x.len() == 0 {
        assert(x + y =~= y);
    } else {
        assert((x + y)[0] == x[0]);
        assert((x + y).drop_first() =~= x.drop_first() + y);
        match conn_response_apply(acc, x[0]) {
            None => {},
            Some(a2) => {
                lemma_conn_response_fold_append(x.drop_first(), y, a2);
            },
        }
    }
}

/// Decoding inverts encoding for connection responses.
pub proof fn lemma_conn_response_roundtrip(c: ConnectionResponseV)
    requires
        conn_response_wf(c),
    ensures
        spec_decode_conn_response(enc_conn_response(c)) == Some(c),
{
    broadcast use encode_utf8_valid_utf8, encode_utf8_decode_utf8;
    let p1 = opt_varint_field(1, conn_status_tag(c.status));
    let p2 = opt_str_field(2, c.message);
    let p3 = opt_bytes_field(3, c.client_identifier);
    let fs = conn_response_fields(c);
    assert(fs == (p1 + p2) + p3);
    lemma_opt_str_valid(2, c.message);
    assert forall|i: int| 0 <= i < fs.len() implies field_valid(#[trigger] fs[i]) by {
        if i < (p1 + p2).len() {
            assert(fs[i] == (p1 + p2)[i]);
            if i < p1.len() {
                assert((p1 + p2)[i] == p1[i]);
                assert(p1[0] == GField::Varint(1u32, conn_status_tag(c.status)));
            } else {
                assert((p1 + p2)[i] == p2[i - p1.len()]);
            }
        } else {
            assert(fs[i] == p3[i - (p1 + p2).len()]);
            assert(p3[0] == GField::Len(3u32, c.client_identifier));
        }
    };
    lemma_parse_fields_enc(fs);
    let d = conn_response_default();
    let m1 = ConnectionResponseV { status: c.status, ..d };
    assert(conn_response_fold(p1, d) == Some(m1)) by {
        if conn_status_tag(c.status) == 0 {
            assert(p1.len() == 0);
            assert(c.status is Okay);
            assert(m1 =~= d);
        } else {
            assert(p1 =~= seq![GField::Varint(1u32, conn_status_tag(c.status))]);
            assert(p1[0] == GField::Varint(1u32, conn_status_tag(c.status)));
            assert(p1.drop_first() =~= Seq::<GField>::empty());
            assert(conn_response_apply(d, p1[0]) == Some(m1));
            assert(conn_response_fold(p1, d) == conn_response_fold(p1.drop_first(), m1));
        }
    };
    let m2 = ConnectionResponseV { message: c.message, ..m1 };
    assert(conn_response_fold(p2, m1) == Some(m2)) by {
        if c.message.len() == 0 {
            assert(p2.len() == 0);
            assert(m2 =~= m1);
        } else {
            assert(p2 =~= seq![GField::Len(2u32, encode_utf8(c.message))]);
            assert(p2[0] == GField::Len(2u32, encode_utf8(c.message)));
            assert(p2.drop_first() =~= Seq::<GField>::empty());
            assert(conn_response_apply(m1, p2[0]) == Some(m2));
            assert(conn_response_fold(p2, m1) == conn_response_fold(p2.drop_first(), m2));
        }
    };
    let m3 = ConnectionResponseV { client_identifier: c.client_identifier, ..m2 };
    assert(conn_response_fold(p3, m2) == Some(m3)) by {
        if c.client_identifier.len() == 0 {
            assert(p3.len() == 0);
            assert(m3 =~= m2);
        } else {
            assert(p3 =~= seq![GField::Len(3u32, c.client_identifier)]);
            assert(p3[0] == GField::Len(3u32, c.client_identifier));
            assert(p3.drop_first() =~= Seq::<GField>::empty());
            assert(conn_response_apply(m2, p3[0]) == Some(m3));
            assert(conn_response_fold(p3, m2) == conn_response_fold(p3.drop_first(), m3));
        }
    };
    lemma_conn_response_fold_append(p1, p2, d);
    lemma_conn_response_fold_append(p1 + p2, p3, d);
    assert(conn_response_fold(fs, d) == Some(m3));
    assert(m3 =~= c);
}

/// Appends the canonical encoding of a connection response.
pub fn encode_conn_response(out: &mut Vec<u8>, c: &ConnectionResponse)
    ensures
        final(out)@ == old(out)@ + enc_conn_response(c@),
{
    let ghost orig = out@;
    let tag: u64 = match c.status {
        ConnectionStatus::Okay => 0,
        ConnectionStatus::MalformedMessage => 1,
        ConnectionStatus::Timeout => 2,
        ConnectionStatus::WrongType => 3,
    };
    encode_opt_varint_field(out, 1, tag);
    encode_opt_str_field(out, 2, c.message.as_str());
    encode_opt_bytes_field(out, 3, &c.client_identifier);
    proof {
        let cv = c@;
        let p1 = opt_varint_field(1, conn_status_tag(cv.status));
        let p2 = opt_str_field(2, cv.message);
        let p3 = opt_bytes_field(3, cv.client_identifier);
        assert(tag == conn_status_tag(cv.status));
        lemma_fields_enc_concat(p1, p2);
        lemma_fields_enc_concat(p1 + p2, p3);
        assert(conn_response_fields(cv) == (p1 + p2) + p3);
        assert(out@ =~= orig + enc_conn_response(cv));
    }
}

/// Decodes a connection response: succeeds exactly on buffers that mean
/// one.
pub fn decode_conn_response(buf: &Vec<u8>) -> (r: Result<ConnectionResponse, RpcError>)
    ensures
        r matches Ok(m) ==> spec_decode_conn_response(buf@) == Some(m@),
        r is Err ==> spec_decode_conn_response(buf@) is None,
        r matches Err(e) ==> e is Encoding,
{
    let fields = match decode_fields(buf) {
        Ok(fs) => fs,
        Err(e) => {
            return Err(e);
        },
    };
    let ghost fvs = wire_views(fields@);
    proof {
        lemma_wire_views(fields@);
    }
    let mut m = ConnectionResponse {
        status: ConnectionStatus::Okay,
        message: String::new(),
        client_identifier: Vec::new(),
    };
    let mut i: usize = 0;
    proof {
        assert(fvs.skip(0) =~= fvs);
        assert(m@ =~= conn_response_default());
    }
    while i < fields.len()
        invariant
            i <= fields@.len(),
            fvs == wire_views(fields@),
            spec_parse_fields(buf@) == Some(fvs),
            fvs.len() == fields@.len(),
            forall|j: int| 0 <= j < fields@.len() ==> fvs[j] == fields@[j]@,
            conn_response_fold(fvs, conn_response_default())
                == conn_response_fold(fvs.skip(i as int), m@),
        decreases fields@.len() - i,
    {
        let ghost cur = m@;
        proof {
            assert(fvs.skip(i as int)[0] == fvs[i as int]);
            assert(fvs.skip(i as int).drop_first() =~= fvs.skip(i + 1));
        }
        match &fields[i] {
            WireField::Varint(n, v) => {
                if *n == 1 {
                    if *v == 0 {
                        m.status = ConnectionStatus::Okay;
                    } else if *v == 1 {
                        m.status = ConnectionStatus::MalformedMessage;
                    } else if *v == 2 {
                        m.status = ConnectionStatus::Timeout;
                    } else if *v == 3 {
                        m.status = ConnectionStatus::WrongType;
                    } else {
                        proof {
                            assert(conn_response_apply(cur, fvs[i as int]) is None);
                            assert(conn_response_fold(fvs, conn_response_default()) is None);
                        }
                        return Err(RpcError::Encoding(
                            "unknown connection status".to_owned()));
                    }
                }
            },
            WireField::Len(n, p) => {
                if *n == 2 {
                    let s = match string_from_utf8(clone_bytes(p)) {
                        Some(s) => s,
                        None => {
                            proof {
                                assert(conn_response_apply(cur, fvs[i as int]) is None);
                                assert(conn_response_fold(fvs, conn_response_default())
                                    is None);
                            }
                            return Err(RpcError::Encoding(
                                "invalid UTF-8 in field".to_owned()));
                        },
                    };
                    m.message = s;
                } else if *n == 3 {
                    m.client_identifier = clone_bytes(p);
                }
            },
            _ => {},
        }
        proof {
            assert(conn_response_apply(cur, fvs[i as int]) == Some(m@));
        }
        i = i + 1;
    }
    proof {
        assert(fvs.skip(i as int).len() == 0);
    }
    Ok(m)
}

/// The server's status report. Only the version string is modelled; a
/// decoder skips the report's other fields.
pub struct Status {
    pub version: String,
}

#[verifier::ext_equal]
pub struct StatusV {
    pub version: Seq<char>,
}

impl View for Status {
    type V = StatusV;

    open spec fn view(&self) -> StatusV {
        StatusV { version: self.version@ }
    }
}

/// Canonical fields: version 1, omitted when empty.
pub open spec fn status_fields(s: StatusV) -> Seq<GField> {
    opt_str_field(1, s.version)
}

pub open spec fn enc_status(s: StatusV) -> Seq<u8> {
    fields_enc(status_fields(s))
}

pub open spec fn status_wf(s: StatusV) -> bool {
    encode_utf8(s.version).len() <= u64::MAX
}

pub open spec fn status_apply(s: StatusV, f: GField) -> Option<StatusV> {
    match f {
        GField::Len(1u32, p) => if valid_utf8(p) {
            Some(StatusV { version: decode_utf8(p) })
        } else {
            None
        },
        _ => Some(s),
    }
}

pub open spec fn status_fold(fs: Seq<GField>, acc: StatusV) -> Option<StatusV>
    decreases fs.len(),
{
    if fs.len() == 0 {
        Some(acc)
    } else {
        match status_apply(acc, fs[0]) {
            None => None,
            Some(a2) => status_fold(fs.drop_first(), a2),
        }
    }
}

/// What a buffer means as a status report, restricted to the modelled
/// fields, if anything.
pub open spec fn spec_decode_status(s: Seq<u8>) -> Option<StatusV> {
    match spec_parse_fields(s) {
        None => None,
        Some(fs) => status_fold(fs, StatusV { version: Seq::empty() }),
    }
}

/// Decoding inverts encoding for status reports.
pub proof fn lemma_status_roundtrip(s: StatusV)
    requires
        status_wf(s),
    ensures
        spec_decode_status(enc_status(s)) == Some(s),
{
    broadcast use encode_utf8_valid_utf8, encode_utf8_decode_utf8;
    let fs = status_fields(s);
    lemma_opt_str_valid(1, s.version);
    lemma_parse_fields_enc(fs);
    let d = StatusV { version: Seq::empty() };
    if s.version.len() == 0 {
        assert(fs.len() == 0);
        assert(s =~= d);
    } else {
        assert(fs =~= seq![GField::Len(1u32, encode_utf8(s.version))]);
        assert(fs[0] == GField::Len(1u32, encode_utf8(s.version)));
        assert(fs.drop_first() =~= Seq::<GField>::empty());
        assert(status_apply(d, fs[0]) == Some(s));
        assert(status_fold(fs, d) == status_fold(fs.drop_first(), s));
    }
}

/// Appends the canonical encoding of a status report.
pub fn encode_status(out: &mut Vec<u8>, s: &Status)
    ensures
        final(out)@ == old(out)@ + enc_status(s@),
{
    encode_opt_str_field(out, 1, s.version.as_str());
}

/// Decodes a status report: succeeds exactly on buffers whose modelled
/// fields mean one.
pub fn decode_status(buf: &Vec<u8>) -> (r: Result<Status, RpcError>)
    ensures
        r matches Ok(m) ==> spec_decode_status(buf@) == Some(m@),
        r is Err ==> spec_decode_status(buf@) is None,
        r matches Err(e) ==> e is Encoding,
{
    let fields = match decode_fields(buf) {
        Ok(fs) => fs,
        Err(e) => {
            return Err(e);
        },
    };
    let ghost fvs = wire_views(fields@);
    proof {
        lemma_wire_views(fields@);
    }
    let mut m = Status { version: String::new() };
    let mut i: usize = 0;
    proof {
        assert(fvs.skip(0) =~= fvs);
        assert(m@ =~= StatusV { version: Seq::empty() });
    }
    while i < fields.len()
        invariant
            i <= fields@.len(),
            fvs == wire_views(fields@),
            spec_parse_fields(buf@) == Some(fvs),
            fvs.len() == fields@.len(),
            forall|j: int| 0 <= j < fields@.len() ==> fvs[j] == fields@[j]@,
            status_fold(fvs, StatusV { version: Seq::empty() })
                == status_fold(fvs.skip(i as int), m@),
        decreases fields@.len() - i,
    {
        let ghost cur = m@;
        proof {
            assert(fvs.skip(i as int)[0] == fvs[i as int]);
            assert(fvs.skip(i as int).drop_first() =~= fvs.skip(i + 1));
        }
        match &fields[i] {
            WireField::Len(n, p) => {
                if *n == 1 {
                    let s = match string_from_utf8(clone_bytes(p)) {
                        Some(s) => s,
                        None => {
                            proof {
                                assert(status_apply(cur, fvs[i as int]) is None);
                                assert(status_fold(fvs, StatusV { version: Seq::empty() })
                                    is None);
                            }
                            return Err(RpcError::Encoding(
                                "invalid UTF-8 in field".to_owned()));
                        },
                    };
                    m.version = s;
                }
            },
            _ => {},
        }
        proof {
            assert(status_apply(cur, fvs[i as int]) == Some(m@));
        }
        i = i + 1;
    }
    proof {
        assert(fvs.skip(i as int).len() == 0);
    }
    Ok(m)
}


/// A server-side event: the stream that signals it. Only the stream is
/// modelled; a decoder skips any other field.
pub struct Event {
    pub stream: Option<Stream>,
}

#[verifier::ext_equal]
pub struct EventV {
    pub stream: Option<StreamV>,
}

impl View for Event {
    type V = EventV;

    open spec fn view(&self) -> EventV {
        EventV {
            stream: match self.stream {
                Some(s) => Some(s@),
                None => None,
            },
        }
    }
}

/// Canonical fields: stream 1, omitted when absent.
pub open spec fn event_fields(e: EventV) -> Seq<GField> {
    match e.stream {
        Some(s) => seq![GField::Len(1u32, enc_stream(s))],
        None => Seq::<GField>::empty(),
    }
}

pub open spec fn enc_event(e: EventV) -> Seq<u8> {
    fields_enc(event_fields(e))
}

pub open spec fn event_wf(e: EventV) -> bool {
    e.stream matches Some(s) ==> enc_stream(s).len() <= u64::MAX
}

pub open spec fn event_apply(e: EventV, f: GField) -> Option<EventV> {
    match f {
        GField::Len(1u32, p) => match spec_decode_stream(p) {
            Some(s) => Some(EventV { stream: Some(s) }),
            None => None,
        },
        _ => Some(e),
    }
}

pub open spec fn event_fold(fs: Seq<GField>, acc: EventV) -> Option<EventV>
    decreases fs.len(),
{
    if fs.len() == 0 {
        Some(acc)
    } else {
        match event_apply(acc, fs[0]) {
            None => None,
            Some(a2) => event_fold(fs.drop_first(), a2),
        }
    }
}

/// What a buffer means as an event, restricted to the modelled fields,
/// if anything.
pub open spec fn spec_decode_event(s: Seq<u8>) -> Option<EventV> {
    match spec_parse_fields(s) {
        None => None,
        Some(fs) => event_fold(fs, EventV { stream: None }),
    }
}

/// Decoding inverts encoding for events.
pub proof fn lemma_event_roundtrip(e: EventV)
    requires
        event_wf(e),
    ensures
        spec_decode_event(enc_event(e)) == Some(e),
{
    let fs = event_fields(e);
    assert forall|i: int| 0 <= i < fs.len() implies field_valid(#[trigger] fs[i]) by {
        match e.stream {
            Some(s) => {
                assert(fs[0] == GField::Len(1u32, enc_stream(s)));
            },
            None => {},
        }
    };
    lemma_parse_fields_enc(fs);
    let d = EventV { stream: None };
    match e.stream {
        Some(s) => {
            lemma_stream_roundtrip(s);
            assert(fs[0] == GField::Len(1u32, enc_stream(s)));
            assert(fs.drop_first() =~= Seq::<GField>::empty());
            assert(event_apply(d, fs[0]) == Some(e));
            assert(event_fold(fs, d) == event_fold(fs.drop_first(), e));
        },
        None => {
            assert(fs.len() == 0);
            assert(e =~= d);
        },
    }
}

/// Appends the canonical encoding of an event.
pub fn encode_event(out: &mut Vec<u8>, e: &Event)
    ensures
        final(out)@ == old(out)@ + enc_event(e@),
{
    let ghost orig = out@;
    match &e.stream {
        Some(s) => {
            let mut sb: Vec<u8> = Vec::new();
            encode_stream(&mut sb, s);
            encode_field_len(out, 1, &sb);
            proof {
                lemma_fields_enc_single(GField::Len(1u32, enc_stream(s@)));
                assert(event_fields(e@) =~= seq![GField::Len(1u32, enc_stream(s@))]);
                assert(out@ =~= orig + enc_event(e@));
            }
        },
        None => {
            proof {
                assert(event_fields(e@) =~= Seq::<GField>::empty());
                assert(out@ =~= orig + enc_event(e@));
            }
        },
    }
}

/// Decodes an event: succeeds exactly on buffers whose modelled fields
/// mean one.
pub fn decode_event(buf: &Vec<u8>) -> (r: Result<Event, RpcError>)
    ensures
        r matches Ok(m) ==> spec_decode_event(buf@) == Some(m@),
        r is Err ==> spec_decode_event(buf@) is None,
        r matches Err(e) ==> e is Encoding,
{
    let fields = match decode_fields(buf) {
        Ok(fs) => fs,
        Err(e) => {
            return Err(e);
        },
    };
    let ghost fvs = wire_views(fields@);
    proof {
        lemma_wire_views(fields@);
    }
    let mut m = Event { stream: None };
    let mut i: usize = 0;
    proof {
        assert(fvs.skip(0) =~= fvs);
        assert(m@ =~= EventV { stream: None });
    }
    while i < fields.len()
        invariant
            i <= fields@.len(),
            fvs == wire_views(fields@),
            spec_parse_fields(buf@) == Some(fvs),
            fvs.len() == fields@.len(),
            forall|j: int| 0 <= j < fields@.len() ==> fvs[j] == fields@[j]@,
            event_fold(fvs, EventV { stream: None }) == event_fold(fvs.skip(i as int), m@),
        decreases fields@.len() - i,
    {
        let ghost cur = m@;
        proof {
            assert(fvs.skip(i as int)[0] == fvs[i as int]);
            assert(fvs.skip(i as int).drop_first() =~= fvs.skip(i + 1));
        }
        match &fields[i] {
            WireField::Len(n, p) => {
                if *n == 1 {
                    let s = match decode_stream(p) {
                        Ok(s) => s,
                        Err(e) => {
                            proof {
                                assert(event_apply(cur, fvs[i as int]) is None);
                                assert(event_fold(fvs, EventV { stream: None }) is None);
                            }
                            return Err(e);
                        },
                    };
                    m.stream = Some(s);
                }
            },
            _ => {},
        }
        proof {
            assert(event_apply(cur, fvs[i as int]) == Some(m@));
        }
        i = i + 1;
    }
    proof {
        assert(fvs.skip(i as int).len() == 0);
    }
    Ok(m)
}

/// One entry of the server's service catalogue answer. Only the name is
/// modelled; a decoder skips the entry's other fields.
pub struct Service {
    pub name: String,
}

#[verifier::ext_equal]
pub struct ServiceV {
    pub name: Seq<char>,
}

impl View for Service {
    type V = ServiceV;

    open spec fn view(&self) -> ServiceV {
        ServiceV { name: self.name@ }
    }
}

/// Canonical fields: name 1, omitted when empty.
pub open spec fn service_fields(s: ServiceV) -> Seq<GField> {
    opt_str_field(1, s.name)
}

pub open spec fn enc_service(s: ServiceV) -> Seq<u8> {
    fields_enc(service_fields(s))
}

pub open spec fn service_wf(s: ServiceV) -> bool {
    encode_utf8(s.name).len() <= u64::MAX
}

pub open spec fn service_apply(s: ServiceV, f: GField) -> Option<ServiceV> {
    match f {
        GField::Len(1u32, p) => if valid_utf8(p) {
            Some(ServiceV { name: decode_utf8(p) })
        } else {
            None
        },
        _ => Some(s),
    }
}

pub open spec fn service_fold(fs: Seq<GField>, acc: ServiceV) -> Option<ServiceV>
    decreases fs.len(),
{
    if fs.len() == 0 {
        Some(acc)
    } else {
        match service_apply(acc, fs[0]) {
            None => None,
            Some(a2) => service_fold(fs.drop_first(), a2),
        }
    }
}

/// What a buffer means as a catalogue entry, restricted to the modelled
/// fields, if anything.
pub open spec fn spec_decode_service(s: Seq<u8>) -> Option<ServiceV> {
    match spec_parse_fields(s) {
        None => None,
        Some(fs) => service_fold(fs, ServiceV { name: Seq::empty() }),
    }
}

/// Decoding inverts encoding for catalogue entries.
pub proof fn lemma_service_roundtrip(s: ServiceV)
    requires
        service_wf(s),
    ensures
        spec_decode_service(enc_service(s)) == Some(s),
{
    broadcast use encode_utf8_valid_utf8, encode_utf8_decode_utf8;
    let fs = service_fields(s);
    lemma_opt_str_valid(1, s.name);
    lemma_parse_fields_enc(fs);
    let d = ServiceV { name: Seq::empty() };
    if s.name.len() == 0 {
        assert(fs.len() == 0);
        assert(s =~= d);
    } else {
        assert(fs =~= seq![GField::Len(1u32, encode_utf8(s.name))]);
        assert(fs[0] == GField::Len(1u32, encode_utf8(s.name)));
        assert(fs.drop_first() =~= Seq::<GField>::empty());
        assert(service_apply(d, fs[0]) == Some(s));
        assert(service_fold(fs, d) == service_fold(fs.drop_first(), s));
    }
}

/// Appends the canonical encoding of a catalogue entry.
pub fn encode_service(out: &mut Vec<u8>, s: &Service)
    ensures
        final(out)@ == old(out)@ + enc_service(s@),
{
    encode_opt_str_field(out, 1, s.name.as_str());
}

/// Decodes a catalogue entry: succeeds exactly on buffers whose
/// modelled fields mean one.
pub fn decode_service(buf: &Vec<u8>) -> (r: Result<Service, RpcError>)
    ensures
        r matches Ok(m) ==> spec_decode_service(buf@) == Some(m@),
        r is Err ==> spec_decode_service(buf@) is None,
        r matches Err(e) ==> e is Encoding,
{
    let fields = match decode_fields(buf) {
        Ok(fs) => fs,
        Err(e) => {
            return Err(e);
        },
    };
    let ghost fvs = wire_views(fields@);
    proof {
        lemma_wire_views(fields@);
    }
    let mut m = Service { name: String::new() };
    let mut i: usize = 0;
    proof {
        assert(fvs.skip(0) =~= fvs);
        assert(m@ =~= ServiceV { name: Seq::empty() });
    }
    while i < fields.len()
        invariant
            i <= fields@.len(),
            fvs == wire_views(fields@),
            spec_parse_fields(buf@) == Some(fvs),
            fvs.len() == fields@.len(),
            forall|j: int| 0 <= j < fields@.len() ==> fvs[j] == fields@[j]@,
            service_fold(fvs, ServiceV { name: Seq::empty() })
                == service_fold(fvs.skip(i as int), m@),
        decreases fields@.len() - i,
    {
        let ghost cur = m@;
        proof {
            assert(fvs.skip(i as int)[0] == fvs[i as int]);
            assert(fvs.skip(i as int).drop_first() =~= fvs.skip(i + 1));
        }
        match &fields[i] {
            WireField::Len(n, p) => {
                if *n == 1 {
                    let s = match string_from_utf8(clone_bytes(p)) {
                        Some(s) => s,
                        None => {
                            proof {
                                assert(service_apply(cur, fvs[i as int]) is None);
                                assert(service_fold(fvs, ServiceV { name: Seq::empty() })
                                    is None);
                            }
                            return Err(RpcError::Encoding(
                                "invalid UTF-8 in field".to_owned()));
                        },
                    };
                    m.name = s;
                }
            },
            _ => {},
        }
        proof {
            assert(service_apply(cur, fvs[i as int]) == Some(m@));
        }
        i = i + 1;
    }
    proof {
        assert(fvs.skip(i as int).len() == 0);
    }
    Ok(m)
}

/// The server's whole service catalogue answer: one entry per service.
pub struct Services {
    pub services: Vec<Service>,
}

#[verifier::ext_equal]
pub struct ServicesV {
    pub services: Seq<ServiceV>,
}

/// The views of a run of catalogue entries.
pub open spec fn service_views(s: Seq<Service>) -> Seq<ServiceV>
    decreases s.len(),
{
    if s.len() == 0 {
        Seq::empty()
    } else {
        seq![s[0]@] + service_views(s.drop_first())
    }
}

pub proof fn lemma_service_views(s: Seq<Service>)
    ensures
        service_views(s).len() == s.len(),
        forall|i: int| 0 <= i < s.len() ==> service_views(s)[i] == s[i]@,
    decreases s.len(),
{
    if s.len() > 0 {
        lemma_service_views(s.drop_first());
        assert(forall|i: int| 1 <= i < s.len()
            ==> service_views(s)[i] == service_views(s.drop_first())[i - 1]);
    }
}

impl View for Services {
    type V = ServicesV;

    open spec fn view(&self) -> ServicesV {
        ServicesV { services: service_views(self.services@) }
    }
}

/// One length-prefixed field, numbered 1, per entry, in order.
pub open spec fn services_fields(ss: Seq<ServiceV>) -> Seq<GField>
    decreases ss.len(),
{
    if ss.len() == 0 {
        Seq::<GField>::empty()
    } else {
        seq![GField::Len(1u32, enc_service(ss[0]))] + services_fields(ss.drop_first())
    }
}

pub proof fn lemma_services_fields(ss: Seq<ServiceV>)
    ensures
        services_fields(ss).len() == ss.len(),
        forall|i: int| 0 <= i < ss.len()
            ==> services_fields(ss)[i] == GField::Len(1u32, enc_service(#[trigger] ss[i])),
    decreases ss.len(),
{
    if ss.len() > 0 {
        lemma_services_fields(ss.drop_first());
        assert forall|i: int| 0 <= i < ss.len() implies services_fields(ss)[i]
            == GField::Len(1u32, enc_service(#[trigger] ss[i])) by {
            if i > 0 {
                assert(services_fields(ss)[i] == services_fields(ss.drop_first())[i - 1]);
                assert(ss.drop_first()[i - 1] == ss[i]);
            }
        };
    }
}

pub open spec fn enc_services(s: ServicesV) -> Seq<u8> {
    fields_enc(services_fields(s.services))
}

pub open spec fn services_wf(s: ServicesV) -> bool {
    forall|i: int| 0 <= i < s.services.len() ==> {
        &&& service_wf(#[trigger] s.services[i])
        &&& enc_service(s.services[i]).len() <= u64::MAX
    }
}

pub open spec fn services_apply(s: ServicesV, f: GField) -> Option<ServicesV> {
    match f {
        GField::Len(1u32, p) => match spec_decode_service(p) {
            Some(e) => Some(ServicesV { services: s.services.push(e) }),
            None => None,
        },
        _ => Some(s),
    }
}

pub open spec fn services_fold(fs: Seq<GField>, acc: ServicesV) -> Option<ServicesV>
    decreases fs.len(),
{
    if fs.len() == 0 {
        Some(acc)
    } else {
        match services_apply(acc, fs[0]) {
            None => None,
            Some(a2) => services_fold(fs.drop_first(), a2),
        }
    }
}

/// What a buffer means as a service catalogue, restricted to the
/// modelled fields, if anything.
pub open spec fn spec_decode_services(s: Seq<u8>) -> Option<ServicesV> {
    match spec_parse_fields(s) {
        None => None,
        Some(fs) => services_fold(fs, ServicesV { services: Seq::empty() }),
    }
}

proof fn lemma_services_fold_entries(ss: Seq<ServiceV>, acc: ServicesV)
    requires
        forall|i: int| 0 <= i < ss.len() ==> {
            &&& service_wf(#[trigger] ss[i])
            &&& enc_service(ss[i]).len() <= u64::MAX
        },
    ensures
        services_fold(services_fields(ss), acc)
            == Some(ServicesV { services: acc.services + ss }),
    decreases ss.len(),
{
    if ss.len() == 0 {
        assert(acc.services + ss =~= acc.services);
        assert(ServicesV { services: acc.services + ss } =~= acc);
    } else {
        let s0 = ss[0];
        let f0 = GField::Len(1u32, enc_service(s0));
        let fs = services_fields(ss);
        assert(fs[0] == f0);
        assert(fs.drop_first() =~= services_fields(ss.drop_first()));
        lemma_service_roundtrip(s0);
        let acc1 = ServicesV { services: acc.services.push(s0) };
        assert(services_apply(acc, f0) == Some(acc1));
        assert(services_fold(fs, acc)
            == services_fold(services_fields(ss.drop_first()), acc1));
        assert(forall|i: int| 0 <= i < ss.drop_first().len()
            ==> ss.drop_first()[i] == ss[i + 1]);
        lemma_services_fold_entries(ss.drop_first(), acc1);
        assert(acc.services.push(s0) + ss.drop_first() =~= acc.services + ss);
    }
}

/// Decoding inverts encoding for service catalogues.
pub proof fn lemma_services_roundtrip(s: ServicesV)
    requires
        services_wf(s),
    ensures
        spec_decode_services(enc_services(s)) == Some(s),
{
    let fs = services_fields(s.services);
    lemma_services_fields(s.services);
    assert forall|i: int| 0 <= i < fs.len() implies field_valid(#[trigger] fs[i]) by {
        assert(fs[i] == GField::Len(1u32, enc_service(s.services[i])));
    };
    lemma_parse_fields_enc(fs);
    let d = ServicesV { services: Seq::empty() };
    lemma_services_fold_entries(s.services, d);
    assert(d.services + s.services =~= s.services);
    assert(ServicesV { services: d.services + s.services } =~= s);
}

/// Appends the canonical encoding of a service catalogue.
pub fn encode_services(out: &mut Vec<u8>, s: &Services)
    ensures
        final(out)@ == old(out)@ + enc_services(s@),
{
    let ghost orig = out@;
    let mut i: usize = 0;
    proof {
        lemma_service_views(s.services@);
        assert(s.services@.subrange(0, 0) =~= Seq::<Service>::empty());
        assert(services_fields(service_views(s.services@.subrange(0, 0))).len() == 0);
        assert(out@ =~= orig
            + fields_enc(services_fields(service_views(s.services@.subrange(0, 0)))));
    }
    while i < s.services.len()
        invariant
            i <= s.services@.len(),
            out@ == orig
                + fields_enc(services_fields(service_views(s.services@.subrange(0, i as int)))),
        decreases s.services@.len() - i,
    {
        let ghost pre = s.services@.subrange(0, i as int);
        let mut sb: Vec<u8> = Vec::new();
        encode_service(&mut sb, &s.services[i]);
        encode_field_len(out, 1, &sb);
        proof {
            let x = s.services@[i as int];
            assert(s.services@.subrange(0, i + 1) =~= pre.push(x));
            lemma_service_views(pre);
            lemma_service_views(pre.push(x));
            assert(service_views(pre.push(x)) =~= service_views(pre).push(x@));
            lemma_services_fields(service_views(pre));
            lemma_services_fields(service_views(pre).push(x@));
            let lhs = services_fields(service_views(pre).push(x@));
            let rhs = services_fields(service_views(pre))
                + seq![GField::Len(1u32, enc_service(x@))];
            assert forall|j: int| 0 <= j < lhs.len() implies lhs[j] == rhs[j] by {
                if j < pre.len() {
                    assert(service_views(pre).push(x@)[j] == service_views(pre)[j]);
                } else {
                    assert(service_views(pre).push(x@)[j] == x@);
                }
            };
            assert(lhs =~= rhs);
            lemma_fields_enc_concat(services_fields(service_views(pre)),
                seq![GField::Len(1u32, enc_service(x@))]);
            lemma_fields_enc_single(GField::Len(1u32, enc_service(x@)));
            assert(out@ =~= orig
                + fields_enc(services_fields(service_views(s.services@.subrange(0, i + 1)))));
        }
        i = i + 1;
    }
    proof {
        assert(s.services@.subrange(0, s.services@.len() as int) =~= s.services@);
    }
}

/// Decodes a service catalogue: succeeds exactly on buffers whose
/// modelled fields mean one.
pub fn decode_services(buf: &Vec<u8>) -> (r: Result<Services, RpcError>)
    ensures
        r matches Ok(m) ==> spec_decode_services(buf@) == Some(m@),
        r is Err ==> spec_decode_services(buf@) is None,
        r matches Err(e) ==> e is Encoding,
{
    let fields = match decode_fields(buf) {
        Ok(fs) => fs,
        Err(e) => {
            return Err(e);
        },
    };
    let ghost fvs = wire_views(fields@);
    proof {
        lemma_wire_views(fields@);
    }
    let mut m = Services { services: Vec::new() };
    let mut i: usize = 0;
    proof {
        assert(fvs.skip(0) =~= fvs);
        assert(service_views(m.services@) =~= Seq::<ServiceV>::empty());
        assert(m@ =~= ServicesV { services: Seq::empty() });
    }
    while i < fields.len()
        invariant
            i <= fields@.len(),
            fvs == wire_views(fields@),
            spec_parse_fields(buf@) == Some(fvs),
            fvs.len() == fields@.len(),
            forall|j: int| 0 <= j < fields@.len() ==> fvs[j] == fields@[j]@,
            services_fold(fvs, ServicesV { services: Seq::empty() })
                == services_fold(fvs.skip(i as int), m@),
        decreases fields@.len() - i,
    {
        let ghost cur = m@;
        proof {
            assert(fvs.skip(i as int)[0] == fvs[i as int]);
            assert(fvs.skip(i as int).drop_first() =~= fvs.skip(i + 1));
        }
        match &fields[i] {
            WireField::Len(n, p) => {
                if *n == 1 {
                    let s = match decode_service(p) {
                        Ok(s) => s,
                        Err(e) => {
                            proof {
                                assert(services_apply(cur, fvs[i as int]) is None);
                                assert(services_fold(fvs,
                                    ServicesV { services: Seq::empty() }) is None);
                            }
                            return Err(e);
                        },
                    };
                    let ghost old_ss = m.services@;
                    m.services.push(s);
                    proof {
                        lemma_service_views(old_ss);
                        lemma_service_views(old_ss.push(s));
                        assert(service_views(old_ss.push(s))
                            =~= service_views(old_ss).push(s@));
                    }
                }
            },
            _ => {},
        }
        proof {
            assert(services_apply(cur, fvs[i as int]) == Some(m@));
        }
        i = i + 1;
    }
    proof {
        assert(fvs.skip(i as int).len() == 0);
    }
    Ok(m)
}

} // verus!