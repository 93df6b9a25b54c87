//! Tagged wire fields: the framing grammar of protocol-buffer messages.
//! A message body is a run of fields, each a varint tag (field number and
//! wire type) followed by a payload that is a varint, a little-endian
//! 32- or 64-bit scalar, or length-prefixed bytes.

use vstd::prelude::*;

use crate::error::RpcError;
use crate::varint::{varint_enc, spec_parse_varint, lemma_parse_varint_enc,
    lemma_parse_varint_sound, encode_varint, decode_varint};

verus! {

/// One wire field at the specification level.
pub enum GField {
    Varint(u32, u64),
    Fixed64(u32, u64),
    Len(u32, Seq<u8>),
    Fixed32(u32, u32),
}

/// The field number of a field.
pub open spec fn field_num(f: GField) -> u32 {
    match f {
        GField::Varint(n, _) => n,
        GField::Fixed64(n, _) => n,
        GField::Len(n, _) => n,
        GField::Fixed32(n, _) => n,
    }
}

/// The wire type of a field, as carried in the tag's low three bits.
pub open spec fn wire_type(f: GField) -> nat {
    match f {
        GField::Varint(_, _) => 0,
        GField::Fixed64(_, _) => 1,
        GField::Len(_, _) => 2,
        GField::Fixed32(_, _) => 5,
    }
}

/// Greatest representable field number: tags keep 29 bits for it.
pub open spec fn max_field_num() -> nat {
    0x1FFFFFFF
}

/// A field the wire can carry: a field number in range, and a payload
/// whose length a varint length prefix can express.
pub open spec fn field_valid(f: GField) -> bool {
    &&& 1 <= field_num(f) <= max_field_num()
    &&& (f matches GField::Len(_, p) ==> p.len() <= u64::MAX)
}

pub open spec fn fields_valid(fs: Seq<GField>) -> bool {
    forall|i: int| 0 <= i < fs.len() ==> field_valid(#[trigger] fs[i])
}

/// Little-endian bytes of `n`, `k` bytes wide.
pub open spec fn le_bytes(n: nat, k: nat) -> Seq<u8>
    decreases k,
{
    if k == 0 {
        Seq::empty()
    } else {
        seq![(n % 256) as u8] + le_bytes(n / 256, (k - 1) as nat)
    }
}

/// The value of a little-endian byte string.
pub open spec fn le_val(s: Seq<u8>) -> nat
    decreases s.len(),
{
    if s.len() == 0 {
        0nat
    } else {
        (s[0] + 256 * le_val(s.drop_first())) as nat
    }
}

/// 256 raised to `k`.
pub open spec fn pow256(k: nat) -> nat
    decreases k,
{
    if k == 0 {
        1nat
    } else {
        256 * pow256((k - 1) as nat)
    }
}

pub proof fn lemma_le_bytes(n: nat, k: nat)
    requires
        n < pow256(k),
    ensures
        le_bytes(n, k).len() == k,
        le_val(le_bytes(n, k)) == n,
    decreases k,
{
    if k > 0 {
        assert(n / 256 < pow256((k - 1) as nat)) by (nonlinear_arith)
            requires n < 256 * pow256((k - 1) as nat),
        ;
        lemma_le_bytes(n / 256, (k - 1) as nat);
        assert(le_bytes(n, k).drop_first() =~= le_bytes(n / 256, (k - 1) as nat));
    }
}

pub proof fn lemma_le_val_bound(s: Seq<u8>)
    ensures
        le_val(s) < pow256(s.len()),
    decreases s.len(),
{
    if s.len() > 0 {
        lemma_le_val_bound(s.drop_first());
        assert(s[0] + 256 * le_val(s.drop_first()) < 256 * pow256((s.len() - 1) as nat))
            by (nonlinear_arith)
            requires
                s[0] < 256,
                le_val(s.drop_first()) < pow256((s.len() - 1) as nat),
        ;
    }
}

pub proof fn lemma_pow256_bounds()
    ensures
        pow256(4) == 0x100000000,
        pow256(8) == 0x10000000000000000,
    decreases 0nat,
{
    reveal_with_fuel(pow256, 9);
}

/// The tag varint value of a field.
pub open spec fn tag_of(f: GField) -> nat {
    (8 * field_num(f) + wire_type(f)) as nat
}

/// The byte encoding of one field: tag varint, then payload.
pub open spec fn field_enc(f: GField) -> Seq<u8> {
    varint_enc(tag_of(f)) + match f {
        GField::Varint(_, v) => varint_enc(v as nat),
        GField::Fixed64(_, v) => le_bytes(v as nat, 8),
        GField::Len(_, p) => varint_enc(p.len()) + p,
        GField::Fixed32(_, v) => le_bytes(v as nat, 4),
    }
}

/// The byte encoding of a run of fields.
pub open spec fn fields_enc(fs: Seq<GField>) -> Seq<u8>
    decreases fs.len(),
{
    if fs.len() == 0 {
        Seq::empty()
    } else {
        field_enc(fs[0]) + fields_enc(fs.drop_first())
    }
}

pub proof fn lemma_fields_enc_concat(x: Seq<GField>, y: Seq<GField>)
    ensures
        fields_enc(x + y) == fields_enc(x) + fields_enc(y),
    decreases x.len(),
{
    if x.len() == 0 {
        assert(x + y =~= y);
        assert(fields_enc(x + y) =~= fields_enc(x) + fields_enc(y));
    } else {
        assert((x + y).drop_first() =~= x.drop_first() + y);
        lemma_fields_enc_concat(x.drop_first(), y);
        assert(fields_enc(x + y) =~= fields_enc(x) + fields_enc(y));
    }
}

pub proof fn lemma_fields_enc_single(f: GField)
    ensures
        fields_enc(seq![f]) == field_enc(f),
{
    let s = seq![f];
    assert(s.drop_first() =~= Seq::<GField>::empty());
    assert(fields_enc(s) == field_enc(f) + fields_enc(s.drop_first()));
    assert(fields_enc(s) =~= field_enc(f));
}

/// Parse one field from the front of `s`: the field and the bytes consumed.
pub open spec fn spec_parse_field(s: Seq<u8>) -> Option<(GField, int)> {
    match spec_parse_varint(s) {
        None => None,
        Some((tag, c)) => {
            let wt = tag % 8;
            let num = tag / 8;
            if num < 1 || num > max_field_num() {
                None
            } else if wt == 0 {
                match spec_parse_varint(s.skip(c)) {
                    None => None,
                    Some((v, d)) => if v <= u64::MAX {
                        Some((GField::Varint(num as u32, v as u64), c + d))
                    } else {
                        None
                    },
                }
            } else if wt == 1 {
                if s.len() >= c + 8 {
                    Some((GField::Fixed64(num as u32, le_val(s.subrange(c, c + 8)) as u64), c + 8))
                } else {
                    None
                }
            } else if wt == 2 {
                match spec_parse_varint(s.skip(c)) {
                    None => None,
                    Some((l, d)) => if l <= u64::MAX && c + d + l <= s.len() {
                        Some((GField::Len(num as u32, s.subrange(c + d, c + d + l)), c + d + l))
                    } else {
                        None
                    },
                }
            } else if wt == 5 {
                if s.len() >= c + 4 {
                    Some((GField::Fixed32(num as u32, le_val(s.subrange(c, c + 4)) as u32), c + 4))
                } else {
                    None
                }
            } else {
                None
            }
        },
    }
}

/// Parse a whole buffer as a run of fields.
pub open spec fn spec_parse_fields(s: Seq<u8>) -> Option<Seq<GField>>
    decreases s.len(),
{
    if s.len() == 0 {
        Some(Seq::empty())
    } else {
        match spec_parse_field(s) {
            None => None,
            Some((f, c)) => if 1 <= c <= s.len() {
                match spec_parse_fields(s.skip(c)) {
                    None => None,
                    Some(fs) => Some(seq![f] + fs),
                }
            } else {
                None
            },
        }
    }
}

proof fn lemma_tag_split(n: nat, wt: nat)
    requires
        wt < 8,
    ensures
        (8 * n + wt) % 8 == wt,
        (8 * n + wt) / 8 == n,
{
    assert((8 * n + wt) % 8 == wt && (8 * n + wt) / 8 == n) by (nonlinear_arith)
        requires wt < 8,
    ;
}

/// Parsing one field is left inverse to encoding it.
pub proof fn lemma_parse_field_enc(f: GField, rest: Seq<u8>)
    requires
        field_valid(f),
    ensures
        spec_parse_field(field_enc(f) + rest) == Some((f, field_enc(f).len() as int)),
{
    let s = field_enc(f) + rest;
    let tag = tag_of(f);
    lemma_tag_split(field_num(f) as nat, wire_type(f));
    let payload = match f {
        GField::Varint(_, v) => varint_enc(v as nat),
        GField::Fixed64(_, v) => le_bytes(v as nat, 8),
        GField::Len(_, p) => varint_enc(p.len()) + p,
        GField::Fixed32(_, v) => le_bytes(v as nat, 4),
    };
    assert(s =~= varint_enc(tag) + (payload + rest));
    lemma_parse_varint_enc(tag, payload + rest);
    let c = varint_enc(tag).len() as int;
    assert(s.skip(c) =~= payload + rest);
    match f {
        GField::Varint(_, v) => {
            lemma_parse_varint_enc(v as nat, rest);
        },
        GField::Fixed64(_, v) => {
            lemma_pow256_bounds();
            lemma_le_bytes(v as nat, 8);
            assert(s.subrange(c, c + 8) =~= le_bytes(v as nat, 8));
        },
        GField::Len(_, p) => {
            lemma_parse_varint_enc(p.len(), p + rest);
            assert(s.skip(c) =~= varint_enc(p.len()) + (p + rest));
            let d = varint_enc(p.len()).len() as int;
            assert(s.subrange(c + d, c + d + p.len()) =~= p);
        },
        GField::Fixed32(_, v) => {
            lemma_pow256_bounds();
            lemma_le_bytes(v as nat, 4);
            assert(s.subrange(c, c + 4) =~= le_bytes(v as nat, 4));
        },
    }
}

/// Parsing a whole buffer of encoded fields yields those fields.
pub proof fn lemma_parse_fields_enc(fs: Seq<GField>)
    requires
        fields_valid(fs),
    ensures
        spec_parse_fields(fields_enc(fs)) == Some(fs),
    decreases fs.len(),
{
    if fs.len() == 0 {
        assert(fs =~= Seq::<GField>::empty());
    } else {
        let f = fs[0];
        let rest = fs.drop_first();
        let s = fields_enc(fs);
        lemma_parse_field_enc(f, fields_enc(rest));
        let c = field_enc(f).len() as int;
        assert(field_enc(f).len() >= 1) by {
            assert(varint_enc(tag_of(f)).len() >= 1);
        };
        assert(s.skip(c) =~= fields_enc(rest));
        lemma_parse_fields_enc(rest);
        assert(seq![f] + rest =~= fs);
    }
}

pub proof fn lemma_le_bytes_of_val(s: Seq<u8>)
    ensures
        le_bytes(le_val(s), s.len()) == s,
    decreases s.len(),
{
    if s.len() > 0 {
        lemma_le_bytes_of_val(s.drop_first());
        let m = le_val(s.drop_first());
        assert((s[0] + 256 * m) % 256 == s[0] && (s[0] + 256 * m) / 256 == m) by (nonlinear_arith)
            requires s[0] < 256,
        ;
        assert(le_bytes(le_val(s), s.len()) =~= s);
    }
}

/// A successful field parse consumes a prefix that is exactly the
/// encoding of the parsed field, which is valid.
pub proof fn lemma_parse_field_sound(s: Seq<u8>)
    requires
        spec_parse_field(s) is Some,
    ensures
        ({
            let (f, c) = spec_parse_field(s)->Some_0;
            &&& 1 <= c <= s.len()
            &&& s.subrange(0, c) == field_enc(f)
            &&& field_valid(f)
        }),
{
    let (f, c) = spec_parse_field(s)->Some_0;
    let (tag, ct) = spec_parse_varint(s)->Some_0;
    lemma_parse_varint_sound(s);
    let wt = tag % 8;
    let num = tag / 8;
    assert(tag == 8 * num + wt);
    assert(tag_of(f) == tag);
    if wt == 0 {
        let (v, d) = spec_parse_varint(s.skip(ct))->Some_0;
        lemma_parse_varint_sound(s.skip(ct));
        assert(s.skip(ct).subrange(0, d) =~= s.subrange(ct, ct + d));
        assert(s.subrange(0, c) =~= s.subrange(0, ct) + s.subrange(ct, ct + d));
    } else if wt == 1 {
        let p = s.subrange(ct, ct + 8);
        lemma_le_val_bound(p);
        lemma_pow256_bounds();
        lemma_le_bytes_of_val(p);
        assert(s.subrange(0, c) =~= s.subrange(0, ct) + p);
    } else if wt == 2 {
        let (l, d) = spec_parse_varint(s.skip(ct))->Some_0;
        lemma_parse_varint_sound(s.skip(ct));
        assert(s.skip(ct).subrange(0, d) =~= s.subrange(ct, ct + d));
        let p = s.subrange(ct + d, ct + d + l);
        assert(s.subrange(0, c) =~= (s.subrange(0, ct) + s.subrange(ct, ct + d)) + p);
    } else {
        let p = s.subrange(ct, ct + 4);
        lemma_le_val_bound(p);
        lemma_pow256_bounds();
        lemma_le_bytes_of_val(p);
        assert(s.subrange(0, c) =~= s.subrange(0, ct) + p);
    }
}

/// A successful parse of a whole buffer means the buffer is exactly the
/// encoding of the parsed fields, which are valid.
pub proof fn lemma_parse_fields_sound(s: Seq<u8>)
    requires
        spec_parse_fields(s) is Some,
    ensures
        fields_enc(spec_parse_fields(s)->Some_0) == s,
        fields_valid(spec_parse_fields(s)->Some_0),
    decreases s.len(),
{
    let fs = spec_parse_fields(s)->Some_0;
    if s.len() == 0 {
        assert(fields_enc(fs) =~= s);
        assert(fields_valid(fs));
    } else {
        let (f, c) = spec_parse_field(s)->Some_0;
        lemma_parse_field_sound(s);
        lemma_parse_fields_sound(s.skip(c));
        let rest = spec_parse_fields(s.skip(c))->Some_0;
        assert(fs == seq![f] + rest);
        assert(fs[0] == f);
        assert(fs.drop_first() =~= rest);
        assert(fields_enc(fs) == field_enc(f) + fields_enc(rest));
        assert(fields_enc(fs) =~= s.subrange(0, c) + s.skip(c));
        assert(s =~= s.subrange(0, c) + s.skip(c));
        assert(forall|i: int| 0 <= i < fs.len() ==> field_valid(#[trigger] fs[i])) by {
            assert(forall|i: int| 1 <= i < fs.len() ==> fs[i] == rest[i - 1]);
        };
    }
}

/// One wire field at the executable level.
pub enum WireField {
    Varint(u32, u64),
    Fixed64(u32, u64),
    Len(u32, Vec<u8>),
    Fixed32(u32, u32),
}

impl View for WireField {
    type V = GField;

    open spec fn view(&self) -> GField {
        match self {
            WireField::Varint(n, v) => GField::Varint(*n, *v),
            WireField::Fixed64(n, v) => GField::Fixed64(*n, *v),
            WireField::Len(n, p) => GField::Len(*n, p@),
            WireField::Fixed32(n, v) => GField::Fixed32(*n, *v),
        }
    }
}

/// The field views of a run of executable fields.
pub open spec fn wire_views(s: Seq<WireField>) -> Seq<GField>
    decreases s.len(),
{
    if s.len() == 0 {
        Seq::empty()
    } else {
        seq![s[0]@] + wire_views(s.drop_first())
    }
}

pub proof fn lemma_wire_views(s: Seq<WireField>)
    ensures
        wire_views(s).len() == s.len(),
        forall|i: int| 0 <= i < s.len() ==> wire_views(s)[i] == s[i]@,
    decreases s.len(),
{
    if s.len() > 0 {
        lemma_wire_views(s.drop_first());
        assert(forall|i: int| 1 <= i < s.len()
            ==> wire_views(s)[i] == wire_views(s.drop_first())[i - 1]);
    }
}

pub proof fn lemma_wire_views_push(s: Seq<WireField>, f: WireField)
    ensures
        wire_views(s.push(f)) == wire_views(s) + seq![f@],
    decreases s.len(),
{
    if s.len() == 0 {
        assert(s.push(f).drop_first() =~= Seq::<WireField>::empty());
        assert(s.push(f)[0] == f);
        assert(wire_views(s.push(f)) == seq![f@] + wire_views(Seq::<WireField>::empty()));
        assert(wire_views(s.push(f)) =~= wire_views(s) + seq![f@]);
    } else {
        assert(s.push(f)[0] == s[0]);
        assert(s.push(f).drop_first() =~= s.drop_first().push(f));
        lemma_wire_views_push(s.drop_first(), f);
        assert(wire_views(s.push(f)) =~= wire_views(s) + seq![f@]);
    }
}

/// Appends the encoding of a varint field.
pub fn encode_field_varint(out: &mut Vec<u8>, num: u32, v: u64)
    requires
        1 <= num <= max_field_num(),
    ensures
        final(out)@ == old(out)@ + field_enc(GField::Varint(num, v)),
{
    let tag: u64 = (num as u64) * 8;
    encode_varint(out, tag);
    encode_varint(out, v);
    proof {
        assert(tag == tag_of(GField::Varint(num, v)));
        assert(out@ =~= old(out)@ + field_enc(GField::Varint(num, v)));
    }
}

/// Appends the encoding of a length-prefixed field.
pub fn encode_field_len(out: &mut Vec<u8>, num: u32, payload: &Vec<u8>)
    requires
        1 <= num <= max_field_num(),
    ensures
        final(out)@ == old(out)@ + field_enc(GField::Len(num, payload@)),
{
    let tag: u64 = (num as u64) * 8 + 2;
    encode_varint(out, tag);
    encode_varint(out, payload.len() as u64);
    out.extend_from_slice(payload.as_slice());
    proof {
        assert(tag == tag_of(GField::Len(num, payload@)));
        assert(out@ =~= old(out)@ + field_enc(GField::Len(num, payload@)));
    }
}

/// Appends `k` little-endian bytes of `v`.
pub(crate) fn encode_le(out: &mut Vec<u8>, v: u64, k: usize)
    requires
        (v as nat) < pow256(k as nat),
    ensures
        final(out)@ == old(out)@ + le_bytes(v as nat, k as nat),
{
    let ghost orig = out@;
    let mut cur: u64 = v;
    let mut left: usize = k;
    let ghost mut done: Seq<u8> = Seq::empty();
    assert(out@ =~= orig + done);
    assert(le_bytes(v as nat, k as nat) =~= done + le_bytes(cur as nat, left as nat));
    while left > 0
        invariant
            out@ == orig + done,
            le_bytes(v as nat, k as nat) == done + le_bytes(cur as nat, left as nat),
            (cur as nat) < pow256(left as nat),
        decreases left,
    {
        let b: u8 = (cur % 256) as u8;
        out.push(b);
        proof {
            done = done + seq![b];
            assert(out@ =~= orig + done);
            assert(le_bytes(cur as nat, left as nat)
                == seq![b] + le_bytes((cur / 256) as nat, (left - 1) as nat));
            assert(le_bytes(v as nat, k as nat)
                =~= done + le_bytes((cur / 256) as nat, (left - 1) as nat));
            assert((cur as nat) / 256 < pow256((left - 1) as nat)) by (nonlinear_arith)
                requires (cur as nat) < 256 * pow256((left - 1) as nat),
            ;
        }
        cur = cur / 256;
        left = left - 1;
    }
    proof {
        assert(le_bytes(cur as nat, 0) =~= Seq::empty());
        assert(out@ =~= orig + done);
    }
}

/// Appends the encoding of a 64-bit fixed-width field.
pub fn encode_field_fixed64(out: &mut Vec<u8>, num: u32, v: u64)
    requires
        1 <= num <= max_field_num(),
    ensures
        final(out)@ == old(out)@ + field_enc(GField::Fixed64(num, v)),
{
    let tag: u64 = (num as u64) * 8 + 1;
    encode_varint(out, tag);
    proof {
        lemma_pow256_bounds();
    }
    encode_le(out, v, 8);
    proof {
        assert(tag == tag_of(GField::Fixed64(num, v)));
        assert(out@ =~= old(out)@ + field_enc(GField::Fixed64(num, v)));
    }
}

/// Appends the encoding of a 32-bit fixed-width field.
pub fn encode_field_fixed32(out: &mut Vec<u8>, num: u32, v: u32)
    requires
        1 <= num <= max_field_num(),
    ensures
        final(out)@ == old(out)@ + field_enc(GField::Fixed32(num, v)),
{
    let tag: u64 = (num as u64) * 8 + 5;
    encode_varint(out, tag);
    proof {
        lemma_pow256_bounds();
    }
    encode_le(out, v as u64, 4);
    proof {
        assert(tag == tag_of(GField::Fixed32(num, v)));
        assert(out@ =~= old(out)@ + field_enc(GField::Fixed32(num, v)));
    }
}

/// Copies `buf[from..to]` into a fresh vector.
pub fn vec_subrange(buf: &Vec<u8>, from: usize, to: usize) -> (r: Vec<u8>)
    requires
        from <= to <= buf@.len(),
    ensures
        r@ == buf@.subrange(from as int, to as int),
{
    let mut r: Vec<u8> = Vec::new();
    let mut i: usize = from;
    while i < to
        invariant
            from <= i <= to <= buf@.len(),
            r@ == buf@.subrange(from as int, i as int),
        decreases to - i,
    {
        r.push(buf[i]);
        proof {
            assert(r@ =~= buf@.subrange(from as int, i + 1));
        }
        i = i + 1;
    }
    r
}

/// Reads `k` (at most 8) little-endian bytes at `pos`.
pub(crate) fn decode_le(buf: &Vec<u8>, pos: usize, k: usize) -> (r: u64)
    requires
        k <= 8,
        pos + k <= buf@.len(),
    ensures
        r as nat == le_val(buf@.subrange(pos as int, pos + k)),
{
    proof {
        lemma_pow256_bounds();
    }
    let blen: usize = buf.len();
    let mut i: usize = k;
    let mut v: u64 = 0;
    while i > 0
        invariant
            i <= k <= 8,
            pos + k <= buf@.len(),
            blen == buf@.len(),
            v as nat == le_val(buf@.subrange(pos + i, pos + k)),
            (v as nat) < pow256((k - i) as nat),
            pow256(8) == 0x10000000000000000,
        decreases i,
    {
        let b: u8 = buf[pos + (i - 1)];
        proof {
            let s = buf@.subrange(pos + i - 1, pos + k);
            assert(s[0] == b);
            assert(s.drop_first() =~= buf@.subrange(pos + i, pos + k));
            assert(le_val(s) == b + 256 * le_val(s.drop_first()));
            lemma_pow256_mono((k - i + 1) as nat, 8nat);
            assert(b + 256 * (v as nat) < 256 * pow256((k - i) as nat)) by (nonlinear_arith)
                requires
                    b < 256,
                    (v as nat) < pow256((k - i) as nat),
            ;
        }
        v = v * 256 + (b as u64);
        i = i - 1;
    }
    v
}

proof fn lemma_pow256_mono(a: nat, b: nat)
    requires
        a <= b,
    ensures
        pow256(a) <= pow256(b),
    decreases b,
{
    if a < b {
        lemma_pow256_mono(a, (b - 1) as nat);
        assert(256 * pow256((b - 1) as nat) >= pow256((b - 1) as nat)) by (nonlinear_arith);
    }
}

/// Reads one field from `buf` at `pos`. Fails exactly when no field
/// parses there.
pub fn decode_field(buf: &Vec<u8>, pos: usize) -> (r: Result<(WireField, usize), RpcError>)
    requires
        pos <= buf@.len(),
    ensures
        r matches Ok(fp) ==> {
            &&& pos < fp.1 <= buf@.len()
            &&& spec_parse_field(buf@.skip(pos as int)) == Some((fp.0@, fp.1 - pos))
        },
        r is Err ==> spec_parse_field(buf@.skip(pos as int)) is None,
        r matches Err(e) ==> e is Encoding,
{
    let ghost s = buf@.skip(pos as int);
    let (tag, p1) = match decode_varint(buf, pos) {
        Ok(tc) => tc,
        Err(e) => {
            proof {
                if spec_parse_varint(s) is Some {
                    let (t, c) = spec_parse_varint(s)->Some_0;
                    assert(t > u64::MAX);
                    assert(t / 8 > max_field_num()) by (nonlinear_arith)
                        requires t > 0xFFFFFFFFFFFFFFFFnat,
                    ;
                }
            }
            return Err(e);
        },
    };
    let ghost c = p1 - pos;
    let wt: u64 = tag % 8;
    let num64: u64 = tag / 8;
    if num64 < 1 || num64 > 0x1FFFFFFF {
        return Err(RpcError::Encoding("field number out of range".to_owned()));
    }
    let num: u32 = num64 as u32;
    proof {
        assert(s.skip(c) =~= buf@.skip(p1 as int));
    }
    if wt == 0 {
        match decode_varint(buf, p1) {
            Ok((v, p2)) => Ok((WireField::Varint(num, v), p2)),
            Err(e) => {
                proof {
                    if spec_parse_varint(s.skip(c)) is Some {
                        assert(spec_parse_varint(s.skip(c))->Some_0.0 > u64::MAX);
                    }
                }
                Err(e)
            },
        }
    } else if wt == 1 {
        if buf.len() - p1 < 8 {
            return Err(RpcError::Encoding("truncated fixed64 field".to_owned()));
        }
        let v: u64 = decode_le(buf, p1, 8);
        proof {
            assert(buf@.subrange(p1 as int, p1 + 8) =~= s.subrange(c, c + 8));
        }
        Ok((WireField::Fixed64(num, v), p1 + 8))
    } else if wt == 2 {
        let blen: usize = buf.len();
        let (l, p2) = match decode_varint(buf, p1) {
            Ok(lc) => lc,
            Err(e) => {
                proof {
                    if spec_parse_varint(s.skip(c)) is Some {
                        let (lv, d) = spec_parse_varint(s.skip(c))->Some_0;
                        lemma_parse_varint_sound(s.skip(c));
                        assert(d >= 1);
                        assert(lv > u64::MAX);
                        assert(s.len() <= blen);
                        assert(blen <= usize::MAX);
                        assert(usize::MAX <= u64::MAX);
                        assert(c + d + lv > s.len());
                    }
                }
                return Err(e);
            },
        };
        let remaining: usize = buf.len() - p2;
        if l > remaining as u64 {
            proof {
                let (lv, d) = spec_parse_varint(s.skip(c))->Some_0;
                assert(c + d + lv > s.len());
            }
            return Err(RpcError::Encoding("truncated length-prefixed field".to_owned()));
        }
        let end: usize = p2 + (l as usize);
        let payload = vec_subrange(buf, p2, end);
        proof {
            let (lv, d) = spec_parse_varint(s.skip(c))->Some_0;
            assert(s.subrange(c + d, c + d + lv) =~= buf@.subrange(p2 as int, end as int));
        }
        Ok((WireField::Len(num, payload), end))
    } else if wt == 5 {
        if buf.len() - p1 < 4 {
            return Err(RpcError::Encoding("truncated fixed32 field".to_owned()));
        }
        let v: u64 = decode_le(buf, p1, 4);
        proof {
            lemma_pow256_bounds();
            assert(buf@.subrange(p1 as int, p1 + 4) =~= s.subrange(c, c + 4));
            lemma_le_val_bound(s.subrange(c, c + 4));
        }
        Ok((WireField::Fixed32(num, v as u32), p1 + 4))
    } else {
        Err(RpcError::Encoding("unsupported wire type".to_owned()))
    }
}

/// Splits a whole buffer into its wire fields. Fails exactly when the
/// buffer is not a well-formed run of fields.
pub fn decode_fields(buf: &Vec<u8>) -> (r: Result<Vec<WireField>, RpcError>)
    ensures
        r matches Ok(fs) ==> spec_parse_fields(buf@) == Some(wire_views(fs@)),
        r is Err ==> spec_parse_fields(buf@) is None,
        r matches Err(e) ==> e is Encoding,
{
    let mut fields: Vec<WireField> = Vec::new();
    let mut pos: usize = 0;
    proof {
        assert(buf@.skip(0) =~= buf@);
        assert(wire_views(fields@) =~= Seq::<GField>::empty());
        if spec_parse_fields(buf@) is Some {
            let fs2 = spec_parse_fields(buf@)->Some_0;
            assert(wire_views(fields@) + fs2 =~= fs2);
        }
    }
    while pos < buf.len()
        invariant
            pos <= buf@.len(),
            spec_parse_fields(buf@.skip(pos as int)) matches Some(fs2)
                ==> spec_parse_fields(buf@) == Some(wire_views(fields@) + fs2),
            spec_parse_fields(buf@.skip(pos as int)) is None
                ==> spec_parse_fields(buf@) is None,
        decreases buf@.len() - pos,
    {
        let ghost t = buf@.skip(pos as int);
        match decode_field(buf, pos) {
            Err(e) => {
                proof {
                    assert(t.len() > 0);
                    assert(spec_parse_fields(t) is None);
                }
                return Err(e);
            },
            Ok((f, p2)) => {
                proof {
                    let c = p2 - pos;
                    assert(t.skip(c) =~= buf@.skip(p2 as int));
                    assert(t.len() > 0);
                    // unfolding spec_parse_fields at t
                    if spec_parse_fields(buf@.skip(p2 as int)) is Some {
                        let fs3 = spec_parse_fields(buf@.skip(p2 as int))->Some_0;
                        assert(spec_parse_fields(t) == Some(seq![f@] + fs3));
                        lemma_wire_views_push(fields@, f);
                        assert(wire_views(fields@) + (seq![f@] + fs3)
                            =~= wire_views(fields@.push(f)) + fs3);
                    } else {
                        assert(spec_parse_fields(t) is None);
                    }
                }
                fields.push(f);
                pos = p2;
            },
        }
    }
    proof {
        assert(buf@.skip(pos as int).len() == 0);
        assert(spec_parse_fields(buf@.skip(pos as int)) == Some(Seq::<GField>::empty()));
        assert(wire_views(fields@) + Seq::<GField>::empty() =~= wire_views(fields@));
    }
    Ok(fields)
}

} // verus!
