//! Base-128 variable-length integers, the primitive wire form of the
//! protocol: every unsigned integer, length prefix and field tag travels
//! as a canonical little-endian varint.

use vstd::prelude::*;

use crate::error::RpcError;

verus! {

/// The canonical varint encoding of `n`: seven value bits per byte,
/// least significant group first, the high bit of a byte set exactly
/// when another byte follows.
pub open spec fn varint_enc(n: nat) -> Seq<u8>
    decreases n,
{
    if n < 128 {
        seq![n as u8]
    } else {
        seq![(n % 128 + 128) as u8] + varint_enc(n / 128)
    }
}

/// Parse one canonical varint from the front of `s`: the value and the
/// number of bytes consumed. `None` on an empty or truncated buffer and
/// on a non-canonical form (a continuation into a zero remainder).
pub open spec fn spec_parse_varint(s: Seq<u8>) -> Option<(nat, int)>
    decreases s.len(),
{
    if s.len() == 0 {
        None
    } else if s[0] < 128 {
        Some((s[0] as nat, 1))
    } else {
        match spec_parse_varint(s.drop_first()) {
            Some((m, c)) => if m == 0 {
                None
            } else {
                Some((((s[0] - 128) + 128 * m) as nat, c + 1))
            },
            None => None,
        }
    }
}

/// Parsing is left inverse to encoding, whatever follows the encoding.
pub proof fn lemma_parse_varint_enc(n: nat, rest: Seq<u8>)
    ensures
        spec_parse_varint(varint_enc(n) + rest) == Some((n, varint_enc(n).len() as int)),
    decreases n,
{
    let s = varint_enc(n) + rest;
    if n < 128 {
        assert(s[0] == n as u8);
    } else {
        let b: u8 = (n % 128 + 128) as u8;
        assert(s[0] == b);
        lemma_parse_varint_enc(n / 128, rest);
        assert(s.drop_first() =~= varint_enc(n / 128) + rest);
        let m = n / 128;
        assert(m != 0);
        assert((b - 128) + 128 * m == n);
    }
}

/// A successful parse consumes between 1 byte and the whole buffer,
/// and the consumed prefix is the canonical encoding of the value.
pub proof fn lemma_parse_varint_sound(s: Seq<u8>)
    requires
        spec_parse_varint(s) is Some,
    ensures
        1 <= spec_parse_varint(s)->Some_0.1 <= s.len(),
        s.subrange(0, spec_parse_varint(s)->Some_0.1)
            == varint_enc(spec_parse_varint(s)->Some_0.0),
    decreases s.len(),
{
    let (v, c) = spec_parse_varint(s)->Some_0;
    if s[0] < 128 {
        assert(s.subrange(0, 1) =~= seq![s[0]]);
    } else {
        let t = s.drop_first();
        lemma_parse_varint_sound(t);
        let (m, d) = spec_parse_varint(t)->Some_0;
        assert(v == (s[0] - 128) + 128 * m && c == d + 1);
        assert(v % 128 == (s[0] - 128) && v / 128 == m) by {
            assert(0 <= s[0] - 128 < 128);
        };
        assert(v >= 128) by {
            assert(m >= 1);
            assert(128 * m >= 128) by (nonlinear_arith)
                requires m >= 1nat,
            ;
        };
        assert(t.subrange(0, d) == varint_enc(m));
        assert(s.subrange(0, c) =~= seq![s[0]] + t.subrange(0, d));
        assert(varint_enc(v) == seq![(v % 128 + 128) as u8] + varint_enc(v / 128));
        assert((v % 128 + 128) as u8 == s[0]);
    }
}

/// A parse that starts on a continuation byte yields at least 128.
proof fn lemma_parse_varint_cont(s: Seq<u8>)
    requires
        s.len() > 0,
        s[0] >= 128,
        spec_parse_varint(s) is Some,
    ensures
        spec_parse_varint(s)->Some_0.0 >= 128,
{
    let (m, _) = spec_parse_varint(s.drop_first())->Some_0;
    assert(m >= 1);
    assert(128 * m >= 128) by (nonlinear_arith)
        requires m >= 1nat,
    ;
}

/// 128 raised to `k`, the weight of the `k`-th varint byte.
pub open spec fn pow128(k: nat) -> nat
    decreases k,
{
    if k == 0 {
        1nat
    } else {
        128 * pow128((k - 1) as nat)
    }
}

proof fn lemma_pow128_bounds()
    ensures
        pow128(8) == 0x100000000000000,
        pow128(9) == 0x8000000000000000,
{
    reveal_with_fuel(pow128, 10);
}

/// Appends the canonical varint encoding of `n` to `out`.
pub fn encode_varint(out: &mut Vec<u8>, n: u64)
    ensures
        final(out)@ == old(out)@ + varint_enc(n as nat),
{
    let ghost orig = out@;
    let mut cur: u64 = n;
    let ghost mut done: Seq<u8> = Seq::empty();
    assert(out@ =~= orig + done);
    assert(varint_enc(n as nat) =~= done + varint_enc(cur as nat));
    while cur >= 128
        invariant
            out@ == orig + done,
            varint_enc(n as nat) == done + varint_enc(cur as nat),
        decreases cur,
    {
        let b: u8 = (cur % 128 + 128) as u8;
        out.push(b);
        proof {
            done = done + seq![b];
            assert(out@ =~= orig + done);
            assert(varint_enc(cur as nat) == seq![b] + varint_enc((cur / 128) as nat));
            assert(varint_enc(n as nat) =~= done + varint_enc((cur / 128) as nat));
        }
        cur = cur / 128;
    }
    out.push(cur as u8);
    proof {
        assert(varint_enc(cur as nat) =~= seq![cur as u8]);
        assert(out@ =~= orig + (done + varint_enc(cur as nat)));
    }
}

/// Reads one canonical varint that fits in a `u64` from `buf` at `pos`.
/// On success returns the value and the position just past it. Fails on
/// a truncated, non-canonical or too-large varint, and only then.
pub fn decode_varint(buf: &Vec<u8>, pos: usize) -> (r: Result<(u64, usize), RpcError>)
    requires
        pos <= buf@.len(),
    ensures
        r matches Ok(vp) ==> {
            &&& pos < vp.1 <= buf@.len()
            &&& spec_parse_varint(buf@.skip(pos as int)) == Some((vp.0 as nat, vp.1 - pos))
        },
        r is Err ==> (spec_parse_varint(buf@.skip(pos as int)) matches Some(vc)
            ==> vc.0 > u64::MAX),
        r matches Err(e) ==> e is Encoding,
{
    let ghost s = buf@.skip(pos as int);
    let mut i: usize = 0;
    let mut acc: u64 = 0;
    let mut mult: u64 = 1;
    proof {
        assert(s =~= s.skip(0));
        if spec_parse_varint(s) is Some {
            let (m, c) = spec_parse_varint(s)->Some_0;
            assert(0 + 1 * m == m) by (nonlinear_arith);
        }
    }
    loop
        invariant
            pos + i <= buf@.len(),
            i <= 9,
            s == buf@.skip(pos as int),
            mult == pow128(i as nat),
            mult <= 0x8000000000000000,
            i < 9 ==> mult <= 0x100000000000000,
            acc < mult,
            // continuing the parse from offset i reconstructs the whole parse
            spec_parse_varint(s.skip(i as int)) matches Some(mc) ==> (mc.0 != 0
                ==> spec_parse_varint(s) == Some(((acc + mult * mc.0) as nat, i + mc.1))),
            // a dead or zero-valued remainder kills the whole parse
            i > 0 ==> ((spec_parse_varint(s.skip(i as int)) is None
                || spec_parse_varint(s.skip(i as int))->Some_0.0 == 0)
                ==> spec_parse_varint(s) is None),
            i == 0 ==> acc == 0 && mult == 1,
        decreases buf@.len() - pos - i,
    {
        proof {
            lemma_pow128_bounds();
        }
        if buf.len() - pos <= i {
            proof {
                assert(s.skip(i as int).len() == 0);
                assert(spec_parse_varint(s.skip(i as int)) is None);
                if i == 0 {
                    assert(s =~= s.skip(0));
                }
            }
            return Err(RpcError::Encoding("truncated varint".to_owned()));
        }
        let b: u8 = buf[pos + i];
        proof {
            assert(s.skip(i as int)[0] == b);
        }
        if b < 128 {
            // terminator byte
            proof {
                assert(spec_parse_varint(s.skip(i as int)) == Some((b as nat, 1int)));
            }
            if b == 0 && i > 0 {
                return Err(RpcError::Encoding("non-canonical varint".to_owned()));
            }
            if i == 9 && b > 1 {
                proof {
                    assert(spec_parse_varint(s) == Some(((acc + mult * (b as nat)) as nat, 10int)));
                    assert(mult * (b as nat) >= 0x8000000000000000 * 2) by (nonlinear_arith)
                        requires mult == 0x8000000000000000nat, b >= 2,
                    ;
                }
                return Err(RpcError::Encoding("varint too large".to_owned()));
            }
            proof {
                if i == 9 {
                    assert(mult * (b as nat) <= 0x8000000000000000) by (nonlinear_arith)
                        requires mult == 0x8000000000000000nat, b <= 1,
                    ;
                } else {
                    assert(mult * (b as nat) <= 0x100000000000000 * 127) by (nonlinear_arith)
                        requires mult <= 0x100000000000000nat, b <= 127,
                    ;
                }
            }
            let v: u64 = acc + mult * (b as u64);
            proof {
                if i == 0 {
                    assert(s =~= s.skip(0));
                    assert(spec_parse_varint(s) == Some((b as nat, 1int)));
                    assert(v == b);
                } else {
                    assert(b != 0);
                    assert(spec_parse_varint(s) == Some(((acc + mult * (b as nat)) as nat, i + 1)));
                }
            }
            return Ok((v, pos + i + 1));
        }
        // continuation byte
        if i == 9 {
            proof {
                let t = s.skip(9int);
                if spec_parse_varint(t) is Some {
                    lemma_parse_varint_cont(t);
                    let m = spec_parse_varint(t)->Some_0.0;
                    assert(mult * m >= 0x8000000000000000 * 128) by (nonlinear_arith)
                        requires mult == 0x8000000000000000nat, m >= 128nat,
                    ;
                }
            }
            return Err(RpcError::Encoding("varint too large".to_owned()));
        }
        let ghost old_acc = acc;
        let ghost old_mult = mult;
        proof {
            assert(mult * ((b - 128) as nat) <= 0x100000000000000 * 127) by (nonlinear_arith)
                requires mult <= 0x100000000000000nat, (b - 128) as nat <= 127nat,
            ;
            assert(old_acc + old_mult * ((b - 128) as nat) < old_mult * 128) by (nonlinear_arith)
                requires old_acc < old_mult, ((b - 128) as nat) < 128nat,
            ;
            assert(old_mult * 128 <= 0x8000000000000000) by (nonlinear_arith)
                requires old_mult <= 0x100000000000000nat,
            ;
        }
        acc = acc + mult * ((b - 128) as u64);
        mult = mult * 128;
        i = i + 1;
        proof {
            assert(mult == pow128(i as nat));
            if i < 9 {
                lemma_pow128_mono(i as nat, 8nat);
                assert(mult <= 0x100000000000000);
            }
            let t = s.skip(i - 1);
            let t2 = s.skip(i as int);
            assert(t.drop_first() =~= t2);
            assert(t[0] == b);
            if spec_parse_varint(t2) is Some && spec_parse_varint(t2)->Some_0.0 != 0 {
                let (m, c) = spec_parse_varint(t2)->Some_0;
                assert(spec_parse_varint(t) == Some(((((b - 128) as nat) + 128 * m) as nat, c + 1)));
                assert(((b - 128) as nat) + 128 * m != 0) by (nonlinear_arith)
                    requires m >= 1nat,
                ;
                if i - 1 == 0 {
                    assert(s =~= s.skip(0));
                    assert(spec_parse_varint(s)
                        == Some(((((b - 128) as nat) + 128 * m) as nat, c + 1)));
                    assert(acc + mult * m == ((b - 128) as nat) + 128 * m) by (nonlinear_arith)
                        requires
                            acc == old_acc + old_mult * ((b - 128) as nat),
                            mult == old_mult * 128,
                            old_acc == 0nat,
                            old_mult == 1nat,
                    ;
                } else {
                    assert(spec_parse_varint(s) == Some((
                        (old_acc + old_mult * ((((b - 128) as nat) + 128 * m) as nat)) as nat,
                        (i - 1) + (c + 1),
                    )));
                    assert(old_acc + old_mult * (((b - 128) as nat) + 128 * m)
                        == acc + mult * m) by (nonlinear_arith)
                        requires
                            acc == old_acc + old_mult * ((b - 128) as nat),
                            mult == old_mult * 128,
                    ;
                }
            }
            if spec_parse_varint(t2) is None
                || spec_parse_varint(t2)->Some_0.0 == 0 {
                assert(spec_parse_varint(t) is None);
                if i - 1 == 0 {
                    assert(s =~= s.skip(0));
                } else {
                    assert(spec_parse_varint(s) is None);
                }
            }
        }
    }
}

proof fn lemma_pow128_mono(a: nat, b: nat)
    requires
        a <= b,
    ensures
        pow128(a) <= pow128(b),
    decreases b,
{
    if a < b {
        lemma_pow128_mono(a, (b - 1) as nat);
        assert(128 * pow128((b - 1) as nat) >= pow128((b - 1) as nat)) by (nonlinear_arith);
    }
}

} // verus!
