//! MQTT variable-length integers: up to four bytes, seven value bits per
//! byte, least significant group first, high bit set on every byte but the
//! last.

use vstd::prelude::*;

verus! {

/// Outcome of reading a variable-length integer from a byte sequence.
pub ghost enum VarintParse {
    /// The bytes run out before the terminating byte.
    NeedMore,
    /// No terminating byte within four bytes.
    Malformed,
    /// A value, and how many bytes encode it.
    Done { value: int, len: int },
}

/// Reads a variable-length integer from `s` starting at `i`, willing to
/// consume at most `depth` further bytes.
pub open spec fn spec_parse_varint_at(s: Seq<u8>, i: int, depth: int) -> VarintParse
    decreases depth,
{
    if depth <= 0 {
        VarintParse::Malformed
    } else if i >= s.len() || i < 0 {
        VarintParse::NeedMore
    } else if s[i] < 0x80 {
        VarintParse::Done { value: s[i] as int, len: 1 }
    } else {
        match spec_parse_varint_at(s, i + 1, depth - 1) {
            VarintParse::Done { value, len } => VarintParse::Done {
                value: (s[i] - 0x80) + 128 * value,
                len: len + 1,
            },
            other => other,
        }
    }
}

/// Reads a variable-length integer from `s` starting at `i`.
pub open spec fn spec_parse_varint(s: Seq<u8>, i: int) -> VarintParse {
    spec_parse_varint_at(s, i, 4)
}

/// The encoding of `v` as a variable-length integer.
pub open spec fn spec_encode_varint(v: int) -> Seq<u8>
    decreases v,
{
    if v < 128 {
        seq![(if v >= 0 { v } else { 0 }) as u8]
    } else {
        seq![(v % 128 + 128) as u8] + spec_encode_varint(v / 128)
    }
}

/// Largest value a four-byte variable-length integer can carry, plus one.
pub open spec fn varint_limit() -> int {
    0x10000000
}

/// A parsed value fits below `128^depth`.
pub proof fn lemma_varint_value_bound(s: Seq<u8>, i: int, depth: int, v: int, n: int)
    requires
        0 <= depth <= 4,
        spec_parse_varint_at(s, i, depth) == (VarintParse::Done { value: v, len: n }),
    ensures
        0 <= v < vstd::arithmetic::power::pow(128, depth as nat),
        1 <= n <= depth,
    decreases depth,
{
    vstd::arithmetic::power::lemma_pow_positive(128, depth as nat);
    if s[i] < 0x80 {
        assert(vstd::arithmetic::power::pow(128, depth as nat) >= 128) by {
            vstd::arithmetic::power::lemma_pow_increases(128, 1, depth as nat);
            assert(vstd::arithmetic::power::pow(128, 1) == 128) by {
                reveal_with_fuel(vstd::arithmetic::power::pow, 2);
            }
        }
    } else {
        match spec_parse_varint_at(s, i + 1, depth - 1) {
            VarintParse::Done { value, len } => {
                lemma_varint_value_bound(s, i + 1, depth - 1, value, len);
                assert(vstd::arithmetic::power::pow(128, depth as nat) == 128
                    * vstd::arithmetic::power::pow(128, (depth - 1) as nat)) by {
                    vstd::arithmetic::power::lemma_pow1(128);
                    vstd::arithmetic::power::lemma_pow_adds(128, 1, (depth - 1) as nat);
                }
                assert(128 * value <= 128 * (vstd::arithmetic::power::pow(
                    128,
                    (depth - 1) as nat,
                ) - 1)) by (nonlinear_arith)
                    requires
                        value <= vstd::arithmetic::power::pow(128, (depth - 1) as nat) - 1,
                ;
            },
            _ => {},
        }
    }
}

/// Reading a variable-length integer looks only at the bytes it consumes:
/// if the encoding of `v` sits at `i` inside `s`, the read returns `v`.
pub proof fn lemma_varint_round_trip_at(s: Seq<u8>, i: int, v: int)
    requires
        0 <= v < varint_limit(),
        0 <= i,
        i + spec_encode_varint(v).len() <= s.len(),
        s.subrange(i, i + spec_encode_varint(v).len() as int) == spec_encode_varint(v),
    ensures
        spec_parse_varint(s, i) == (VarintParse::Done {
            value: v,
            len: spec_encode_varint(v).len() as int,
        }),
{
    assert(vstd::arithmetic::power::pow(128, 4) == 0x10000000) by {
        reveal_with_fuel(vstd::arithmetic::power::pow, 5);
    }
    lemma_varint_round_trip_rec(s, i, v, 4);
}

proof fn lemma_varint_round_trip_rec(s: Seq<u8>, i: int, v: int, depth: int)
    requires
        0 <= v,
        v < vstd::arithmetic::power::pow(128, depth as nat),
        1 <= depth <= 4,
        0 <= i,
        i + spec_encode_varint(v).len() <= s.len(),
        s.subrange(i, i + spec_encode_varint(v).len() as int) == spec_encode_varint(v),
    ensures
        spec_parse_varint_at(s, i, depth) == (VarintParse::Done {
            value: v,
            len: spec_encode_varint(v).len() as int,
        }),
    decreases depth,
{
    let e = spec_encode_varint(v);
    assert(s[i] == e[0]);
    if v < 128 {
        assert(e =~= seq![v as u8]);
        assert(s[i] == v as u8);
    } else {
        assert(e[0] == (v % 128 + 128) as u8);
        assert(0 <= v % 128 < 128) by (nonlinear_arith);
        assert(s[i] >= 0x80);
        let v1 = v / 128;
        let e1 = spec_encode_varint(v1);
        assert(e =~= seq![e[0]] + e1);
        assert(v1 < vstd::arithmetic::power::pow(128, (depth - 1) as nat)) by {
            assert(vstd::arithmetic::power::pow(128, depth as nat) == 128
                * vstd::arithmetic::power::pow(128, (depth - 1) as nat)) by {
                vstd::arithmetic::power::lemma_pow1(128);
                vstd::arithmetic::power::lemma_pow_adds(128, 1, (depth - 1) as nat);
            }
            assert(v1 < vstd::arithmetic::power::pow(128, (depth - 1) as nat))
                by (nonlinear_arith)
                requires
                    v < 128 * vstd::arithmetic::power::pow(128, (depth - 1) as nat),
                    v1 == v / 128,
                    vstd::arithmetic::power::pow(128, (depth - 1) as nat) > 0,
            ;
        }
        assert(v1 >= 1);
        assert(depth >= 2) by {
            if depth == 1 {
                assert(vstd::arithmetic::power::pow(128, 1) == 128) by {
                    reveal_with_fuel(vstd::arithmetic::power::pow, 2);
                }
            }
        }
        assert(s.subrange(i + 1, i + 1 + e1.len() as int) =~= e1) by {
            assert forall|k: int| 0 <= k < e1.len() implies s[i + 1 + k] == e1[k] by {
                assert(s.subrange(i, i + e.len() as int)[1 + k] == e[1 + k]);
            }
        }
        lemma_varint_round_trip_rec(s, i + 1, v1, depth - 1);
        assert((s[i] - 0x80) + 128 * v1 == v % 128 + 128 * (v / 128));
        assert(v % 128 + 128 * (v / 128) == v) by (nonlinear_arith);
    }
}

/// Reads a variable-length integer from `buf` starting at `start`.
///
/// `Ok(Some((v, n)))` gives the value and its byte count; `Ok(None)` means
/// the bytes ran out; `Err(())` means there was no terminating byte within
/// four bytes.
pub fn parse_varint(buf: &[u8], start: usize) -> (r: Result<Option<(u32, usize)>, ()>)
    ensures
        match r {
            Ok(Some((v, n))) => spec_parse_varint(buf@, start as int) == (VarintParse::Done {
                value: v as int,
                len: n as int,
            }) && 1 <= n <= 4 && v < varint_limit(),
            Ok(None) => spec_parse_varint(buf@, start as int) is NeedMore,
            Err(_) => spec_parse_varint(buf@, start as int) is Malformed,
        },
{
    let r = parse_varint_at(buf, start, 4);
    proof {
        if let Ok(Some((v, n))) = r {
            lemma_varint_value_bound(buf@, start as int, 4, v as int, n as int);
            assert(vstd::arithmetic::power::pow(128, 4) == 0x10000000) by {
                reveal_with_fuel(vstd::arithmetic::power::pow, 5);
            }
        }
    }
    r
}

fn parse_varint_at(buf: &[u8], i: usize, depth: usize) -> (r: Result<
    Option<(u32, usize)>,
    (),
>)
    requires
        depth <= 4,
    ensures
        match r {
            Ok(Some((v, n))) => spec_parse_varint_at(buf@, i as int, depth as int)
                == (VarintParse::Done { value: v as int, len: n as int }),
            Ok(None) => spec_parse_varint_at(buf@, i as int, depth as int) is NeedMore,
            Err(_) => spec_parse_varint_at(buf@, i as int, depth as int) is Malformed,
        },
    decreases depth,
{
    if depth == 0 {
        return Err(());
    }
    if i >= buf.len() {
        return Ok(None);
    }
    let b = buf[i];
    if b < 0x80 {
        return Ok(Some((b as u32, 1)));
    }
    match parse_varint_at(buf, i + 1, depth - 1)? {
        None => Ok(None),
        Some((v, n)) => {
            proof {
                lemma_varint_value_bound(buf@, i as int + 1, depth as int - 1, v as int, n as int);
                assert(vstd::arithmetic::power::pow(128, 3) == 0x200000) by {
                    reveal_with_fuel(vstd::arithmetic::power::pow, 4);
                }
                vstd::arithmetic::power::lemma_pow_increases(128, (depth - 1) as nat, 3);
            }
            let value: u32 = (b - 0x80) as u32 + 128 * v;
            Ok(Some((value, n + 1)))
        },
    }
}

/// Writes `v` as a variable-length integer.
pub fn encode_varint(v: u32) -> (r: Vec<u8>)
    requires
        v < varint_limit(),
    ensures
        r@ == spec_encode_varint(v as int),
        1 <= r@.len() <= 4,
    decreases v,
{
    if v < 128 {
        let mut out: Vec<u8> = Vec::new();
        out.push(v as u8);
        proof {
            assert(out@ =~= spec_encode_varint(v as int));
            lemma_encode_varint_len(v as int);
        }
        out
    } else {
        let mut out: Vec<u8> = Vec::new();
        out.push(((v % 128) + 128) as u8);
        proof {
            assert(v / 128 < v && v / 128 < varint_limit()) by (nonlinear_arith)
                requires
                    128 <= v < 0x10000000,
            ;
        }
        let mut rest = encode_varint(v / 128);
        out.append(&mut rest);
        proof {
            assert(out@ =~= spec_encode_varint(v as int));
            lemma_encode_varint_len(v as int);
        }
        out
    }
}

/// The encoding of a value below the four-byte limit takes at most four
/// bytes.
pub proof fn lemma_encode_varint_len(v: int)
    requires
        0 <= v < varint_limit(),
    ensures
        1 <= spec_encode_varint(v).len() <= 4,
        v < 128 ==> spec_encode_varint(v).len() == 1,
        128 <= v < 16384 ==> spec_encode_varint(v).len() == 2,
        16384 <= v < 0x200000 ==> spec_encode_varint(v).len() == 3,
        0x200000 <= v ==> spec_encode_varint(v).len() == 4,
    decreases v,
{
    if v >= 128 {
        assert(v / 128 < 0x200000) by (nonlinear_arith)
            requires
                v < 0x10000000,
        ;
        assert(v >= 16384 ==> v / 128 >= 128) by (nonlinear_arith);
        assert(v >= 0x200000 ==> v / 128 >= 16384) by (nonlinear_arith);
        assert(v < 16384 ==> v / 128 < 128) by (nonlinear_arith);
        assert(v < 0x200000 ==> v / 128 < 16384) by (nonlinear_arith);
        assert(v / 128 < v) by (nonlinear_arith)
            requires
                v >= 128,
        ;
        assert(v / 128 >= 1) by (nonlinear_arith)
            requires
                v >= 128,
        ;
        lemma_encode_varint_len(v / 128);
    }
}

} // verus!
