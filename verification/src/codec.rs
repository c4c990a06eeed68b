//! The JSON wire format of the saga's events, on bytes.
//!
//! Every payload that crosses the broker is the canonical JSON rendering
//! of one event: fields in declaration order, no whitespace, numbers in
//! shortest decimal form, the payment id as a lowercase hyphenated
//! 128-bit hex string. The parsers are strict: they accept exactly the
//! canonical bytes, so `parse(encode(e))` returns `e` and anything else
//! is malformed — a permanent failure of that one message.

use vstd::prelude::*;

verus! {

/// An ASCII decimal digit.
pub open spec fn is_digit(b: u8) -> bool {
    48 <= b <= 57
}

/// A lowercase ASCII hex digit.
pub open spec fn is_hex_lower(b: u8) -> bool {
    is_digit(b) || 97 <= b <= 102
}

/// The digit byte of a value below ten.
pub open spec fn spec_digit(d: int) -> u8 {
    (48 + d) as u8
}

/// The shortest decimal rendering of a non-negative number: no leading
/// zero except for zero itself.
pub open spec fn spec_udec(n: int) -> Seq<u8>
    recommends
        0 <= n,
    decreases n,
{
    if n < 10 {
        seq![spec_digit(n)]
    } else {
        spec_udec(n / 10).push(spec_digit(n % 10))
    }
}

/// The decimal rendering of a signed number: a minus sign before the
/// magnitude when it is negative.
pub open spec fn spec_idec(n: int) -> Seq<u8> {
    if n < 0 {
        seq![45u8] + spec_udec(-n)
    } else {
        spec_udec(n)
    }
}

/// The number a digit string denotes.
pub open spec fn dec_value(ds: Seq<u8>) -> int
    decreases ds.len(),
{
    if ds.len() == 0 {
        0
    } else {
        dec_value(ds.drop_last()) * 10 + (ds.last() - 48)
    }
}

/// Shape of the shortest decimal rendering: at least one digit, nothing
/// but digits, a leading zero only for zero itself, and `dec_value` reads
/// the number back.
pub proof fn lemma_udec_shape(n: int)
    requires
        0 <= n,
    ensures
        spec_udec(n).len() >= 1,
        forall|i: int| 0 <= i < spec_udec(n).len() ==> is_digit(#[trigger] spec_udec(n)[i]),
        spec_udec(n)[0] != 48 || spec_udec(n).len() == 1,
        dec_value(spec_udec(n)) == n,
    decreases n,
{
    if n < 10 {
        assert(spec_udec(n) == seq![spec_digit(n)]);
        assert(spec_udec(n).drop_last() =~= Seq::<u8>::empty());
        assert(spec_udec(n).last() == spec_digit(n));
        assert(dec_value(Seq::<u8>::empty()) == 0);
        assert(dec_value(spec_udec(n)) == 0 * 10 + (spec_digit(n) - 48));
        assert(spec_digit(n) - 48 == n);
    } else {
        lemma_udec_shape(n / 10);
        let pre = spec_udec(n / 10);
        assert(spec_udec(n) == pre.push(spec_digit(n % 10)));
        assert(spec_udec(n).drop_last() =~= pre);
        assert(spec_udec(n).last() == spec_digit(n % 10));
        assert(spec_digit(n % 10) - 48 == n % 10);
        assert(dec_value(spec_udec(n)) == dec_value(pre) * 10 + (n % 10));
        assert(dec_value(pre) == n / 10);
        assert((n / 10) * 10 + n % 10 == n);
        assert(spec_udec(n)[0] == pre[0]);
        assert(spec_udec(n)[0] != 48) by {
            if pre[0] == 48 {
                assert(pre.len() == 1);
                assert(pre.drop_last() =~= Seq::<u8>::empty());
                assert(dec_value(Seq::<u8>::empty()) == 0);
                assert(dec_value(pre) == pre[0] - 48);
            }
        }
        assert forall|i: int| 0 <= i < spec_udec(n).len() implies is_digit(
            #[trigger] spec_udec(n)[i],
        ) by {
            if i < pre.len() {
                assert(spec_udec(n)[i] == pre[i]);
            } else {
                assert(spec_udec(n)[i] == spec_digit(n % 10));
            }
        }
    }
}

/// A digit string denotes a non-negative number.
pub proof fn lemma_dec_value_nonneg(ds: Seq<u8>)
    requires
        forall|i: int| 0 <= i < ds.len() ==> is_digit(#[trigger] ds[i]),
    ensures
        0 <= dec_value(ds),
    decreases ds.len(),
{
    if ds.len() > 0 {
        lemma_dec_value_nonneg(ds.drop_last());
    }
}

/// Reading a prefix of a digit string never exceeds the whole.
pub proof fn lemma_dec_value_prefix_le(ds: Seq<u8>, j: int)
    requires
        forall|i: int| 0 <= i < ds.len() ==> is_digit(#[trigger] ds[i]),
        0 <= j <= ds.len(),
    ensures
        dec_value(ds.subrange(0, j)) <= dec_value(ds),
    decreases ds.len(),
{
    if j == ds.len() {
        assert(ds.subrange(0, j) =~= ds);
    } else {
        let pre = ds.drop_last();
        assert(ds.subrange(0, j) =~= pre.subrange(0, j));
        lemma_dec_value_prefix_le(pre, j);
        lemma_dec_value_nonneg(pre);
    }
}

/// A digit string without a leading zero denotes a positive number.
pub proof fn lemma_dec_value_pos(ds: Seq<u8>)
    requires
        forall|i: int| 0 <= i < ds.len() ==> is_digit(#[trigger] ds[i]),
        ds.len() >= 1,
        ds[0] != 48,
    ensures
        1 <= dec_value(ds),
    decreases ds.len(),
{
    if ds.len() == 1 {
        assert(ds.drop_last() =~= Seq::<u8>::empty());
        assert(dec_value(Seq::<u8>::empty()) == 0);
        assert(is_digit(ds[0]));
        assert(ds.last() == ds[0]);
        assert(dec_value(ds) == ds[0] - 48);
    } else {
        let pre = ds.drop_last();
        assert(pre[0] == ds[0]);
        assert forall|i: int| 0 <= i < pre.len() implies is_digit(#[trigger] pre[i]) by {
            assert(pre[i] == ds[i]);
        }
        lemma_dec_value_pos(pre);
        assert(is_digit(ds[ds.len() - 1]));
        assert(ds.last() - 48 >= 0);
    }
}

/// A digit string in canonical shape is the shortest rendering of the
/// number it denotes.
pub proof fn lemma_digits_canonical(ds: Seq<u8>)
    requires
        forall|i: int| 0 <= i < ds.len() ==> is_digit(#[trigger] ds[i]),
        ds.len() >= 1,
        ds[0] != 48 || ds.len() == 1,
    ensures
        ds == spec_udec(dec_value(ds)),
    decreases ds.len(),
{
    lemma_dec_value_nonneg(ds);
    if ds.len() == 1 {
        assert(ds.drop_last() =~= Seq::<u8>::empty());
        assert(dec_value(Seq::<u8>::empty()) == 0);
        assert(ds.last() == ds[0]);
        assert(is_digit(ds[0]));
        assert(dec_value(ds) == ds[0] - 48);
        assert(dec_value(ds) < 10);
        assert(ds =~= spec_udec(dec_value(ds)));
    } else {
        let pre = ds.drop_last();
        assert(pre[0] == ds[0]);
        assert forall|i: int| 0 <= i < pre.len() implies is_digit(#[trigger] pre[i]) by {
            assert(pre[i] == ds[i]);
        }
        assert(is_digit(ds[ds.len() - 1]));
        lemma_dec_value_pos(pre);
        lemma_dec_value_nonneg(pre);
        lemma_digits_canonical(pre);
        let v = dec_value(ds);
        assert(v == dec_value(pre) * 10 + (ds.last() - 48));
        assert(v >= 10);
        assert(v / 10 == dec_value(pre) && v % 10 == ds.last() - 48) by (nonlinear_arith)
            requires
                v == dec_value(pre) * 10 + (ds.last() - 48),
                0 <= ds.last() - 48 < 10,
                0 <= dec_value(pre),
        ;
        assert(spec_udec(v) == spec_udec(v / 10).push(spec_digit(v % 10)));
        assert(ds =~= pre.push(ds.last()));
        assert(spec_digit(v % 10) == ds.last());
    }
}

/// Append the shortest decimal rendering of `n`.
pub fn push_u64_dec(out: &mut Vec<u8>, n: u64)
    ensures
        final(out)@ == old(out)@ + spec_udec(n as int),
    decreases n,
{
    if n < 10 {
        out.push(48 + n as u8);
        proof {
            assert(final(out)@ =~= old(out)@ + spec_udec(n as int));
        }
    } else {
        push_u64_dec(out, n / 10);
        out.push(48 + (n % 10) as u8);
        proof {
            assert(final(out)@ =~= old(out)@ + spec_udec(n as int));
        }
    }
}

/// Append the decimal rendering of `n`, sign included.
pub fn push_i32_dec(out: &mut Vec<u8>, n: i32)
    ensures
        final(out)@ == old(out)@ + spec_idec(n as int),
{
    if n >= 0 {
        push_u64_dec(out, n as u64);
    } else {
        out.push(45);
        let m: u64 = (-(n as i64)) as u64;
        push_u64_dec(out, m);
        proof {
            assert(final(out)@ =~= old(out)@ + spec_idec(n as int));
        }
    }
}

/// Whether `b` is an ASCII decimal digit.
pub fn byte_is_digit(b: u8) -> (r: bool)
    ensures
        r == is_digit(b),
{
    48 <= b && b <= 57
}

/// Parse the maximal digit run at `pos` as an unsigned number. Strict:
/// accepts exactly the shortest renderings of numbers that fit in a
/// `u64`, and only when the run ends the input or a non-digit follows.
pub fn parse_u64_dec(s: &Vec<u8>, pos: usize) -> (r: Option<(u64, usize)>)
    requires
        pos <= s@.len(),
    ensures
        r matches Some(p) ==> pos < p.1 <= s@.len() && s@.subrange(pos as int, p.1 as int)
            == spec_udec(p.0 as int) && (p.1 == s@.len() || !is_digit(s@[p.1 as int])),
        forall|n: u64, e: int|
            pos < e <= s@.len() && s@.subrange(pos as int, e) == spec_udec(n as int) && (e
                == s@.len() || !is_digit(s@[e])) ==> (r matches Some(p) && p.0 == n && p.1 == e),
{
    let len = s.len();
    proof {
        assert forall|n: u64, e: int|
            pos < e <= s@.len() && s@.subrange(pos as int, e) == spec_udec(n as int) implies (
        is_digit(s@[pos as int]) && pos < s@.len()) by {
            lemma_udec_shape(n as int);
            assert(s@.subrange(pos as int, e)[0] == s@[pos as int]);
        }
    }
    if pos >= len || !byte_is_digit(s[pos]) {
        return None;
    }
    if s[pos] == 48 {
        if pos + 1 < len && byte_is_digit(s[pos + 1]) {
            proof {
                assert forall|n: u64, e: int|
                    pos < e <= s@.len() && s@.subrange(pos as int, e) == spec_udec(n as int) && (e
                        == s@.len() || !is_digit(s@[e])) implies false by {
                    lemma_udec_shape(n as int);
                    assert(s@.subrange(pos as int, e)[0] == 48);
                    assert(spec_udec(n as int).len() == 1);
                    assert(e == pos + 1);
                    assert(is_digit(s@[e]));
                }
            }
            return None;
        }
        proof {
            assert(s@.subrange(pos as int, pos + 1) =~= spec_udec(0));
            assert forall|n: u64, e: int|
                pos < e <= s@.len() && s@.subrange(pos as int, e) == spec_udec(n as int) && (e
                    == s@.len() || !is_digit(s@[e])) implies (n == 0 && e == pos + 1) by {
                lemma_udec_shape(n as int);
                assert(s@.subrange(pos as int, e)[0] == 48);
                assert(spec_udec(n as int).len() == 1);
                assert(e == pos + 1);
                assert(spec_udec(n as int)[0] == 48);
                assert(n < 10) by {
                    if n as int >= 10 {
                        lemma_udec_shape(n as int / 10);
                        assert(spec_udec(n as int).len() >= 2);
                    }
                }
                assert(spec_udec(n as int) == seq![spec_digit(n as int)]);
                assert(spec_digit(n as int) == 48);
            }
        }
        return Some((0, pos + 1));
    }
    let mut e: usize = pos;
    let mut val: u64 = 0;
    while e < len && byte_is_digit(s[e])
        invariant
            pos <= e <= len,
            len == s@.len(),
            pos < s@.len() && is_digit(s@[pos as int]) && s@[pos as int] != 48,
            forall|t: int| pos <= t < e ==> is_digit(#[trigger] s@[t]),
            val == dec_value(s@.subrange(pos as int, e as int)),
        decreases len - e,
    {
        let d = s[e] - 48;
        proof {
            let run = s@.subrange(pos as int, e + 1);
            assert(run.drop_last() =~= s@.subrange(pos as int, e as int));
            assert(run.last() == s@[e as int]);
            assert forall|n: u64, ee: int|
                pos < ee <= s@.len() && s@.subrange(pos as int, ee) == spec_udec(n as int) && (ee
                    == s@.len() || !is_digit(s@[ee])) implies dec_value(run) <= n by {
                lemma_udec_shape(n as int);
                assert forall|t: int| pos <= t < ee implies is_digit(#[trigger] s@[t]) by {
                    assert(s@.subrange(pos as int, ee)[t - pos] == s@[t]);
                }
                assert(e + 1 <= ee) by {
                    if ee <= e {
                        assert(is_digit(s@[ee]));
                    }
                }
                assert(run =~= spec_udec(n as int).subrange(0, e + 1 - pos));
                lemma_dec_value_prefix_le(spec_udec(n as int), e + 1 - pos);
            }
        }
        if val > (u64::MAX - d as u64) / 10 {
            proof {
                let run = s@.subrange(pos as int, e + 1);
                assert(dec_value(run) == val * 10 + d);
                assert(val * 10 + d > u64::MAX) by (nonlinear_arith)
                    requires
                        val > (u64::MAX - d as u64) / 10,
                        0 <= d < 10,
                ;
            }
            return None;
        }
        val = val * 10 + d as u64;
        e += 1;
        proof {
            assert(val == dec_value(s@.subrange(pos as int, e as int)));
        }
    }
    proof {
        let run = s@.subrange(pos as int, e as int);
        assert(run[0] == s@[pos as int]);
        lemma_digits_canonical(run);
        assert forall|n: u64, ee: int|
            pos < ee <= s@.len() && s@.subrange(pos as int, ee) == spec_udec(n as int) && (ee
                == s@.len() || !is_digit(s@[ee])) implies (n == val && ee == e as int) by {
            lemma_udec_shape(n as int);
            assert forall|t: int| pos <= t < ee implies is_digit(#[trigger] s@[t]) by {
                assert(s@.subrange(pos as int, ee)[t - pos] == s@[t]);
            }
            assert(e as int <= ee) by {
                if ee < e as int {
                    assert(is_digit(s@[ee]));
                }
            }
            assert(ee <= e as int) by {
                if ee > e as int {
                    assert(is_digit(s@[e as int]));
                }
            }
            assert(run == spec_udec(n as int));
            lemma_udec_shape(n as int);
            assert(dec_value(run) == n);
        }
    }
    Some((val, e))
}

/// Parse a signed decimal at `pos`, strict as [`parse_u64_dec`], bounded
/// to the `i32` range.
pub fn parse_i32_dec(s: &Vec<u8>, pos: usize) -> (r: Option<(i32, usize)>)
    requires
        pos <= s@.len(),
    ensures
        r matches Some(p) ==> pos < p.1 <= s@.len() && s@.subrange(pos as int, p.1 as int)
            == spec_idec(p.0 as int) && (p.1 == s@.len() || !is_digit(s@[p.1 as int])),
        forall|n: i32, e: int|
            pos < e <= s@.len() && s@.subrange(pos as int, e) == spec_idec(n as int) && (e
                == s@.len() || !is_digit(s@[e])) ==> (r matches Some(p) && p.0 == n && p.1 == e),
{
    let len = s.len();
    if pos < len && s[pos] == 45 {
        proof {
            assert forall|n: i32, e: int|
                pos < e <= s@.len() && s@.subrange(pos as int, e) == spec_idec(n as int) implies n
                < 0 by {
                if n >= 0 {
                    lemma_udec_shape(n as int);
                    assert(s@.subrange(pos as int, e)[0] == 45);
                }
            }
        }
        match parse_u64_dec(s, pos + 1) {
            Some((m, end)) => {
                if m == 0 || m > 2147483648 {
                    proof {
                        assert forall|n: i32, e: int|
                            pos < e <= s@.len() && s@.subrange(pos as int, e) == spec_idec(
                                n as int,
                            ) && (e == s@.len() || !is_digit(s@[e])) implies false by {
                            assert(n < 0);
                            let mag = spec_udec(-n as int);
                            assert(s@.subrange(pos as int, e).drop_first() =~= s@.subrange(
                                pos + 1,
                                e,
                            ));
                            assert(s@.subrange(pos + 1, e) == mag);
                            assert(1 <= -n <= 2147483648);
                            assert(m == -n && end == e);
                        }
                    }
                    return None;
                }
                let v: i32 = if m == 2147483648 {
                    i32::MIN
                } else {
                    -(m as i32)
                };
                proof {
                    assert(v as int == -(m as int));
                    assert(s@.subrange(pos as int, end as int).drop_first() =~= s@.subrange(
                        pos + 1,
                        end as int,
                    ));
                    assert(s@.subrange(pos as int, end as int) =~= seq![45u8] + spec_udec(
                        m as int,
                    ));
                    assert forall|n: i32, e: int|
                        pos < e <= s@.len() && s@.subrange(pos as int, e) == spec_idec(n as int)
                            && (e == s@.len() || !is_digit(s@[e])) implies (n == v && e
                        == end as int) by {
                        assert(n < 0);
                        assert(s@.subrange(pos as int, e).drop_first() =~= s@.subrange(pos + 1, e));
                        assert(s@.subrange(pos + 1, e) == spec_udec(-n as int));
                        assert(-n == m && e == end);
                    }
                }
                Some((v, end))
            },
            None => {
                proof {
                    assert forall|n: i32, e: int|
                        pos < e <= s@.len() && s@.subrange(pos as int, e) == spec_idec(n as int)
                            && (e == s@.len() || !is_digit(s@[e])) implies false by {
                        assert(n < 0);
                        assert(s@.subrange(pos as int, e).drop_first() =~= s@.subrange(pos + 1, e));
                        assert(s@.subrange(pos + 1, e) == spec_udec(-n as int));
                        assert(1 <= -n <= 2147483648);
                    }
                }
                None
            },
        }
    } else {
        proof {
            assert forall|n: i32, e: int|
                pos < e <= s@.len() && s@.subrange(pos as int, e) == spec_idec(n as int) implies n
                >= 0 by {
                if n < 0 {
                    assert(s@.subrange(pos as int, e)[0] == 45);
                    assert(pos < s@.len());
                }
            }
        }
        match parse_u64_dec(s, pos) {
            Some((m, end)) => {
                if m > 2147483647 {
                    proof {
                        assert forall|n: i32, e: int|
                            pos < e <= s@.len() && s@.subrange(pos as int, e) == spec_idec(
                                n as int,
                            ) && (e == s@.len() || !is_digit(s@[e])) implies false by {
                            assert(n >= 0);
                            assert(s@.subrange(pos as int, e) == spec_udec(n as int));
                            assert(m == n && end == e);
                        }
                    }
                    return None;
                }
                Some((m as i32, end))
            },
            None => {
                None
            },
        }
    }
}

/// Sixteen to the `w`-th power.
pub open spec fn pow16(w: int) -> int
    decreases w,
{
    if w <= 0 {
        1
    } else {
        16 * pow16(w - 1)
    }
}

/// The lowercase hex digit byte of a value below sixteen.
pub open spec fn spec_hex_digit(d: int) -> u8 {
    if d < 10 {
        (48 + d) as u8
    } else {
        (87 + d) as u8
    }
}

/// The value a lowercase hex digit byte denotes.
pub open spec fn hex_digit_value(b: u8) -> int {
    if b <= 57 {
        b - 48
    } else {
        b - 87
    }
}

/// `n` rendered as exactly `w` lowercase hex digits (leading zeros kept).
pub open spec fn spec_hex_fixed(n: int, w: int) -> Seq<u8>
    decreases w,
{
    if w <= 0 {
        Seq::empty()
    } else {
        spec_hex_fixed(n / 16, w - 1).push(spec_hex_digit(n % 16))
    }
}

/// The number a lowercase hex digit string denotes.
pub open spec fn hex_value(ds: Seq<u8>) -> int
    decreases ds.len(),
{
    if ds.len() == 0 {
        0
    } else {
        hex_value(ds.drop_last()) * 16 + hex_digit_value(ds.last())
    }
}

/// Shape of the fixed-width hex rendering: exactly `w` lowercase hex
/// digits, and `hex_value` reads the number back when it fits the width.
pub proof fn lemma_hex_fixed_shape(n: int, w: int)
    requires
        0 <= n < pow16(w),
        0 <= w,
    ensures
        spec_hex_fixed(n, w).len() == w,
        forall|i: int|
            0 <= i < w ==> is_hex_lower(#[trigger] spec_hex_fixed(n, w)[i]),
        hex_value(spec_hex_fixed(n, w)) == n,
    decreases w,
{
    if w == 0 {
        assert(hex_value(Seq::<u8>::empty()) == 0);
    } else {
        assert(pow16(w) == 16 * pow16(w - 1));
        assert(n / 16 < pow16(w - 1)) by (nonlinear_arith)
            requires
                0 <= n < 16 * pow16(w - 1),
                0 < pow16(w - 1),
        ;
        assert(0 < pow16(w - 1)) by {
            lemma_pow16_pos(w - 1);
        }
        lemma_hex_fixed_shape(n / 16, w - 1);
        let pre = spec_hex_fixed(n / 16, w - 1);
        assert(spec_hex_fixed(n, w) == pre.push(spec_hex_digit(n % 16)));
        assert(spec_hex_fixed(n, w).drop_last() =~= pre);
        assert(spec_hex_fixed(n, w).last() == spec_hex_digit(n % 16));
        assert(hex_digit_value(spec_hex_digit(n % 16)) == n % 16);
        assert(hex_value(spec_hex_fixed(n, w)) == (n / 16) * 16 + n % 16);
        assert((n / 16) * 16 + n % 16 == n);
        assert forall|i: int| 0 <= i < w implies is_hex_lower(
            #[trigger] spec_hex_fixed(n, w)[i],
        ) by {
            if i < w - 1 {
                assert(spec_hex_fixed(n, w)[i] == pre[i]);
            } else {
                assert(spec_hex_fixed(n, w)[i] == spec_hex_digit(n % 16));
            }
        }
    }
}

/// Powers of sixteen are positive.
pub proof fn lemma_pow16_pos(w: int)
    ensures
        0 < pow16(w),
    decreases w,
{
    if w > 0 {
        lemma_pow16_pos(w - 1);
    }
}

/// A `w`-digit lowercase hex string is the fixed-width rendering of the
/// number it denotes, which fits in `w` digits.
pub proof fn lemma_hex_canonical(ds: Seq<u8>)
    requires
        forall|i: int| 0 <= i < ds.len() ==> is_hex_lower(#[trigger] ds[i]),
    ensures
        0 <= hex_value(ds) < pow16(ds.len() as int),
        ds == spec_hex_fixed(hex_value(ds), ds.len() as int),
    decreases ds.len(),
{
    if ds.len() == 0 {
        assert(hex_value(Seq::<u8>::empty()) == 0);
        assert(ds =~= spec_hex_fixed(0, 0));
    } else {
        let pre = ds.drop_last();
        assert forall|i: int| 0 <= i < pre.len() implies is_hex_lower(#[trigger] pre[i]) by {
            assert(pre[i] == ds[i]);
        }
        lemma_hex_canonical(pre);
        assert(is_hex_lower(ds[ds.len() - 1]));
        let v = hex_value(ds);
        let pv = hex_value(pre);
        let d = hex_digit_value(ds.last());
        assert(0 <= d < 16);
        assert(v == pv * 16 + d);
        let w = ds.len() as int;
        assert(pow16(w) == 16 * pow16(w - 1));
        assert(0 <= v < pow16(w)) by (nonlinear_arith)
            requires
                v == pv * 16 + d,
                0 <= d < 16,
                0 <= pv < pow16(w - 1),
                pow16(w) == 16 * pow16(w - 1),
        ;
        assert(v / 16 == pv && v % 16 == d) by (nonlinear_arith)
            requires
                v == pv * 16 + d,
                0 <= d < 16,
                0 <= pv,
        ;
        assert(spec_hex_fixed(v, w) == spec_hex_fixed(v / 16, w - 1).push(
            spec_hex_digit(v % 16),
        ));
        assert(spec_hex_digit(d) == ds.last()) by {
            assert(is_hex_lower(ds.last()));
        }
        assert(ds =~= pre.push(ds.last()));
    }
}

/// The values of the powers of sixteen the codec uses.
pub proof fn lemma_pow16_values()
    ensures
        pow16(4) == 0x10000,
        pow16(8) == 0x100000000,
        pow16(12) == 0x1000000000000,
        pow16(32) == 0x100000000000000000000000000000000,
{
    reveal_with_fuel(pow16, 33);
}

/// Append `n` as exactly `w` lowercase hex digits.
pub fn push_hex_fixed(out: &mut Vec<u8>, n: u128, w: usize)
    requires
        (n as int) < pow16(w as int),
    ensures
        final(out)@ == old(out)@ + spec_hex_fixed(n as int, w as int),
    decreases w,
{
    if w == 0 {
        proof {
            assert(final(out)@ =~= old(out)@ + spec_hex_fixed(n as int, 0));
        }
    } else {
        proof {
            lemma_pow16_pos(w - 1 as int);
            assert(pow16(w as int) == 16 * pow16(w as int - 1));
            assert((n as int / 16) < pow16(w as int - 1)) by (nonlinear_arith)
                requires
                    0 <= n as int && (n as int) < 16 * pow16(w as int - 1),
                    0 < pow16(w as int - 1),
            ;
        }
        push_hex_fixed(out, n / 16, w - 1);
        let d = (n % 16) as u8;
        let b: u8 = if d < 10 {
            48 + d
        } else {
            87 + d
        };
        out.push(b);
        proof {
            assert(b == spec_hex_digit(n as int % 16));
            assert(final(out)@ =~= old(out)@ + spec_hex_fixed(n as int, w as int));
        }
    }
}

/// The hyphenated lowercase rendering of a 128-bit id: five hex groups
/// of 8, 4, 4, 4 and 12 digits.
pub open spec fn spec_uuid_hyphenated(n: int) -> Seq<u8> {
    let d = spec_hex_fixed(n, 32);
    d.subrange(0, 8) + seq![45u8] + d.subrange(8, 12) + seq![45u8] + d.subrange(12, 16)
        + seq![45u8] + d.subrange(16, 20) + seq![45u8] + d.subrange(20, 32)
}

/// Append a byte range of another buffer.
pub fn push_range(out: &mut Vec<u8>, v: &Vec<u8>, a: usize, b: usize)
    requires
        a <= b <= v@.len(),
    ensures
        final(out)@ == old(out)@ + v@.subrange(a as int, b as int),
{
    let mut i: usize = a;
    while i < b
        invariant
            a <= i <= b <= v@.len(),
            out@ == old(out)@ + v@.subrange(a as int, i as int),
        decreases b - i,
    {
        out.push(v[i]);
        proof {
            assert(out@ =~= old(out)@ + v@.subrange(a as int, i + 1));
        }
        i += 1;
    }
    proof {
        assert(out@ =~= old(out)@ + v@.subrange(a as int, b as int));
    }
}

/// Append the hyphenated lowercase rendering of a 128-bit id.
pub fn push_uuid(out: &mut Vec<u8>, n: u128)
    ensures
        final(out)@ == old(out)@ + spec_uuid_hyphenated(n as int),
{
    proof {
        lemma_pow16_values();
    }
    let mut d: Vec<u8> = Vec::new();
    push_hex_fixed(&mut d, n, 32);
    proof {
        lemma_hex_fixed_shape(n as int, 32);
    }
    push_range(out, &d, 0, 8);
    out.push(45);
    push_range(out, &d, 8, 12);
    out.push(45);
    push_range(out, &d, 12, 16);
    out.push(45);
    push_range(out, &d, 16, 20);
    out.push(45);
    push_range(out, &d, 20, 32);
    proof {
        assert(final(out)@ =~= old(out)@ + spec_uuid_hyphenated(n as int));
    }
}

/// Whether `b` is a lowercase hex digit byte.
pub fn byte_is_hex_lower(b: u8) -> (r: bool)
    ensures
        r == is_hex_lower(b),
{
    (48 <= b && b <= 57) || (97 <= b && b <= 102)
}

/// Parse exactly `w` lowercase hex digits at `pos` into a number.
pub fn parse_hex_fixed(s: &Vec<u8>, pos: usize, w: usize) -> (r: Option<u128>)
    requires
        pos + w <= s@.len(),
        w <= 32,
    ensures
        r matches Some(v) ==> v as int == hex_value(s@.subrange(pos as int, pos + w))
            && s@.subrange(pos as int, pos + w) == spec_hex_fixed(v as int, w as int)
            && (v as int) < pow16(w as int)
            && (forall|t: int| pos <= t < pos + w ==> is_hex_lower(#[trigger] s@[t])),
        r is None <==> (exists|t: int| pos <= t < pos + w && !is_hex_lower(#[trigger] s@[t])),
{
    proof {
        lemma_pow16_values();
    }
    let len = s.len();
    let mut j: usize = 0;
    let mut val: u128 = 0;
    while j < w
        invariant
            j <= w,
            w <= 32,
            len == s@.len(),
            pos + w <= s@.len(),
            forall|t: int| pos <= t < pos + j ==> is_hex_lower(#[trigger] s@[t]),
            val as int == hex_value(s@.subrange(pos as int, pos + j)),
            (val as int) < pow16(j as int),
            pow16(32) == 0x100000000000000000000000000000000,
        decreases w - j,
    {
        let b = s[pos + j];
        if !byte_is_hex_lower(b) {
            return None;
        }
        let d: u8 = if b <= 57 {
            b - 48
        } else {
            b - 87
        };
        proof {
            let run = s@.subrange(pos as int, pos + j + 1);
            assert(run.drop_last() =~= s@.subrange(pos as int, pos + j));
            assert(run.last() == s@[pos + j]);
            assert(d as int == hex_digit_value(s@[pos + j]));
            lemma_pow16_pos(j as int);
            assert(pow16(j + 1) == 16 * pow16(j as int));
            assert((16 * val as int + d as int) < pow16(j + 1)) by (nonlinear_arith)
                requires
                    (val as int) < pow16(j as int),
                    0 <= val as int,
                    0 <= d < 16,
                    pow16(j + 1) == 16 * pow16(j as int),
            ;
            lemma_pow16_monotone(j + 1, 32);
        }
        val = val * 16 + d as u128;
        j += 1;
    }
    proof {
        assert(s@.subrange(pos as int, pos + w) == s@.subrange(pos as int, pos + j as int));
        lemma_hex_canonical(s@.subrange(pos as int, pos + w));
    }
    Some(val)
}

/// Powers of sixteen grow with the exponent.
pub proof fn lemma_pow16_monotone(a: int, b: int)
    requires
        a <= b,
    ensures
        pow16(a) <= pow16(b),
    decreases b - a,
{
    if a < b {
        lemma_pow16_monotone(a, b - 1);
        lemma_pow16_pos(b - 1);
    }
}


/// Concatenating digit strings: the left shifts by the width of the
/// right.
pub proof fn lemma_hex_value_concat(a: Seq<u8>, b: Seq<u8>)
    ensures
        hex_value(a + b) == hex_value(a) * pow16(b.len() as int) + hex_value(b),
    decreases b.len(),
{
    if b.len() == 0 {
        assert(a + b =~= a);
        assert(pow16(0) == 1);
    } else {
        let b2 = b.drop_last();
        lemma_hex_value_concat(a, b2);
        assert((a + b).drop_last() =~= a + b2);
        assert((a + b).last() == b.last());
        assert(b.drop_last() == b2);
        assert(pow16(b.len() as int) == 16 * pow16(b2.len() as int));
        assert(hex_value(a + b) == hex_value(a + b2) * 16 + hex_digit_value(b.last()));
        assert(hex_value(b) == hex_value(b2) * 16 + hex_digit_value(b.last()));
        assert((hex_value(a) * pow16(b2.len() as int) + hex_value(b2)) * 16 == hex_value(a)
            * (16 * pow16(b2.len() as int)) + hex_value(b2) * 16) by (nonlinear_arith);
    }
}

/// Parse a hyphenated lowercase 128-bit id at `pos`: exactly 36 bytes,
/// five hex groups separated by hyphens.
#[verifier::rlimit(60)]
pub fn parse_uuid(s: &Vec<u8>, pos: usize) -> (r: Option<(u128, usize)>)
    requires
        pos <= s@.len(),
    ensures
        r matches Some(p) ==> p.1 == pos + 36 && pos + 36 <= s@.len() && s@.subrange(
            pos as int,
            pos + 36,
        ) == spec_uuid_hyphenated(p.0 as int),
        forall|n: u128|
            pos + 36 <= s@.len() && s@.subrange(pos as int, pos + 36) == spec_uuid_hyphenated(
                n as int,
            ) ==> (r matches Some(p) && p.0 == n && p.1 == pos + 36),
{
    proof {
        lemma_pow16_values();
        assert forall|n: u128|
            pos + 36 <= s@.len() && s@.subrange(pos as int, pos + 36) == spec_uuid_hyphenated(
                n as int,
            ) implies spec_hex_fixed(n as int, 32).len() == 32 && s@[pos + 8] == 45 && s@[pos
            + 13] == 45 && s@[pos + 18] == 45 && s@[pos + 23] == 45 by {
            lemma_hex_fixed_shape(n as int, 32);
            let u = spec_uuid_hyphenated(n as int);
            assert(u[8] == 45 && u[13] == 45 && u[18] == 45 && u[23] == 45);
            assert(s@.subrange(pos as int, pos + 36)[8] == s@[pos + 8]);
            assert(s@.subrange(pos as int, pos + 36)[13] == s@[pos + 13]);
            assert(s@.subrange(pos as int, pos + 36)[18] == s@[pos + 18]);
            assert(s@.subrange(pos as int, pos + 36)[23] == s@[pos + 23]);
        }
    }
    let len = s.len();
    if len < 36 || pos > len - 36 {
        return None;
    }
    if !(s[pos + 8] == 45 && s[pos + 13] == 45 && s[pos + 18] == 45 && s[pos + 23] == 45) {
        return None;
    }
    let ghost d1 = s@.subrange(pos as int, pos + 8);
    let ghost d2 = s@.subrange(pos + 9, pos + 13);
    let ghost d3 = s@.subrange(pos + 14, pos + 18);
    let ghost d4 = s@.subrange(pos + 19, pos + 23);
    let ghost d5 = s@.subrange(pos + 24, pos + 36);
    proof {
        assert forall|n: u128|
            s@.subrange(pos as int, pos + 36) == spec_uuid_hyphenated(n as int) implies (d1
            == spec_hex_fixed(n as int, 32).subrange(0, 8) && d2 == spec_hex_fixed(
            n as int,
            32,
        ).subrange(8, 12) && d3 == spec_hex_fixed(n as int, 32).subrange(12, 16) && d4
            == spec_hex_fixed(n as int, 32).subrange(16, 20) && d5 == spec_hex_fixed(
            n as int,
            32,
        ).subrange(20, 32)) by {
            lemma_hex_fixed_shape(n as int, 32);
            let w = s@.subrange(pos as int, pos + 36);
            let h = spec_hex_fixed(n as int, 32);
            assert(d1 =~= h.subrange(0, 8)) by {
                assert forall|t: int| 0 <= t < 8 implies d1[t] == h.subrange(0, 8)[t] by {
                    assert(w[t] == spec_uuid_hyphenated(n as int)[t]);
                }
            }
            assert(d2 =~= h.subrange(8, 12)) by {
                assert forall|t: int| 0 <= t < 4 implies d2[t] == h.subrange(8, 12)[t] by {
                    assert(w[t + 9] == spec_uuid_hyphenated(n as int)[t + 9]);
                }
            }
            assert(d3 =~= h.subrange(12, 16)) by {
                assert forall|t: int| 0 <= t < 4 implies d3[t] == h.subrange(12, 16)[t] by {
                    assert(w[t + 14] == spec_uuid_hyphenated(n as int)[t + 14]);
                }
            }
            assert(d4 =~= h.subrange(16, 20)) by {
                assert forall|t: int| 0 <= t < 4 implies d4[t] == h.subrange(16, 20)[t] by {
                    assert(w[t + 19] == spec_uuid_hyphenated(n as int)[t + 19]);
                }
            }
            assert(d5 =~= h.subrange(20, 32)) by {
                assert forall|t: int| 0 <= t < 12 implies d5[t] == h.subrange(20, 32)[t] by {
                    assert(w[t + 24] == spec_uuid_hyphenated(n as int)[t + 24]);
                }
            }
        }
    }
    let g1 = match parse_hex_fixed(s, pos, 8) {
        Some(v) => v,
        None => {
            proof {
                assert forall|n: u128|
                    pos + 36 <= s@.len() && s@.subrange(pos as int, pos + 36)
                        == spec_uuid_hyphenated(n as int) implies false by {
                    lemma_hex_fixed_shape(n as int, 32);
                    let h = spec_hex_fixed(n as int, 32);
                    let t = choose|t: int|
                        pos + 0 <= t < pos + 0 + 8 && !is_hex_lower(#[trigger] s@[t]);
                    assert(h.subrange(0, 8)[t - pos - 0] == h[t - pos - 0
                        + 0]);
                    assert(is_hex_lower(h[t - pos - 0 + 0]));
                    assert(s@[t] == h.subrange(0, 8)[t - pos - 0]);
                }
            }
            return None;
        },
    };
    let g2 = match parse_hex_fixed(s, pos + 9, 4) {
        Some(v) => v,
        None => {
            proof {
                assert forall|n: u128|
                    pos + 36 <= s@.len() && s@.subrange(pos as int, pos + 36)
                        == spec_uuid_hyphenated(n as int) implies false by {
                    lemma_hex_fixed_shape(n as int, 32);
                    let h = spec_hex_fixed(n as int, 32);
                    let t = choose|t: int|
                        pos + 9 <= t < pos + 9 + 4 && !is_hex_lower(#[trigger] s@[t]);
                    assert(h.subrange(8, 12)[t - pos - 9] == h[t - pos - 9
                        + 8]);
                    assert(is_hex_lower(h[t - pos - 9 + 8]));
                    assert(s@[t] == h.subrange(8, 12)[t - pos - 9]);
                }
            }
            return None;
        },
    };
    let g3 = match parse_hex_fixed(s, pos + 14, 4) {
        Some(v) => v,
        None => {
            proof {
                assert forall|n: u128|
                    pos + 36 <= s@.len() && s@.subrange(pos as int, pos + 36)
                        == spec_uuid_hyphenated(n as int) implies false by {
                    lemma_hex_fixed_shape(n as int, 32);
                    let h = spec_hex_fixed(n as int, 32);
                    let t = choose|t: int|
                        pos + 14 <= t < pos + 14 + 4 && !is_hex_lower(#[trigger] s@[t]);
                    assert(h.subrange(12, 16)[t - pos - 14] == h[t - pos - 14
                        + 12]);
                    assert(is_hex_lower(h[t - pos - 14 + 12]));
                    assert(s@[t] == h.subrange(12, 16)[t - pos - 14]);
                }
            }
            return None;
        },
    };
    let g4 = match parse_hex_fixed(s, pos + 19, 4) {
        Some(v) => v,
        None => {
            proof {
                assert forall|n: u128|
                    pos + 36 <= s@.len() && s@.subrange(pos as int, pos + 36)
                        == spec_uuid_hyphenated(n as int) implies false by {
                    lemma_hex_fixed_shape(n as int, 32);
                    let h = spec_hex_fixed(n as int, 32);
                    let t = choose|t: int|
                        pos + 19 <= t < pos + 19 + 4 && !is_hex_lower(#[trigger] s@[t]);
                    assert(h.subrange(16, 20)[t - pos - 19] == h[t - pos - 19
                        + 16]);
                    assert(is_hex_lower(h[t - pos - 19 + 16]));
                    assert(s@[t] == h.subrange(16, 20)[t - pos - 19]);
                }
            }
            return None;
        },
    };
    let g5 = match parse_hex_fixed(s, pos + 24, 12) {
        Some(v) => v,
        None => {
            proof {
                assert forall|n: u128|
                    pos + 36 <= s@.len() && s@.subrange(pos as int, pos + 36)
                        == spec_uuid_hyphenated(n as int) implies false by {
                    lemma_hex_fixed_shape(n as int, 32);
                    let h = spec_hex_fixed(n as int, 32);
                    let t = choose|t: int|
                        pos + 24 <= t < pos + 24 + 12 && !is_hex_lower(#[trigger] s@[t]);
                    assert(h.subrange(20, 32)[t - pos - 24] == h[t - pos - 24
                        + 20]);
                    assert(is_hex_lower(h[t - pos - 24 + 20]));
                    assert(s@[t] == h.subrange(20, 32)[t - pos - 24]);
                }
            }
            return None;
        },
    };
    proof {
        lemma_pow16_values();
        assert(g1 < 0x100000000 && g2 < 0x10000 && g3 < 0x10000 && g4 < 0x10000 && g5
            < 0x1000000000000);
    }
    let v12: u128 = g1 * 0x10000 + g2;
    let v123: u128 = v12 * 0x10000 + g3;
    let v1234: u128 = v123 * 0x10000 + g4;
    let v: u128 = v1234 * 0x1000000000000 + g5;
    proof {
        let d = d1 + d2 + d3 + d4 + d5;
        lemma_hex_value_concat(d1, d2);
        lemma_hex_value_concat(d1 + d2, d3);
        lemma_hex_value_concat(d1 + d2 + d3, d4);
        lemma_hex_value_concat(d1 + d2 + d3 + d4, d5);
        assert(d.len() == 32);
        assert forall|t: int| 0 <= t < 32 implies is_hex_lower(#[trigger] d[t]) by {
            if t < 8 {
                assert(d[t] == d1[t]);
                assert(d1[t] == s@[pos + t]);
            } else if t < 12 {
                assert(d[t] == d2[t - 8]);
            } else if t < 16 {
                assert(d[t] == d3[t - 12]);
            } else if t < 20 {
                assert(d[t] == d4[t - 16]);
            } else {
                assert(d[t] == d5[t - 20]);
            }
        }
        lemma_hex_canonical(d);
        assert(v as int == hex_value(d)) by (nonlinear_arith)
            requires
                v12 == g1 * 0x10000 + g2,
                v123 == v12 * 0x10000 + g3,
                v1234 == v123 * 0x10000 + g4,
                v == v1234 * 0x1000000000000 + g5,
                hex_value(d) == ((((g1 * 0x10000 + g2) * 0x10000 + g3) * 0x10000 + g4)
                    * 0x1000000000000) + g5,
        ;
        assert(hex_value(d) == ((((g1 * 0x10000 + g2) * 0x10000 + g3) * 0x10000 + g4)
            * 0x1000000000000) + g5) by {
            assert(hex_value(d1) == g1 && hex_value(d2) == g2 && hex_value(d3) == g3
                && hex_value(d4) == g4 && hex_value(d5) == g5);
            assert(pow16(4) == 0x10000 && pow16(12) == 0x1000000000000);
            assert(hex_value(d1 + d2) == g1 * 0x10000 + g2);
            assert(hex_value(d1 + d2 + d3) == (g1 * 0x10000 + g2) * 0x10000 + g3);
            assert(hex_value(d1 + d2 + d3 + d4) == ((g1 * 0x10000 + g2) * 0x10000 + g3) * 0x10000
                + g4);
        }
        assert(d == spec_hex_fixed(v as int, 32));
        let u = s@.subrange(pos as int, pos + 36);
        assert(u =~= spec_uuid_hyphenated(v as int)) by {
            assert(d.subrange(0, 8) =~= d1);
            assert(d.subrange(8, 12) =~= d2);
            assert(d.subrange(12, 16) =~= d3);
            assert(d.subrange(16, 20) =~= d4);
            assert(d.subrange(20, 32) =~= d5);
            assert forall|t: int| 0 <= t < 36 implies u[t] == spec_uuid_hyphenated(
                v as int,
            )[t] by {
                assert(u[t] == s@[pos + t]);
            }
        }
        assert forall|n: u128|
            s@.subrange(pos as int, pos + 36) == spec_uuid_hyphenated(n as int) implies n
            == v by {
            lemma_hex_fixed_shape(n as int, 32);
            assert(d1 == spec_hex_fixed(n as int, 32).subrange(0, 8));
            assert(d =~= spec_hex_fixed(n as int, 32)) by {
                let h = spec_hex_fixed(n as int, 32);
                assert(h.subrange(0, 8) + h.subrange(8, 12) + h.subrange(12, 16) + h.subrange(
                    16,
                    20,
                ) + h.subrange(20, 32) =~= h);
            }
            assert(hex_value(d) == n);
        }
    }
    Some((v, pos + 36))
}



/// A character the codec writes into a JSON string unescaped: printable
/// ASCII that is not a quote or a backslash.
pub open spec fn json_safe_char(c: char) -> bool {
    32 <= (c as u32) <= 126 && (c as u32) != 34 && (c as u32) != 92
}

/// A string the codec can carry without escape sequences.
pub open spec fn json_safe(s: Seq<char>) -> bool {
    forall|i: int| 0 <= i < s.len() ==> json_safe_char(#[trigger] s[i])
}

/// The byte of each character of an ASCII string.
pub open spec fn char_bytes(s: Seq<char>) -> Seq<u8> {
    Seq::new(s.len(), |i: int| ((s[i] as u32) as u8))
}

/// A quoted JSON string of safe characters.
pub open spec fn spec_json_string(s: Seq<char>) -> Seq<u8> {
    seq![34u8] + char_bytes(s) + seq![34u8]
}

/// A byte a safe character maps to.
pub open spec fn json_safe_byte(b: u8) -> bool {
    32 <= b <= 126 && b != 34 && b != 92
}

/// Relies on `String::from_utf8`: bytes below 128 are valid UTF-8 and
/// decode to exactly those characters, one character per byte.
#[verifier::external_body]
fn string_from_ascii(v: Vec<u8>) -> (r: String)
    requires
        forall|i: int| 0 <= i < v@.len() ==> v@[i] < 128,
    ensures
        r@ == Seq::new(v@.len(), |i: int| v@[i] as char),
{
    String::from_utf8(v).unwrap()
}

/// Append a quoted JSON string, refusing one that would need escaping.
pub fn push_json_string(out: &mut Vec<u8>, s: &String) -> (ok: bool)
    ensures
        ok <==> json_safe(s@),
        ok ==> final(out)@ == old(out)@ + spec_json_string(s@),
        !ok ==> final(out)@ == old(out)@,
{
    let n = s.as_str().unicode_len();
    let mut i: usize = 0;
    while i < n
        invariant
            n == s@.len(),
            i <= n,
            forall|t: int| 0 <= t < i ==> json_safe_char(#[trigger] s@[t]),
        decreases n - i,
    {
        let c = s.as_str().get_char(i);
        let u = c as u32;
        if !(32 <= u && u <= 126 && u != 34 && u != 92) {
            proof {
                assert(!json_safe_char(s@[i as int]));
            }
            return false;
        }
        i += 1;
    }
    out.push(34);
    let ghost base = out@;
    let mut j: usize = 0;
    while j < n
        invariant
            n == s@.len(),
            j <= n,
            json_safe(s@),
            base == old(out)@ + seq![34u8],
            out@ == base + char_bytes(s@).subrange(0, j as int),
        decreases n - j,
    {
        let c = s.as_str().get_char(j);
        let u = c as u32;
        out.push(u as u8);
        proof {
            assert(char_bytes(s@)[j as int] == ((s@[j as int] as u32) as u8));
            assert(out@ =~= base + char_bytes(s@).subrange(0, j + 1));
        }
        j += 1;
    }
    out.push(34);
    proof {
        assert(char_bytes(s@).subrange(0, s@.len() as int) =~= char_bytes(s@));
        assert(out@ =~= old(out)@ + spec_json_string(s@));
    }
    true
}

/// Parse a quoted JSON string of safe characters at `pos`.
pub fn parse_json_string(s: &Vec<u8>, pos: usize) -> (r: Option<(String, usize)>)
    requires
        pos <= s@.len(),
    ensures
        r matches Some(p) ==> pos < p.1 <= s@.len() && json_safe(p.0@) && s@.subrange(
            pos as int,
            p.1 as int,
        ) == spec_json_string(p.0@),
        forall|cs: Seq<char>, e: int|
            json_safe(cs) && pos < e <= s@.len() && s@.subrange(pos as int, e)
                == spec_json_string(cs) ==> (r matches Some(p) && p.0@ == cs && p.1 == e),
{
    broadcast use vstd::utf8::char_u32_cast;
    broadcast use vstd::utf8::char_is_scalar;

    let len = s.len();
    proof {
        assert forall|cs: Seq<char>, e: int|
            json_safe(cs) && pos < e <= s@.len() && s@.subrange(pos as int, e)
                == spec_json_string(cs) implies (s@[pos as int] == 34 && e == pos + 2 + cs.len()
            && s@[e - 1] == 34 && (forall|t: int|
            pos + 1 <= t < e - 1 ==> s@[t] == ((cs[t - pos - 1] as u32) as u8)
                && json_safe_byte(#[trigger] s@[t]))) by {
            let w = s@.subrange(pos as int, e);
            assert(w[0] == s@[pos as int]);
            assert(w[0] == 34);
            assert(w.len() == 2 + cs.len());
            assert(w[e - pos - 1] == s@[e - 1]);
            assert(w[e - pos - 1] == 34);
            assert forall|t: int|
                pos + 1 <= t < e - 1 implies s@[t] == ((cs[t - pos - 1] as u32) as u8)
                && json_safe_byte(#[trigger] s@[t]) by {
                assert(w[t - pos] == s@[t]);
                assert(w[t - pos] == char_bytes(cs)[t - pos - 1]);
                assert(json_safe_char(cs[t - pos - 1]));
            }
        }
    }
    if pos >= len || s[pos] != 34 {
        return None;
    }
    let mut j: usize = pos + 1;
    let mut buf: Vec<u8> = Vec::new();
    while j < len
        invariant
            pos + 1 <= j <= len,
            len == s@.len(),
            pos < s@.len() && s@[pos as int] == 34,
            buf@ == s@.subrange(pos + 1, j as int),
            forall|t: int| 0 <= t < buf@.len() ==> json_safe_byte(#[trigger] buf@[t]),
            forall|cs: Seq<char>, e: int|
                json_safe(cs) && pos < e <= s@.len() && s@.subrange(pos as int, e)
                    == spec_json_string(cs) ==> (s@[pos as int] == 34 && e == pos + 2 + cs.len()
                    && s@[e - 1] == 34 && (forall|t: int|
                pos + 1 <= t < e - 1 ==> s@[t] == ((cs[t - pos - 1] as u32) as u8)
                && json_safe_byte(#[trigger] s@[t]))),
        decreases len - j,
    {
        let b = s[j];
        if b == 34 {
            let ghost bufv = buf@;
            let st = string_from_ascii(buf);
            proof {
                assert(st@ == Seq::new(bufv.len(), |i: int| bufv[i] as char));
                assert forall|t: int| 0 <= t < st@.len() implies json_safe_char(
                    #[trigger] st@[t],
                ) by {
                    let b = bufv[t];
                    let d = b as char;
                    assert(st@[t] == d);
                    assert(json_safe_byte(b));
                    assert(d as u32 == b);
                }
                assert(char_bytes(st@) =~= bufv);
                assert(s@.subrange(pos as int, j + 1) =~= spec_json_string(st@));
                assert forall|cs: Seq<char>, e: int|
                    json_safe(cs) && pos < e <= s@.len() && s@.subrange(pos as int, e)
                        == spec_json_string(cs) implies (st@ == cs && j + 1 == e) by {
                    assert(e == pos + 2 + cs.len());
                    assert(e - 1 == j) by {
                        if e - 1 < j {
                            assert(buf@[e - 1 - pos - 1] == s@[e - 1]);
                            assert(json_safe_byte(s@[e - 1]));
                        }
                        if e - 1 > j {
                            assert(s@[j as int] == cs[j - pos - 1] as u8);
                            assert(json_safe_byte(s@[j as int]));
                        }
                    }
                    assert(st@ =~= cs) by {
                        assert(st@.len() == cs.len());
                        assert forall|t: int| 0 <= t < cs.len() implies st@[t] == cs[t] by {
                            assert(s@[pos + 1 + t] == ((cs[t] as u32) as u8));
                            assert(bufv[t] == s@[pos + 1 + t]);
                            let b = bufv[t];
                            let d = b as char;
                            assert(st@[t] == d);
                            assert(json_safe_char(cs[t]));
                            assert(b == cs[t] as u32);
                            assert(d as u32 == b);
                            assert((d as u32) as char == d);
                            vstd::utf8::char_u32_cast(cs[t], cs[t] as u32);
                            assert((cs[t] as u32) as char == cs[t]);
                        }
                    }
                }
            }
            return Some((st, j + 1));
        }
        if !(32 <= b && b <= 126 && b != 92) {
            proof {
                assert forall|cs: Seq<char>, e: int|
                    json_safe(cs) && pos < e <= s@.len() && s@.subrange(pos as int, e)
                        == spec_json_string(cs) implies false by {
                    assert(e == pos + 2 + cs.len());
                    if j < e - 1 {
                        assert(json_safe_byte(s@[j as int]));
                    }
                    if j == e - 1 {
                        assert(s@[j as int] == 34);
                    }
                    if j > e - 1 {
                        assert(buf@[e - 1 - pos - 1] == s@[e - 1]);
                        assert(json_safe_byte(s@[e - 1]));
                    }
                }
            }
            return None;
        }
        buf.push(b);
        proof {
            assert(buf@ =~= s@.subrange(pos + 1, j + 1));
        }
        j += 1;
    }
    proof {
        assert forall|cs: Seq<char>, e: int|
            json_safe(cs) && pos < e <= s@.len() && s@.subrange(pos as int, e)
                == spec_json_string(cs) implies false by {
            assert(s@[e - 1] == 34);
            if e - 1 > pos {
                assert(buf@[e - 1 - pos - 1] == s@[e - 1]);
                assert(json_safe_byte(s@[e - 1]));
            }
        }
    }
    None
}

/// The bytes of the JSON fragment `{\"order_id\":`.
pub open spec fn tok_order_id() -> Seq<u8> {
    seq![123u8, 34, 111, 114, 100, 101, 114, 95, 105, 100, 34, 58]
}

/// The bytes of the JSON fragment `{\"order_id\":`, as a buffer.
pub fn tok_order_id_vec() -> (t: Vec<u8>)
    ensures
        t@ == tok_order_id(),
{
    let mut t: Vec<u8> = Vec::new();
    t.push(123);
    t.push(34);
    t.push(111);
    t.push(114);
    t.push(100);
    t.push(101);
    t.push(114);
    t.push(95);
    t.push(105);
    t.push(100);
    t.push(34);
    t.push(58);
    proof {
        assert(t@ =~= tok_order_id());
    }
    t
}

/// The bytes of the JSON fragment `,\"order_items\":[`.
pub open spec fn tok_order_items() -> Seq<u8> {
    seq![44u8, 34, 111, 114, 100, 101, 114, 95, 105, 116, 101, 109, 115, 34, 58, 91]
}

/// The bytes of the JSON fragment `,\"order_items\":[`, as a buffer.
pub fn tok_order_items_vec() -> (t: Vec<u8>)
    ensures
        t@ == tok_order_items(),
{
    let mut t: Vec<u8> = Vec::new();
    t.push(44);
    t.push(34);
    t.push(111);
    t.push(114);
    t.push(100);
    t.push(101);
    t.push(114);
    t.push(95);
    t.push(105);
    t.push(116);
    t.push(101);
    t.push(109);
    t.push(115);
    t.push(34);
    t.push(58);
    t.push(91);
    proof {
        assert(t@ =~= tok_order_items());
    }
    t
}

/// The bytes of the JSON fragment `{\"product_id\":`.
pub open spec fn tok_item_product() -> Seq<u8> {
    seq![123u8, 34, 112, 114, 111, 100, 117, 99, 116, 95, 105, 100, 34, 58]
}

/// The bytes of the JSON fragment `{\"product_id\":`, as a buffer.
pub fn tok_item_product_vec() -> (t: Vec<u8>)
    ensures
        t@ == tok_item_product(),
{
    let mut t: Vec<u8> = Vec::new();
    t.push(123);
    t.push(34);
    t.push(112);
    t.push(114);
    t.push(111);
    t.push(100);
    t.push(117);
    t.push(99);
    t.push(116);
    t.push(95);
    t.push(105);
    t.push(100);
    t.push(34);
    t.push(58);
    proof {
        assert(t@ =~= tok_item_product());
    }
    t
}

/// The bytes of the JSON fragment `,\"quantity\":`.
pub open spec fn tok_item_quantity() -> Seq<u8> {
    seq![44u8, 34, 113, 117, 97, 110, 116, 105, 116, 121, 34, 58]
}

/// The bytes of the JSON fragment `,\"quantity\":`, as a buffer.
pub fn tok_item_quantity_vec() -> (t: Vec<u8>)
    ensures
        t@ == tok_item_quantity(),
{
    let mut t: Vec<u8> = Vec::new();
    t.push(44);
    t.push(34);
    t.push(113);
    t.push(117);
    t.push(97);
    t.push(110);
    t.push(116);
    t.push(105);
    t.push(116);
    t.push(121);
    t.push(34);
    t.push(58);
    proof {
        assert(t@ =~= tok_item_quantity());
    }
    t
}

/// The bytes of the JSON fragment `{\"payment_id\":\"`.
pub open spec fn tok_payment_id() -> Seq<u8> {
    seq![123u8, 34, 112, 97, 121, 109, 101, 110, 116, 95, 105, 100, 34, 58, 34]
}

/// The bytes of the JSON fragment `{\"payment_id\":\"`, as a buffer.
pub fn tok_payment_id_vec() -> (t: Vec<u8>)
    ensures
        t@ == tok_payment_id(),
{
    let mut t: Vec<u8> = Vec::new();
    t.push(123);
    t.push(34);
    t.push(112);
    t.push(97);
    t.push(121);
    t.push(109);
    t.push(101);
    t.push(110);
    t.push(116);
    t.push(95);
    t.push(105);
    t.push(100);
    t.push(34);
    t.push(58);
    t.push(34);
    proof {
        assert(t@ =~= tok_payment_id());
    }
    t
}

/// The bytes of the JSON fragment `\",\"order_id\":`.
pub open spec fn tok_pay_order_id() -> Seq<u8> {
    seq![34u8, 44, 34, 111, 114, 100, 101, 114, 95, 105, 100, 34, 58]
}

/// The bytes of the JSON fragment `\",\"order_id\":`, as a buffer.
pub fn tok_pay_order_id_vec() -> (t: Vec<u8>)
    ensures
        t@ == tok_pay_order_id(),
{
    let mut t: Vec<u8> = Vec::new();
    t.push(34);
    t.push(44);
    t.push(34);
    t.push(111);
    t.push(114);
    t.push(100);
    t.push(101);
    t.push(114);
    t.push(95);
    t.push(105);
    t.push(100);
    t.push(34);
    t.push(58);
    proof {
        assert(t@ =~= tok_pay_order_id());
    }
    t
}

/// The bytes of the JSON fragment `,\"amount\":`.
pub open spec fn tok_amount() -> Seq<u8> {
    seq![44u8, 34, 97, 109, 111, 117, 110, 116, 34, 58]
}

/// The bytes of the JSON fragment `,\"amount\":`, as a buffer.
pub fn tok_amount_vec() -> (t: Vec<u8>)
    ensures
        t@ == tok_amount(),
{
    let mut t: Vec<u8> = Vec::new();
    t.push(44);
    t.push(34);
    t.push(97);
    t.push(109);
    t.push(111);
    t.push(117);
    t.push(110);
    t.push(116);
    t.push(34);
    t.push(58);
    proof {
        assert(t@ =~= tok_amount());
    }
    t
}

/// The bytes of the JSON fragment `,\"provider\":`.
pub open spec fn tok_provider() -> Seq<u8> {
    seq![44u8, 34, 112, 114, 111, 118, 105, 100, 101, 114, 34, 58]
}

/// The bytes of the JSON fragment `,\"provider\":`, as a buffer.
pub fn tok_provider_vec() -> (t: Vec<u8>)
    ensures
        t@ == tok_provider(),
{
    let mut t: Vec<u8> = Vec::new();
    t.push(44);
    t.push(34);
    t.push(112);
    t.push(114);
    t.push(111);
    t.push(118);
    t.push(105);
    t.push(100);
    t.push(101);
    t.push(114);
    t.push(34);
    t.push(58);
    proof {
        assert(t@ =~= tok_provider());
    }
    t
}

} // verus!
