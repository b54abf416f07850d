use vstd::prelude::*;
use crate::text::{value_of, all_digits, parse_digits};

verus! {

/// Largest number of fraction digits a decimal keeps.
pub const MAX_SCALE: u8 = 18;

/// A decimal number: `mantissa / 10^scale`.
#[derive(Debug, Clone, Copy, PartialEq, Eq, Structural)]
pub struct Decimal {
    pub mantissa: i64,
    pub scale: u8,
}

/// A wide decimal: `mantissa / 10^scale`.
#[derive(Debug, Clone, Copy, PartialEq, Eq, Structural)]
pub struct WideDecimal {
    pub mantissa: i128,
    pub scale: u8,
}

pub open spec fn pow10(n: nat) -> int
    decreases n,
{
    if n == 0 { 1 } else { 10 * pow10((n - 1) as nat) }
}

pub proof fn lemma_pow10_pos(n: nat)
    ensures
        pow10(n) >= 1,
    decreases n,
{
    if n > 0 {
        lemma_pow10_pos((n - 1) as nat);
    }
}

pub proof fn lemma_pow10_mono(a: nat, b: nat)
    requires
        a <= b,
    ensures
        pow10(a) <= pow10(b),
    decreases b,
{
    if a < b {
        lemma_pow10_mono(a, (b - 1) as nat);
        lemma_pow10_pos((b - 1) as nat);
    }
}

/// `10^n` for `n` up to 18.
pub fn pow10_exec(n: u8) -> (r: i128)
    requires
        n <= 18,
    ensures
        r == pow10(n as nat),
        1 <= r <= 1_000_000_000_000_000_000,
{
    let mut r: i128 = 1;
    let mut i: u8 = 0;
    proof {
        reveal_with_fuel(pow10, 19);
        assert(pow10(18) == 1_000_000_000_000_000_000);
        lemma_pow10_mono(n as nat, 18);
    }
    while i < n
        invariant
            i <= n <= 18,
            r == pow10(i as nat),
            pow10(n as nat) <= 1_000_000_000_000_000_000,
        decreases n - i,
    {
        proof {
            lemma_pow10_mono((i + 1) as nat, n as nat);
            assert(pow10((i + 1) as nat) == 10 * pow10(i as nat));
            assert(r * 10 <= 1_000_000_000_000_000_000);
            lemma_pow10_pos(i as nat);
        }
        r = r * 10;
        i = i + 1;
    }
    proof {
        lemma_pow10_pos(n as nat);
    }
    r
}

/// `a * factor + offset` as one wide decimal whose scale is the larger of the two scales,
/// when its mantissa fits.
pub open spec fn scaled_mantissa(a: int, factor: Decimal, offset: Decimal) -> int {
    let s = if factor.scale >= offset.scale { factor.scale } else { offset.scale };
    a * factor.mantissa * pow10((s - factor.scale) as nat) + offset.mantissa * pow10((s - offset.scale) as nat)
}

pub open spec fn fits_i128(v: int) -> bool {
    i128::MIN <= v <= i128::MAX
}

/// The factor part of `scaled_mantissa`.
pub open spec fn factor_part(a: int, factor: Decimal, offset: Decimal) -> int {
    let s = if factor.scale >= offset.scale { factor.scale } else { offset.scale };
    a * factor.mantissa * pow10((s - factor.scale) as nat)
}

/// `a * factor + offset`, exact, at the larger of the two scales. `None` only where the
/// factor part or the sum does not fit an `i128` mantissa.
pub fn scale_value(a: i64, factor: Decimal, offset: Decimal) -> (r: Option<WideDecimal>)
    requires
        factor.scale <= MAX_SCALE,
        offset.scale <= MAX_SCALE,
    ensures
        r is Some <==> fits_i128(factor_part(a as int, factor, offset)) && fits_i128(
            scaled_mantissa(a as int, factor, offset),
        ),
        r matches Some(w) ==> w.mantissa == scaled_mantissa(a as int, factor, offset) && w.scale
            == if factor.scale >= offset.scale { factor.scale } else { offset.scale },
{
    let s: u8 = if factor.scale >= offset.scale { factor.scale } else { offset.scale };
    let pf = pow10_exec(s - factor.scale);
    let po = pow10_exec(s - offset.scale);
    proof {
        assert(-0x8000_0000_0000_0000_0000_0000_0000_0000 <= (a as int) * (factor.mantissa as int)
            <= 0x7fff_ffff_ffff_ffff_ffff_ffff_ffff_ffff) by (nonlinear_arith)
            requires
                -0x8000_0000_0000_0000 <= a <= 0x7fff_ffff_ffff_ffff,
                -0x8000_0000_0000_0000 <= factor.mantissa <= 0x7fff_ffff_ffff_ffff;
        assert(-0x8000_0000_0000_0000 * 1_000_000_000_000_000_000 <= (offset.mantissa as int) * (po as int)
            <= 0x8000_0000_0000_0000 * 1_000_000_000_000_000_000) by (nonlinear_arith)
            requires
                -0x8000_0000_0000_0000 <= offset.mantissa <= 0x7fff_ffff_ffff_ffff,
                1 <= po <= 1_000_000_000_000_000_000;
    }
    let prod: i128 = (a as i128) * (factor.mantissa as i128);
    let right: i128 = (offset.mantissa as i128) * po;
    match prod.checked_mul(pf) {
        Some(l) => {
            match l.checked_add(right) {
                Some(m) => Some(WideDecimal { mantissa: m, scale: s }),
                None => None,
            }
        },
        None => None,
    }
}

/// What a decimal text means, where it is one: an optional sign, digits, and at most one
/// point with digits after it; at least one digit in all. The mantissa keeps every digit and
/// the scale counts those after the point.
pub open spec fn decimal_text(s: Seq<char>) -> Option<(int, nat)> {
    let neg = s.len() > 0 && s[0] == '-';
    let signed = s.len() > 0 && (s[0] == '-' || s[0] == '+');
    let body = if signed { s.drop_first() } else { s };
    let dot = first_dot(body);
    let int_part = if dot < body.len() { body.subrange(0, dot) } else { body };
    let frac = if dot < body.len() { body.subrange(dot + 1, body.len() as int) } else { Seq::empty() };
    if int_part.len() + frac.len() == 0 || !all_digits(int_part, 10) || !all_digits(frac, 10) {
        None
    } else {
        let m = value_of(int_part, 10) * pow10(frac.len()) + value_of(frac, 10);
        Some((if neg { -m } else { m }, frac.len()))
    }
}

/// The index of the first '.', or the length where there is none.
pub open spec fn first_dot(s: Seq<char>) -> int
    decreases s.len(),
{
    if s.len() == 0 {
        0
    } else if s[0] == '.' {
        0
    } else {
        1 + first_dot(s.drop_first())
    }
}

pub proof fn lemma_first_dot(s: Seq<char>)
    ensures
        0 <= first_dot(s) <= s.len(),
        forall|i: int| 0 <= i < first_dot(s) ==> s[i] != '.',
        first_dot(s) < s.len() ==> s[first_dot(s)] == '.',
    decreases s.len(),
{
    if s.len() > 0 && s[0] != '.' {
        lemma_first_dot(s.drop_first());
        assert forall|i: int| 0 <= i < first_dot(s) implies s[i] != '.' by {
            if i > 0 {
                assert(s[i] == s.drop_first()[i - 1]);
            }
        }
    }
}

/// Reads `s[start..end]` as a decimal number. `None` where it is no decimal text, where it
/// has more than `MAX_SCALE` fraction digits, or where its mantissa does not fit an `i64`.
#[verifier::rlimit(60)]
pub fn parse_decimal(s: &Vec<char>, start: usize, end: usize) -> (r: Option<Decimal>)
    requires
        start <= end <= s.len(),
    ensures
        r matches Some(d) ==> decimal_text(s@.subrange(start as int, end as int)) == Some(
            (d.mantissa as int, d.scale as nat),
        ),
        r matches Some(d) ==> d.scale <= MAX_SCALE && d.mantissa > i64::MIN,
        decimal_text(s@.subrange(start as int, end as int)) matches Some((m, sc)) ==> (sc
            <= MAX_SCALE && i64::MIN < m <= i64::MAX ==> r is Some),
{
    let ghost t = s@.subrange(start as int, end as int);
    let neg = start < end && s[start] == '-';
    let signed = start < end && (s[start] == '-' || s[start] == '+');
    let b0: usize = if signed { start + 1 } else { start };
    let ghost body = s@.subrange(b0 as int, end as int);
    assert(body =~= if signed { t.drop_first() } else { t });
    // find the point
    let mut k: usize = b0;
    while k < end && s[k] != '.'
        invariant
            b0 <= k <= end <= s.len(),
            forall|i: int| b0 <= i < k ==> s@[i] != '.',
        decreases end - k,
    {
        k = k + 1;
    }
    proof {
        lemma_first_dot(body);
        let fd = first_dot(body);
        if (k - b0) as int > fd {
            assert(body[fd] == s@[b0 + fd]);
        }
        if fd > (k - b0) as int {
            assert(body[(k - b0) as int] == s@[k as int]);
        }
        assert(fd == (k - b0) as int);
    }
    let has_dot = k < end;
    let fstart: usize = if has_dot { k + 1 } else { end };
    let flen: usize = end - fstart;
    let ghost int_part = s@.subrange(b0 as int, k as int);
    let ghost frac = s@.subrange(fstart as int, end as int);
    assert(int_part =~= if (k - b0) < body.len() { body.subrange(0, (k - b0) as int) } else { body });
    assert(frac =~= if (k - b0) < body.len() { body.subrange((k - b0) + 1, body.len() as int) } else { Seq::<char>::empty() });
    if (k - b0) + flen == 0 || flen > MAX_SCALE as usize {
        return None;
    }
    let ip: u64 = if k == b0 {
        0
    } else {
        match parse_digits(s, b0, k, 10, i64::MAX as u64) {
            Some(v) => v,
            None => {
                proof {
                    if all_digits(int_part, 10) && all_digits(frac, 10) {
                        crate::text::lemma_value_nonneg(frac, 10);
                        lemma_pow10_pos(frac.len());
                        assert(value_of(int_part, 10) * pow10(frac.len()) >= value_of(int_part, 10)) by (nonlinear_arith)
                            requires value_of(int_part, 10) >= 0, pow10(frac.len()) >= 1;
                    }
                }
                return None;
            },
        }
    };
    let fp: u64 = if flen == 0 {
        0
    } else {
        match parse_digits(s, fstart, end, 10, u64::MAX) {
            Some(v) => v,
            None => {
                proof {
                    if all_digits(frac, 10) {
                        // fewer than nineteen digits never exceed u64::MAX
                        lemma_value_small(frac);
                    }
                }
                return None;
            },
        }
    };
    assert(int_part.len() == 0 ==> value_of(int_part, 10) == 0);
    assert(frac.len() == 0 ==> value_of(frac, 10) == 0);
    assert(all_digits(int_part, 10)) by {
        if int_part.len() == 0 {
        }
    }
    let p = pow10_exec(flen as u8);
    proof {
        assert((ip as int) * (p as int) <= 0x7fff_ffff_ffff_ffff * 1_000_000_000_000_000_000) by (nonlinear_arith)
            requires
                ip <= 0x7fff_ffff_ffff_ffff,
                1 <= p <= 1_000_000_000_000_000_000;
        assert((ip as int) * (p as int) >= 0) by (nonlinear_arith)
            requires
                p >= 1;
    }
    let m: i128 = (ip as i128) * p + (fp as i128);
    if m > i64::MAX as i128 {
        return None;
    }
    let mi = m as i64;
    Some(Decimal { mantissa: if neg { -mi } else { mi }, scale: flen as u8 })
}

proof fn lemma_value_small(s: Seq<char>)
    requires
        all_digits(s, 10),
        s.len() <= 18,
    ensures
        value_of(s, 10) < pow10(s.len()),
    decreases s.len(),
{
    if s.len() > 0 {
        let t = s.drop_last();
        assert(all_digits(t, 10)) by {
            assert forall|i: int| 0 <= i < t.len() implies crate::text::digit_value(#[trigger] t[i]) < 10 by {
                assert(t[i] == s[i]);
            }
        }
        lemma_value_small(t);
        assert(crate::text::digit_value(s.last()) < 10);
    }
}

} // verus!
