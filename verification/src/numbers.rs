//! Numbers as the script engine sees them: machine integers and decimals
//! together, with mixed comparison and arithmetic.  An integer paired with a
//! decimal widens losslessly into the decimal domain; two mantissa/scale
//! pairs compare by cross-multiplying with the opposite power of ten.

use vstd::prelude::*;

use crate::values::Decimal;
use crate::values::MetaVal;
use crate::values::pow10;
use crate::values::lemma_pow10_pos;
use crate::values::MAX_SCALE;

verus! {

/// Powers of ten multiply: `10^(m + n) == 10^m * 10^n`.
pub proof fn lemma_pow10_adds(m: nat, n: nat)
    ensures
        pow10(m + n) == pow10(m) * pow10(n),
    decreases m,
{
    if m == 0 {
        assert(pow10(n) == 1 * pow10(n));
    } else {
        lemma_pow10_adds((m - 1) as nat, n);
        assert(pow10(m + n) == 10 * pow10((m + n - 1) as nat));
        assert(pow10((m - 1) as nat + n) == pow10((m - 1) as nat) * pow10(n));
        assert((10 * pow10((m - 1) as nat)) * pow10(n) == 10 * (pow10((m - 1) as nat) * pow10(n)))
            by (nonlinear_arith);
    }
}

/// Powers of ten grow with the exponent.
pub proof fn lemma_pow10_mono(m: nat, n: nat)
    requires
        m <= n,
    ensures
        pow10(m) <= pow10(n),
    decreases n,
{
    if m < n {
        lemma_pow10_mono(m, (n - 1) as nat);
        lemma_pow10_pos((n - 1) as nat);
    }
}

/// The largest power of ten a decimal scale can call for.
pub proof fn lemma_pow10_max_scale()
    ensures
        pow10(MAX_SCALE as nat) == 1000000000000000000,
{
    reveal_with_fuel(pow10, 20);
}

/// Ten to the `s`, widened for cross-multiplied comparisons.
pub fn pow10_i128(s: u32) -> (r: i128)
    requires
        s <= MAX_SCALE,
    ensures
        r == pow10(s as nat),
        1 <= r <= 1000000000000000000,
{
    proof {
        lemma_pow10_max_scale();
        lemma_pow10_pos(s as nat);
        lemma_pow10_mono(s as nat, MAX_SCALE as nat);
    }
    let mut r: i128 = 1;
    let mut i: u32 = 0;
    while i < s
        invariant
            i <= s <= MAX_SCALE,
            r == pow10(i as nat),
            1 <= r <= 1000000000000000000,
        decreases s - i,
    {
        proof {
            lemma_pow10_pos(i as nat);
            lemma_pow10_mono((i + 1) as nat, MAX_SCALE as nat);
            lemma_pow10_max_scale();
        }
        r = r * 10;
        i = i + 1;
    }
    r
}

/// A number in the script engine: a machine integer or a decimal.
#[derive(Debug, Clone, Copy, PartialEq, Eq)]
pub enum Number {
    Int(i64),
    Dec(Decimal),
}

impl Number {
    /// The mantissa of this number seen as a decimal fraction.
    pub open spec fn mantissa(self) -> int {
        match self {
            Number::Int(i) => i as int,
            Number::Dec(d) => d.mantissa(),
        }
    }

    /// The scale of this number seen as a decimal fraction.
    pub open spec fn scale(self) -> nat {
        match self {
            Number::Int(_) => 0,
            Number::Dec(d) => d.scale(),
        }
    }

    /// The metadata value carrying this number.
    pub fn into_val(self) -> (r: MetaVal)
        ensures
            r@ == match self {
                Number::Int(i) => crate::values::ValSpec::Int(i as int),
                Number::Dec(d) => crate::values::ValSpec::Dec(d.mantissa(), d.scale()),
            },
    {
        match self {
            Number::Int(i) => MetaVal::Int(i),
            Number::Dec(d) => MetaVal::Dec(d),
        }
    }
}

/// `a < b` on decimal fractions, by cross-multiplication.
pub open spec fn frac_lt(m1: int, s1: nat, m2: int, s2: nat) -> bool {
    m1 * pow10(s2) < m2 * pow10(s1)
}

/// Compares two numbers under the numeric order that widens integers into
/// decimals losslessly.
pub fn cmp_num(a: &Number, b: &Number) -> (r: core::cmp::Ordering)
    ensures
        r == core::cmp::Ordering::Less <==> frac_lt(a.mantissa(), a.scale(), b.mantissa(), b.scale()),
        r == core::cmp::Ordering::Greater <==> frac_lt(b.mantissa(), b.scale(), a.mantissa(), a.scale()),
        r == core::cmp::Ordering::Equal <==> Decimal::frac_eq(
            a.mantissa(),
            a.scale(),
            b.mantissa(),
            b.scale(),
        ),
{
    let (ma, sa): (i64, u32) = num_parts(a);
    let (mb, sb): (i64, u32) = num_parts(b);
    let pa: i128 = pow10_i128(sa);
    let pb: i128 = pow10_i128(sb);
    proof {
        lemma_mul_in_range(ma as int, pb as int);
        lemma_mul_in_range(mb as int, pa as int);
    }
    let x: i128 = (ma as i128) * pb;
    let y: i128 = (mb as i128) * pa;
    if x < y {
        core::cmp::Ordering::Less
    } else if x == y {
        core::cmp::Ordering::Equal
    } else {
        core::cmp::Ordering::Greater
    }
}

/// The mantissa and scale of a number, as machine values.
fn num_parts(n: &Number) -> (r: (i64, u32))
    ensures
        r.0 as int == n.mantissa(),
        r.1 as nat == n.scale(),
        r.1 <= MAX_SCALE,
{
    match n {
        Number::Int(i) => (*i, 0),
        Number::Dec(d) => d.parts(),
    }
}

/// A product of an `i64` mantissa and a bounded power of ten stays far
/// inside the `i128` range.
proof fn lemma_mul_in_range(a: int, p: int)
    requires
        -0x8000000000000000 <= a <= 0x7fffffffffffffff,
        1 <= p <= 1000000000000000000,
    ensures
        -9223372036854775808000000000000000000 <= a * p
            <= 9223372036854775808000000000000000000,
{
    assert(-9223372036854775808000000000000000000 <= a * p
        <= 9223372036854775808000000000000000000) by (nonlinear_arith)
        requires
            -0x8000000000000000 <= a <= 0x7fffffffffffffff,
            1 <= p <= 1000000000000000000,
    ;
}

/// The reduced form of a decimal fraction: common factors of ten moved from
/// the mantissa into the scale until none remain or the scale is exhausted.
pub open spec fn dec_reduce(t: int, s: nat) -> (int, nat)
    decreases s,
{
    if s > 0 && t % 10 == 0 {
        dec_reduce(t / 10, (s - 1) as nat)
    } else {
        (t, s)
    }
}

/// Reduction preserves the denoted fraction.
pub proof fn lemma_dec_reduce_value(t: int, s: nat)
    ensures
        Decimal::frac_eq(dec_reduce(t, s).0, dec_reduce(t, s).1, t, s),
        dec_reduce(t, s).1 <= s,
    decreases s,
{
    if s > 0 && t % 10 == 0 {
        lemma_dec_reduce_value(t / 10, (s - 1) as nat);
        let (tr, sr) = dec_reduce(t / 10, (s - 1) as nat);
        assert(t == 10 * (t / 10));
        assert(pow10(s) == 10 * pow10((s - 1) as nat));
        assert(tr * pow10(s) == t * pow10(sr)) by (nonlinear_arith)
            requires
                tr * pow10((s - 1) as nat) == (t / 10) * pow10(sr),
                t == 10 * (t / 10),
                pow10(s) == 10 * pow10((s - 1) as nat),
        ;
    }
}

/// Reduction of a negated mantissa negates the reduced mantissa.
proof fn lemma_dec_reduce_neg(t: int, s: nat)
    requires
        t >= 0,
    ensures
        dec_reduce(-t, s).0 == -dec_reduce(t, s).0,
        dec_reduce(-t, s).1 == dec_reduce(t, s).1,
    decreases s,
{
    if s > 0 && t % 10 == 0 {
        assert((-t) % 10 == 0);
        assert((-t) / 10 == -(t / 10));
        lemma_dec_reduce_neg(t / 10, (s - 1) as nat);
    } else {
        if s > 0 {
            assert(t % 10 != 0);
            assert((-t) % 10 != 0);
        }
    }
}

/// Builds the decimal `t / 10^s` from a widened mantissa, reducing first;
/// fails exactly when the reduced mantissa or scale does not fit the
/// representation.
pub fn dec_from_wide(t: i128, s: u32) -> (r: Option<Decimal>)
    requires
        s <= 2 * MAX_SCALE,
        -0x40000000000000000000000000000000 <= t <= 0x40000000000000000000000000000000,
    ensures
        match r {
            Some(d) => {
                &&& Decimal::frac_eq(d.mantissa(), d.scale(), t as int, s as nat)
                &&& (d.mantissa(), d.scale()) == dec_reduce(t as int, s as nat)
                &&& d.scale() <= MAX_SCALE as nat
            },
            None => {
                let (tr, sr) = dec_reduce(t as int, s as nat);
                !(-0x8000000000000000 <= tr <= 0x7fffffffffffffff && sr <= MAX_SCALE as nat)
            },
        },
{
    let neg: bool = t < 0;
    let mag0: u128 = if neg {
        (-t) as u128
    } else {
        t as u128
    };
    let mut mag: u128 = mag0;
    let mut s_cur: u32 = s;
    proof {
        if neg {
            lemma_dec_reduce_neg(mag0 as int, s as nat);
        }
    }
    while s_cur > 0 && mag % 10 == 0
        invariant
            s_cur <= s,
            mag <= mag0,
            dec_reduce(mag0 as int, s as nat) == dec_reduce(mag as int, s_cur as nat),
        decreases s_cur,
    {
        mag = mag / 10;
        s_cur = s_cur - 1;
    }
    proof {
        assert(dec_reduce(mag as int, s_cur as nat) == (mag as int, s_cur as nat));
        if neg {
            assert(dec_reduce(t as int, s as nat) == (-(mag as int), s_cur as nat));
        } else {
            assert(dec_reduce(t as int, s as nat) == (mag as int, s_cur as nat));
        }
    }
    if s_cur > MAX_SCALE {
        return None;
    }
    if neg {
        if mag > 0x8000000000000000u128 {
            return None;
        }
        let m: i64 = if mag == 0x8000000000000000u128 {
            i64::MIN
        } else {
            -((mag as u64) as i64)
        };
        proof {
            lemma_dec_reduce_value(t as int, s as nat);
        }
        Some(Decimal::from_reduced(m, s_cur))
    } else {
        if mag > 0x7fffffffffffffffu128 {
            return None;
        }
        let m: i64 = (mag as u64) as i64;
        proof {
            lemma_dec_reduce_value(t as int, s as nat);
        }
        Some(Decimal::from_reduced(m, s_cur))
    }
}

/// The fraction denoting the sum of two fractions.
pub open spec fn frac_add(m1: int, s1: nat, m2: int, s2: nat) -> (int, nat) {
    (m1 * pow10(s2) + m2 * pow10(s1), s1 + s2)
}

/// The fraction denoting the product of two fractions.
pub open spec fn frac_mul(m1: int, s1: nat, m2: int, s2: nat) -> (int, nat) {
    (m1 * m2, s1 + s2)
}

/// Adds two numbers.  Two integers stay integers; any decimal operand
/// widens the result into the decimal domain.  Fails exactly when the
/// mathematical result does not fit the representation.
pub fn add_num(a: &Number, b: &Number) -> (r: Option<Number>)
    ensures
        match r {
            Some(n) => {
                let sum = frac_add(a.mantissa(), a.scale(), b.mantissa(), b.scale());
                &&& Decimal::frac_eq(n.mantissa(), n.scale(), sum.0, sum.1)
                &&& (n is Int <==> (a is Int && b is Int))
                &&& if a is Int && b is Int {
                    n.mantissa() == a.mantissa() + b.mantissa() && n.scale() == 0
                } else {
                    (n.mantissa(), n.scale()) == dec_reduce(sum.0, sum.1)
                }
                &&& n.scale() <= MAX_SCALE as nat
            },
            None => match (a, b) {
                (Number::Int(x), Number::Int(y)) => !(-0x8000000000000000 <= x as int + y as int
                    <= 0x7fffffffffffffff),
                _ => {
                    let sum = frac_add(a.mantissa(), a.scale(), b.mantissa(), b.scale());
                    let (tr, sr) = dec_reduce(sum.0, sum.1);
                    !(-0x8000000000000000 <= tr <= 0x7fffffffffffffff && sr <= MAX_SCALE as nat)
                },
            },
        },
{
    match (a, b) {
        (Number::Int(x), Number::Int(y)) => {
            let wide: i128 = (*x as i128) + (*y as i128);
            if wide < i64::MIN as i128 || wide > i64::MAX as i128 {
                None
            } else {
                proof {
                    assert(pow10(0) == 1);
                }
                Some(Number::Int(wide as i64))
            }
        },
        _ => {
            let (ma, sa): (i64, u32) = num_parts(a);
            let (mb, sb): (i64, u32) = num_parts(b);
            let pa: i128 = pow10_i128(sa);
            let pb: i128 = pow10_i128(sb);
            proof {
                lemma_mul_in_range(ma as int, pb as int);
                lemma_mul_in_range(mb as int, pa as int);
            }
            let t: i128 = (ma as i128) * pb + (mb as i128) * pa;
            match dec_from_wide(t, sa + sb) {
                Some(d) => Some(Number::Dec(d)),
                None => None,
            }
        },
    }
}

/// Multiplies two numbers, under the same promotion and failure rules as
/// [`add_num`].
pub fn mul_num(a: &Number, b: &Number) -> (r: Option<Number>)
    ensures
        match r {
            Some(n) => {
                let prod = frac_mul(a.mantissa(), a.scale(), b.mantissa(), b.scale());
                &&& Decimal::frac_eq(n.mantissa(), n.scale(), prod.0, prod.1)
                &&& (n is Int <==> (a is Int && b is Int))
                &&& if a is Int && b is Int {
                    n.mantissa() == a.mantissa() * b.mantissa() && n.scale() == 0
                } else {
                    (n.mantissa(), n.scale()) == dec_reduce(prod.0, prod.1)
                }
                &&& n.scale() <= MAX_SCALE as nat
            },
            None => match (a, b) {
                (Number::Int(x), Number::Int(y)) => !(-0x8000000000000000 <= (x as int) * (
                y as int) <= 0x7fffffffffffffff),
                _ => {
                    let prod = frac_mul(a.mantissa(), a.scale(), b.mantissa(), b.scale());
                    let (tr, sr) = dec_reduce(prod.0, prod.1);
                    !(-0x8000000000000000 <= tr <= 0x7fffffffffffffff && sr <= MAX_SCALE as nat)
                },
            },
        },
{
    match (a, b) {
        (Number::Int(x), Number::Int(y)) => {
            proof {
                lemma_mul_i64_in_range(*x as int, *y as int);
            }
            let wide: i128 = (*x as i128) * (*y as i128);
            if wide < i64::MIN as i128 || wide > i64::MAX as i128 {
                None
            } else {
                proof {
                    assert(pow10(0) == 1);
                }
                Some(Number::Int(wide as i64))
            }
        },
        _ => {
            let (ma, sa): (i64, u32) = num_parts(a);
            let (mb, sb): (i64, u32) = num_parts(b);
            proof {
                lemma_mul_i64_in_range(ma as int, mb as int);
            }
            let t: i128 = (ma as i128) * (mb as i128);
            match dec_from_wide(t, sa + sb) {
                Some(d) => Some(Number::Dec(d)),
                None => None,
            }
        },
    }
}

/// A product of two `i64` values stays inside the `i128` range.
proof fn lemma_mul_i64_in_range(a: int, b: int)
    requires
        -0x8000000000000000 <= a <= 0x7fffffffffffffff,
        -0x8000000000000000 <= b <= 0x7fffffffffffffff,
    ensures
        -0x40000000000000000000000000000000 <= a * b <= 0x40000000000000000000000000000000,
{
    assert(-0x40000000000000000000000000000000 <= a * b <= 0x40000000000000000000000000000000)
        by (nonlinear_arith)
        requires
            -0x8000000000000000 <= a <= 0x7fffffffffffffff,
            -0x8000000000000000 <= b <= 0x7fffffffffffffff,
    ;
}

} // verus!
