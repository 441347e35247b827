//! The fast path from a lexed literal to a double: one long multiplication
//! with a row of the table, a cut to 53 bits, and a refusal wherever the cut
//! could have gone the other way.
use crate::ieee::{
    halfway, lemma_halfway_not_nearest, lemma_of_magnitude, lemma_rounding_is_unique,
    lemma_scaled_value, lemma_scaled_value_step, lemma_strictly_nearest_rounds, rounds_to,
    scaled_value, strictly_nearest, twice_midpoint, FloatBits, EXPONENT_MAX, HIDDEN_BIT,
    INFINITY_MAGNITUDE,
};
use crate::lexer::ManExp10;
use crate::rounding::lemma_round_interval;
use crate::table::{
    lemma_pow2_128, lemma_row_brackets_pow10, lut_biased_e2, lut_significand, norm_shift,
    scaled_pow10, PowerTable, GEN_E10_MAX, GEN_E10_MIN,
};
use vstd::arithmetic::div_mod::{lemma_fundamental_div_mod, lemma_fundamental_div_mod_converse};
use vstd::arithmetic::mul::{
    lemma_mul_inequality, lemma_mul_inequality_converse, lemma_mul_strict_inequality,
    lemma_mul_strict_inequality_converse,
};
use vstd::arithmetic::power::{lemma_pow_positive, pow};
use vstd::arithmetic::power2::{
    lemma2_to64, lemma_pow2_adds, lemma_pow2_pos, lemma_pow2_strictly_increases,
    lemma_pow2_subtracts, lemma_pow2_unfold, pow2,
};
use vstd::bits::{lemma_u128_shr_is_div, lemma_u64_shl_is_mul};
use vstd::prelude::*;
use vstd::std_specs::bits::u64_leading_zeros;

verus! {

/// `2^64`: the weight of the upper half of a product over the lower.
pub const TWO_64: u128 = 0x1_0000_0000_0000_0000;

/// The numerator of the literal's magnitude as a fraction.
pub open spec fn decimal_num(me: ManExp10) -> nat {
    if me.e10 >= 0 {
        (me.man * pow(10, me.e10 as nat)) as nat
    } else {
        me.man as nat
    }
}

/// The denominator of the literal's magnitude as a fraction.
pub open spec fn decimal_den(me: ManExp10) -> nat {
    if me.e10 >= 0 {
        1
    } else {
        pow(10, (-me.e10) as nat) as nat
    }
}

/// `fb` is the double to which the literal rounds: it has the literal's
/// sign, and its magnitude is the nearest to `man * 10^e10`, ties to even.
pub open spec fn is_correctly_rounded(me: ManExp10, fb: FloatBits) -> bool {
    &&& fb.wf()
    &&& fb.sign == me.neg
    &&& rounds_to(decimal_num(me), decimal_den(me), fb.magnitude())
}

/// How far the mantissa is shifted left to set its top bit.
pub open spec fn lead_shift(man: u64) -> nat {
    u64_leading_zeros(man) as nat
}

/// The mantissa with its top bit set.
pub open spec fn normalized(man: u64) -> nat {
    man as nat * pow2(lead_shift(man))
}

/// The product of 192 bits: normalized mantissa times the row's significand.
pub open spec fn product(me: ManExp10) -> nat {
    normalized(me.man) * lut_significand(me.e10 as int)
}

/// The upper 128 bits of the product.
pub open spec fn product_high(me: ManExp10) -> nat {
    product(me) / (TWO_64 as nat)
}

/// The lower 64 bits of the product.
pub open spec fn product_low(me: ManExp10) -> nat {
    product(me) % (TWO_64 as nat)
}

/// 1 where the product fills all 192 bits, 0 where it has one bit less.
pub open spec fn top_bit(me: ManExp10) -> int {
    if product_high(me) >= pow2(127) {
        1
    } else {
        0
    }
}

/// The biased exponent the double would have as a normal one.
pub open spec fn tentative_exponent(me: ManExp10) -> int {
    lut_biased_e2(me.e10 as int) - lead_shift(me.man) - 1 + top_bit(me)
}

/// How many of the upper 128 bits are cut away: all but 53 for a normal
/// double, and more for a subnormal one.
pub open spec fn dropped_bits(me: ManExp10) -> nat {
    let e = tentative_exponent(me);
    (74 + top_bit(me) + if e < 1 {
        1 - e
    } else {
        0
    }) as nat
}

/// The exponent field less one, or zero for a subnormal double.
pub open spec fn exponent_step(me: ManExp10) -> nat {
    let e = tentative_exponent(me);
    if e < 1 {
        0
    } else {
        (e - 1) as nat
    }
}

/// The bits that are kept.
pub open spec fn kept(me: ManExp10) -> nat {
    product_high(me) / pow2(dropped_bits(me))
}

/// The bits of the upper half that are cut away.
pub open spec fn cut(me: ManExp10) -> nat {
    product_high(me) % pow2(dropped_bits(me))
}

/// Half a step of the kept bits.
pub open spec fn half_step(me: ManExp10) -> nat {
    pow2((dropped_bits(me) - 1) as nat)
}

/// A halfway point lies in the stretch in which the exact value is known to
/// lie: at its start, or at the next whole number of the upper half.
pub open spec fn ambiguous(me: ManExp10) -> bool {
    ||| cut(me) == half_step(me) && product_low(me) == 0
    ||| cut(me) + 1 == half_step(me) && product_low(me) + normalized(me.man) > TWO_64
}

/// The cut rounds up.
pub open spec fn rounds_up(me: ManExp10) -> bool {
    cut(me) >= half_step(me)
}

/// The magnitude after the cut.
pub open spec fn rounded_magnitude(me: ManExp10) -> nat {
    exponent_step(me) * (HIDDEN_BIT as nat) + kept(me) + if rounds_up(me) {
        1nat
    } else {
        0nat
    }
}

/// What the fast path gives for a literal, `covered` telling whether the
/// table has a row for its exponent.
///
/// A zero mantissa gives zero with the literal's sign. Without a row there
/// is no answer. An exponent beyond the largest finite double gives
/// infinity. Else the product is cut, and there is no answer where the cut
/// is ambiguous.
pub open spec fn fast_path(me: ManExp10, covered: bool) -> Option<FloatBits> {
    if me.man == 0 {
        Some(FloatBits::of_magnitude(me.neg, 0))
    } else if !covered {
        None
    } else if tentative_exponent(me) >= EXPONENT_MAX {
        Some(FloatBits::of_magnitude(me.neg, INFINITY_MAGNITUDE as nat))
    } else if ambiguous(me) {
        None
    } else {
        Some(FloatBits::of_magnitude(me.neg, rounded_magnitude(me)))
    }
}

/// The mantissa with its top bit set, and the shift that set it.
fn normalize_mantissa(man: u64) -> (r: (u64, u32))
    requires
        man > 0,
    ensures
        r.0 == normalized(man),
        r.1 == lead_shift(man),
        r.1 <= 63,
{
    let shift: u32 = man.leading_zeros();
    proof {
        lemma_lead_shift(man);
        lemma2_to64();
        lemma_u64_shl_is_mul(man, shift as u64);
    }
    (man << (shift as u64), shift)
}

/// The product of a mantissa of 64 bits and a significand of 128 bits in
/// two parts: the upper 128 bits and the lower 64.
fn wide_multiply(m: u64, hi64: u64, lo64: u64) -> (r: (u128, u64))
    ensures
        ({
            let full = (m as nat) * ((hi64 as nat) * (TWO_64 as nat) + lo64 as nat);
            r.0 == full / (TWO_64 as nat) && r.1 == full % (TWO_64 as nat)
        }),
{
    assert(m * lo64 <= 0xFFFF_FFFF_FFFF_FFFF * 0xFFFF_FFFF_FFFF_FFFF) by (nonlinear_arith)
        requires
            m <= 0xFFFF_FFFF_FFFF_FFFF,
            lo64 <= 0xFFFF_FFFF_FFFF_FFFF,
    ;
    assert(m * hi64 <= 0xFFFF_FFFF_FFFF_FFFF * 0xFFFF_FFFF_FFFF_FFFF) by (nonlinear_arith)
        requires
            m <= 0xFFFF_FFFF_FFFF_FFFF,
            hi64 <= 0xFFFF_FFFF_FFFF_FFFF,
    ;
    let low: u128 = (m as u128) * (lo64 as u128);
    let high: u128 = (m as u128) * (hi64 as u128);
    let upper: u128 = high + low / TWO_64;
    let lower: u64 = (low % TWO_64) as u64;
    proof {
        let full = (m as nat) * ((hi64 as nat) * (TWO_64 as nat) + lo64 as nat);
        assert(full == upper * TWO_64 + lower) by (nonlinear_arith)
            requires
                full == (m as nat) * ((hi64 as nat) * (TWO_64 as nat) + lo64 as nat),
                low == m * lo64,
                high == m * hi64,
                upper == high + low / TWO_64,
                lower == low % TWO_64,
                TWO_64 == 0x1_0000_0000_0000_0000,
        ;
        lemma_fundamental_div_mod_converse(
            full as int,
            TWO_64 as int,
            upper as int,
            lower as int,
        );
    }
    (upper, lower)
}

/// `2^n` for an `n` that 128 bits can hold.
fn power_of_two(n: u32) -> (r: u128)
    requires
        n <= 127,
    ensures
        r == pow2(n as nat),
{
    let top: u128 = 0x8000_0000_0000_0000_0000_0000_0000_0000;
    proof {
        lemma_pow2_128();
        lemma_u128_shr_is_div(top, (127 - n) as u128);
        lemma_pow2_subtracts((127 - n) as nat, 127);
    }
    top >> ((127 - n) as u128)
}

/// The Eisel-Lemire fast path: the double to which a lexed literal rounds,
/// or `None` where this way cannot tell.
///
/// The answer is `fast_path` of the literal, and every answer is the
/// correctly rounded double. There is none where the table has no row for
/// the exponent, and none where a halfway point lies within the reach of
/// the table's rounding error.
pub fn eisel_lemire(me: ManExp10, table: &PowerTable) -> (r: Option<FloatBits>)
    ensures
        r == fast_path(me, table.covers(me.e10 as int)),
        r matches Some(fb) ==> is_correctly_rounded(me, fb),
{
    if me.man == 0 {
        proof {
            lemma_fast_path_rounds(me, false);
        }
        return Some(FloatBits::zero(me.neg));
    }
    let row = match table.lookup(me.e10) {
        None => {
            return None;
        },
        Some(row) => row,
    };
    proof {
        lemma_fast_path_rounds(me, true);
        lemma_product_parts(me);
        lemma_kept_shape(me);
        lemma_pow2_128();
        lemma2_to64();
    }
    let (m, shift) = normalize_mantissa(me.man);
    let (upper, lower) = wide_multiply(m, row.hi64, row.lo64);
    assert(upper == product_high(me) && lower == product_low(me));
    let top: i32 = if upper >= 0x8000_0000_0000_0000_0000_0000_0000_0000 {
        1
    } else {
        0
    };
    let tentative: i32 = row.biased_e2 - shift as i32 - 1 + top;
    assert(tentative == tentative_exponent(me));
    if tentative >= EXPONENT_MAX as i32 {
        return Some(FloatBits::infinity(me.neg));
    }
    let drop: u32 = if tentative < 1 {
        (74 + top + 1 - tentative) as u32
    } else {
        (74 + top) as u32
    };
    let step: u64 = if tentative < 1 {
        0
    } else {
        (tentative - 1) as u64
    };
    assert(drop == dropped_bits(me) && step == exponent_step(me));
    let unit: u128 = power_of_two(drop);
    let half: u128 = power_of_two(drop - 1);
    proof {
        lemma_pow2_pos(drop as nat);
        lemma_pow2_unfold(drop as nat);
    }
    let quotient: u128 = upper / unit;
    let rest: u128 = upper % unit;
    assert(quotient == kept(me) && rest == cut(me) && half == half_step(me));
    if (rest == half && lower == 0) || (rest + 1 == half && lower as u128 + m as u128 > TWO_64) {
        return None;
    }
    let significand: u64 = quotient as u64 + if rest >= half {
        1
    } else {
        0
    };
    let magnitude: u64 = step * HIDDEN_BIT + significand;
    assert(magnitude == rounded_magnitude(me));
    Some(FloatBits::from_magnitude(me.neg, magnitude))
}

/// The shift sets the top bit of a mantissa that is not zero.
pub proof fn lemma_lead_shift(man: u64)
    requires
        man > 0,
    ensures
        lead_shift(man) <= 63,
        pow2(63) <= normalized(man) < pow2(64),
{
    lemma_lead_shift_bounds(man);
    let s = lead_shift(man);
    lemma_pow2_adds((63 - s) as nat, s);
    lemma_pow2_adds((64 - s) as nat, s);
    lemma_pow2_pos(s);
    let w = pow2(s);
    assert(pow2((63 - s) as nat) * w <= man * w) by (nonlinear_arith)
        requires
            pow2((63 - s) as nat) <= man,
            w > 0,
    ;
    assert(man * w < pow2((64 - s) as nat) * w) by (nonlinear_arith)
        requires
            man < pow2((64 - s) as nat),
            w > 0,
    ;
}

/// A mantissa with `z` leading zeros lies from `2^(63 - z)` up to, but not
/// at, `2^(64 - z)`.
proof fn lemma_lead_shift_bounds(man: u64)
    requires
        man > 0,
    ensures
        0 <= u64_leading_zeros(man) <= 63,
        pow2((63 - u64_leading_zeros(man)) as nat) <= man,
        man < pow2((64 - u64_leading_zeros(man)) as nat),
    decreases man,
{
    reveal(u64_leading_zeros);
    lemma2_to64();
    if man == 1 {
        assert(u64_leading_zeros(0) == 64);
        assert(u64_leading_zeros(1) == 63);
    } else {
        let half = man / 2;
        lemma_lead_shift_bounds(half);
        let s = u64_leading_zeros(man);
        assert(u64_leading_zeros(half) == s + 1);
        lemma_pow2_unfold((63 - s) as nat);
        lemma_pow2_unfold((64 - s) as nat);
    }
}

/// From an inequality between two numbers to one between two products that
/// hold them, where both products are known times a common factor.
proof fn lemma_transport_le(l: int, r: int, u: int, mu: int, lo: int, hi: int)
    requires
        u > 0,
        mu >= 0,
        lo <= hi,
        l * u == mu * lo,
        r * u == mu * hi,
    ensures
        l <= r,
{
    lemma_mul_inequality(lo, hi, mu);
    assert(mu * lo == lo * mu && mu * hi == hi * mu) by (nonlinear_arith);
    lemma_mul_inequality_converse(l, r, u);
}

/// The same for a strict inequality.
proof fn lemma_transport_lt(l: int, r: int, u: int, mu: int, lo: int, hi: int)
    requires
        u > 0,
        mu > 0,
        lo < hi,
        l * u == mu * lo,
        r * u == mu * hi,
    ensures
        l < r,
{
    lemma_mul_strict_inequality(lo, hi, mu);
    assert(mu * lo == lo * mu && mu * hi == hi * mu) by (nonlinear_arith);
    lemma_mul_strict_inequality_converse(l, r, u);
}

/// Four factors, grouped anew.
proof fn lemma_mul_regroup(x: int, a: int, s: int, n: int)
    ensures
        (x * a) * (s * n) == x * (a * s * n),
{
    assert((x * a) * (s * n) == x * (a * s * n)) by (nonlinear_arith);
}

/// Two products of two, with the inner factors exchanged.
proof fn lemma_mul_cross(a: int, b: int, c: int, d: int)
    ensures
        (a * b) * (c * d) == (a * d) * (b * c),
{
    assert((a * b) * (c * d) == (a * d) * (b * c)) by (nonlinear_arith);
}

/// The product's side of the comparison, times the common factor.
proof fn lemma_product_side(m: int, tt: int, a: int, sw: int, n: int, k: int, b: int)
    requires
        a * sw * n == k * b,
    ensures
        ((m * tt) * a) * (sw * n) == (m * b) * (tt * k),
{
    lemma_mul_regroup(m * tt, a, sw, n);
    lemma_mul_cross(m, tt, k, b);
}

/// The literal's side of the comparison, times the common factor.
proof fn lemma_literal_side(man: int, q: int, b: int, sw: int, n: int)
    ensures
        ((man * q) * b) * (sw * n) == ((man * sw) * b) * (n * q),
{
    let x = man * b;
    assert((man * q) * b == x * q) by (nonlinear_arith)
        requires
            x == man * b,
    ;
    assert((man * sw) * b == x * sw) by (nonlinear_arith)
        requires
            x == man * b,
    ;
    lemma_mul_cross(x, q, sw, n);
    assert((x * n) * (q * sw) == (x * sw) * (n * q)) by (nonlinear_arith);
}

/// Where the literal's magnitude lies, told in units that suit a double
/// with exponent step `c` cut at `drop` bits: from the product up to, but
/// not at, the product plus the normalized mantissa.
pub proof fn lemma_value_interval(me: ManExp10, c: nat, drop: nat)
    requires
        me.man > 0,
        GEN_E10_MIN <= me.e10 <= GEN_E10_MAX,
        c == lut_biased_e2(me.e10 as int) - lead_shift(me.man) - 76 + drop,
    ensures
        product(me) * pow2(c) * decimal_den(me) <= decimal_num(me) * pow2(1138 + drop),
        decimal_num(me) * pow2(1138 + drop) < (product(me) + normalized(me.man)) * pow2(c)
            * decimal_den(me),
{
    let e10 = me.e10 as int;
    let ten = (if e10 >= 0 { e10 } else { -e10 }) as nat;
    let s = lead_shift(me.man);
    let kk = norm_shift(scaled_pow10(e10));
    let man = me.man as int;
    let sw = pow2(s) as int;
    let m = normalized(me.man) as int;
    let t = lut_significand(e10) as int;
    let k = pow2(kk) as int;
    let n = pow2(2048) as int;
    let p10 = pow(10, ten);
    let a = pow2(c) as int;
    let b = pow2(1138 + drop) as int;
    lemma_row_brackets_pow10(e10);
    lemma_lead_shift(me.man);
    lemma_pow_positive(10, ten);
    lemma_pow2_pos(s);
    lemma_pow2_pos(kk);
    lemma_pow2_pos(2048);
    lemma_pow2_pos(c);
    lemma_pow2_pos(1138 + drop);
    lemma_pow2_pos(63);
    // 2^c * 2^s * 2^2048 == 2^kk * 2^(1138 + drop)
    assert(c + s + 2048 == kk + (1138 + drop));
    lemma_pow2_adds(c, s);
    lemma_pow2_adds(c + s, 2048);
    lemma_pow2_adds(kk, 1138 + drop);
    assert(a * sw * n == k * b);
    let u = sw * n;
    let mu = m * b;
    assert(u > 0) by (nonlinear_arith)
        requires
            u == sw * n,
            sw > 0,
            n > 0,
    ;
    assert(mu > 0) by (nonlinear_arith)
        requires
            mu == m * b,
            m > 0,
            b > 0,
    ;
    let p = product(me) as int;
    assert(p == m * t);
    assert(p + m == m * (t + 1)) by (nonlinear_arith)
        requires
            p == m * t,
    ;
    if e10 >= 0 {
        let num = decimal_num(me) as int;
        assert(num == man * p10);
        assert(decimal_den(me) == 1);
        lemma_product_side(m, t, a, sw, n, k, b);
        lemma_product_side(m, t + 1, a, sw, n, k, b);
        lemma_literal_side(man, p10, b, sw, n);
        lemma_transport_le(p * a, num * b, u, mu, t * k, n * p10);
        lemma_transport_lt(num * b, (p + m) * a, u, mu, n * p10, (t + 1) * k);
        assert(p * a * 1 == p * a);
        assert((p + m) * a * 1 == (p + m) * a);
    } else {
        assert(decimal_num(me) == man);
        assert(decimal_den(me) == p10);
        lemma_product_side(m, t * p10, a, sw, n, k, b);
        lemma_product_side(m, (t + 1) * p10, a, sw, n, k, b);
        assert(p * a * p10 == (m * (t * p10)) * a) by (nonlinear_arith)
            requires
                p == m * t,
        ;
        assert((p + m) * a * p10 == (m * ((t + 1) * p10)) * a) by (nonlinear_arith)
            requires
                p + m == m * (t + 1),
        ;
        assert((t * p10) * k == t * k * p10) by (nonlinear_arith);
        assert(((t + 1) * p10) * k == (t + 1) * k * p10) by (nonlinear_arith);
        lemma_literal_side(man, 1, b, sw, n);
        assert((man * 1) * b == man * b);
        assert(n * 1 == n);
        lemma_transport_le(p * a * p10, man * b, u, mu, t * k * p10, n);
        lemma_transport_lt(man * b, (p + m) * a * p10, u, mu, n, (t + 1) * k * p10);
    }
}

/// The sizes of the parts of the product, for a mantissa that is not zero
/// and an exponent that the generator serves.
pub proof fn lemma_product_parts(me: ManExp10)
    requires
        me.man > 0,
        GEN_E10_MIN <= me.e10 <= GEN_E10_MAX,
    ensures
        product(me) == product_high(me) * TWO_64 + product_low(me),
        product_low(me) < TWO_64,
        pow2(126) <= product_high(me) < pow2(128),
        pow2(63) <= normalized(me.man) < pow2(64),
        pow2(64) == TWO_64,
{
    let m = normalized(me.man);
    let t = lut_significand(me.e10 as int);
    let p = product(me);
    lemma_lead_shift(me.man);
    lemma_row_brackets_pow10(me.e10 as int);
    lemma2_to64();
    lemma_pow2_adds(63, 127);
    lemma_pow2_adds(64, 128);
    lemma_pow2_adds(126, 64);
    lemma_pow2_adds(128, 64);
    lemma_fundamental_div_mod(p as int, TWO_64 as int);
    assert(pow2(63) * pow2(127) <= m * t) by (nonlinear_arith)
        requires
            pow2(63) <= m,
            pow2(127) <= t,
    ;
    assert(m * t < pow2(64) * pow2(128)) by (nonlinear_arith)
        requires
            m < pow2(64),
            t < pow2(128),
    ;
}

/// The kept bits have the shape of a significand: 53 bits with the top one
/// set for a normal double, fewer for a subnormal one.
pub proof fn lemma_kept_shape(me: ManExp10)
    requires
        me.man > 0,
        GEN_E10_MIN <= me.e10 <= GEN_E10_MAX,
    ensures
        dropped_bits(me) >= 74,
        if tentative_exponent(me) >= 1 {
            HIDDEN_BIT <= kept(me) < 2 * HIDDEN_BIT
        } else {
            exponent_step(me) == 0 && kept(me) < HIDDEN_BIT
        },
{
    let hb = HIDDEN_BIT as nat;
    let h = product_high(me);
    let top = top_bit(me);
    let e = tentative_exponent(me);
    let dd = dropped_bits(me);
    let c = exponent_step(me);
    let q = kept(me);
    let r = cut(me);
    let d = pow2(dd);
    lemma_product_parts(me);
    lemma2_to64();
    lemma_pow2_128();
    lemma_pow2_unfold(127);
    lemma_pow2_pos(dd);
    lemma_fundamental_div_mod(h as int, d as int);
    let x = q * d;
    assert(h == x + r) by (nonlinear_arith)
        requires
            h == d * q + r,
            x == q * d,
    ;
    assert(0 <= r < d);
    assert(if e >= 1 {
        hb <= q < 2 * hb
    } else {
        c == 0 && q < hb
    }) by {
        if e >= 1 {
            assert(dd == 74 + top);
            lemma_pow2_adds(52, dd);
            lemma_pow2_adds(53, dd);
            assert(pow2(52) == hb && pow2(53) == 2 * hb) by {
                lemma_pow2_adds(32, 20);
                lemma_pow2_adds(32, 21);
            }
            assert(hb * d <= h < 2 * hb * d);
            assert(hb <= q < 2 * hb) by (nonlinear_arith)
                requires
                    hb * d <= h < 2 * hb * d,
                    h == x + r,
                    x == q * d,
                    0 <= r < d,
            ;
        } else {
            assert(c == 0);
            assert(dd >= 75 + top);
            lemma_pow2_adds(52, (75 + top) as nat);
            assert(pow2(52) == hb) by {
                lemma_pow2_adds(32, 20);
            }
            if dd > 75 + top {
                lemma_pow2_strictly_increases((75 + top) as nat, dd);
            }
            assert(h < hb * pow2((75 + top) as nat));
            assert(q < hb) by (nonlinear_arith)
                requires
                    h < hb * pow2((75 + top) as nat),
                    pow2((75 + top) as nat) <= d,
                    h == x + r,
                    x == q * d,
                    0 <= r < d,
            ;
        }
    }
}

/// The cut of an unambiguous product names the double that is strictly
/// nearest to the literal's magnitude.
pub proof fn lemma_cut_is_nearest(me: ManExp10)
    requires
        me.man > 0,
        GEN_E10_MIN <= me.e10 <= GEN_E10_MAX,
        tentative_exponent(me) < EXPONENT_MAX,
        !ambiguous(me),
    ensures
        strictly_nearest(decimal_num(me), decimal_den(me), rounded_magnitude(me)),
{
    let hb = HIDDEN_BIT as nat;
    let w64 = TWO_64 as nat;
    let m = normalized(me.man);
    let p = product(me);
    let h = product_high(me);
    let l = product_low(me);
    let top = top_bit(me);
    let e = tentative_exponent(me);
    let dd = dropped_bits(me);
    let c = exponent_step(me);
    let q = kept(me);
    let r = cut(me);
    let half = half_step(me);
    let d = pow2(dd);
    let up: nat = if rounds_up(me) { 1 } else { 0 };
    let sig = q + up;
    let v = pow2(dd + 63);
    lemma_product_parts(me);
    lemma2_to64();
    lemma_pow2_128();
    lemma_pow2_unfold(127);
    lemma_pow2_unfold(dd);
    lemma_pow2_pos((dd - 1) as nat);
    lemma_pow2_adds((dd - 1) as nat, 64);
    assert(v == half * w64) by {
        assert(dd + 63 == (dd - 1) + 64);
    }
    assert(d == 2 * half);
    lemma_fundamental_div_mod(h as int, d as int);
    let x = q * d;
    assert(h == x + r) by (nonlinear_arith)
        requires
            h == d * q + r,
            x == q * d,
    ;
    assert(0 <= r < d);
    lemma_kept_shape(me);
    // the stretch of the exact value against the halfway points around it
    assert(p == h * w64 + l);
    assert(l + m < 2 * w64);
    if rounds_up(me) {
        assert((2 * sig + 1) * v == (x + 3 * half) * w64) by (nonlinear_arith)
            requires
                v == half * w64,
                x == q * d,
                d == 2 * half,
                sig == q + 1,
        ;
        assert(r + 2 <= 3 * half);
        assert(p + m <= (2 * sig + 1) * v);
        assert((2 * sig - 1) * v == (x + half) * w64) by (nonlinear_arith)
            requires
                v == half * w64,
                x == q * d,
                d == 2 * half,
                sig == q + 1,
        ;
        assert((2 * sig - 1) * v < p);
    } else {
        assert((2 * sig + 1) * v == (x + half) * w64) by (nonlinear_arith)
            requires
                v == half * w64,
                x == q * d,
                d == 2 * half,
                sig == q,
        ;
        if r + 1 == half {
            assert(l + m <= w64);
        } else {
            assert(r + 2 <= half);
        }
        assert(p + m <= (2 * sig + 1) * v);
        assert(2 * sig * v == x * w64) by (nonlinear_arith)
            requires
                v == half * w64,
                x == q * d,
                d == 2 * half,
                sig == q,
        ;
        assert(2 * sig * v <= p);
    }
    lemma_value_interval(me, c, dd);
    lemma_round_interval(decimal_num(me), decimal_den(me), p, m, c, dd, sig, rounds_up(me));
    assert(decimal_den(me) > 0) by {
        if me.e10 < 0 {
            lemma_pow_positive(10, (-me.e10) as nat);
        }
    }
}

/// A literal whose tentative exponent is beyond the largest finite double
/// is worth at least `2^1024`: infinity is strictly nearest.
pub proof fn lemma_overflow_is_infinity(me: ManExp10)
    requires
        me.man > 0,
        GEN_E10_MIN <= me.e10 <= GEN_E10_MAX,
        tentative_exponent(me) >= EXPONENT_MAX,
    ensures
        strictly_nearest(decimal_num(me), decimal_den(me), INFINITY_MAGNITUDE as nat),
{
    let hb = HIDDEN_BIT as nat;
    let w64 = TWO_64 as nat;
    let num = decimal_num(me);
    let den = decimal_den(me);
    let p = product(me);
    let h = product_high(me);
    let top = top_bit(me);
    let dd = (74 + top) as nat;
    let c = (tentative_exponent(me) - 1) as nat;
    let a = pow2(c);
    let v = pow2(dd + 63);
    let t = pow2(1075);
    let inf = INFINITY_MAGNITUDE as nat;
    lemma_product_parts(me);
    lemma2_to64();
    lemma_pow2_128();
    lemma_pow2_unfold(127);
    lemma_pow2_pos(c);
    lemma_pow2_pos(dd + 63);
    lemma_pow2_pos(2046);
    assert(den > 0) by {
        if me.e10 < 0 {
            lemma_pow_positive(10, (-me.e10) as nat);
        }
    }
    assert(pow2(52) == hb) by {
        lemma_pow2_adds(32, 20);
    }
    // the product is at least 2^52 steps of the cut
    lemma_pow2_adds(52, dd);
    lemma_pow2_adds(dd, 64);
    lemma_pow2_unfold(dd + 64);
    assert(pow2(dd + 64) == 2 * v) by {
        assert(dd + 64 - 1 == dd + 63);
    }
    assert(h >= hb * pow2(dd));
    assert(p >= 2 * hb * v) by (nonlinear_arith)
        requires
            p >= h * w64,
            h >= hb * pow2(dd),
            pow2(dd) * w64 == 2 * v,
            w64 > 0,
    {
        assert(h * w64 >= (hb * pow2(dd)) * w64);
        assert((hb * pow2(dd)) * w64 == hb * (pow2(dd) * w64));
    }
    lemma_value_interval(me, c, dd);
    lemma_pow2_adds(1075, dd + 63);
    assert(pow2(1138 + dd) == t * v) by {
        assert(1138 + dd == 1075 + (dd + 63));
    }
    assert(2 * hb * a * den <= t * num) by (nonlinear_arith)
        requires
            p * a * den <= num * (t * v),
            p >= 2 * hb * v,
            v > 0,
            a > 0,
            den > 0,
    {
        assert((2 * hb * v) * (a * den) <= p * (a * den));
        assert((2 * hb * a * den) * v <= (t * num) * v);
    }
    // the halfway point below infinity is less than 2^1024
    if c > 2046 {
        lemma_pow2_strictly_increases(2046, c);
    }
    lemma_scaled_value(2045, 2 * hb);
    lemma_pow2_unfold(2046);
    assert(2045 * hb + 2 * hb == inf);
    assert(scaled_value(inf) == hb * pow2(2046)) by (nonlinear_arith)
        requires
            scaled_value(inf) == (2 * hb) * pow2(2045),
            pow2(2046) == 2 * pow2(2045),
    ;
    lemma_scaled_value_step((inf - 1) as nat);
    assert(twice_midpoint((inf - 1) as nat) * den < 2 * hb * a * den) by (nonlinear_arith)
        requires
            twice_midpoint((inf - 1) as nat) < 2 * (hb * pow2(2046)),
            pow2(2046) <= a,
            den > 0,
            hb > 0,
    {
        assert(2 * (hb * pow2(2046)) <= 2 * hb * a);
        assert(twice_midpoint((inf - 1) as nat) * den < (2 * hb * a) * den);
    }
}

/// Whatever the fast path answers is strictly nearest to the literal's
/// magnitude: no halfway point is ever decided by it.
pub proof fn lemma_fast_path_strict(me: ManExp10, covered: bool)
    requires
        covered ==> GEN_E10_MIN <= me.e10 <= GEN_E10_MAX,
    ensures
        fast_path(me, covered) matches Some(fb) ==> fb.wf() && fb.sign == me.neg
            && strictly_nearest(decimal_num(me), decimal_den(me), fb.magnitude()),
{
    let num = decimal_num(me);
    let den = decimal_den(me);
    if me.man == 0 {
        lemma_of_magnitude(me.neg, 0);
        lemma2_to64();
        assert(den > 0) by {
            if me.e10 < 0 {
                lemma_pow_positive(10, (-me.e10) as nat);
            }
        }
        assert(num == 0) by {
            if me.e10 >= 0 {
                assert(0 * pow(10, me.e10 as nat) == 0);
            }
        }
        assert(pow2(1075) * num == 0);
        lemma_scaled_value_step(0);
        assert(twice_midpoint(0) * den > 0) by (nonlinear_arith)
            requires
                twice_midpoint(0) > 0,
                den > 0,
        ;
    } else if covered {
        if tentative_exponent(me) >= EXPONENT_MAX {
            lemma_of_magnitude(me.neg, INFINITY_MAGNITUDE as nat);
            lemma_overflow_is_infinity(me);
        } else if !ambiguous(me) {
            lemma_cut_is_nearest(me);
            lemma_of_magnitude(me.neg, rounded_magnitude(me));
        }
    }
}

/// Whatever the fast path answers is the double to which the literal
/// rounds, nearest and ties to even.
pub proof fn lemma_fast_path_rounds(me: ManExp10, covered: bool)
    requires
        covered ==> GEN_E10_MIN <= me.e10 <= GEN_E10_MAX,
    ensures
        fast_path(me, covered) matches Some(fb) ==> is_correctly_rounded(me, fb),
{
    lemma_fast_path_strict(me, covered);
    if fast_path(me, covered) is Some {
        lemma_strictly_nearest_rounds(
            decimal_num(me),
            decimal_den(me),
            fast_path(me, covered)->Some_0.magnitude(),
        );
    }
}

/// A literal that rounds to the double with magnitude `k` is answered with
/// that double or not at all. The shortest text that reads back as a double
/// is such a literal.
pub proof fn lemma_fast_path_reads_back(me: ManExp10, covered: bool, k: nat)
    requires
        covered ==> GEN_E10_MIN <= me.e10 <= GEN_E10_MAX,
        rounds_to(decimal_num(me), decimal_den(me), k),
    ensures
        fast_path(me, covered) matches Some(fb) ==> fb.sign == me.neg && fb.magnitude() == k,
{
    lemma_fast_path_rounds(me, covered);
    if fast_path(me, covered) is Some {
        assert(decimal_den(me) > 0) by {
            if me.e10 < 0 {
                lemma_pow_positive(10, (-me.e10) as nat);
            }
        }
        lemma_rounding_is_unique(
            decimal_num(me),
            decimal_den(me),
            fast_path(me, covered)->Some_0.magnitude(),
            k,
        );
    }
}

/// A literal whose magnitude lies exactly halfway between two doubles,
/// those with magnitudes `k` and `k + 1`, gets no answer from the fast path.
pub proof fn lemma_fast_path_abstains_on_halfway(me: ManExp10, covered: bool, k: nat)
    requires
        covered ==> GEN_E10_MIN <= me.e10 <= GEN_E10_MAX,
        halfway(decimal_num(me), decimal_den(me), k),
    ensures
        fast_path(me, covered) is None,
{
    lemma_fast_path_strict(me, covered);
    if fast_path(me, covered) is Some {
        assert(decimal_den(me) > 0) by {
            if me.e10 < 0 {
                lemma_pow_positive(10, (-me.e10) as nat);
            }
        }
        lemma_halfway_not_nearest(
            decimal_num(me),
            decimal_den(me),
            k,
            fast_path(me, covered)->Some_0.magnitude(),
        );
    }
}

} // verus!
