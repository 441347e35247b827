//! Doubles as bit patterns, and what it means to round a fraction to one.
//!
//! A double is kept as its three fields. Without the sign, the 63 bits read
//! as one number put the doubles that are not negative in the order of their
//! values, with infinity behind the largest finite one; that number is the
//! double's magnitude.
use vstd::arithmetic::power2::{lemma2_to64, lemma_pow2_pos, lemma_pow2_unfold, pow2};
use vstd::prelude::*;

verus! {

/// `2^52`: the weight of the exponent field over the mantissa field, and
/// the hidden bit of a normal double.
pub const HIDDEN_BIT: u64 = 0x10_0000_0000_0000;

/// The exponent field of infinity, all ones.
pub const EXPONENT_MAX: u16 = 2047;

/// The magnitude of infinity.
pub const INFINITY_MAGNITUDE: u64 = 0x7FF0_0000_0000_0000;

/// The bit of the sign in a double's 64 bits.
pub const SIGN_BIT: u64 = 0x8000_0000_0000_0000;

/// The three fields of a double.
#[derive(Debug, Clone, Copy, PartialEq, Eq, Structural)]
pub struct FloatBits {
    pub sign: bool,
    pub biased_exponent: u16,
    pub mantissa: u64,
}

impl FloatBits {
    /// The exponent has 11 bits and the mantissa 52.
    pub open spec fn wf(self) -> bool {
        self.biased_exponent <= EXPONENT_MAX && self.mantissa < HIDDEN_BIT
    }

    /// The 63 bits below the sign, read as one number.
    pub open spec fn magnitude(self) -> nat {
        (self.biased_exponent as nat) * (HIDDEN_BIT as nat) + self.mantissa as nat
    }

    /// All 64 bits, read as one number.
    pub open spec fn bits(self) -> nat {
        self.magnitude() + if self.sign {
            SIGN_BIT as nat
        } else {
            0
        }
    }

    /// The double with the given sign and magnitude.
    pub open spec fn of_magnitude(sign: bool, magnitude: nat) -> FloatBits {
        FloatBits {
            sign,
            biased_exponent: (magnitude / (HIDDEN_BIT as nat)) as u16,
            mantissa: (magnitude % (HIDDEN_BIT as nat)) as u64,
        }
    }

    /// The double with the given sign and magnitude.
    pub fn from_magnitude(sign: bool, magnitude: u64) -> (r: FloatBits)
        requires
            magnitude < SIGN_BIT,
        ensures
            r == FloatBits::of_magnitude(sign, magnitude as nat),
            r.wf(),
            r.sign == sign,
            r.magnitude() == magnitude,
    {
        FloatBits {
            sign,
            biased_exponent: (magnitude / HIDDEN_BIT) as u16,
            mantissa: magnitude % HIDDEN_BIT,
        }
    }

    /// Splits 64 bits into the three fields.
    pub fn from_bits(bits: u64) -> (r: FloatBits)
        ensures
            r.wf(),
            r.bits() == bits,
    {
        if bits >= SIGN_BIT {
            FloatBits::from_magnitude(true, bits - SIGN_BIT)
        } else {
            FloatBits::from_magnitude(false, bits)
        }
    }

    /// Joins the three fields into 64 bits.
    pub fn to_bits(self) -> (r: u64)
        requires
            self.wf(),
        ensures
            r == self.bits(),
    {
        let magnitude: u64 = (self.biased_exponent as u64) * HIDDEN_BIT + self.mantissa;
        if self.sign {
            magnitude + SIGN_BIT
        } else {
            magnitude
        }
    }

    /// Zero with the given sign.
    pub fn zero(sign: bool) -> (r: FloatBits)
        ensures
            r == FloatBits::of_magnitude(sign, 0),
            r.wf(),
            r.sign == sign,
            r.magnitude() == 0,
    {
        FloatBits { sign, biased_exponent: 0, mantissa: 0 }
    }

    /// Infinity with the given sign.
    pub fn infinity(sign: bool) -> (r: FloatBits)
        ensures
            r == FloatBits::of_magnitude(sign, INFINITY_MAGNITUDE as nat),
            r.wf(),
            r.sign == sign,
            r.magnitude() == INFINITY_MAGNITUDE,
    {
        FloatBits { sign, biased_exponent: EXPONENT_MAX, mantissa: 0 }
    }
}

/// A magnitude below `2^63` makes a double, and is that double's magnitude.
pub proof fn lemma_of_magnitude(sign: bool, magnitude: nat)
    requires
        magnitude < SIGN_BIT,
    ensures
        FloatBits::of_magnitude(sign, magnitude).wf(),
        FloatBits::of_magnitude(sign, magnitude).sign == sign,
        FloatBits::of_magnitude(sign, magnitude).magnitude() == magnitude,
{
}

/// The value of the double with magnitude `k`, times `2^1074`: a whole
/// number. For the magnitude of infinity it is `2^1024 * 2^1074`, what the
/// next double would be worth if the exponent went on.
pub open spec fn scaled_value(k: nat) -> nat {
    let e = k / (HIDDEN_BIT as nat);
    let f = k % (HIDDEN_BIT as nat);
    if e == 0 {
        f
    } else {
        (HIDDEN_BIT as nat + f) * pow2((e - 1) as nat)
    }
}

/// Twice the point halfway between the doubles with magnitudes `k` and
/// `k + 1`, times `2^1074`.
pub open spec fn twice_midpoint(k: nat) -> nat {
    scaled_value(k) + scaled_value(k + 1)
}

/// The fraction `num / den` lies strictly between the halfway points below
/// and above the double with magnitude `k`: it is nearer to that double than
/// to any other.
pub open spec fn strictly_nearest(num: nat, den: nat, k: nat) -> bool {
    &&& k <= INFINITY_MAGNITUDE
    &&& k > 0 ==> twice_midpoint((k - 1) as nat) * den < pow2(1075) * num
    &&& k < INFINITY_MAGNITUDE ==> pow2(1075) * num < twice_midpoint(k) * den
}

/// The fraction `num / den` lies exactly halfway between the doubles with
/// magnitudes `k` and `k + 1`.
pub open spec fn halfway(num: nat, den: nat, k: nat) -> bool {
    k < INFINITY_MAGNITUDE && pow2(1075) * num == twice_midpoint(k) * den
}

/// Rounding `num / den` to the nearest double, ties to the even mantissa,
/// gives the magnitude `k`; what lies at or beyond the halfway point behind
/// the largest finite double goes to infinity.
pub open spec fn rounds_to(num: nat, den: nat, k: nat) -> bool {
    &&& k <= INFINITY_MAGNITUDE
    &&& k > 0 ==> {
        ||| twice_midpoint((k - 1) as nat) * den < pow2(1075) * num
        ||| twice_midpoint((k - 1) as nat) * den == pow2(1075) * num && k % 2 == 0
    }
    &&& k < INFINITY_MAGNITUDE ==> {
        ||| pow2(1075) * num < twice_midpoint(k) * den
        ||| pow2(1075) * num == twice_midpoint(k) * den && k % 2 == 0
    }
}

/// What is strictly nearest is what rounding gives.
pub proof fn lemma_strictly_nearest_rounds(num: nat, den: nat, k: nat)
    requires
        strictly_nearest(num, den, k),
    ensures
        rounds_to(num, den, k),
{
}

/// The value of a double written with exponent step `c` and a significand
/// `s` that may have run over into the next binade.
pub proof fn lemma_scaled_value(c: nat, s: nat)
    requires
        (c == 0 && s <= HIDDEN_BIT) || (HIDDEN_BIT <= s <= 2 * HIDDEN_BIT),
    ensures
        scaled_value(c * HIDDEN_BIT as nat + s) == s * pow2(c),
{
    let k = c * HIDDEN_BIT as nat + s;
    let hb = HIDDEN_BIT as nat;
    lemma2_to64();
    lemma_pow2_pos(c);
    if s < hb {
        assert(k / hb == 0 && k % hb == s) by {
            assert(c == 0);
        }
        assert(s * pow2(0) == s);
    } else if s < 2 * hb {
        let f = (s - hb) as nat;
        assert(k == (c + 1) * hb + f) by (nonlinear_arith)
            requires
                k == c * hb + s,
                f == s - hb,
        ;
        assert(k / hb == c + 1 && k % hb == f) by (nonlinear_arith)
            requires
                k == (c + 1) * hb + f,
                0 <= f < hb,
                hb > 0,
        ;
    } else {
        assert(k == (c + 2) * hb) by (nonlinear_arith)
            requires
                k == c * hb + s,
                s == 2 * hb,
        ;
        assert(k / hb == c + 2 && k % hb == 0) by (nonlinear_arith)
            requires
                k == (c + 2) * hb,
                hb > 0,
        ;
        lemma_pow2_unfold(c + 1);
        assert(hb * (2 * pow2(c)) == (2 * hb) * pow2(c)) by (nonlinear_arith);
    }
}

/// The next double is worth more.
pub proof fn lemma_scaled_value_step(k: nat)
    ensures
        scaled_value(k) < scaled_value(k + 1),
{
    let hb = HIDDEN_BIT as nat;
    let e = k / hb;
    let f = k % hb;
    lemma2_to64();
    assert(k == e * hb + f) by (nonlinear_arith)
        requires
            e == k / hb,
            f == k % hb,
            hb > 0,
    ;
    if e == 0 {
        lemma_scaled_value(0, f);
        lemma_scaled_value(0, f + 1);
        assert(0 * hb + f == k);
    } else {
        let c = (e - 1) as nat;
        lemma_pow2_pos(c);
        lemma_scaled_value(c, hb + f);
        lemma_scaled_value(c, hb + f + 1);
        assert(c * hb + (hb + f) == k) by (nonlinear_arith)
            requires
                k == e * hb + f,
                c == e - 1,
        ;
        assert((hb + f) * pow2(c) < (hb + f + 1) * pow2(c)) by (nonlinear_arith)
            requires
                pow2(c) > 0,
        ;
    }
}

/// A double with a greater magnitude is worth no less.
pub proof fn lemma_scaled_value_monotone(j: nat, k: nat)
    requires
        j <= k,
    ensures
        scaled_value(j) <= scaled_value(k),
    decreases k - j,
{
    if j < k {
        lemma_scaled_value_monotone(j, (k - 1) as nat);
        lemma_scaled_value_step((k - 1) as nat);
    }
}

/// The halfway points stand in the order of the doubles between which they
/// lie.
pub proof fn lemma_twice_midpoint_monotone(j: nat, k: nat)
    requires
        j <= k,
    ensures
        twice_midpoint(j) <= twice_midpoint(k),
{
    lemma_scaled_value_monotone(j, k);
    lemma_scaled_value_monotone(j + 1, k + 1);
}

/// What lies exactly halfway between two doubles is strictly nearest to none.
pub proof fn lemma_halfway_not_nearest(num: nat, den: nat, h: nat, k: nat)
    requires
        den > 0,
        halfway(num, den, h),
    ensures
        !strictly_nearest(num, den, k),
{
    if strictly_nearest(num, den, k) {
        if k <= h {
            lemma_twice_midpoint_monotone(k, h);
            assert(twice_midpoint(k) * den <= twice_midpoint(h) * den) by (nonlinear_arith)
                requires
                    twice_midpoint(k) <= twice_midpoint(h),
            ;
        } else {
            lemma_twice_midpoint_monotone(h, (k - 1) as nat);
            assert(twice_midpoint(h) * den <= twice_midpoint((k - 1) as nat) * den)
                by (nonlinear_arith)
                requires
                    twice_midpoint(h) <= twice_midpoint((k - 1) as nat),
            ;
        }
    }
}

/// Rounding names one double only.
pub proof fn lemma_rounding_is_unique(num: nat, den: nat, j: nat, k: nat)
    requires
        den > 0,
        rounds_to(num, den, j),
        rounds_to(num, den, k),
    ensures
        j == k,
{
    if j < k {
        lemma_rounding_excludes_above(num, den, j, k);
    } else if k < j {
        lemma_rounding_excludes_above(num, den, k, j);
    }
}

/// What rounds to one double does not round to a greater one.
proof fn lemma_rounding_excludes_above(num: nat, den: nat, j: nat, k: nat)
    requires
        den > 0,
        j < k,
        rounds_to(num, den, j),
    ensures
        !rounds_to(num, den, k),
{
    if rounds_to(num, den, k) {
        let below = twice_midpoint(j);
        let above = twice_midpoint((k - 1) as nat);
        lemma_twice_midpoint_monotone(j, (k - 1) as nat);
        assert(below * den <= above * den) by (nonlinear_arith)
            requires
                below <= above,
        ;
        // both are ties, so both magnitudes are even, and the halfway points agree
        assert(below == above) by (nonlinear_arith)
            requires
                below * den == above * den,
                den > 0,
        ;
        if j < k - 1 {
            lemma_twice_midpoint_monotone(j + 1, (k - 1) as nat);
            lemma_scaled_value_step(j);
            lemma_scaled_value_step(j + 1);
        }
    }
}

} // verus!
