//! Why cutting a long product short gives the nearest double: the
//! arithmetic behind the fast path, free of any table.
use crate::ieee::{
    lemma_scaled_value, lemma_scaled_value_step, scaled_value, strictly_nearest, twice_midpoint,
    HIDDEN_BIT, INFINITY_MAGNITUDE,
};
use vstd::arithmetic::power2::{lemma_pow2_adds, lemma_pow2_pos, lemma_pow2_unfold, pow2};
use vstd::prelude::*;

verus! {

/// A fraction that is known to lie in a short stretch of a long product
/// rounds to the double that the product's leading bits name, where no
/// halfway point lies in that stretch.
///
/// The fraction is `num / den`. In units of `2^c / 2^(1138 + drop)` it lies
/// from `p` up to, but not at, `p + m`. The double has exponent step `c`
/// and significand `sig`; `2^(drop + 63)` is half a step of the significand
/// in the units of `p`.
pub proof fn lemma_round_interval(
    num: nat,
    den: nat,
    p: nat,
    m: nat,
    c: nat,
    drop: nat,
    sig: nat,
    round_up: bool,
)
    requires
        den > 0,
        m > 0,
        c <= 2045,
        p * pow2(c) * den <= num * pow2(1138 + drop),
        num * pow2(1138 + drop) < (p + m) * pow2(c) * den,
        (c == 0 && sig <= HIDDEN_BIT) || (HIDDEN_BIT <= sig <= 2 * HIDDEN_BIT),
        p + m <= (2 * sig + 1) * pow2(drop + 63),
        round_up ==> sig >= 1 && (2 * sig - 1) * pow2(drop + 63) < p && (sig > HIDDEN_BIT || c
            == 0),
        !round_up ==> 2 * sig * pow2(drop + 63) <= p,
    ensures
        strictly_nearest(num, den, c * HIDDEN_BIT as nat + sig),
{
    let hb = HIDDEN_BIT as nat;
    let k = c * hb + sig;
    let a = pow2(c);
    let v = pow2(drop + 63);
    let w = pow2(1138 + drop);
    let t = pow2(1075);
    lemma_pow2_pos(c);
    lemma_pow2_pos(drop + 63);
    lemma_pow2_pos(1075);
    lemma_pow2_adds(1075, drop + 63);
    assert(w == t * v) by {
        assert(1138 + drop == 1075 + (drop + 63));
    }
    lemma_scaled_value(c, sig);
    assert(k <= INFINITY_MAGNITUDE) by (nonlinear_arith)
        requires
            k == c * hb + sig,
            c <= 2045,
            sig <= 2 * hb,
            hb == 0x10_0000_0000_0000,
    ;
    if k < INFINITY_MAGNITUDE {
        // above: the stretch ends at or below the halfway point to the next double
        assert(scaled_value(k + 1) >= (sig + 1) * a) by {
            if sig < 2 * hb {
                lemma_scaled_value(c, sig + 1);
            } else {
                lemma_scaled_value(c + 1, hb + 1);
                lemma_pow2_unfold(c + 1);
                assert(k + 1 == (c + 1) * hb + (hb + 1)) by (nonlinear_arith)
                    requires
                        k == c * hb + sig,
                        sig == 2 * hb,
                ;
                assert((hb + 1) * (2 * a) >= (sig + 1) * a) by (nonlinear_arith)
                    requires
                        sig == 2 * hb,
                        a > 0,
                ;
            }
        }
        assert(t * num < (2 * sig + 1) * a * den) by (nonlinear_arith)
            requires
                num * w < (p + m) * a * den,
                p + m <= (2 * sig + 1) * v,
                w == t * v,
                v > 0,
                a > 0,
                den > 0,
        {
            assert((p + m) * (a * den) <= ((2 * sig + 1) * v) * (a * den));
            assert((t * num) * v < ((2 * sig + 1) * a * den) * v);
        }
        assert((2 * sig + 1) * a * den <= twice_midpoint(k) * den) by (nonlinear_arith)
            requires
                twice_midpoint(k) >= sig * a + (sig + 1) * a,
                den > 0,
        ;
    }
    if k > 0 {
        lemma_scaled_value_step((k - 1) as nat);
        if round_up {
            lemma_scaled_value(c, (sig - 1) as nat);
            assert(k - 1 == c * hb + (sig - 1));
            assert(twice_midpoint((k - 1) as nat) == (2 * sig - 1) * a) by (nonlinear_arith)
                requires
                    twice_midpoint((k - 1) as nat) == (sig - 1) * a + sig * a,
            ;
            assert((2 * sig - 1) * a * den < t * num) by (nonlinear_arith)
                requires
                    p * a * den <= num * w,
                    (2 * sig - 1) * v < p,
                    w == t * v,
                    v > 0,
                    a > 0,
                    den > 0,
                    sig >= 1,
            {
                assert(((2 * sig - 1) * v) * (a * den) < p * (a * den));
                assert(((2 * sig - 1) * a * den) * v < (t * num) * v);
            }
        } else {
            assert(twice_midpoint((k - 1) as nat) < 2 * sig * a) by (nonlinear_arith)
                requires
                    twice_midpoint((k - 1) as nat) == scaled_value((k - 1) as nat) + sig * a,
                    scaled_value((k - 1) as nat) < sig * a,
            ;
            assert(2 * sig * a * den <= t * num) by (nonlinear_arith)
                requires
                    p * a * den <= num * w,
                    2 * sig * v <= p,
                    w == t * v,
                    v > 0,
                    a > 0,
                    den > 0,
            {
                assert((2 * sig * v) * (a * den) <= p * (a * den));
                assert((2 * sig * a * den) * v <= (t * num) * v);
            }
            assert(twice_midpoint((k - 1) as nat) * den < 2 * sig * a * den) by (nonlinear_arith)
                requires
                    twice_midpoint((k - 1) as nat) < 2 * sig * a,
                    den > 0,
            ;
        }
    }
}

} // verus!
