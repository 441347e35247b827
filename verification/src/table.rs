//! The table of powers of ten: for each decimal exponent a significand of
//! 128 bits and a biased binary exponent, and the generator that computes
//! them with exact arithmetic.
use crate::bignat::{limb_weight, BigNat};
use vstd::arithmetic::div_mod::{
    lemma_div_denominator, lemma_div_is_ordered_by_denominator, lemma_fundamental_div_mod,
};
use vstd::arithmetic::power::{lemma_pow0, lemma_pow_positive, pow};
use vstd::arithmetic::power2::{
    lemma2_to64, lemma_pow2_adds, lemma_pow2_pos, lemma_pow2_strictly_increases, lemma_pow2_unfold,
    pow2,
};
use vstd::prelude::*;

verus! {

/// The binary digits behind the point with which a power of ten is computed.
pub const WORKING_BITS: u32 = 2048;

/// What is added to a binary exponent before it is stored: the bias of a
/// double, 1023, and 191 for three limbs of 64 bits less one.
pub const EXPONENT_BIAS: i32 = 1214;

/// The least decimal exponent that the generator serves.
pub const GEN_E10_MIN: i16 = -310;

/// The greatest decimal exponent that the generator serves.
pub const GEN_E10_MAX: i16 = 310;

/// The least decimal exponent of the table in ordinary use.
pub const LUT_E10_MIN: i16 = -307;

/// The greatest decimal exponent of the table in ordinary use.
pub const LUT_E10_MAX: i16 = 288;

/// `2^2048 * 10^e10`, rounded down to a whole number.
pub open spec fn scaled_pow10(e10: int) -> nat {
    if e10 >= 0 {
        (pow2(WORKING_BITS as nat) * pow(10, e10 as nat)) as nat
    } else {
        (pow2(WORKING_BITS as nat) as int / pow(10, (-e10) as nat)) as nat
    }
}

/// `2^128`, one more than 128 bits can hold.
pub open spec fn two_to_128() -> nat {
    0x1_0000_0000_0000_0000_0000_0000_0000_0000nat
}

/// How often `z` is halved, rounding down, until 128 bits hold it.
pub open spec fn norm_shift(z: nat) -> nat
    decreases z,
{
    if z < two_to_128() {
        0
    } else {
        1 + norm_shift(z / 2)
    }
}

/// The 128 leading bits of `10^e10`.
pub open spec fn lut_significand(e10: int) -> nat {
    scaled_pow10(e10) / pow2(norm_shift(scaled_pow10(e10)))
}

/// The binary exponent that goes with `lut_significand(e10)`, biased.
pub open spec fn lut_biased_e2(e10: int) -> int {
    norm_shift(scaled_pow10(e10)) - WORKING_BITS + EXPONENT_BIAS
}

/// The same exponent by a second way: `e10 * log2(10)` in fixed point,
/// rounded down, plus 1087.
pub open spec fn exponent_estimate(e10: int) -> int {
    (217706 * e10) / 65536 + 1087
}

/// One row of the table.
#[derive(Debug, Clone, Copy, PartialEq, Eq, Structural)]
pub struct LUTEntry {
    pub hi64: u64,
    pub lo64: u64,
    pub biased_e2: i32,
}

impl LUTEntry {
    /// Both halves as one number of 128 bits.
    pub open spec fn significand(self) -> nat {
        (self.hi64 as nat) * 0x1_0000_0000_0000_0000 + self.lo64 as nat
    }

    /// The row is the one for `e10`, and its exponent agrees with the estimate.
    pub open spec fn is_row_for(self, e10: int) -> bool {
        &&& self.significand() == lut_significand(e10)
        &&& self.biased_e2 == lut_biased_e2(e10)
        &&& self.biased_e2 == exponent_estimate(e10)
    }
}

/// Why no row could be made.
#[derive(Debug, Clone, Copy, PartialEq, Eq, Structural)]
pub enum TableError {
    /// The decimal exponent is outside what the generator serves.
    ExponentOutOfRange,
    /// The binary exponent that was computed differs from the estimate.
    EstimateMismatch,
}

/// The powers of two at the edges of 64 and 128 bits, written out.
pub proof fn lemma_pow2_128()
    ensures
        pow2(64) == 0x1_0000_0000_0000_0000,
        pow2(127) == 0x8000_0000_0000_0000_0000_0000_0000_0000,
        pow2(128) == two_to_128(),
{
    lemma2_to64();
    lemma_pow2_adds(64, 64);
    lemma_pow2_unfold(128);
    assert(0x1_0000_0000_0000_0000 * 0x1_0000_0000_0000_0000
        == 0x1_0000_0000_0000_0000_0000_0000_0000_0000int) by (nonlinear_arith);
}

/// One power of ten more is ten times as much.
proof fn lemma_pow10_step(i: nat)
    ensures
        pow(10, i + 1) == 10 * pow(10, i),
        pow(10, i) > 0,
{
    reveal(pow);
    lemma_pow_positive(10, i);
}

/// `10^a` is at most `2^(4a)`.
proof fn lemma_pow10_le_pow2(a: nat)
    ensures
        pow(10, a) <= pow2(4 * a),
    decreases a,
{
    if a == 0 {
        lemma_pow0(10);
        lemma2_to64();
    } else {
        lemma_pow10_le_pow2((a - 1) as nat);
        lemma_pow10_step((a - 1) as nat);
        lemma_pow2_adds(4, 4 * (a - 1) as nat);
        lemma2_to64();
        assert(4 * a == 4 + 4 * (a - 1));
    }
}

/// Halving `j` times, each time rounding down, divides by `2^j`.
proof fn lemma_norm_shift_steps(z: nat, j: nat)
    requires
        z >= pow2(127 + j),
    ensures
        norm_shift(z) == j + norm_shift(z / pow2(j)),
    decreases j,
{
    lemma2_to64();
    lemma_pow2_128();
    if j == 0 {
    } else {
        lemma_pow2_unfold(127 + j);
        assert(z >= pow2(128)) by {
            if j > 1 {
                lemma_pow2_strictly_increases(128, 127 + j);
            }
        }
        assert(z / 2 >= pow2((127 + j - 1) as nat));
        lemma_norm_shift_steps(z / 2, (j - 1) as nat);
        lemma_pow2_unfold(j);
        lemma_pow2_pos((j - 1) as nat);
        lemma_div_denominator(z as int, 2, pow2((j - 1) as nat) as int);
    }
}

/// Halving never happens more often than the number has bits.
proof fn lemma_norm_shift_le(z: nat, b: nat)
    requires
        z < pow2(b),
    ensures
        norm_shift(z) <= b,
    decreases z,
{
    lemma_pow2_128();
    if z >= two_to_128() {
        if b == 0 {
            lemma2_to64();
        } else {
            lemma_pow2_unfold(b);
            lemma_norm_shift_le(z / 2, (b - 1) as nat);
        }
    }
}

/// The count of halvings for a power of ten within the generator's range.
proof fn lemma_shift_bound(e10: int)
    requires
        GEN_E10_MIN <= e10 <= GEN_E10_MAX,
    ensures
        norm_shift(scaled_pow10(e10)) <= 3289,
{
    let a = (if e10 >= 0 { e10 } else { -e10 }) as nat;
    lemma_pow10_le_pow2(a);
    lemma_pow10_step(a);
    lemma_pow2_pos(2048);
    if 4 * a < 1240 {
        lemma_pow2_strictly_increases(4 * a, 1240);
    }
    lemma_pow2_adds(2048, 1240);
    let w = pow2(2048);
    let p = pow(10, a);
    if e10 >= 0 {
        assert(w * p <= w * pow2(1240)) by (nonlinear_arith)
            requires
                p <= pow2(1240),
                w > 0,
        ;
        lemma_pow2_strictly_increases(3288, 3289);
        lemma_norm_shift_le(scaled_pow10(e10), 3289);
    } else {
        lemma_div_is_ordered_by_denominator(w as int, 1, p);
        lemma_pow2_strictly_increases(2048, 3289);
        lemma_norm_shift_le(scaled_pow10(e10), 3289);
    }
}

/// From at least 128 bits, halving leaves exactly 128.
proof fn lemma_norm_range(z: nat)
    requires
        z >= pow2(127),
    ensures
        pow2(127) <= z / pow2(norm_shift(z)) < pow2(128),
    decreases z,
{
    lemma2_to64();
    lemma_pow2_128();
    if z < pow2(128) {
        assert(norm_shift(z) == 0);
        assert(z / pow2(0) == z);
    } else {
        lemma_pow2_unfold(128);
        lemma_norm_range(z / 2);
        let k = norm_shift(z / 2);
        assert(norm_shift(z) == k + 1);
        lemma_pow2_unfold(k + 1);
        lemma_pow2_pos(k);
        lemma_div_denominator(z as int, 2, pow2(k) as int);
        assert(z / pow2(k + 1) == (z / 2) / pow2(k));
    }
}

/// A row is the power of ten it stands for, cut to 128 bits and rounded
/// down: the significand has exactly 128 bits, and the power of ten lies
/// from the row's value up to, but not at, the value of the next
/// significand.
pub proof fn lemma_row_brackets_pow10(e10: int)
    requires
        GEN_E10_MIN <= e10 <= GEN_E10_MAX,
    ensures
        pow2(127) <= lut_significand(e10) < pow2(128),
        ({
            let t = lut_significand(e10);
            let k = pow2(norm_shift(scaled_pow10(e10)));
            let n = pow2(WORKING_BITS as nat);
            &&& e10 >= 0 ==> t * k <= n * pow(10, e10 as nat) < (t + 1) * k
            &&& e10 < 0 ==> t * k * pow(10, (-e10) as nat) <= n < (t + 1) * k * pow(
                10,
                (-e10) as nat,
            )
        }),
{
    let a = (if e10 >= 0 { e10 } else { -e10 }) as nat;
    let z = scaled_pow10(e10);
    let n = pow2(2048);
    let p = pow(10, a);
    let k = pow2(norm_shift(z));
    let t = lut_significand(e10);
    lemma_pow10_le_pow2(a);
    lemma_pow10_step(a);
    lemma_pow2_pos(2048);
    lemma_pow2_pos(norm_shift(z));
    if 4 * a < 1240 {
        lemma_pow2_strictly_increases(4 * a, 1240);
    }
    lemma_pow2_strictly_increases(127, 808);
    lemma_pow2_strictly_increases(808, 2048);
    assert(z >= pow2(127)) by {
        if e10 >= 0 {
            assert(n * p >= n) by (nonlinear_arith)
                requires
                    p >= 1,
                    n >= 0,
            ;
        } else {
            lemma_pow2_pos(1240);
            lemma_div_is_ordered_by_denominator(n as int, p, pow2(1240) as int);
            vstd::arithmetic::power2::lemma_pow2_subtracts(1240, 2048);
        }
    }
    lemma_norm_range(z);
    lemma_fundamental_div_mod(z as int, k as int);
    assert(t * k <= z < (t + 1) * k) by (nonlinear_arith)
        requires
            z == k * (z / k) + z % k,
            0 <= z % k < k,
            t == z / k,
    ;
    if e10 < 0 {
        lemma_fundamental_div_mod(n as int, p);
        assert(z * p <= n < (z + 1) * p) by (nonlinear_arith)
            requires
                n == p * (n as int / p) + n as int % p,
                0 <= n as int % p < p,
                z == n as int / p,
        ;
        assert(t * k * p <= n) by (nonlinear_arith)
            requires
                t * k <= z,
                z * p <= n,
                p > 0,
        ;
        assert(n < (t + 1) * k * p) by (nonlinear_arith)
            requires
                z + 1 <= (t + 1) * k,
                n < (z + 1) * p,
                p > 0,
        ;
    }
}

/// Holds a computed biased exponent against the estimate: an exponent that
/// differs is refused.
pub fn self_check(e10: i16, biased_e2: i32) -> (r: Result<(), TableError>)
    ensures
        biased_e2 == exponent_estimate(e10 as int) ==> r is Ok,
        biased_e2 != exponent_estimate(e10 as int) ==> r == Err::<(), TableError>(
            TableError::EstimateMismatch,
        ),
{
    if estimate_biased_e2(e10) == biased_e2 {
        Ok(())
    } else {
        Err(TableError::EstimateMismatch)
    }
}

/// The estimate of the biased binary exponent by fixed-point arithmetic.
pub fn estimate_biased_e2(e10: i16) -> (r: i32)
    ensures
        r == exponent_estimate(e10 as int),
{
    // 217706 * e10 + 65536 * 131072 is not negative, so the division rounds down.
    let lifted: i64 = 217706 * (e10 as i64) + 8589934592;
    let floor: u64 = (lifted as u64) / 65536;
    (floor as i32) - 131072 + 1087
}

/// `2^2048 * 10^e10` rounded down, by one multiplication or division by ten
/// for each unit of the exponent.
fn scale_pow10(e10: i16) -> (z: BigNat)
    requires
        GEN_E10_MIN <= e10 <= GEN_E10_MAX,
    ensures
        z@ == scaled_pow10(e10 as int),
        z.limb_count() <= 65 + 310,
{
    let mut z = BigNat::limb_power(64);
    let steps: u16 = if e10 >= 0 {
        e10 as u16
    } else {
        (-e10) as u16
    };
    let mut i: u16 = 0;
    proof {
        lemma_pow0(10);
        assert(limb_weight(64) == pow2(2048));
        assert(pow2(2048) as int / 1 == pow2(2048));
    }
    while i < steps
        invariant
            i <= steps <= 310,
            steps == if e10 >= 0 {
                e10 as int
            } else {
                -e10
            },
            e10 >= 0 ==> z@ == pow2(2048) * pow(10, i as nat),
            e10 < 0 ==> z@ == pow2(2048) as int / pow(10, i as nat),
            z.limb_count() <= 65 + i,
        decreases steps - i,
    {
        proof {
            lemma_pow10_step(i as nat);
        }
        if e10 >= 0 {
            z.mul_small(10);
            proof {
                let p = pow(10, i as nat);
                let w = pow2(2048);
                assert((w * p) * 10 == w * (10 * p)) by (nonlinear_arith);
            }
        } else {
            z.div_small(10);
            proof {
                lemma_div_denominator(pow2(2048) as int, pow(10, i as nat), 10);
                assert(pow(10, i as nat) * 10 == 10 * pow(10, i as nat));
            }
        }
        i = i + 1;
    }
    z
}

/// Halves `z`, rounding down, until 128 bits hold it; gives what is left
/// and how often it halved.
fn normalize(z: BigNat) -> (r: (u128, u32))
    requires
        z.limb_count() <= 65 + 310,
    ensures
        r.1 == norm_shift(z@),
        r.0 == z@ / pow2(norm_shift(z@)),
{
    let ghost z0 = z@;
    let mut z = z;
    let mut shift: u32 = 0;
    proof {
        z.lemma_size();
        lemma_norm_shift_le(z0, 32 * z.limb_count());
        lemma2_to64();
    }
    z.trim();
    while z.len() > 5
        invariant
            z.trimmed(),
            norm_shift(z0) <= 32 * (65 + 310),
            norm_shift(z0) == shift + norm_shift(z@),
            z@ == z0 / pow2(shift as nat),
        decreases z.limb_count(),
    {
        proof {
            z.lemma_size();
            lemma2_to64();
            lemma_pow2_strictly_increases(159, (32 * (z.limb_count() - 1)) as nat);
            lemma_norm_shift_steps(z@, 32);
            lemma_pow2_pos(shift as nat);
            lemma_div_denominator(z0 as int, pow2(shift as nat) as int, pow2(32) as int);
            lemma_pow2_adds(shift as nat, 32);
        }
        z.drop_low_limb();
        shift = shift + 32;
    }
    while z.len() > 4
        invariant
            z.trimmed(),
            norm_shift(z0) <= 32 * (65 + 310),
            norm_shift(z0) == shift + norm_shift(z@),
            z@ == z0 / pow2(shift as nat),
        decreases z@,
    {
        proof {
            z.lemma_size();
            lemma_pow2_128();
            if z.limb_count() > 5 {
                lemma_pow2_strictly_increases(128, (32 * (z.limb_count() - 1)) as nat);
            }
            assert(z@ >= two_to_128());
            lemma_pow2_pos(shift as nat);
            lemma_div_denominator(z0 as int, pow2(shift as nat) as int, 2);
            lemma_pow2_unfold((shift + 1) as nat);
        }
        z.div_small(2);
        z.trim();
        shift = shift + 1;
    }
    proof {
        z.lemma_size();
        lemma_pow2_128();
        if z.limb_count() < 4 {
            lemma_pow2_strictly_increases((32 * z.limb_count()) as nat, 128);
        }
        assert(z@ < two_to_128());
    }
    (z.to_u128(), shift)
}

/// Computes the row for one decimal exponent.
///
/// The significand is `2^2048 * 10^e10`, rounded down and then halved until
/// 128 bits hold it; the exponent counts the halvings. A row is given only
/// where that exponent is the one the estimate gives.
pub fn gen_lut_entry(e10: i16) -> (r: Result<LUTEntry, TableError>)
    ensures
        !(GEN_E10_MIN <= e10 <= GEN_E10_MAX) ==> r == Err::<LUTEntry, TableError>(
            TableError::ExponentOutOfRange,
        ),
        GEN_E10_MIN <= e10 <= GEN_E10_MAX && lut_biased_e2(e10 as int) != exponent_estimate(
            e10 as int,
        ) ==> r == Err::<LUTEntry, TableError>(TableError::EstimateMismatch),
        GEN_E10_MIN <= e10 <= GEN_E10_MAX && lut_biased_e2(e10 as int) == exponent_estimate(
            e10 as int,
        ) ==> r is Ok && r->Ok_0.is_row_for(e10 as int),
{
    if e10 < GEN_E10_MIN || e10 > GEN_E10_MAX {
        return Err(TableError::ExponentOutOfRange);
    }
    let z = scale_pow10(e10);
    let (m128, shift) = normalize(z);
    proof {
        lemma_shift_bound(e10 as int);
    }
    let biased_e2: i32 = shift as i32 - WORKING_BITS as i32 + EXPONENT_BIAS;
    match self_check(e10, biased_e2) {
        Err(error) => {
            return Err(error);
        },
        Ok(()) => {},
    }
    let hi64: u64 = (m128 / 0x1_0000_0000_0000_0000) as u64;
    let lo64: u64 = (m128 % 0x1_0000_0000_0000_0000) as u64;
    Ok(LUTEntry { hi64, lo64, biased_e2 })
}

/// Why `gen_lut_entry` gives no row for `e10`, if it gives none.
pub open spec fn row_error(e10: int) -> Option<TableError> {
    if !(GEN_E10_MIN <= e10 <= GEN_E10_MAX) {
        Some(TableError::ExponentOutOfRange)
    } else if lut_biased_e2(e10) != exponent_estimate(e10) {
        Some(TableError::EstimateMismatch)
    } else {
        None
    }
}

/// The rows for a run of decimal exponents, made once and then only read.
pub struct PowerTable {
    min_exp: i16,
    entries: Vec<LUTEntry>,
}

impl PowerTable {
    #[verifier::type_invariant]
    closed spec fn well_formed(self) -> bool {
        &&& self.entries@.len() > 0 ==> GEN_E10_MIN <= self.min_exp && self.min_exp
            + self.entries@.len() - 1 <= GEN_E10_MAX
        &&& forall|i: int|
            0 <= i < self.entries@.len() ==> (#[trigger] self.entries@[i]).is_row_for(
                self.min_exp + i,
            )
    }

    /// The decimal exponent of the first row.
    pub closed spec fn first_exp(&self) -> int {
        self.min_exp as int
    }

    /// How many rows there are.
    pub closed spec fn row_count(&self) -> nat {
        self.entries@.len()
    }

    /// The table has a row for `e10`. No table has rows beyond what the
    /// generator serves.
    pub open spec fn covers(&self, e10: int) -> bool {
        &&& self.first_exp() <= e10 < self.first_exp() + self.row_count()
        &&& GEN_E10_MIN <= e10 <= GEN_E10_MAX
    }

    /// The decimal exponent of the first row.
    pub fn min_exp(&self) -> (r: i16)
        ensures
            r == self.first_exp(),
    {
        self.min_exp
    }

    /// How many rows there are.
    pub fn len(&self) -> (r: usize)
        ensures
            r == self.row_count(),
    {
        self.entries.len()
    }

    /// The decimal exponent of the last row, or `None` for a table without
    /// rows.
    pub fn max_exp(&self) -> (r: Option<i16>)
        ensures
            self.row_count() == 0 ==> r is None,
            self.row_count() > 0 ==> r == Some((self.first_exp() + self.row_count() - 1) as i16)
                && self.covers(r->Some_0 as int),
    {
        proof {
            use_type_invariant(self);
        }
        if self.entries.len() == 0 {
            None
        } else {
            Some((self.min_exp as i32 + (self.entries.len() - 1) as i32) as i16)
        }
    }

    /// The row for `e10`, or `None` where the table has none.
    pub fn lookup(&self, e10: i16) -> (r: Option<LUTEntry>)
        ensures
            r is Some <==> self.covers(e10 as int),
            r matches Some(row) ==> row.is_row_for(e10 as int),
    {
        proof {
            use_type_invariant(self);
        }
        if e10 < self.min_exp {
            return None;
        }
        let offset: i32 = e10 as i32 - self.min_exp as i32;
        if offset as usize >= self.entries.len() {
            return None;
        }
        Some(self.entries[offset as usize])
    }
}

/// Computes the rows for the decimal exponents from `min_exponent` to
/// `max_exponent`, both included.
///
/// The table is given where every row can be made. Else the error is that of
/// the first exponent for which none can be.
pub fn gen_lookup_table(min_exponent: i16, max_exponent: i16) -> (r: Result<
    PowerTable,
    TableError,
>)
    ensures
        match r {
            Ok(table) => {
                &&& table.first_exp() == min_exponent
                &&& table.row_count() == if min_exponent <= max_exponent {
                    max_exponent - min_exponent + 1
                } else {
                    0
                }
                &&& forall|e: int| min_exponent <= e <= max_exponent ==> row_error(e) is None
            },
            Err(error) => exists|e: int|
                {
                    &&& min_exponent <= e <= max_exponent
                    &&& #[trigger] row_error(e) == Some(error)
                    &&& forall|b: int| min_exponent <= b < e ==> row_error(b) is None
                },
        },
{
    let mut entries: Vec<LUTEntry> = Vec::new();
    if min_exponent > max_exponent {
        return Ok(PowerTable { min_exp: min_exponent, entries });
    }
    let mut e10: i32 = min_exponent as i32;
    while e10 <= max_exponent as i32
        invariant
            min_exponent <= e10 <= max_exponent + 1,
            entries@.len() == e10 - min_exponent,
            forall|b: int| min_exponent <= b < e10 ==> row_error(b) is None,
            forall|i: int|
                0 <= i < entries@.len() ==> (#[trigger] entries@[i]).is_row_for(min_exponent + i),
        decreases max_exponent - e10 + 1,
    {
        let ghost before = entries@;
        match gen_lut_entry(e10 as i16) {
            Err(error) => {
                assert(row_error(e10 as int) == Some(error));
                return Err(error);
            },
            Ok(row) => {
                entries.push(row);
                proof {
                    assert(row_error(e10 as int) is None);
                    assert forall|i: int| 0 <= i < entries@.len() implies (
                    #[trigger] entries@[i]).is_row_for(min_exponent + i) by {
                        if i < before.len() {
                            assert(entries@[i] == before[i]);
                        }
                    }
                }
            },
        }
        e10 = e10 + 1;
    }
    proof {
        assert(row_error(min_exponent as int) is None);
        assert(row_error(max_exponent as int) is None);
    }
    Ok(PowerTable { min_exp: min_exponent, entries })
}

} // verus!
