//! The decimal-literal lexer: text in, a sign, an integer mantissa and a
//! power of ten out.
//!
//! A literal is an optional sign, a run of digits that may hold one `.`, and
//! an optional exponent: `e` or `E`, an optional sign, and a run of digits.
//! An underscore between digits separates them and means nothing.
use std::str::Chars;
use vstd::arithmetic::power::{lemma_pow0, lemma_pow_increases, pow};
use vstd::prelude::*;
use vstd::std_specs::iter::IteratorSpec;

verus! {

/// The most decimal digits a mantissa may hold.
pub const MAX_MANTISSA_DIGITS: u32 = 19;

/// The largest magnitude an explicit exponent may have.
pub const MAX_EXPLICIT_EXP: u32 = 32767;

/// A lexed literal: the exact value `(-1)^neg * man * 10^e10`.
#[derive(Debug, Clone, Copy, PartialEq, Eq, Structural)]
pub struct ManExp10 {
    pub neg: bool,
    pub man: u64,
    pub e10: i16,
}

impl ManExp10 {
    /// The mantissa has at most nineteen decimal digits.
    pub open spec fn wf(self) -> bool {
        self.man < 10_000_000_000_000_000_000
    }
}

impl Default for ManExp10 {
    fn default() -> (r: Self)
        ensures
            r == (ManExp10 { neg: false, man: 0, e10: 0 }),
    {
        ManExp10 { neg: false, man: 0, e10: 0 }
    }
}

/// `+` or `-`.
pub open spec fn is_sign(c: char) -> bool {
    c == '+' || c == '-'
}

/// One of the ten decimal digits.
pub open spec fn is_digit(c: char) -> bool {
    '0' <= c <= '9'
}

/// `e` or `E`, what ends a mantissa and opens an exponent.
pub open spec fn is_exp_marker(c: char) -> bool {
    c == 'e' || c == 'E'
}

/// What may stand in a mantissa: a digit, a separator or the point.
pub open spec fn is_mantissa_char(c: char) -> bool {
    is_digit(c) || c == '_' || c == '.'
}

/// What may stand in an exponent's digit run: a digit or a separator.
pub open spec fn is_exp_char(c: char) -> bool {
    is_digit(c) || c == '_'
}

/// The number that a digit stands for.
pub open spec fn digit_value(c: char) -> nat {
    (c as int - '0' as int) as nat
}

/// How many digits `s` holds.
pub open spec fn digit_count(s: Seq<char>) -> nat
    decreases s.len(),
{
    if s.len() == 0 {
        0
    } else {
        digit_count(s.drop_last()) + if is_digit(s.last()) {
            1nat
        } else {
            0nat
        }
    }
}

/// The number that the digits of `s` spell, every other character skipped.
pub open spec fn digits_value(s: Seq<char>) -> nat
    decreases s.len(),
{
    if s.len() == 0 {
        0
    } else if is_digit(s.last()) {
        10 * digits_value(s.drop_last()) + digit_value(s.last())
    } else {
        digits_value(s.drop_last())
    }
}

/// How many points `s` holds.
pub open spec fn point_count(s: Seq<char>) -> nat
    decreases s.len(),
{
    if s.len() == 0 {
        0
    } else {
        point_count(s.drop_last()) + if s.last() == '.' {
            1nat
        } else {
            0nat
        }
    }
}

/// How many digits of `s` stand behind a point.
pub open spec fn fraction_digits(s: Seq<char>) -> nat
    decreases s.len(),
{
    if s.len() == 0 {
        0
    } else {
        fraction_digits(s.drop_last()) + if is_digit(s.last()) && point_count(s.drop_last()) > 0 {
            1nat
        } else {
            0nat
        }
    }
}

/// `s` can open a mantissa: digits, separators and at most one point, with no
/// more digits than a mantissa may hold.
pub open spec fn mantissa_ok(s: Seq<char>) -> bool {
    &&& forall|i: int| 0 <= i < s.len() ==> is_mantissa_char(#[trigger] s[i])
    &&& point_count(s) <= 1
    &&& digit_count(s) <= MAX_MANTISSA_DIGITS
}

/// Where the mantissa of `s` ends: the place of the first exponent marker, or
/// the length of `s` where it has none.
pub open spec fn mantissa_end(s: Seq<char>) -> nat
    decreases s.len(),
{
    if s.len() == 0 || is_exp_marker(s[0]) {
        0
    } else {
        1 + mantissa_end(s.drop_first())
    }
}

/// `s` can open the digit run of an exponent: it starts with a digit, goes on
/// with digits and separators, and spells no more than the largest exponent.
pub open spec fn exp_run_ok(s: Seq<char>) -> bool {
    &&& s.len() > 0 ==> is_digit(s[0])
    &&& forall|i: int| 0 <= i < s.len() ==> is_exp_char(#[trigger] s[i])
    &&& digits_value(s) <= MAX_EXPLICIT_EXP
}

/// The sign that opens `s`, if one does: `Some(true)` for `-`.
pub open spec fn leading_sign(s: Seq<char>) -> Option<bool> {
    if s.len() > 0 && is_sign(s[0]) {
        Some(s[0] == '-')
    } else {
        None
    }
}

/// `s` without the sign that opens it.
pub open spec fn after_sign(s: Seq<char>) -> Seq<char> {
    if leading_sign(s) is Some {
        s.skip(1)
    } else {
        s
    }
}

/// The value of an exponent, the text behind the marker: `None` unless `s`
/// is an optional sign and a digit run within the limit.
pub open spec fn exp10_value(s: Seq<char>) -> Option<i16> {
    let run = after_sign(s);
    if run.len() > 0 && exp_run_ok(run) {
        if leading_sign(s) == Some(true) {
            Some((-(digits_value(run) as int)) as i16)
        } else {
            Some(digits_value(run) as i16)
        }
    } else {
        None
    }
}

/// The mantissa of `s`: the number its digits spell, minus the count of
/// digits behind the point, and whether an exponent marker ends it. `None`
/// unless all before the marker can stand in a mantissa.
pub open spec fn mantissa_value(s: Seq<char>) -> Option<(u64, i16, bool)> {
    let end = mantissa_end(s);
    let body = s.take(end as int);
    if mantissa_ok(body) {
        Some((digits_value(body) as u64, (-(fraction_digits(body) as int)) as i16, end < s.len()))
    } else {
        None
    }
}

/// The whole literal: sign, mantissa and the sum of both exponents. `None`
/// for the empty text, for a mantissa or an exponent that is refused, and
/// for a sum that leaves the range of `i16`.
pub open spec fn man_exp10_value(s: Seq<char>) -> Option<ManExp10> {
    if s.len() == 0 {
        None
    } else {
        let neg = leading_sign(s) == Some(true);
        let t = after_sign(s);
        match mantissa_value(t) {
            None => None,
            Some((man, implicit, has_exp)) => {
                if has_exp {
                    match exp10_value(t.skip(mantissa_end(t) as int + 1)) {
                        None => None,
                        Some(explicit) => {
                            if i16::MIN <= implicit + explicit <= i16::MAX {
                                Some(ManExp10 { neg, man, e10: (implicit + explicit) as i16 })
                            } else {
                                None
                            }
                        },
                    }
                } else {
                    Some(ManExp10 { neg, man, e10: implicit })
                }
            },
        }
    }
}

/// What reading a mantissa from `s` gives and leaves: the result is
/// `mantissa_value(s)`. On success `rest` starts behind the marker, or is
/// empty where there is none. On refusal it starts behind the first
/// character with which the text read so far can no longer open a mantissa.
pub open spec fn mantissa_outcome(
    s: Seq<char>,
    rest: Seq<char>,
    r: Option<(u64, i16, bool)>,
) -> bool {
    let end = mantissa_end(s) as int;
    &&& r == mantissa_value(s)
    &&& r is Some ==> rest == s.skip(if end < s.len() { end + 1 } else { end })
    &&& r is None ==> exists|i: int|
        0 <= i < end && mantissa_ok(s.take(i)) && !mantissa_ok(#[trigger] s.take(i + 1)) && rest
            == s.skip(i + 1)
}

/// What reading an exponent from `s` gives and leaves: the result is
/// `exp10_value(s)`. On success `rest` is empty. On refusal it is empty
/// where the digit run is missing, and else starts behind the first
/// character with which the run read so far can no longer open an exponent.
pub open spec fn exp10_outcome(s: Seq<char>, rest: Seq<char>, r: Option<i16>) -> bool {
    let run = after_sign(s);
    &&& r == exp10_value(s)
    &&& r is Some ==> rest.len() == 0
    &&& r is None ==> (run.len() == 0 && rest.len() == 0) || exists|i: int|
        0 <= i < run.len() && exp_run_ok(run.take(i)) && !exp_run_ok(#[trigger] run.take(i + 1))
            && rest == run.skip(i + 1)
}

/// `Chars::as_str` of the standard library: the part of the text that the
/// cursor has not yet handed out, as a string slice of its own.
pub assume_specification<'a>[ Chars::<'a>::as_str ](it: &Chars<'a>) -> (r: &'a str)
    ensures
        r@ == it.remaining(),
;

/// The cursor is known to reach its end in a bounded number of steps, as
/// every cursor fresh from `str::chars` is.
spec fn bounded(it: Chars) -> bool {
    it.decrease() is Some
}

/// One character more: what was taken before, and the character at `n`.
proof fn lemma_take_step(s: Seq<char>, n: int)
    requires
        0 <= n < s.len(),
    ensures
        s.take(n + 1).drop_last() == s.take(n),
        s.take(n + 1).last() == s[n],
{
    assert(s.take(n + 1).drop_last() =~= s.take(n));
}

/// A longer start of a text holds no fewer points and digits.
proof fn lemma_counts_grow(s: Seq<char>, a: int, b: int)
    requires
        0 <= a <= b <= s.len(),
    ensures
        point_count(s.take(a)) <= point_count(s.take(b)),
        digit_count(s.take(a)) <= digit_count(s.take(b)),
    decreases b - a,
{
    if a < b {
        lemma_take_step(s, b - 1);
        lemma_counts_grow(s, a, b - 1);
    }
}

/// What can open a mantissa still can when it is cut short.
proof fn lemma_mantissa_ok_prefix(s: Seq<char>, a: int, b: int)
    requires
        0 <= a <= b <= s.len(),
    ensures
        mantissa_ok(s.take(b)) ==> mantissa_ok(s.take(a)),
{
    lemma_counts_grow(s, a, b);
    if mantissa_ok(s.take(b)) {
        assert forall|i: int| 0 <= i < s.take(a).len() implies is_mantissa_char(
            #[trigger] s.take(a)[i],
        ) by {
            assert(s.take(a)[i] == s.take(b)[i]);
        }
    }
}

/// The number that up to `n` digits spell is below `10^n`.
pub proof fn lemma_digits_value_bound(s: Seq<char>)
    ensures
        digits_value(s) < pow(10, digit_count(s)),
    decreases s.len(),
{
    if s.len() == 0 {
        lemma_pow0(10);
    } else {
        lemma_digits_value_bound(s.drop_last());
        if is_digit(s.last()) {
            let n = digit_count(s.drop_last());
            assert(pow(10, n + 1) == 10 * pow(10, n)) by {
                reveal(pow);
            }
        }
    }
}

/// The powers of ten at the limit of a mantissa, written out.
proof fn lemma_pow10_19()
    ensures
        pow(10, 19) == 10_000_000_000_000_000_000int,
        pow(10, 18) == 1_000_000_000_000_000_000int,
{
    reveal_with_fuel(pow, 20);
}

/// A mantissa ends within its text.
proof fn lemma_mantissa_end_bound(s: Seq<char>)
    ensures
        mantissa_end(s) <= s.len(),
    decreases s.len(),
{
    if s.len() > 0 && !is_exp_marker(s[0]) {
        lemma_mantissa_end_bound(s.drop_first());
    }
}

/// No marker before `n`, and a marker or the end at `n`: the mantissa ends at `n`.
proof fn lemma_mantissa_end(s: Seq<char>, n: int)
    requires
        0 <= n <= s.len(),
        forall|j: int| 0 <= j < n ==> !is_exp_marker(#[trigger] s[j]),
    ensures
        mantissa_end(s) >= n,
        n == s.len() || is_exp_marker(s[n]) ==> mantissa_end(s) == n,
    decreases n,
{
    if n > 0 {
        let t = s.drop_first();
        assert forall|j: int| 0 <= j < n - 1 implies !is_exp_marker(#[trigger] t[j]) by {
            assert(t[j] == s[j + 1]);
        }
        lemma_mantissa_end(t, n - 1);
        if n < s.len() {
            assert(t[n - 1] == s[n]);
        }
    }
}

/// A longer start of a text spells no smaller number.
proof fn lemma_digits_value_grows(s: Seq<char>, a: int, b: int)
    requires
        0 <= a <= b <= s.len(),
    ensures
        digits_value(s.take(a)) <= digits_value(s.take(b)),
    decreases b - a,
{
    if a < b {
        lemma_take_step(s, b - 1);
        lemma_digits_value_grows(s, a, b - 1);
    }
}

/// What can open an exponent's digit run still can when it is cut short.
proof fn lemma_exp_run_ok_prefix(s: Seq<char>, a: int, b: int)
    requires
        0 <= a <= b <= s.len(),
    ensures
        exp_run_ok(s.take(b)) ==> exp_run_ok(s.take(a)),
{
    lemma_digits_value_grows(s, a, b);
    if exp_run_ok(s.take(b)) {
        assert forall|i: int| 0 <= i < s.take(a).len() implies is_exp_char(
            #[trigger] s.take(a)[i],
        ) by {
            assert(s.take(a)[i] == s.take(b)[i]);
        }
        if a > 0 {
            assert(s.take(a)[0] == s.take(b)[0]);
        }
    }
}

/// The number that `c` stands for, if it is a digit.
fn digit_of(c: char) -> (r: Option<u64>)
    ensures
        r is Some <==> is_digit(c),
        r matches Some(d) ==> d == digit_value(c) && d <= 9,
{
    if '0' <= c && c <= '9' {
        Some((c as u32 - '0' as u32) as u64)
    } else {
        None
    }
}

/// Reads the sign that opens a literal and steps over it.
///
/// Nothing left to read gives `None`. A sign gives `Some` of whether it is
/// `-`, and the cursor moves behind it; anything else gives `Some(false)` and
/// the cursor stays.
pub fn parse_leading_sign(inp_iter: &mut Chars) -> (r: Option<bool>)
    ensures
        ({
            let s = (*old(inp_iter)).remaining();
            &&& s.len() == 0 ==> r is None
            &&& s.len() > 0 ==> r == Some(leading_sign(s) == Some(true))
            &&& (*final(inp_iter)).remaining() == after_sign(s)
        }),
{
    let mut probe = inp_iter.as_str().chars();
    match probe.next() {
        None => None,
        Some(c) => {
            if c == '+' || c == '-' {
                assert((*old(inp_iter)).remaining().drop_first() =~= (*old(
                    inp_iter,
                )).remaining().skip(1));
                *inp_iter = probe;
                Some(c == '-')
            } else {
                Some(false)
            }
        },
    }
}

/// Reads a mantissa up to its end: the first exponent marker, or the end of
/// the text.
///
/// The result is the number that the digits spell, minus the count of digits
/// behind the point, and whether a marker ended the mantissa. A character
/// that cannot stand in a mantissa, a second point or a twentieth digit
/// gives `None`. Where the cursor stands afterwards, `mantissa_outcome`
/// says.
pub fn parse_mantissa_base10(inp_iter: &mut Chars) -> (r: Option<(u64, i16, bool)>)
    ensures
        mantissa_outcome((*old(inp_iter)).remaining(), (*final(inp_iter)).remaining(), r),
{
    let mut cursor = inp_iter.as_str().chars();
    let r = scan_mantissa(&mut cursor);
    *inp_iter = cursor;
    r
}

/// The work of `parse_mantissa_base10`, on a cursor that is known to end.
fn scan_mantissa(inp_iter: &mut Chars) -> (r: Option<(u64, i16, bool)>)
    requires
        bounded(*old(inp_iter)),
    ensures
        mantissa_outcome((*old(inp_iter)).remaining(), (*final(inp_iter)).remaining(), r),
{
    let ghost s = (*inp_iter).remaining();
    let ghost mut n: int = 0;
    let mut point_seen = false;
    let mut digits: u32 = 0;
    let mut fraction: i16 = 0;
    let mut mantissa: u64 = 0;
    proof {
        lemma_pow0(10);
        assert(s.skip(0) =~= s);
    }
    loop
        invariant
            0 <= n <= s.len(),
            s == (*old(inp_iter)).remaining(),
            (*inp_iter).remaining() == s.skip(n),
            forall|j: int| 0 <= j < n ==> !is_exp_marker(#[trigger] s[j]),
            mantissa_ok(s.take(n)),
            digits == digit_count(s.take(n)),
            fraction == fraction_digits(s.take(n)),
            fraction <= digits,
            point_seen == (point_count(s.take(n)) > 0),
            mantissa == digits_value(s.take(n)),
            bounded(*inp_iter),
        decreases (*inp_iter).decrease()->0,
    {
        let ghost before = s.take(n);
        let next = inp_iter.next();
        match next {
            None => {
                proof {
                    lemma_mantissa_end(s, n);
                    assert(s.take(n) =~= s);
                }
                return Some((mantissa, -fraction, false));
            },
            Some(c) => {
                let ghost after = s.take(n + 1);
                proof {
                    lemma_take_step(s, n);
                    assert(s.skip(n).drop_first() =~= s.skip(n + 1));
                    assert(s.skip(n)[0] == s[n]);
                }
                if c == 'e' || c == 'E' {
                    proof {
                        lemma_mantissa_end(s, n);
                    }
                    return Some((mantissa, -fraction, true));
                }
                proof {
                    assert forall|j: int| 0 <= j < n + 1 implies !is_exp_marker(
                        #[trigger] s[j],
                    ) by {}
                    lemma_mantissa_end(s, n + 1);
                    lemma_mantissa_end_bound(s);
                    lemma_mantissa_ok_prefix(s, n + 1, mantissa_end(s) as int);
                    assert(is_mantissa_char(c) ==> (forall|i: int|
                        0 <= i < after.len() ==> is_mantissa_char(#[trigger] after[i]))) by {
                        if is_mantissa_char(c) {
                            assert forall|i: int| 0 <= i < after.len() implies is_mantissa_char(
                                #[trigger] after[i],
                            ) by {
                                if i < n {
                                    assert(after[i] == before[i]);
                                }
                            }
                        }
                    }
                }
                if c == '_' {
                } else if c == '.' {
                    if point_seen {
                        return None;
                    }
                    point_seen = true;
                } else {
                    match digit_of(c) {
                        None => {
                            proof {
                                assert(!is_mantissa_char(after[n]));
                            }
                            return None;
                        },
                        Some(d) => {
                            if digits == MAX_MANTISSA_DIGITS {
                                return None;
                            }
                            proof {
                                lemma_digits_value_bound(before);
                                lemma_pow_increases(10, digits as nat, 18);
                                lemma_pow10_19();
                            }
                            mantissa = mantissa * 10 + d;
                            digits = digits + 1;
                            if point_seen {
                                fraction = fraction + 1;
                            }
                        },
                    }
                }
                proof {
                    n = n + 1;
                }
            },
        }
    }
}

/// Reads an exponent, the text behind the marker, to its end: an optional
/// sign and a run of digits that starts with a digit.
///
/// A missing digit, a character that cannot stand in the run, or a value
/// beyond 32767 gives `None`. Where the cursor stands afterwards,
/// `exp10_outcome` says.
pub fn parse_exp10(inp_iter: &mut Chars) -> (r: Option<i16>)
    ensures
        exp10_outcome((*old(inp_iter)).remaining(), (*final(inp_iter)).remaining(), r),
{
    let mut cursor = inp_iter.as_str().chars();
    let r = scan_exp10(&mut cursor);
    *inp_iter = cursor;
    r
}

/// The work of `parse_exp10`, on a cursor that is known to end.
fn scan_exp10(inp_iter: &mut Chars) -> (r: Option<i16>)
    requires
        bounded(*old(inp_iter)),
    ensures
        exp10_outcome((*old(inp_iter)).remaining(), (*final(inp_iter)).remaining(), r),
{
    let ghost s = (*inp_iter).remaining();
    let ghost run = after_sign(s);
    let mut c = match inp_iter.next() {
        None => {
            return None;
        },
        Some(c) => c,
    };
    let mut neg = false;
    proof {
        assert(s.drop_first() =~= s.skip(1));
    }
    if c == '+' || c == '-' {
        neg = c == '-';
        c = match inp_iter.next() {
            None => {
                return None;
            },
            Some(c) => c,
        };
    }
    proof {
        assert(c == run[0]);
        assert((*inp_iter).remaining() == run.skip(1)) by {
            assert(run.drop_first() =~= run.skip(1));
        }
        assert(run.take(0) =~= Seq::<char>::empty());
        lemma_take_step(run, 0);
        assert(run.take(0).len() == 0);
        lemma_exp_run_ok_prefix(run, 1, run.len() as int);
    }
    let mut value: u32 = match digit_of(c) {
        None => {
            proof {
                assert(!is_digit(run.take(1)[0]));
            }
            return None;
        },
        Some(d) => d as u32,
    };
    let ghost mut n: int = 1;
    proof {
        assert(digits_value(run.take(0)) == 0);
        assert(digit_value(c) <= 9);
    }
    loop
        invariant
            1 <= n <= run.len(),
            run == after_sign((*old(inp_iter)).remaining()),
            s == (*old(inp_iter)).remaining(),
            (*inp_iter).remaining() == run.skip(n),
            exp_run_ok(run.take(n)),
            value == digits_value(run.take(n)),
            neg == (leading_sign(s) == Some(true)),
            bounded(*inp_iter),
        decreases (*inp_iter).decrease()->0,
    {
        match inp_iter.next() {
            None => {
                proof {
                    assert(run.take(n) =~= run);
                }
                if neg {
                    return Some(-(value as i16));
                } else {
                    return Some(value as i16);
                }
            },
            Some(c) => {
                let ghost before = run.take(n);
                let ghost after = run.take(n + 1);
                proof {
                    lemma_take_step(run, n);
                    assert(run.skip(n).drop_first() =~= run.skip(n + 1));
                    assert(run.skip(n)[0] == run[n]);
                    lemma_exp_run_ok_prefix(run, n + 1, run.len() as int);
                    assert(after[0] == before[0]);
                    assert(is_exp_char(c) ==> (forall|i: int|
                        0 <= i < after.len() ==> is_exp_char(#[trigger] after[i]))) by {
                        if is_exp_char(c) {
                            assert forall|i: int| 0 <= i < after.len() implies is_exp_char(
                                #[trigger] after[i],
                            ) by {
                                if i < n {
                                    assert(after[i] == before[i]);
                                }
                            }
                        }
                    }
                }
                if c == '_' {
                } else {
                    match digit_of(c) {
                        None => {
                            proof {
                                assert(!is_exp_char(after[n]));
                            }
                            return None;
                        },
                        Some(d) => {
                            let next = value * 10 + d as u32;
                            if next > MAX_EXPLICIT_EXP {
                                proof {
                                    assert(digits_value(after) == 10 * digits_value(before)
                                        + digit_value(c));
                                    assert(!exp_run_ok(after));
                                    assert(run.take(run.len() as int) =~= run);
                                }
                                return None;
                            }
                            value = next;
                        },
                    }
                }
                proof {
                    n = n + 1;
                }
            },
        }
    }
}

/// Lexes a whole literal into sign, mantissa and power of ten.
///
/// The power of ten is the explicit exponent minus the count of digits
/// behind the point; a literal whose sum leaves the range of `i16` is
/// refused, as is one whose mantissa has more than nineteen digits.
pub fn parse_man_exp10(input: &str) -> (r: Option<ManExp10>)
    ensures
        r == man_exp10_value(input@),
        r matches Some(m) ==> m.wf(),
{
    let mut inp_iter = input.chars();
    let neg = match parse_leading_sign(&mut inp_iter) {
        None => {
            return None;
        },
        Some(neg) => neg,
    };
    let (man, implicit, has_exp) = match parse_mantissa_base10(&mut inp_iter) {
        None => {
            return None;
        },
        Some(parts) => parts,
    };
    proof {
        let t = after_sign(input@);
        lemma_digits_value_bound(t.take(mantissa_end(t) as int));
        lemma_pow_increases(10, digit_count(t.take(mantissa_end(t) as int)), 19);
        lemma_pow10_19();
    }
    let explicit: i16 = if has_exp {
        match parse_exp10(&mut inp_iter) {
            None => {
                return None;
            },
            Some(explicit) => explicit,
        }
    } else {
        0
    };
    let e10: i32 = implicit as i32 + explicit as i32;
    if e10 < i16::MIN as i32 || e10 > i16::MAX as i32 {
        return None;
    }
    Some(ManExp10 { neg, man, e10: e10 as i16 })
}

} // verus!
