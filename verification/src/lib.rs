//! Decimal literals to doubles by the Eisel-Lemire fast path.
//!
//! A literal is lexed into a sign, a mantissa of at most nineteen digits and
//! a power of ten. One multiplication with a row of a table of powers of
//! ten then gives the nearest double, or no answer where this way cannot
//! tell which double is nearest; the caller's exact conversion decides then.
use vstd::prelude::*;

pub mod bignat;
pub mod engine;
pub mod ieee;
pub mod lexer;
pub mod rounding;
pub mod table;

use crate::engine::{
    decimal_den, decimal_num, eisel_lemire, fast_path, is_correctly_rounded,
    lemma_fast_path_abstains_on_halfway, lemma_fast_path_reads_back, lemma_fast_path_rounds,
};
use crate::ieee::{halfway, rounds_to, FloatBits};
use crate::lexer::{man_exp10_value, parse_man_exp10};
use crate::table::PowerTable;

verus! {

/// What the fast path gives for a text: nothing where the text does not
/// lex, and else what it gives for the lexed literal.
pub open spec fn fast_parse(text: Seq<char>, table: PowerTable) -> Option<FloatBits> {
    match man_exp10_value(text) {
        None => None,
        Some(me) => fast_path(me, table.covers(me.e10 as int)),
    }
}

/// The answer to a text depends on nothing but the text and on which
/// exponents the table has rows for: two tables over the same exponents
/// give the same answer, and so does the same table asked twice.
pub proof fn lemma_same_text_same_answer(text: Seq<char>, a: PowerTable, b: PowerTable)
    requires
        a.first_exp() == b.first_exp(),
        a.row_count() == b.row_count(),
    ensures
        fast_parse(text, a) == fast_parse(text, b),
{
}

/// Every answer of the fast path is the double to which the lexed literal
/// rounds, nearest and ties to even.
pub proof fn lemma_fast_parse_rounds(text: Seq<char>, table: PowerTable)
    ensures
        fast_parse(text, table) matches Some(fb) ==> man_exp10_value(text) matches Some(me)
            && is_correctly_rounded(me, fb),
{
    if man_exp10_value(text) is Some {
        let me = man_exp10_value(text)->Some_0;
        lemma_fast_path_rounds(me, table.covers(me.e10 as int));
    }
}

/// A text whose value rounds to the double with magnitude `k`, as the
/// shortest text that reads back as that double does, is answered with that
/// double or not at all.
pub proof fn lemma_fast_parse_reads_back(text: Seq<char>, table: PowerTable, k: nat)
    requires
        man_exp10_value(text) matches Some(me) && rounds_to(decimal_num(me), decimal_den(me), k),
    ensures
        fast_parse(text, table) matches Some(fb) ==> fb.magnitude() == k && fb.sign
            == man_exp10_value(text)->Some_0.neg,
{
    let me = man_exp10_value(text)->Some_0;
    lemma_fast_path_reads_back(me, table.covers(me.e10 as int), k);
}

/// A text whose value lies exactly halfway between two doubles, those with
/// magnitudes `k` and `k + 1`, gets no answer from the fast path.
pub proof fn lemma_fast_parse_abstains_on_halfway(text: Seq<char>, table: PowerTable, k: nat)
    requires
        man_exp10_value(text) matches Some(me) && halfway(decimal_num(me), decimal_den(me), k),
    ensures
        fast_parse(text, table) is None,
{
    let me = man_exp10_value(text)->Some_0;
    lemma_fast_path_abstains_on_halfway(me, table.covers(me.e10 as int), k);
}

/// Lexes a literal and runs the fast path on it.
///
/// A mantissa of zero gives zero with the literal's sign at once. Every
/// answer is the correctly rounded double of the lexed literal.
pub fn parse_float_internal(input: &str, table: &PowerTable) -> (r: Option<FloatBits>)
    ensures
        r == fast_parse(input@, *table),
        r matches Some(fb) ==> man_exp10_value(input@) matches Some(me) && is_correctly_rounded(
            me,
            fb,
        ),
{
    let me = match parse_man_exp10(input) {
        None => {
            return None;
        },
        Some(me) => me,
    };
    if me.man == 0 {
        proof {
            lemma_fast_path_rounds(me, false);
        }
        return Some(FloatBits::zero(me.neg));
    }
    eisel_lemire(me, table)
}

/// Converts a literal by the fast path, and by `fallback` where the fast
/// path has no answer.
///
/// The fallback is called with the text as it came, only where the fast
/// path has no answer, and what it returns is returned unchanged.
pub fn parse_float_with_fallback<E, F: FnOnce(&str) -> Result<FloatBits, E>>(
    x: &str,
    table: &PowerTable,
    fallback: F,
) -> (r: Result<FloatBits, E>)
    requires
        fallback.requires((x,)),
    ensures
        match fast_parse(x@, *table) {
            Some(fb) => r == Ok::<FloatBits, E>(fb),
            None => fallback.ensures((x,), r),
        },
{
    match parse_float_internal(x, table) {
        Some(fb) => Ok(fb),
        None => fallback(x),
    }
}

} // verus!
