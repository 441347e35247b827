use elparse::lexer::{
    parse_exp10, parse_leading_sign, parse_man_exp10, parse_mantissa_base10, ManExp10,
};
use std::collections::HashMap;

#[test]
fn check_parse_exp10() {
    let inputs = vec!["-2639", "+173", "0_00___0", "0+0_0", "999999", ""];
    let outputs = vec![Some(-2639i16), Some(173), Some(0), None, None, None];
    for (i, o) in inputs.into_iter().zip(outputs.into_iter()) {
        let testout = parse_exp10(&mut i.chars());
        assert_eq!(testout, o, "Input {} should parse to {:?} but got {:?}", i, o, testout)
    }
}

#[test]
fn check_parse_sign_net() {
    let inputs = vec!["-3", "+7", "00", "90", "-", ""];
    let outputs = [Some(true), Some(false), Some(false), Some(false), Some(true), None];
    let nexts = [Some('3'), Some('7'), Some('0'), Some('9'), None, None];
    for ((i, o), n) in inputs.into_iter().zip(outputs.iter()).zip(nexts.iter()) {
        let mut itr = i.chars();
        let testout = parse_leading_sign(&mut itr);
        assert_eq!(
            testout,
            o.clone(),
            "Parsing sign of {} should have given {:?} but gave {:?}",
            i,
            o,
            testout
        );
        let testnext = itr.next();
        assert_eq!(
            testnext,
            n.clone(),
            "Parsing {} should have left {:?} as next in stream, but got {:?}",
            i,
            n,
            testnext
        )
    }
}

#[test]
fn check_parse_mantissa() {
    let inputs = ["123.45e10", "123.", "123e1", "+"];
    let outputs = [
        Some((12345u64, -2i16, true)),
        Some((123, 0, false)),
        Some((123, 0, true)),
        None,
    ];
    for (i, o) in inputs.iter().zip(outputs.iter()) {
        let mut itr = i.chars();
        let testout = parse_mantissa_base10(&mut itr);
        assert_eq!(
            testout,
            o.clone(),
            "Parsing mantissa of {} should have given {:?} but it gave {:?}",
            i,
            o,
            testout
        );
    }
}

#[test]
fn check_man_exp10_form() {
    let test_data = HashMap::from([
        ("137.25e+17", Some(ManExp10 { neg: false, man: 13725, e10: 15 })),
        ("-137.25e17", Some(ManExp10 { neg: true, man: 13725, e10: 15 })),
        ("-137.25e-17", Some(ManExp10 { neg: true, man: 13725, e10: -19 })),
        ("24e3", Some(ManExp10 { neg: false, man: 24, e10: 3 })),
        ("-24e3", Some(ManExp10 { neg: true, man: 24, e10: 3 })),
        ("-24000e-3", Some(ManExp10 { neg: true, man: 24000, e10: -3 })),
        ("125.25e-16-12", None),
        ("125e+-112", None),
        ("-125e-112.7", None),
        ("+125e999999", None),
        ("2.56", Some(ManExp10 { neg: false, man: 256, e10: -2 })),
        ("-2.56", Some(ManExp10 { neg: true, man: 256, e10: -2 })),
        ("3.", Some(ManExp10 { neg: false, man: 3, e10: 0 })),
        ("+.2777", Some(ManExp10 { neg: false, man: 2777, e10: -4 })),
        ("", None),
        ("--2.5", None),
        ("-+2.5", None),
        ("2.5.3", None),
    ]);
    for (i, o) in test_data.iter() {
        let testout = parse_man_exp10(i);
        assert_eq!(
            testout,
            o.clone(),
            "Parsing {} should have resulted in {:?} but got {:?}",
            i,
            o,
            testout
        );
    }
}

#[test]
fn default_literal_is_plus_zero() {
    assert_eq!(ManExp10::default(), ManExp10 { neg: false, man: 0, e10: 0 });
}

#[test]
fn sign_is_read_only_at_the_front() {
    let mut itr = "+-1".chars();
    assert_eq!(parse_leading_sign(&mut itr), Some(false));
    assert_eq!(itr.as_str(), "-1");
    let mut itr = "x".chars();
    assert_eq!(parse_leading_sign(&mut itr), Some(false));
    assert_eq!(itr.as_str(), "x");
}

#[test]
fn mantissa_of_nineteen_digits_is_taken_and_of_twenty_refused() {
    let mut itr = "9999999999999999999".chars();
    assert_eq!(
        parse_mantissa_base10(&mut itr),
        Some((9_999_999_999_999_999_999, 0, false))
    );
    let mut itr = "99999999999999999990".chars();
    assert_eq!(parse_mantissa_base10(&mut itr), None);
    let mut itr = "00000000000000000001".chars();
    assert_eq!(parse_mantissa_base10(&mut itr), None);
    let mut itr = "0.000000000000000001".chars();
    assert_eq!(parse_mantissa_base10(&mut itr), Some((1, -18, false)));
    let mut itr = "1_2__3._4_5_".chars();
    assert_eq!(parse_mantissa_base10(&mut itr), Some((12345, -2, false)));
}

#[test]
fn mantissa_stops_behind_the_marker_or_the_offender() {
    let mut itr = "12.5E-3rest".chars();
    assert_eq!(parse_mantissa_base10(&mut itr), Some((125, -1, true)));
    assert_eq!(itr.as_str(), "-3rest");
    let mut itr = "12x5e3".chars();
    assert_eq!(parse_mantissa_base10(&mut itr), None);
    assert_eq!(itr.as_str(), "5e3");
    let mut itr = "1.2.3".chars();
    assert_eq!(parse_mantissa_base10(&mut itr), None);
    assert_eq!(itr.as_str(), "3");
    let mut itr = "12345678901234567890123".chars();
    assert_eq!(parse_mantissa_base10(&mut itr), None);
    assert_eq!(itr.as_str(), "123");
    let mut itr = "".chars();
    assert_eq!(parse_mantissa_base10(&mut itr), Some((0, 0, false)));
    let mut itr = "é1".chars();
    assert_eq!(parse_mantissa_base10(&mut itr), None);
    assert_eq!(itr.as_str(), "1");
}

#[test]
fn exponent_needs_a_digit_first() {
    for text in ["", "+", "-", "_1", "+_1", "e", "x", "1x", "1.", "1e", "--1", "1-"] {
        assert_eq!(parse_exp10(&mut text.chars()), None, "{:?}", text);
    }
    assert_eq!(parse_exp10(&mut "1_".chars()), Some(1));
    assert_eq!(parse_exp10(&mut "-0".chars()), Some(0));
    assert_eq!(parse_exp10(&mut "+007".chars()), Some(7));
}

#[test]
fn exponent_is_limited_to_sixteen_bits() {
    assert_eq!(parse_exp10(&mut "32767".chars()), Some(32767));
    assert_eq!(parse_exp10(&mut "-32767".chars()), Some(-32767));
    assert_eq!(parse_exp10(&mut "32768".chars()), None);
    assert_eq!(parse_exp10(&mut "-32768".chars()), None);
    assert_eq!(parse_exp10(&mut "0000000000000000000000000032767".chars()), Some(32767));
    assert_eq!(parse_exp10(&mut "99999999999999999999999999".chars()), None);
    let mut itr = "327680rest".chars();
    assert_eq!(parse_exp10(&mut itr), None);
    assert_eq!(itr.as_str(), "0rest");
    let mut itr = "12x4".chars();
    assert_eq!(parse_exp10(&mut itr), None);
    assert_eq!(itr.as_str(), "4");
}

#[test]
fn sum_of_exponents_outside_sixteen_bits_is_refused() {
    assert_eq!(
        parse_man_exp10("1e32767"),
        Some(ManExp10 { neg: false, man: 1, e10: 32767 })
    );
    assert_eq!(
        parse_man_exp10("0.1e-32767"),
        Some(ManExp10 { neg: false, man: 1, e10: -32768 })
    );
    assert_eq!(parse_man_exp10("0.01e-32767"), None);
    assert_eq!(
        parse_man_exp10("0.000000000000000001e-32750"),
        Some(ManExp10 { neg: false, man: 1, e10: -32768 })
    );
    assert_eq!(parse_man_exp10("0.000000000000000001e-32751"), None);
}

#[test]
fn literal_without_digits_is_zero() {
    assert_eq!(parse_man_exp10("-"), Some(ManExp10 { neg: true, man: 0, e10: 0 }));
    assert_eq!(parse_man_exp10("."), Some(ManExp10 { neg: false, man: 0, e10: 0 }));
    assert_eq!(parse_man_exp10("_"), Some(ManExp10 { neg: false, man: 0, e10: 0 }));
    assert_eq!(parse_man_exp10("e5"), Some(ManExp10 { neg: false, man: 0, e10: 5 }));
    assert_eq!(parse_man_exp10("+e"), None);
}

#[test]
fn literal_with_anything_else_is_refused() {
    for text in [" 1", "1 ", "1f64", "0x10", "1,5", "١", "1e5e5", "inf", "NaN", "1e+", "1e_5"] {
        assert_eq!(parse_man_exp10(text), None, "{:?}", text);
    }
}
