use elparse::engine::eisel_lemire;
use elparse::ieee::FloatBits;
use elparse::lexer::ManExp10;
use elparse::table::{
    gen_lookup_table, PowerTable, GEN_E10_MAX, GEN_E10_MIN, LUT_E10_MAX, LUT_E10_MIN,
};
use elparse::{parse_float_internal, parse_float_with_fallback};

fn ordinary_table() -> PowerTable {
    gen_lookup_table(LUT_E10_MIN, LUT_E10_MAX).unwrap()
}

fn widest_table() -> PowerTable {
    gen_lookup_table(GEN_E10_MIN, GEN_E10_MAX).unwrap()
}

fn exact(text: &str) -> Result<FloatBits, std::num::ParseFloatError> {
    text.parse::<f64>().map(|v| FloatBits::from_bits(v.to_bits()))
}

fn bits_of(v: f64) -> FloatBits {
    FloatBits::from_bits(v.to_bits())
}

fn lit(neg: bool, man: u64, e10: i16) -> ManExp10 {
    ManExp10 { neg, man, e10 }
}

#[test]
fn engine_gives_exact_doubles_for_small_integers() {
    let table = ordinary_table();
    assert_eq!(eisel_lemire(lit(false, 1, 0), &table), Some(bits_of(1.0)));
    assert_eq!(eisel_lemire(lit(false, 2, 0), &table), Some(bits_of(2.0)));
    assert_eq!(eisel_lemire(lit(true, 3, 0), &table), Some(bits_of(-3.0)));
    assert_eq!(eisel_lemire(lit(false, 24, 3), &table), Some(bits_of(24000.0)));
    assert_eq!(
        eisel_lemire(lit(false, 1, 0), &table).unwrap().to_bits(),
        0x3FF0_0000_0000_0000
    );
}

#[test]
fn engine_rounds_fractions_to_the_nearest_double() {
    let table = ordinary_table();
    assert_eq!(eisel_lemire(lit(false, 1, -1), &table), Some(bits_of(0.1)));
    assert_eq!(
        eisel_lemire(lit(false, 1, -1), &table).unwrap().to_bits(),
        0x3FB9_9999_9999_999A
    );
    assert_eq!(eisel_lemire(lit(false, 3, -1), &table), Some(bits_of(0.3)));
    assert_eq!(eisel_lemire(lit(true, 256, -2), &table), Some(bits_of(-2.56)));
    assert_eq!(eisel_lemire(lit(false, 13725, 15), &table), Some(bits_of(137.25e17)));
    assert_eq!(
        eisel_lemire(lit(false, 314159265358979, -14), &table),
        Some(bits_of(3.14159265358979))
    );
    assert_eq!(eisel_lemire(lit(false, 1, 22), &table), Some(bits_of(1e22)));
    assert_eq!(eisel_lemire(lit(false, 1, 24), &table), Some(bits_of(1e24)));
    assert_eq!(
        eisel_lemire(lit(false, 9_999_999_999_999_999_999, 0), &table),
        Some(bits_of(9_999_999_999_999_999_999.0))
    );
}

#[test]
fn engine_keeps_the_sign_of_zero() {
    let table = ordinary_table();
    let plus = eisel_lemire(lit(false, 0, 0), &table).unwrap();
    let minus = eisel_lemire(lit(true, 0, 0), &table).unwrap();
    assert_eq!(plus.to_bits(), 0);
    assert_eq!(minus.to_bits(), 0x8000_0000_0000_0000);
    assert_eq!(eisel_lemire(lit(true, 0, 20000), &table), Some(bits_of(-0.0)));
    assert_eq!(eisel_lemire(lit(false, 0, -20000), &table), Some(bits_of(0.0)));
}

#[test]
fn engine_abstains_outside_the_table() {
    let table = ordinary_table();
    assert_eq!(eisel_lemire(lit(false, 1, 289), &table), None);
    assert_eq!(eisel_lemire(lit(false, 1, -308), &table), None);
    assert_eq!(eisel_lemire(lit(false, 1, i16::MAX), &table), None);
    assert_eq!(eisel_lemire(lit(false, 1, i16::MIN), &table), None);
    assert!(eisel_lemire(lit(false, 1, 288), &table).is_some());
    assert!(eisel_lemire(lit(false, 1, -307), &table).is_some());
}

#[test]
fn engine_abstains_on_exact_halfway_values() {
    let table = ordinary_table();
    // 2^53 + 1 lies halfway between 2^53 and 2^53 + 2
    assert_eq!(eisel_lemire(lit(false, 9007199254740993, 0), &table), None);
    assert_eq!(eisel_lemire(lit(true, 9007199254740993, 0), &table), None);
    // 2^54 + 2, 2^54 + 6, and 2^62 + 2^9
    assert_eq!(eisel_lemire(lit(false, 18014398509481986, 0), &table), None);
    assert_eq!(eisel_lemire(lit(false, 18014398509481990, 0), &table), None);
    assert_eq!(eisel_lemire(lit(false, 4611686018427388416, 0), &table), None);
    // 10^23 = 5^23 * 2^23, and 5^23 is odd and has 54 bits
    assert_eq!(eisel_lemire(lit(false, 1, 23), &table), None);
    assert_eq!(eisel_lemire(lit(false, 10, 22), &table), None);
    assert_eq!(eisel_lemire(lit(true, 1000, 20), &table), None);
    // (2^53 + 1) * 2^-1, written in decimal
    assert_eq!(eisel_lemire(lit(false, 45035996273704965, -1), &table), None);
}

#[test]
fn engine_decides_the_neighbours_of_halfway_values() {
    let table = ordinary_table();
    assert_eq!(
        eisel_lemire(lit(false, 9007199254740992, 0), &table),
        Some(bits_of(9007199254740992.0))
    );
    assert_eq!(
        eisel_lemire(lit(false, 9007199254740994, 0), &table),
        Some(bits_of(9007199254740994.0))
    );
    assert_eq!(
        eisel_lemire(lit(false, 9007199254740995, 0), &table),
        None
    );
    assert_eq!(
        eisel_lemire(lit(false, 90071992547409931, -1), &table),
        Some(bits_of(9007199254740994.0))
    );
    assert_eq!(
        eisel_lemire(lit(false, 90071992547409929, -1), &table),
        Some(bits_of(9007199254740992.0))
    );
}

#[test]
fn engine_handles_subnormals_and_overflow_with_the_widest_table() {
    let table = widest_table();
    assert_eq!(eisel_lemire(lit(false, 1, -310), &table), Some(bits_of(1e-310)));
    assert_eq!(eisel_lemire(lit(false, 22250738585072014, -324), &table), None);
    assert_eq!(
        eisel_lemire(lit(false, 2225073858507201, -323), &table),
        None
    );
    assert_eq!(
        eisel_lemire(lit(true, 49, -310), &table),
        Some(bits_of(-49e-310))
    );
    assert_eq!(
        eisel_lemire(lit(false, 17976931348623157, 292), &table),
        Some(bits_of(f64::MAX))
    );
    assert_eq!(
        eisel_lemire(lit(false, 17976931348623158, 292), &table),
        Some(bits_of(f64::MAX))
    );
    assert_eq!(
        eisel_lemire(lit(false, 18, 307), &table),
        Some(bits_of(f64::INFINITY))
    );
    assert_eq!(
        eisel_lemire(lit(true, 1, 310), &table),
        Some(bits_of(f64::NEG_INFINITY))
    );
    assert_eq!(
        eisel_lemire(lit(false, 9_999_999_999_999_999_999, 310), &table)
            .unwrap()
            .to_bits(),
        0x7FF0_0000_0000_0000
    );
}

#[test]
fn engine_agrees_with_the_exact_conversion_wherever_it_answers() {
    let table = widest_table();
    let mut state: u64 = 0x9E37_79B9_7F4A_7C15;
    let mut answered = 0;
    let mut asked = 0;
    for round in 0..20000u32 {
        state = state
            .wrapping_mul(6364136223846793005)
            .wrapping_add(1442695040888963407);
        let digits = 1 + (state >> 59) % 19;
        let man = (state >> 3) % 10u64.pow(digits as u32);
        state = state
            .wrapping_mul(6364136223846793005)
            .wrapping_add(1442695040888963407);
        let e10 = ((state >> 33) % 670) as i16 - 335;
        let neg = round % 2 == 1;
        let text = format!("{}{}e{}", if neg { "-" } else { "" }, man, e10);
        asked += 1;
        if let Some(fb) = eisel_lemire(lit(neg, man, e10), &table) {
            answered += 1;
            assert_eq!(Ok(fb), exact(&text), "{}", text);
        }
    }
    assert!(answered * 10 > asked * 8, "{} of {}", answered, asked);
}

#[test]
fn engine_agrees_with_the_exact_conversion_on_subnormals() {
    let table = widest_table();
    let mut answered = 0;
    for e10 in -310i16..=-305 {
        for man in (1u64..40000).step_by(7) {
            let text = format!("{}e{}", man, e10);
            if let Some(fb) = eisel_lemire(lit(false, man, e10), &table) {
                answered += 1;
                assert_eq!(Ok(fb), exact(&text), "{}", text);
            }
        }
    }
    assert!(answered > 30000, "{}", answered);
    for man in [
        22250738585072011u64,
        22250738585072012,
        22250738585072013,
        22250738585072014,
        22250738585072015,
    ] {
        let text = format!("{}e-324", man);
        assert_eq!(
            parse_float_with_fallback(&text, &table, exact),
            exact(&text),
            "{}",
            text
        );
    }
}

#[test]
fn engine_agrees_with_the_exact_conversion_near_the_largest_double() {
    let table = widest_table();
    let mut answered = 0;
    for man in 17976931348623000u64..17976931348623400 {
        let text = format!("{}e292", man);
        if let Some(fb) = eisel_lemire(lit(true, man, 292), &table) {
            answered += 1;
            assert_eq!(Ok(fb), exact(&format!("-{}", text)), "{}", text);
        }
    }
    assert!(answered > 300, "{}", answered);
    for e10 in 289i16..=310 {
        for man in [1u64, 2, 17, 179, 1797, 9_999_999_999_999_999_999] {
            let text = format!("{}e{}", man, e10);
            if let Some(fb) = eisel_lemire(lit(false, man, e10), &table) {
                assert_eq!(Ok(fb), exact(&text), "{}", text);
            }
        }
    }
}

#[test]
fn fast_parse_lexes_and_converts() {
    let table = ordinary_table();
    assert_eq!(parse_float_internal("137.25e+17", &table), Some(bits_of(137.25e17)));
    assert_eq!(parse_float_internal("-2.56", &table), Some(bits_of(-2.56)));
    assert_eq!(parse_float_internal("+.2777", &table), Some(bits_of(0.2777)));
    assert_eq!(parse_float_internal("1_000.5", &table), Some(bits_of(1000.5)));
    assert_eq!(parse_float_internal("0", &table), Some(bits_of(0.0)));
    assert_eq!(parse_float_internal("-0.0", &table), Some(bits_of(-0.0)));
    assert_eq!(parse_float_internal("-0e999", &table), Some(bits_of(-0.0)));
    assert_eq!(parse_float_internal("", &table), None);
    assert_eq!(parse_float_internal("--2.5", &table), None);
    assert_eq!(parse_float_internal("1e400", &table), None);
    assert_eq!(parse_float_internal("inf", &table), None);
    assert_eq!(parse_float_internal("12345678901234567890", &table), None);
    assert_eq!(parse_float_internal("9007199254740993", &table), None);
}

#[test]
fn fallback_is_asked_only_where_the_fast_path_abstains() {
    let table = ordinary_table();
    let never = |_: &str| -> Result<FloatBits, u8> { Err(7) };
    assert_eq!(parse_float_with_fallback("2.5", &table, never), Ok(bits_of(2.5)));
    assert_eq!(parse_float_with_fallback("-0", &table, never), Ok(bits_of(-0.0)));
    assert_eq!(parse_float_with_fallback("2.5.3", &table, never), Err(7));
    assert_eq!(parse_float_with_fallback("9007199254740993", &table, never), Err(7));
    let echo = |s: &str| -> Result<FloatBits, String> { Err(s.to_string()) };
    assert_eq!(
        parse_float_with_fallback(" 1e5x", &table, echo),
        Err(" 1e5x".to_string())
    );
}

#[test]
fn fallback_result_is_handed_on_unchanged() {
    let table = ordinary_table();
    assert_eq!(
        parse_float_with_fallback("9007199254740993", &table, exact),
        Ok(bits_of(9007199254740992.0))
    );
    assert_eq!(
        parse_float_with_fallback("1e400", &table, exact),
        Ok(bits_of(f64::INFINITY))
    );
    assert_eq!(
        parse_float_with_fallback("5e-324", &table, exact),
        Ok(bits_of(5e-324))
    );
    assert_eq!(
        parse_float_with_fallback("NaN", &table, exact).map(|fb| fb.biased_exponent),
        Ok(2047)
    );
    assert!(parse_float_with_fallback("two", &table, exact).is_err());
    assert!(parse_float_with_fallback("", &table, exact).is_err());
}

#[test]
fn shortest_text_of_a_double_parses_back_to_it() {
    let table = ordinary_table();
    let mut samples: Vec<f64> = vec![
        0.0,
        -0.0,
        5e-324,
        -5e-324,
        f64::MIN_POSITIVE,
        f64::MAX,
        f64::MIN,
        1.0,
        0.1,
        1e23,
        9007199254740993.0,
        2.2250738585072009e-308,
        f64::EPSILON,
    ];
    let mut state: u64 = 0x2545_F491_4F6C_DD1D;
    for _ in 0..20000 {
        state ^= state << 13;
        state ^= state >> 7;
        state ^= state << 17;
        let v = f64::from_bits(state);
        if v.is_finite() {
            samples.push(v);
        }
    }
    for v in samples {
        for text in [format!("{}", v), format!("{:e}", v)] {
            let parsed = parse_float_with_fallback(&text, &table, exact).unwrap();
            assert_eq!(parsed.to_bits(), v.to_bits(), "{}", text);
        }
    }
}

#[test]
fn same_text_gives_the_same_answer() {
    let table = ordinary_table();
    for text in ["1.5", "-7e-3", "9007199254740993", "x", "", "1e-400"] {
        let first = parse_float_internal(text, &table);
        let second = parse_float_internal(text, &table);
        assert_eq!(first, second);
        let again = gen_lookup_table(LUT_E10_MIN, LUT_E10_MAX).unwrap();
        assert_eq!(first, parse_float_internal(text, &again));
    }
}
