use elparse::bignat::BigNat;
use elparse::table::{
    estimate_biased_e2, gen_lookup_table, gen_lut_entry, self_check, LUTEntry, TableError,
    GEN_E10_MAX, GEN_E10_MIN, LUT_E10_MAX, LUT_E10_MIN,
};

fn row(hi64: u64, lo64: u64, biased_e2: i32) -> Result<LUTEntry, TableError> {
    Ok(LUTEntry { hi64, lo64, biased_e2 })
}

#[test]
fn entry_for_one_is_a_single_top_bit() {
    assert_eq!(gen_lut_entry(0), row(0x8000_0000_0000_0000, 0, 1087));
}

#[test]
fn entries_for_small_positive_powers_are_exact() {
    assert_eq!(gen_lut_entry(1), row(0xa000_0000_0000_0000, 0, 1090));
    assert_eq!(gen_lut_entry(22), row(0x8786_7832_6eac_9000, 0, 1160));
    assert_eq!(gen_lut_entry(23), row(0xa968_163f_0a57_b400, 0, 1163));
    assert_eq!(gen_lut_entry(27), row(0xcecb_8f27_f420_0f3a, 0, 1176));
    assert_eq!(
        gen_lut_entry(28),
        row(0x813f_3978_f894_0984, 0x4000_0000_0000_0000, 1180)
    );
}

#[test]
fn entries_for_large_positive_powers_are_cut_short() {
    assert_eq!(
        gen_lut_entry(55),
        row(0xd0cf_4b50_cfe2_0765, 0xfff4_b4e3_f741_cf6d, 1269)
    );
    assert_eq!(
        gen_lut_entry(56),
        row(0x8281_8f12_81ed_449f, 0xbff8_f10e_7a89_21a4, 1273)
    );
    assert_eq!(
        gen_lut_entry(288),
        row(0xd226_fc19_5c6a_2f8c, 0x7383_2eec_6fff_3111, 2043)
    );
    assert_eq!(
        gen_lut_entry(310),
        row(0xde81_e40a_034b_cf4f, 0xf807_7f7e_a65e_58d1, 2116)
    );
}

#[test]
fn entries_for_negative_powers_round_down() {
    assert_eq!(
        gen_lut_entry(-1),
        row(0xcccc_cccc_cccc_cccc, 0xcccc_cccc_cccc_cccc, 1083)
    );
    assert_eq!(
        gen_lut_entry(-27),
        row(0x9e74_d1b7_91e0_7e48, 0x775e_a264_cf55_347d, 997)
    );
    assert_eq!(
        gen_lut_entry(-307),
        row(0x8fd0_c162_0630_6bab, 0xa5d3_b6d4_79f8_e056, 67)
    );
    assert_eq!(
        gen_lut_entry(-310),
        row(0x9344_5b87_3158_7ea3, 0x7ab3_ee6a_fbe0_211d, 57)
    );
}

#[test]
fn entry_outside_the_generator_range_is_refused() {
    assert_eq!(gen_lut_entry(311), Err(TableError::ExponentOutOfRange));
    assert_eq!(gen_lut_entry(-311), Err(TableError::ExponentOutOfRange));
    assert_eq!(gen_lut_entry(i16::MAX), Err(TableError::ExponentOutOfRange));
    assert_eq!(gen_lut_entry(i16::MIN), Err(TableError::ExponentOutOfRange));
}

#[test]
fn every_significand_has_its_top_bit_set() {
    for e10 in GEN_E10_MIN..=GEN_E10_MAX {
        let row = gen_lut_entry(e10).unwrap();
        assert!(row.hi64 >= 0x8000_0000_0000_0000, "10^{}", e10);
    }
}

#[test]
fn every_exponent_agrees_with_the_estimate() {
    for e10 in GEN_E10_MIN..=GEN_E10_MAX {
        let row = gen_lut_entry(e10).unwrap();
        assert_eq!(row.biased_e2, estimate_biased_e2(e10), "10^{}", e10);
    }
}

#[test]
fn estimate_has_exact_values() {
    assert_eq!(estimate_biased_e2(0), 1087);
    assert_eq!(estimate_biased_e2(1), 1090);
    assert_eq!(estimate_biased_e2(-1), 1083);
    assert_eq!(estimate_biased_e2(-310), 57);
    assert_eq!(estimate_biased_e2(310), 2116);
    assert_eq!(estimate_biased_e2(i16::MAX), 109936);
    assert_eq!(estimate_biased_e2(i16::MIN), -107766);
}

#[test]
fn exponent_that_differs_from_the_estimate_is_refused() {
    assert_eq!(self_check(0, 1087), Ok(()));
    assert_eq!(self_check(0, 1086), Err(TableError::EstimateMismatch));
    assert_eq!(self_check(0, 1088), Err(TableError::EstimateMismatch));
    assert_eq!(self_check(-310, 57), Ok(()));
    assert_eq!(self_check(310, 2116), Ok(()));
    assert_eq!(self_check(310, -2116), Err(TableError::EstimateMismatch));
}

#[test]
fn table_in_ordinary_use_has_a_row_for_each_exponent() {
    let table = gen_lookup_table(LUT_E10_MIN, LUT_E10_MAX).unwrap();
    assert_eq!(table.min_exp(), -307);
    assert_eq!(table.max_exp(), Some(288));
    assert_eq!(table.len(), 596);
    for e10 in LUT_E10_MIN..=LUT_E10_MAX {
        assert_eq!(Ok(table.lookup(e10).unwrap()), gen_lut_entry(e10));
    }
}

#[test]
fn lookup_outside_the_table_gives_none() {
    let table = gen_lookup_table(-5, 7).unwrap();
    assert_eq!(table.len(), 13);
    assert_eq!(table.lookup(-6), None);
    assert_eq!(table.lookup(8), None);
    assert_eq!(table.lookup(i16::MIN), None);
    assert_eq!(table.lookup(i16::MAX), None);
    assert_eq!(Ok(table.lookup(-5).unwrap()), gen_lut_entry(-5));
    assert_eq!(Ok(table.lookup(7).unwrap()), gen_lut_entry(7));
}

#[test]
fn table_over_an_empty_range_is_empty() {
    let table = gen_lookup_table(3, 2).unwrap();
    assert_eq!(table.len(), 0);
    assert_eq!(table.max_exp(), None);
    assert_eq!(table.min_exp(), 3);
    assert_eq!(table.lookup(3), None);
    assert_eq!(table.lookup(2), None);
}

#[test]
fn table_beyond_the_generator_range_is_refused() {
    assert_eq!(
        gen_lookup_table(-311, 0).err(),
        Some(TableError::ExponentOutOfRange)
    );
    assert_eq!(
        gen_lookup_table(300, 311).err(),
        Some(TableError::ExponentOutOfRange)
    );
    assert!(gen_lookup_table(GEN_E10_MIN, GEN_E10_MAX).is_ok());
}

#[test]
fn bignat_multiplies_and_divides() {
    let mut z = BigNat::limb_power(0);
    assert_eq!(z.to_u128(), 1);
    for _ in 0..38 {
        z.mul_small(10);
    }
    z.trim();
    assert_eq!(z.len(), 4);
    assert_eq!(z.to_u128(), 100_000_000_000_000_000_000_000_000_000_000_000_000u128);
    z.div_small(7);
    assert_eq!(z.to_u128(), 14_285_714_285_714_285_714_285_714_285_714_285_714u128);
    z.drop_low_limb();
    assert_eq!(
        z.to_u128(),
        14_285_714_285_714_285_714_285_714_285_714_285_714u128 >> 32
    );
}

#[test]
fn bignat_limb_power_and_trim() {
    let mut z = BigNat::limb_power(3);
    assert_eq!(z.len(), 4);
    assert_eq!(z.to_u128(), 1u128 << 96);
    z.div_small(2);
    assert_eq!(z.len(), 4);
    z.trim();
    assert_eq!(z.len(), 3);
    assert_eq!(z.to_u128(), 1u128 << 95);
    z.mul_small(0);
    z.trim();
    assert_eq!(z.len(), 0);
    assert_eq!(z.to_u128(), 0);
}
