use virtualdj_library::tempo::convert_virtualdj_bpm;

fn bpm(text: &str) -> Option<String> {
    convert_virtualdj_bpm(text)
}

#[test]
fn half_second_period_is_120_bpm() {
    assert_eq!(bpm("0.5"), Some("120.0".to_string()));
}

#[test]
fn one_second_period_is_60_bpm() {
    assert_eq!(bpm("1.0"), Some("60.0".to_string()));
}

#[test]
fn period_0_479_rounds_to_125_3() {
    assert_eq!(bpm("0.479"), Some("125.3".to_string()));
}

#[test]
fn zero_period_has_no_tempo() {
    assert_eq!(bpm("0"), None);
    assert_eq!(bpm("0.0"), None);
    assert_eq!(bpm("0.000"), None);
    assert_eq!(bpm("-0"), None);
}

#[test]
fn negative_period_has_no_tempo() {
    assert_eq!(bpm("-0.5"), None);
    assert_eq!(bpm("-1"), None);
}

#[test]
fn text_that_is_no_numeral_has_no_tempo() {
    assert_eq!(bpm(""), None);
    assert_eq!(bpm("abc"), None);
    assert_eq!(bpm("."), None);
    assert_eq!(bpm("+"), None);
    assert_eq!(bpm("-"), None);
    assert_eq!(bpm(" 0.5"), None);
    assert_eq!(bpm("0.5 "), None);
    assert_eq!(bpm("0.5.1"), None);
    assert_eq!(bpm("0,5"), None);
    assert_eq!(bpm("NaN"), None);
    assert_eq!(bpm("nan"), None);
    assert_eq!(bpm("one"), None);
    assert_eq!(bpm("--1"), None);
    assert_eq!(bpm("0.5x"), None);
}

#[test]
fn sign_and_bare_point_forms_are_numerals() {
    assert_eq!(bpm("+0.5"), Some("120.0".to_string()));
    assert_eq!(bpm(".5"), Some("120.0".to_string()));
    assert_eq!(bpm("1."), Some("60.0".to_string()));
    assert_eq!(bpm("0001.000"), Some("60.0".to_string()));
}

#[test]
fn typical_stored_periods() {
    assert_eq!(bpm("0.468750"), Some("128.0".to_string()));
    assert_eq!(bpm("0.428571"), Some("140.0".to_string()));
    assert_eq!(bpm("0.344828"), Some("174.0".to_string()));
    assert_eq!(bpm("0.6"), Some("100.0".to_string()));
    assert_eq!(bpm("0.7"), Some("85.7".to_string()));
}

#[test]
fn halves_round_to_the_even_tenth() {
    // 60 / 48 = 1.25, 60 / 16 = 3.75, 60 / 80 = 0.75, 60 / 1200 = 0.05, 60 / 400 = 0.15
    assert_eq!(bpm("48"), Some("1.2".to_string()));
    assert_eq!(bpm("16"), Some("3.8".to_string()));
    assert_eq!(bpm("80"), Some("0.8".to_string()));
    assert_eq!(bpm("1200"), Some("0.0".to_string()));
    assert_eq!(bpm("400"), Some("0.2".to_string()));
}

#[test]
fn just_above_and_below_a_half() {
    // 60 / 47.99 = 1.25026..., 60 / 48.01 = 1.24973...
    assert_eq!(bpm("47.99"), Some("1.3".to_string()));
    assert_eq!(bpm("48.01"), Some("1.2".to_string()));
}

#[test]
fn rounding_carries_into_a_new_digit() {
    // 60 / 0.60006 = 99.990..., 60 / 0.6001 = 99.983...; 60 / 0.60003 = 99.9950002...
    assert_eq!(bpm("0.60006"), Some("100.0".to_string()));
    assert_eq!(bpm("0.60003"), Some("100.0".to_string()));
    assert_eq!(bpm("0.6004"), Some("99.9".to_string()));
}

#[test]
fn very_short_period_gives_many_digits() {
    assert_eq!(bpm("0.000001"), Some("60000000.0".to_string()));
    assert_eq!(
        bpm("0.0000000000000000000000000000000000000001"),
        Some("600000000000000000000000000000000000000000.0".to_string())
    );
}

#[test]
fn very_long_period_rounds_to_zero() {
    assert_eq!(bpm("100000"), Some("0.0".to_string()));
    assert_eq!(bpm("99999999999999999999999999999999999999"), Some("0.0".to_string()));
}

#[test]
fn period_with_more_digits_than_a_machine_word() {
    // 60 / 0.5000000000000000000000000000000000000001 is just under 120
    assert_eq!(
        bpm("0.5000000000000000000000000000000000000001"),
        Some("120.0".to_string())
    );
    assert_eq!(
        bpm("0.4790000000000000000000000000000000000000000000001"),
        Some("125.3".to_string())
    );
}

#[test]
fn exponent_moves_the_point() {
    assert_eq!(bpm("1e3"), Some("0.1".to_string()));
    assert_eq!(bpm("1E3"), Some("0.1".to_string()));
    assert_eq!(bpm("5e-1"), Some("120.0".to_string()));
    assert_eq!(bpm("5E-1"), Some("120.0".to_string()));
    assert_eq!(bpm("1e0"), Some("60.0".to_string()));
    assert_eq!(bpm("1e+0"), Some("60.0".to_string()));
    assert_eq!(bpm("1e-0"), Some("60.0".to_string()));
    assert_eq!(bpm("4.79e-1"), Some("125.3".to_string()));
    assert_eq!(bpm("0.00479E2"), Some("125.3".to_string()));
    assert_eq!(bpm("479e-3"), Some("125.3".to_string()));
    assert_eq!(bpm("+.05e1"), Some("120.0".to_string()));
    assert_eq!(bpm("5.e-01"), Some("120.0".to_string()));
    assert_eq!(bpm("5e-0000000000000000000000000000000000001"), Some("120.0".to_string()));
    assert_eq!(bpm("1e-5"), Some("6000000.0".to_string()));
    assert_eq!(bpm("0.06e3"), Some("1.0".to_string()));
}

#[test]
fn exponent_form_and_plain_form_agree() {
    for (with_exponent, plain) in [
        ("1e3", "1000"),
        ("12e2", "1200"),
        ("4.8e1", "48"),
        ("5e-1", "0.5"),
        ("468750e-6", "0.468750"),
        ("0.0001e4", "1"),
        ("6.0004e-1", "0.60004"),
    ] {
        assert_eq!(bpm(with_exponent), bpm(plain));
    }
}

#[test]
fn exponent_needs_a_mark_and_digits() {
    assert_eq!(bpm("e5"), None);
    assert_eq!(bpm(".e5"), None);
    assert_eq!(bpm("1e"), None);
    assert_eq!(bpm("1e+"), None);
    assert_eq!(bpm("1e-"), None);
    assert_eq!(bpm("1e5x"), None);
    assert_eq!(bpm("1e5.0"), None);
    assert_eq!(bpm("1 e5"), None);
    assert_eq!(bpm("1e 5"), None);
    assert_eq!(bpm("1ee5"), None);
    assert_eq!(bpm("1e+-5"), None);
    assert_eq!(bpm("1x5"), None);
}

#[test]
fn zero_and_negative_periods_with_exponents_have_no_tempo() {
    assert_eq!(bpm("0e5"), None);
    assert_eq!(bpm("0.0e-5"), None);
    assert_eq!(bpm("-1e3"), None);
    assert_eq!(bpm("-5e-1"), None);
    assert_eq!(bpm("0e99999999999999999999999999999999999999999999999999"), None);
}

#[test]
fn very_long_periods_round_to_zero_whatever_the_exponent() {
    assert_eq!(bpm("1e4"), Some("0.0".to_string()));
    assert_eq!(bpm("1.2e3"), Some("0.0".to_string()));
    assert_eq!(bpm("1.21e3"), Some("0.0".to_string()));
    assert_eq!(bpm("1.19e3"), Some("0.1".to_string()));
    assert_eq!(bpm("1e308"), Some("0.0".to_string()));
    assert_eq!(bpm("7e18446744073709551616"), Some("0.0".to_string()));
    assert_eq!(
        bpm("1e99999999999999999999999999999999999999999999999999"),
        Some("0.0".to_string())
    );
    assert_eq!(
        bpm("0.000000001e340282366920938463463374607431768211456"),
        Some("0.0".to_string())
    );
}

#[test]
fn periods_down_to_the_floor_have_a_tempo() {
    let expected = format!("6{}.0", "0".repeat(325));
    assert_eq!(bpm("1e-324"), Some(expected.clone()));
    assert_eq!(bpm("10e-325"), Some(expected.clone()));
    assert_eq!(bpm("0.001e-321"), Some(expected));
    let expected = format!("2{}.0", "0".repeat(308));
    assert_eq!(bpm("3e-307"), Some(expected));
    let plain = format!("0.{}1", "0".repeat(323));
    assert_eq!(bpm(&plain), Some(format!("6{}.0", "0".repeat(325))));
}

#[test]
fn periods_below_the_floor_have_no_tempo() {
    assert_eq!(bpm("1e-325"), None);
    assert_eq!(bpm("9.999e-325"), None);
    assert_eq!(bpm("0.999999e-324"), None);
    assert_eq!(bpm("1e-400"), None);
    assert_eq!(bpm("1e-18446744073709551616"), None);
    assert_eq!(bpm("1e-340282366920938463463374607431768211456"), None);
    assert_eq!(bpm("1e-99999999999999999999999999999999999999999999999999"), None);
    let plain = format!("0.{}1", "0".repeat(324));
    assert_eq!(bpm(&plain), None);
    let plain = format!("0.{}9", "0".repeat(400));
    assert_eq!(bpm(&plain), None);
}

#[test]
fn infinity_has_the_tempo_zero() {
    assert_eq!(bpm("inf"), Some("0.0".to_string()));
    assert_eq!(bpm("+inf"), Some("0.0".to_string()));
    assert_eq!(bpm("infinity"), Some("0.0".to_string()));
    assert_eq!(bpm("+infinity"), Some("0.0".to_string()));
    assert_eq!(bpm("INF"), Some("0.0".to_string()));
    assert_eq!(bpm("Inf"), Some("0.0".to_string()));
    assert_eq!(bpm("Infinity"), Some("0.0".to_string()));
    assert_eq!(bpm("iNfInItY"), Some("0.0".to_string()));
}

#[test]
fn negative_infinity_and_near_words_have_no_tempo() {
    assert_eq!(bpm("-inf"), None);
    assert_eq!(bpm("-infinity"), None);
    assert_eq!(bpm("-INF"), None);
    assert_eq!(bpm("in"), None);
    assert_eq!(bpm("infi"), None);
    assert_eq!(bpm("infinit"), None);
    assert_eq!(bpm("infinityy"), None);
    assert_eq!(bpm("inf "), None);
    assert_eq!(bpm(" inf"), None);
    assert_eq!(bpm("++inf"), None);
    assert_eq!(bpm("ınf"), None);
    assert_eq!(bpm("İnf"), None);
    assert_eq!(bpm("1inf"), None);
}
