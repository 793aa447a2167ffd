use autobright::parse::{parse_capacity, parse_decimal_milli, parse_light_milli, parse_power_online};

#[test]
fn light_plain_tuple() {
    assert_eq!(parse_light_milli(b"(41,0)\n"), Some(41000));
}

#[test]
fn light_first_field_only() {
    assert_eq!(parse_light_milli(b"(127.5,3.25,9)"), Some(127500));
}

#[test]
fn light_no_parens_no_comma() {
    assert_eq!(parse_light_milli(b"  7.25 \n"), Some(7250));
}

#[test]
fn light_nested_parens_stripped() {
    assert_eq!(parse_light_milli(b"((3))"), Some(3000));
}

#[test]
fn light_malformed_is_rejected() {
    assert_eq!(parse_light_milli(b"abc"), None);
    assert_eq!(parse_light_milli(b"(,0)"), None);
    assert_eq!(parse_light_milli(b""), None);
    assert_eq!(parse_light_milli(b"( 41,0)"), None);
    assert_eq!(parse_light_milli(b"1.2.3"), None);
}

#[test]
fn decimal_fraction_forms() {
    assert_eq!(parse_decimal_milli(b"5."), Some(5000));
    assert_eq!(parse_decimal_milli(b".5"), Some(500));
    assert_eq!(parse_decimal_milli(b"+1.25"), Some(1250));
    assert_eq!(parse_decimal_milli(b"-2.5"), Some(-2500));
    assert_eq!(parse_decimal_milli(b"1.2345"), Some(1234));
    assert_eq!(parse_decimal_milli(b"0.0005"), Some(0));
}

#[test]
fn decimal_grammar_rejections() {
    assert_eq!(parse_decimal_milli(b"."), None);
    assert_eq!(parse_decimal_milli(b"-"), None);
    assert_eq!(parse_decimal_milli(b"--1"), None);
    assert_eq!(parse_decimal_milli(b"1e3"), None);
    assert_eq!(parse_decimal_milli(b"1 2"), None);
}

#[test]
fn decimal_significant_digit_bound() {
    assert_eq!(parse_decimal_milli(b"999999999999999"), Some(999_999_999_999_999_000));
    assert_eq!(parse_decimal_milli(b"1000000000000000"), None);
    assert_eq!(parse_decimal_milli(b"0000000000000000012"), Some(12000));
}

#[test]
fn power_flag_values() {
    assert_eq!(parse_power_online(b"1\n"), Some(true));
    assert_eq!(parse_power_online(b"0\n"), Some(false));
    assert_eq!(parse_power_online(b"2"), Some(false));
    assert_eq!(parse_power_online(b"-1"), Some(false));
    assert_eq!(parse_power_online(b"01"), Some(true));
    assert_eq!(parse_power_online(b"+1"), Some(true));
}

#[test]
fn power_flag_rejections() {
    assert_eq!(parse_power_online(b""), None);
    assert_eq!(parse_power_online(b"x"), None);
    assert_eq!(parse_power_online(b"1.0"), None);
    assert_eq!(parse_power_online(b"2147483647"), Some(false));
    assert_eq!(parse_power_online(b"2147483648"), None);
    assert_eq!(parse_power_online(b"-2147483648"), Some(false));
    assert_eq!(parse_power_online(b"-2147483649"), None);
}

#[test]
fn capacity_values() {
    assert_eq!(parse_capacity(b"1000\n"), Some(1000));
    assert_eq!(parse_capacity(b" 255 "), Some(255));
    assert_eq!(parse_capacity(b"0"), Some(0));
    assert_eq!(parse_capacity(b"4294967295"), Some(4294967295));
}

#[test]
fn capacity_rejections() {
    assert_eq!(parse_capacity(b""), None);
    assert_eq!(parse_capacity(b"-1"), None);
    assert_eq!(parse_capacity(b"10.0"), None);
    assert_eq!(parse_capacity(b"4294967296"), None);
    assert_eq!(parse_capacity(b"99999999999999999999"), None);
}
