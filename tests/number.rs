use lualex::LexNumberValue;

fn str_to_vec(s: &str) -> Vec<char> {
    s.chars().collect()
}

fn as_float(v: &LexNumberValue) -> f64 {
    let digits = v.frac_digits();
    let mut num = v.as_int() as f64;
    let mut den = 1f64;
    for d in digits.iter() {
        num = num * 10f64 + f64::from(*d);
        den = den * 10f64;
    }
    num / den
}

fn assert_binary_eq(s: &str, value: u64) {
    let actual = LexNumberValue::new_binary(&str_to_vec(s));
    assert!(!actual.is_invalid());
    assert_eq!(actual.as_int(), value);
    assert!(actual.is_int());
}

fn assert_binary_invalid(s: &str) {
    let actual = LexNumberValue::new_binary(&str_to_vec(s));
    assert!(actual.is_invalid());
    assert_eq!(actual.as_int(), 0);
}

fn assert_hex_eq(s: &str, value: u64) {
    let actual = LexNumberValue::new_hex(&str_to_vec(s));
    assert!(!actual.is_invalid());
    assert_eq!(actual.as_int(), value);
    assert!(actual.is_int());
}

fn assert_hex_invalid(s: &str) {
    let actual = LexNumberValue::new_hex(&str_to_vec(s));
    assert!(actual.is_invalid());
    assert_eq!(actual.as_int(), 0);
}

fn assert_dec_eq_int(s: &str, value: u64) {
    let actual = LexNumberValue::new_dec(&str_to_vec(s));
    assert!(!actual.is_invalid());
    assert_eq!(actual.as_int(), value);
    assert!(actual.is_int());
}

fn assert_dec_eq_float(s: &str, value: f64) {
    let actual = LexNumberValue::new_dec(&str_to_vec(s));
    assert!(!actual.is_invalid());
    assert_eq!(as_float(&actual), value);
    assert!(!actual.is_int());
}

fn assert_dec_invalid(s: &str) {
    let actual = LexNumberValue::new_dec(&str_to_vec(s));
    assert!(actual.is_invalid());
    assert!(!actual.is_int());
    assert_eq!(actual.as_int(), 0);
}

#[test]
fn test_lex_number_binary() {
    assert_binary_eq("0b11010011", 0xd3);
    assert_binary_eq("0b000000000000000000111", 0x07);

    assert_binary_invalid("0x11011111");
    assert_binary_invalid("11010011");
    assert_binary_invalid("0b11010012");
}

#[test]
fn test_lex_number_hex() {
    assert_hex_eq("0xd3", 0xd3);
    assert_hex_eq("0xD3", 0xd3);
    assert_hex_eq("0x00d3D3", 0xd3d3);
    assert_hex_eq("0x001234", 0x1234);
    assert_hex_eq("0x100000", 0x100000);

    assert_hex_invalid("0b1111101");
    assert_hex_invalid("abcd");
    assert_hex_invalid("0xag");
}

#[test]
fn test_lex_number_int_dec() {
    assert_dec_eq_int("100", 100);
    assert_dec_eq_int("00123", 123);
    assert_dec_eq_float("100.0", 100f64);
    assert_dec_eq_float(".0", 0f64);
    assert_dec_eq_float("123.45", 123.45f64);

    assert_dec_invalid("100.0.0");
    assert_dec_invalid("..");
    assert_dec_invalid("1a34");
    assert_dec_invalid("0.b123");
}

#[test]
fn number_new_picks_base_by_prefix() {
    assert_eq!(LexNumberValue::new(&str_to_vec("0b101")).as_int(), 5);
    assert_eq!(LexNumberValue::new(&str_to_vec("0xff")).as_int(), 255);
    assert_eq!(LexNumberValue::new(&str_to_vec("0755")).as_int(), 755);
    assert!(LexNumberValue::new(&str_to_vec("0xabcg")).is_invalid());
    assert!(LexNumberValue::new(&str_to_vec("0b11010012")).is_invalid());
}

#[test]
fn number_hex_case_does_not_matter() {
    let lower = LexNumberValue::new_hex(&str_to_vec("0xabcdef"));
    let upper = LexNumberValue::new_hex(&str_to_vec("0xABCDEF"));
    assert!(lower == upper);
    assert_eq!(lower.as_int(), 0xabcdef);
}

#[test]
fn number_float_parts() {
    let v = LexNumberValue::new_dec(&str_to_vec("1123.51"));
    assert_eq!(v.as_int(), 1123);
    assert_eq!(v.frac_digits(), vec![5u8, 1u8]);
    assert_eq!(as_float(&v), 1123.51f64);
    let w = LexNumberValue::new_dec(&str_to_vec(".51"));
    assert_eq!(as_float(&w), 0.51f64);
}

#[test]
fn number_wraps_modulo_two_to_the_64() {
    assert_eq!(LexNumberValue::new_dec(&str_to_vec("18446744073709551615")).as_int(), u64::MAX);
    assert_eq!(LexNumberValue::new_dec(&str_to_vec("18446744073709551616")).as_int(), 0);
    assert_eq!(LexNumberValue::new_hex(&str_to_vec("0x10000000000000001")).as_int(), 1);
}

#[test]
fn number_empty_digit_strings() {
    assert_eq!(LexNumberValue::new_dec(&str_to_vec("")).as_int(), 0);
    assert!(LexNumberValue::new_dec(&str_to_vec("")).is_int());
    assert!(LexNumberValue::new_binary(&str_to_vec("0b")).is_int());
    assert!(LexNumberValue::new_dec(&str_to_vec("1e5")).is_invalid());
}

#[test]
fn number_equality() {
    let a = LexNumberValue::new_dec(&str_to_vec("1.50"));
    let b = LexNumberValue::new_dec(&str_to_vec("1.50"));
    let c = LexNumberValue::new_dec(&str_to_vec("1.5"));
    assert!(a == b);
    assert!(a == c);
    assert_eq!(a.frac_digits(), vec![5u8]);
    assert!(a != LexNumberValue::new_dec(&str_to_vec("1.05")));
    assert!(LexNumberValue::Invalid == LexNumberValue::Invalid);
    assert!(LexNumberValue::UInt(3) != LexNumberValue::Invalid);
}
