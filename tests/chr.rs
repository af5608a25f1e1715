use lualex::toolbox::chr::{class_bits, is_alpha, DIGIT, IDENT, LOWER, SPACE, UPPER};

#[test]
fn is_space() {
    assert_eq!(is_alpha(' ', SPACE), true);
    assert_eq!(is_alpha('\t', SPACE), true);
    assert_eq!(is_alpha('\n', SPACE), true);
    assert_eq!(is_alpha('\r', SPACE), true);
}

#[test]
fn is_not_space() {
    assert_eq!(is_alpha('a', SPACE), false);
    assert_eq!(is_alpha('1', SPACE), false);
    assert_eq!(is_alpha('.', SPACE), false);
    assert_eq!(is_alpha(';', SPACE), false);
}

#[test]
fn is_digit() {
    for c in '0'..'9' {
        assert_eq!(is_alpha(c, DIGIT), true);
    }
}

#[test]
fn is_not_digit() {
    for c in 'a'..'z' {
        assert_eq!(is_alpha(c, DIGIT), false);
    }
    for c in 'A'..'Z' {
        assert_eq!(is_alpha(c, DIGIT), false);
    }
}

#[test]
fn is_upper() {
    for c in 'A'..'Z' {
        assert_eq!(is_alpha(c, UPPER), true);
    }
}

#[test]
fn is_not_upper() {
    for c in 'a'..'z' {
        assert_eq!(is_alpha(c, UPPER), false);
    }

    for c in '0'..'9' {
        assert_eq!(is_alpha(c, UPPER), false);
    }
}

#[test]
fn is_lower() {
    for c in 'a'..'z' {
        assert_eq!(is_alpha(c, LOWER), true);
    }
}

#[test]
fn is_not_lower() {
    for c in 'A'..'Z' {
        assert_eq!(is_alpha(c, LOWER), false);
    }

    for c in '0'..'9' {
        assert_eq!(is_alpha(c, LOWER), false);
    }
}

#[test]
fn class_bits_table_values() {
    assert_eq!(class_bits('\0'), 1);
    assert_eq!(class_bits(' '), 2);
    assert_eq!(class_bits('0'), 152);
    assert_eq!(class_bits('A'), 176);
    assert_eq!(class_bits('Z'), 160);
    assert_eq!(class_bits('_'), 132);
    assert_eq!(class_bits('f'), 208);
    assert_eq!(class_bits('z'), 192);
    assert_eq!(class_bits('\u{7f}'), 1);
    assert_eq!(class_bits('\u{e9}'), 128);
    assert!(is_alpha('\u{e9}', IDENT));
    assert!(!is_alpha('-', IDENT));
    assert_eq!(class_bits('\u{4e2d}'), 0);
    assert!(!is_alpha('\u{4e2d}', IDENT));
}
