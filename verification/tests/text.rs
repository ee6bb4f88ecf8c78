use autorenamer::text::{
    find, matches_at, push_decimal, push_padded, push_signed, read_decimal, scan_run,
    scan_run_back, to_chars, CharClass,
};

fn chars(text: &str) -> Vec<char> {
    text.chars().collect()
}

#[test]
fn white_space_is_that_of_the_standard_library() {
    for code in 0..=0x10ffff_u32 {
        if let Some(c) = char::from_u32(code) {
            assert_eq!(CharClass::Space.test(c), c.is_whitespace(), "{:x}", code);
        }
    }
}

#[test]
fn digits_are_the_ascii_digits() {
    for code in 0..=0x10ffff_u32 {
        if let Some(c) = char::from_u32(code) {
            assert_eq!(CharClass::Digit.test(c), c.is_ascii_digit(), "{:x}", code);
            assert_eq!(CharClass::Blank.test(c), c == ' ' || c == '\t', "{:x}", code);
            assert_eq!(CharClass::NotDot.test(c), c != '.', "{:x}", code);
        }
    }
}

#[test]
fn to_chars_gives_the_characters() {
    assert_eq!(to_chars(""), Vec::<char>::new());
    assert_eq!(to_chars("a\u{e9}\u{1f600}."), vec!['a', '\u{e9}', '\u{1f600}', '.']);
}

#[test]
fn runs_end_where_the_class_ends() {
    let text = chars("ab123  \t.x");
    assert_eq!(scan_run(&text, CharClass::Digit, 2), 5);
    assert_eq!(scan_run(&text, CharClass::Digit, 0), 0);
    assert_eq!(scan_run(&text, CharClass::Blank, 5), 8);
    assert_eq!(scan_run(&text, CharClass::NotDot, 0), 8);
    assert_eq!(scan_run(&text, CharClass::NotDot, 9), 10);
    assert_eq!(scan_run(&text, CharClass::NotDot, 10), 10);
    assert_eq!(scan_run(&text, CharClass::NotDot, 25), 25);
    assert_eq!(scan_run_back(&text, CharClass::NotDot, 10), 9);
    assert_eq!(scan_run_back(&text, CharClass::Space, 8), 5);
    assert_eq!(scan_run_back(&text, CharClass::Digit, 5), 2);
    assert_eq!(scan_run_back(&text, CharClass::Digit, 0), 0);
    assert_eq!(scan_run_back(&text, CharClass::Digit, 11), 11);
}

#[test]
fn find_gives_the_first_occurrence() {
    assert_eq!(find(&chars("an Episode, Episode"), &chars("Episode")), Some(3));
    assert_eq!(find(&chars("Episod"), &chars("Episode")), None);
    assert_eq!(find(&chars("aEbE"), &chars("E")), Some(1));
    assert_eq!(find(&chars(""), &chars("E")), None);
    assert_eq!(find(&chars("abc"), &chars("")), Some(0));
    assert_eq!(find(&chars(""), &chars("")), Some(0));
    assert_eq!(find(&chars("aab"), &chars("ab")), Some(1));
    assert!(matches_at(&chars("aab"), &chars("ab"), 1));
    assert!(!matches_at(&chars("aab"), &chars("ab"), 0));
    assert!(!matches_at(&chars("aab"), &chars("ab"), 2));
    assert!(!matches_at(&chars("aab"), &chars("ab"), 7));
    assert!(matches_at(&chars("aab"), &chars(""), 3));
}

#[test]
fn read_decimal_reads_what_fits() {
    let text = chars("x0012y2147483647z2147483648");
    assert_eq!(read_decimal(&text, 1, 5), Some(12));
    assert_eq!(read_decimal(&text, 1, 1), Some(0));
    assert_eq!(read_decimal(&text, 6, 16), Some(2147483647));
    assert_eq!(read_decimal(&text, 17, 27), None);
    assert_eq!(read_decimal(&chars("00000000000000000000000000000000000009"), 0, 38), Some(9));
    assert_eq!(read_decimal(&chars("99999999999999999999999999999999999999"), 0, 38), None);
    assert_eq!(read_decimal(&text, 0, 5), None);
    assert_eq!(read_decimal(&text, 1, 6), None);
    assert_eq!(read_decimal(&text, 5, 1), None);
    assert_eq!(read_decimal(&text, 17, 28), None);
    assert_eq!(read_decimal(&chars("-1"), 0, 2), None);
    assert_eq!(read_decimal(&chars("\u{663}"), 0, 1), None);
}

#[test]
fn numbers_are_written_as_the_standard_library_writes_them() {
    let mut samples: Vec<i64> = (-1100..1100).collect();
    samples.extend([i64::MIN, i64::MIN + 1, i64::MAX, 2147483647, -2147483648, 4294967294]);
    for n in samples {
        let mut plain = String::from("<");
        push_signed(&mut plain, n);
        assert_eq!(plain, format!("<{}", n));
        let mut padded = String::from("<");
        push_padded(&mut padded, n);
        assert_eq!(padded, format!("<{:0>2}", n));
    }
    for n in [0_u64, 7, 10, 99, 100, 18446744073709551615] {
        let mut text = String::new();
        push_decimal(&mut text, n);
        assert_eq!(text, n.to_string());
    }
}

#[test]
fn padding_fills_two_characters() {
    for (n, expected) in
        [(0, "00"), (5, "05"), (9, "09"), (10, "10"), (123, "123"), (-1, "-1"), (-12, "-12")]
    {
        let mut text = String::new();
        push_padded(&mut text, n);
        assert_eq!(text, expected);
    }
}
