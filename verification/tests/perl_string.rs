use perl_core::perl_string::PerlString;

/// The float reading, with the parse that the library leaves to its callers.
fn parse_nv(s: &PerlString) -> f64 {
    if let Ok(text) = std::str::from_utf8(s.trimmed_bytes()) {
        if let Ok(number) = text.parse::<f64>() {
            return number;
        }
    }
    std::str::from_utf8(s.float_prefix()).unwrap().parse::<f64>().unwrap_or(0.0)
}

#[test]
fn from_str_sets_utf8_flag() {
    let s = PerlString::from_str("hello");
    assert!(s.is_utf8());
    assert_eq!(s.as_str(), Some("hello"));
    assert_eq!(s.as_bytes(), b"hello");
    assert_eq!(s.len(), 5);
}

#[test]
fn from_bytes_clears_utf8_flag() {
    let s = PerlString::from_bytes(vec![0xff, 0xfe]);
    assert!(!s.is_utf8());
    assert_eq!(s.as_str(), None);
    assert_eq!(s.as_bytes(), &[0xff, 0xfe]);
}

#[test]
fn from_bytes_detect_utf8() {
    let valid = PerlString::from_bytes_detect_utf8(b"hello".to_vec());
    assert!(valid.is_utf8());

    let invalid = PerlString::from_bytes_detect_utf8(vec![0xff, 0xfe]);
    assert!(!invalid.is_utf8());
}

#[test]
fn push_str_preserves_utf8() {
    let mut s = PerlString::from_str("hello");
    s.push_str(", world");
    assert!(s.is_utf8());
    assert_eq!(s.as_str(), Some("hello, world"));
}

#[test]
fn push_bytes_clears_utf8() {
    let mut s = PerlString::from_str("hello");
    s.push_bytes(&[0xff]);
    assert!(!s.is_utf8());
    assert_eq!(s.as_str(), None);
}

#[test]
fn push_perl_string_utf8_both() {
    let mut a = PerlString::from_str("hello ");
    let b = PerlString::from_str("world");
    a.push_perl_string(&b);
    assert!(a.is_utf8());
    assert_eq!(a.as_str(), Some("hello world"));
}

#[test]
fn push_perl_string_mixed_clears_utf8() {
    let mut a = PerlString::from_str("hello ");
    let b = PerlString::from_bytes(vec![0xff]);
    a.push_perl_string(&b);
    assert!(!a.is_utf8());
}

#[test]
fn truncate_safe() {
    let mut s = PerlString::from_str("hello");
    s.truncate(3);
    assert_eq!(s.as_str(), Some("hel"));
    assert!(s.is_utf8());
}

#[test]
fn truncate_splits_multibyte() {
    let mut s = PerlString::from_str("héllo");
    s.truncate(2);
    assert!(!s.is_utf8());
    assert_eq!(s.len(), 2);
}

#[test]
fn upgrade_to_utf8() {
    let mut s = PerlString::from_bytes(b"hello".to_vec());
    assert!(!s.is_utf8());
    assert!(s.upgrade_to_utf8());
    assert!(s.is_utf8());
    assert_eq!(s.as_str(), Some("hello"));
}

#[test]
fn upgrade_to_utf8_fails_for_invalid() {
    let mut s = PerlString::from_bytes(vec![0xff, 0xfe]);
    assert!(!s.upgrade_to_utf8());
    assert!(!s.is_utf8());
}

#[test]
fn parse_iv_basic() {
    assert_eq!(PerlString::from_str("42").parse_iv(), 42);
    assert_eq!(PerlString::from_str("-7").parse_iv(), -7);
    assert_eq!(PerlString::from_str("  123  ").parse_iv(), 123);
    assert_eq!(PerlString::from_str("42abc").parse_iv(), 42);
    assert_eq!(PerlString::from_str("abc").parse_iv(), 0);
    assert_eq!(PerlString::from_str("").parse_iv(), 0);
}

#[test]
fn parse_iv_hex_and_binary() {
    assert_eq!(PerlString::from_str("0xff").parse_iv(), 255);
    assert_eq!(PerlString::from_str("0b1010").parse_iv(), 10);
    assert_eq!(PerlString::from_str("-0xff").parse_iv(), -255);
}

#[test]
fn parse_nv_basic() {
    assert!((parse_nv(&PerlString::from_str("3.14")) - 3.14).abs() < 1e-10);
    assert!((parse_nv(&PerlString::from_str("-2.5")) - (-2.5)).abs() < 1e-10);
    assert!((parse_nv(&PerlString::from_str("1e3")) - 1000.0).abs() < 1e-10);
    assert!((parse_nv(&PerlString::from_str("  42.5abc")) - 42.5).abs() < 1e-10);
    assert_eq!(parse_nv(&PerlString::from_str("abc")), 0.0);
    assert_eq!(parse_nv(&PerlString::from_str("")), 0.0);
}

#[test]
fn into_string_utf8() {
    let s = PerlString::from_str("hello");
    assert_eq!(s.into_string(), Ok(String::from("hello")));
}

#[test]
fn into_string_non_utf8_valid() {
    let s = PerlString::from_bytes(b"hello".to_vec());
    assert_eq!(s.into_string(), Ok(String::from("hello")));
}

#[test]
fn into_string_non_utf8_invalid() {
    let s = PerlString::from_bytes(vec![0xff, 0xfe]);
    assert!(s.into_string().is_err());
}

#[test]
fn display_utf8() {
    let s = PerlString::from_str("hello");
    assert_eq!(s.display(), "hello");
}

#[test]
fn display_non_utf8() {
    let s = PerlString::from_bytes(vec![0xff, 0xfe]);
    let _ = s.display();
}

#[test]
fn empty_string() {
    let s = PerlString::new();
    assert!(s.is_empty());
    assert_eq!(s.len(), 0);
    assert_eq!(s.parse_iv(), 0);
    assert_eq!(parse_nv(&s), 0.0);
}

#[test]
fn equality() {
    let a = PerlString::from_str("hello");
    let b = PerlString::from_str("hello");
    let c = PerlString::from_bytes(b"hello".to_vec());
    assert_eq!(a, b);
    assert_ne!(a, c);
}

#[test]
fn parse_iv_at_the_ends_of_the_range() {
    assert_eq!(PerlString::from_str("9223372036854775807").parse_iv(), i64::MAX);
    assert_eq!(PerlString::from_str("-9223372036854775808").parse_iv(), i64::MIN);
    assert_eq!(PerlString::from_str("9223372036854775808").parse_iv(), 0);
    assert_eq!(PerlString::from_str("-9223372036854775808x").parse_iv(), i64::MIN);
    assert_eq!(PerlString::from_str("9223372036854775807x").parse_iv(), i64::MAX);
    assert_eq!(PerlString::from_str("0xffffffffffffffff").parse_iv(), 0);
}

#[test]
fn parse_iv_signs_and_prefixes() {
    assert_eq!(PerlString::from_str("+5").parse_iv(), 5);
    assert_eq!(PerlString::from_str("+-5").parse_iv(), 0);
    assert_eq!(PerlString::from_str("0x").parse_iv(), 0);
    assert_eq!(PerlString::from_str("0XfFg").parse_iv(), 255);
    assert_eq!(PerlString::from_str("0B12").parse_iv(), 1);
    assert_eq!(PerlString::from_str("010").parse_iv(), 10);
}

#[test]
fn parse_iv_skips_unicode_whitespace_behind_ascii() {
    assert_eq!(PerlString::from_str("\t\u{0B}\u{A0}\u{3000}12 ").parse_iv(), 12);
    assert_eq!(PerlString::from_bytes(vec![b' ', b'7', 0xff]).parse_iv(), 7);
    assert_eq!(PerlString::from_bytes(vec![0x34, 0x32, 0xff]).parse_iv(), 42);
    assert_eq!(PerlString::from_bytes(vec![0xff, 0x34, 0x32]).parse_iv(), 0);
}

#[test]
fn float_prefixes() {
    assert_eq!(PerlString::from_str("  -1.5e+3xyz").float_prefix(), b"-1.5e+3");
    assert_eq!(PerlString::from_str("1e").float_prefix(), b"1");
    assert_eq!(PerlString::from_str("3.5eggs").float_prefix(), b"3.5");
    assert_eq!(PerlString::from_str("2e+x").float_prefix(), b"2");
    assert_eq!(PerlString::from_str("1.").float_prefix(), b"1.");
    assert_eq!(PerlString::from_str("-.e5").float_prefix(), b"");
    assert_eq!(parse_nv(&PerlString::from_str("3.5eggs")), 3.5);
    assert_eq!(parse_nv(&PerlString::from_bytes(vec![b'2', b'.', b'5', 0xff])), 2.5);
    assert_eq!(PerlString::from_str(".5.5").float_prefix(), b".5");
    assert_eq!(PerlString::from_str("x").float_prefix(), b"");
}

#[test]
fn conversions_and_round_trips() {
    assert!(PerlString::from("abc").is_utf8());
    assert!(PerlString::from(String::from("abc")).is_utf8());
    assert!(!PerlString::from(vec![1u8, 2]).is_utf8());
    let mut s = PerlString::from("añb");
    let t = s.clone();
    assert_eq!(s, t);
    s.downgrade_from_utf8();
    assert_ne!(s, t);
    assert!(s.upgrade_to_utf8());
    assert_eq!(s, t);
    s.clear();
    assert!(s.is_empty() && s.is_utf8());
    assert_eq!(t.into_bytes(), "añb".as_bytes());
    assert_eq!(PerlString::default(), PerlString::new());
    let u = PerlString::from_bytes_utf8_unchecked(b"ok".to_vec(), true);
    assert_eq!(u.as_str(), Some("ok"));
}

#[test]
fn the_bytes_come_back_where_they_are_no_text() {
    let s = PerlString::from_bytes(vec![b'a', 0xff]);
    assert_eq!(s.display(), "a\u{FFFD}");
    let back = s.into_string().unwrap_err();
    assert_eq!(back.as_bytes(), &[b'a', 0xff]);
    assert!(!back.is_utf8());
}
