use perl_core::content_debug::hex_pairs_text;
use perl_core::display::{lossy_steps, Align, Padding};
use perl_core::string::PString;
use perl_core::warning::{render_warn_fragment, NumifyWarning, RadixBase, WARN_SNIPPET_BYTES, WARN_SNIPPET_CHARS};

const PLAIN: Padding = Padding { width: None, precision: None, align: Align::Left, fill: ' ' };

fn flagged(bytes: &[u8]) -> PString {
    let mut s = PString::from_bytes(bytes).unwrap();
    s.reinterpret_utf8(true);
    s
}

fn raw(bytes: &[u8]) -> PString {
    PString::from_bytes(bytes).unwrap()
}

fn fragment(s: &PString, truncated: bool) -> String {
    let mut out = String::new();
    render_warn_fragment(&mut out, s, truncated);
    out
}

#[test]
fn unflagged_bytes_are_one_character_each() {
    assert_eq!(raw(&[b'a', 0xE9, 0xFF, 0x80]).display(PLAIN), "aéÿ\u{80}");
}

#[test]
fn flagged_text_is_unchanged_and_the_rest_replaced() {
    assert_eq!(PString::new("日本 é").unwrap().display(PLAIN), "日本 é");
    assert_eq!(flagged(&[b'a', 0xED, 0xA0, 0x80, b'b']).display(PLAIN), "a\u{FFFD}b");
    assert_eq!(flagged(&[0xFF, b'a', 0xC3]).display(PLAIN), "\u{FFFD}a\u{FFFD}");
    assert_eq!(flagged(&[0x80, 0x80, b'a']).display(PLAIN), "\u{FFFD}a");
    assert_eq!(lossy_steps(&[0x80, 0x80, b'a', 0xC3, 0xA9]), 3);
}

#[test]
fn width_precision_and_fill_are_honored() {
    let s = PString::new("añb").unwrap();
    let at = |width, precision, align| s.display(Padding { width, precision, align, fill: '*' });
    assert_eq!(at(Some(6), None, Align::Left), "añb***");
    assert_eq!(at(Some(6), None, Align::Right), "***añb");
    assert_eq!(at(Some(6), None, Align::Center), "*añb**");
    assert_eq!(at(Some(5), Some(2), Align::Left), "añ***");
    assert_eq!(at(Some(2), None, Align::Right), "añb");
    assert_eq!(at(None, Some(0), Align::Left), "");
    assert_eq!(raw(&[0xE9, 0xE8]).display(Padding { width: Some(3), precision: Some(1), align: Align::Right, fill: ' ' }), "  é");
}

#[test]
fn content_is_rendered_losslessly() {
    assert_eq!(raw(b"plain").content_debug(), "\"plain\"");
    assert_eq!(flagged(b"plain").content_debug(), "\"plain\"");
    assert_eq!(raw(b"q\"\\\n\r\t\x01\x7f").content_debug(), "\"q\\\"\\\\\\n\\r\\t\\x{01}\\x{7f}\"");
    assert_eq!(raw(&[b'a', 0xE9]).content_debug(), "b\"a\\x{e9}\"");
    assert_eq!(flagged("aé日".as_bytes()).content_debug(), "\"aé日\"");
    assert_eq!(flagged(&[0xC2, 0x85]).content_debug(), "\"\\x{0085}\"");
    assert_eq!(flagged(&[0xED, 0xA0, 0x80]).content_debug(), "\"\\x{d800}\"");
    assert_eq!(flagged(&[0xF4, 0x90, 0x80, 0x80]).content_debug(), "\"\\x{110000}\"");
    assert_eq!(flagged(&[0xC3, b'a', 0x80]).content_debug(), "\"\\x{c3}a\\x{80}\"");
}

#[test]
fn stored_bytes_as_hex() {
    assert_eq!(hex_pairs_text(&[0x00, 0x0a, 0xff]), "00 0a ff");
    assert_eq!(hex_pairs_text(&[]), "");
}

#[test]
fn fragments_of_unflagged_strings() {
    assert_eq!(fragment(&raw(b"abc"), false), "abc");
    assert_eq!(fragment(&raw(b"a\n\r\x0c\\\0\x01\x7f\x1b"), false), "a\\n\\r\\f\\\\\\0^A^?^[");
    assert_eq!(fragment(&raw(&[0xE9, 0x8A, 0xFF]), false), "M-iM-\\nM-^?");
    assert_eq!(fragment(&raw(b"abc"), true), "abc...");
    assert_eq!(fragment(&raw(&[b'x'; 56]), false), "x".repeat(56));
    assert_eq!(fragment(&raw(&[b'x'; 57]), false), "x".repeat(56) + "...");
    assert_eq!(fragment(&raw(&[1u8; 40]), false), "^A".repeat(28) + "...");
}

#[test]
fn fragments_of_flagged_strings() {
    assert_eq!(fragment(&flagged("aé日\n\\".as_bytes()), false), "a\\x{e9}\\x{65e5}\\x{a}\\\\");
    assert_eq!(fragment(&flagged("x".repeat(33).as_bytes()), false), "x".repeat(32) + "...");
    assert_eq!(fragment(&flagged(&[0xFF]), false), "\\x{ff}");
    assert_eq!(fragment(&flagged(&[0x80, b'a']), false), "\\x{80}a");
    assert_eq!(fragment(&flagged(&[b'a', 0x80]), false), "\\x{61}");
    assert_eq!(fragment(&flagged("日".repeat(5).as_bytes()), false), "\\x{65e5}".repeat(4) + "...");
}

#[test]
fn a_snippet_quotes_as_the_whole_string() {
    let wholes: Vec<PString> = vec![
        raw(b"short"),
        raw(&[b'y'; 57]),
        raw(&[b'y'; 58]),
        raw(&[b'y'; 400]),
        raw(&[0x8A; 200]),
        flagged("日本語".repeat(40).as_bytes()),
        flagged("z".repeat(33).as_bytes()),
        flagged("z".repeat(34).as_bytes()),
    ];
    for whole in wholes {
        let bound = if whole.is_utf8() { WARN_SNIPPET_CHARS } else { WARN_SNIPPET_BYTES };
        let (snippet, truncated) = whole.message_prefix(bound).unwrap();
        assert_eq!(fragment(&snippet, truncated), fragment(&whole, false));
        assert!(snippet.len() <= whole.len());
        assert_eq!(truncated, snippet.len() < whole.len());
    }
}

#[test]
fn prefixes_end_between_characters() {
    let s = flagged("日本語".as_bytes());
    let (two, truncated) = s.message_prefix(2).unwrap();
    assert!(two == flagged("日本".as_bytes()));
    assert!(truncated && two.is_utf8());
    let (all, truncated) = s.message_prefix(3).unwrap();
    assert!(all == s && !truncated);
    let (none, truncated) = s.message_prefix(0).unwrap();
    assert!(none.is_empty() && truncated);
}

#[test]
fn warning_messages() {
    let quoted = |truncated| NumifyWarning::NotNumeric { snippet: raw(b"abc"), truncated };
    assert_eq!(quoted(false).message(), "Argument \"abc\" isn't numeric");
    assert_eq!(quoted(true).message(), "Argument \"abc...\" isn't numeric");
    assert_eq!(
        NumifyWarning::NotIncrementable { snippet: raw(b"a-b"), truncated: false }.message(),
        "Argument \"a-b\" treated as 0 in increment (++)"
    );
    assert_eq!(
        NumifyWarning::LostPrecision { value: String::from("9007199254740992"), decrement: false }.message(),
        "Lost precision when incrementing 9007199254740992 by 1"
    );
    assert_eq!(
        NumifyWarning::LostPrecision { value: String::from("-1"), decrement: true }.message(),
        "Lost precision when decrementing -1 by 1"
    );
    assert_eq!(
        NumifyWarning::IllegalDigit { base: RadixBase::Octal, digit: b'8' }.message(),
        "Illegal octal digit '8' ignored"
    );
    assert_eq!(NumifyWarning::Overflow { base: RadixBase::Hexadecimal }.message(), "Integer overflow in hexadecimal number");
    assert_eq!(
        NumifyWarning::NonPortable { base: RadixBase::Binary }.message(),
        "Binary number > 0b11111111111111111111111111111111 non-portable"
    );
    assert_eq!(
        NumifyWarning::OverflowThenIllegalDigit { base: RadixBase::Binary, digit: b'2' }.message(),
        "Integer overflow in binary number\nIllegal binary digit '2' ignored"
    );
    assert_eq!(
        NumifyWarning::IllegalDigitThenNonPortable { base: RadixBase::Hexadecimal, digit: b'g' }.message(),
        "Illegal hexadecimal digit 'g' ignored\nHexadecimal number > 0xffffffff non-portable"
    );
    assert_eq!(NumifyWarning::NonPortable { base: RadixBase::Octal }.message(), "Octal number > 037777777777 non-portable");
    assert_eq!(NumifyWarning::Uninitialized.message(), "Use of uninitialized value");
}
