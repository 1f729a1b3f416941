use perl_core::classify::{classify_full, malformed_run};
use perl_core::cow_buffer::{provided, size_class, AllocError, Tier};
use perl_core::decode::decode_one;
use perl_core::hex::{classify_hex_bytes, decode_hex_bytes, hex_rendered_len};
use perl_core::inline_form::{classify_inline, InlineClass};
use perl_core::latin1::{downgrade_into, downgraded_bytes, latin1_contractions, upgrade_into, upgraded_bytes, variant_count};
use perl_core::order::{compare_bytes, Order};
use perl_core::packed::{pack, PackedAlphabet};
use perl_core::scan::{is_perl_decodable, is_rust_valid, meet, ScanState, Terminal, ValidRange};
use perl_core::transition::{append_transition_heap, cut_is_clean, slice_birth, AppendKind};
use perl_core::uuid::{classify_uuid, decode_uuid};

#[test]
fn one_decoder_for_all_lengths() {
    assert_eq!(decode_one(b"a", 0), Some((1, 0x61)));
    assert_eq!(decode_one("é".as_bytes(), 0), Some((2, 0xE9)));
    assert_eq!(decode_one("日".as_bytes(), 0), Some((3, 0x65E5)));
    assert_eq!(decode_one("𝄞".as_bytes(), 0), Some((4, 0x1D11E)));
    assert_eq!(decode_one(&[0xF8, 0x88, 0x80, 0x80, 0x80], 0), Some((5, 0x20_0000)));
    assert_eq!(decode_one(&[0xFC, 0x84, 0x80, 0x80, 0x80, 0x80], 0), Some((6, 0x400_0000)));
    assert_eq!(decode_one(&[0xFE, 0x82, 0x80, 0x80, 0x80, 0x80, 0x80], 0), Some((7, 0x8000_0000)));
    assert_eq!(decode_one(&[0xC0, 0x80], 0), None);
    assert_eq!(decode_one(&[0xE0, 0x80, 0x80], 0), None);
    assert_eq!(decode_one(&[0x80], 0), None);
    assert_eq!(decode_one(&[0xC3], 0), None);
    assert_eq!(malformed_run(&[0xC3, 0x80, 0x80, 0x41], 0), 3);
}

#[test]
fn classification_is_terminal_and_counts() {
    assert_eq!(classify_full(b""), (Terminal::Ascii, 0));
    assert_eq!(classify_full(b"abc"), (Terminal::Ascii, 3));
    assert_eq!(classify_full("aé".as_bytes()), (Terminal::Utf8Latin1, 2));
    assert_eq!(classify_full("aé日".as_bytes()), (Terminal::Utf8NonLatin1, 3));
    assert_eq!(classify_full(&[0xED, 0xA0, 0x80]), (Terminal::ExtendedUtf8, 1));
    assert_eq!(classify_full(&[0xFF]).0, Terminal::MalformedUtf8);
    let long = "é".repeat(5000);
    assert_eq!(classify_full(long.as_bytes()), (Terminal::Utf8Latin1, 5000));
}

#[test]
fn knowledge_meets() {
    for byte in 0..12 {
        let state = ScanState::from_u8(byte);
        assert_eq!(state.as_u8(), byte);
        assert_eq!(meet(state, state), state);
        assert_eq!(meet(ScanState::Unknown, state), state);
        assert_eq!(meet(state, ScanState::Unknown), state);
    }
    assert_eq!(meet(ScanState::ValidUtf8, ScanState::NonAscii), ScanState::Utf8NonAscii);
    assert!(is_rust_valid(ScanState::Utf8Latin1) && !is_rust_valid(ScanState::ExtendedUtf8));
    assert!(is_perl_decodable(ScanState::ExtendedUtf8) && !is_perl_decodable(ScanState::NonAscii));
    assert_eq!(ValidRange::Ascii.join(ValidRange::Latin1), ValidRange::Latin1);
    assert_eq!(Terminal::from_scan(ScanState::Ascii), Terminal::Ascii);
    assert_eq!(ScanState::NonAscii.terminal(), None);
    assert_eq!(ScanState::MalformedUtf8.terminal(), Some(Terminal::MalformedUtf8));
}

#[test]
fn appends_and_slices_move_what_is_known() {
    let ascii = AppendKind::Valid { class: ValidRange::Ascii, chars: 2 };
    assert_eq!(append_transition_heap(ScanState::Ascii, ascii), ScanState::Ascii);
    let latin = AppendKind::Valid { class: ValidRange::Latin1, chars: 2 };
    assert_eq!(append_transition_heap(ScanState::Ascii, latin), ScanState::Utf8Latin1);
    assert_eq!(append_transition_heap(ScanState::Unknown, AppendKind::Unknown), ScanState::Unknown);
    assert_eq!(slice_birth(ScanState::Ascii, false), ScanState::Ascii);
    assert!(cut_is_clean("aéb".as_bytes(), 1, 2));
    assert!(!cut_is_clean("aéb".as_bytes(), 1, 1));
    assert!(!cut_is_clean("aéb".as_bytes(), 2, 2));
    assert!(cut_is_clean("aéb".as_bytes(), 2, 0));
    assert!(cut_is_clean(&[0x80, 0x80], 0, 2));
    assert!(!cut_is_clean(&[0x80, 0x80], 0, 1));
    assert!(cut_is_clean(b"ab", 1, 9));
    assert!(!cut_is_clean("é".as_bytes(), 1, 9));
}

#[test]
fn widening_and_narrowing() {
    assert_eq!(variant_count(&[0x61, 0xE9, 0xFF]), 2);
    assert_eq!(upgraded_bytes(&[0x61, 0xE9]).unwrap(), "aé".as_bytes());
    assert_eq!(downgraded_bytes("aé".as_bytes()).unwrap(), Some(vec![0x61, 0xE9]));
    assert_eq!(downgraded_bytes("日".as_bytes()).unwrap(), None);
    assert_eq!(latin1_contractions("éé".as_bytes()), Some(2));
    assert_eq!(latin1_contractions(&[0xFF]), None);
    assert_eq!(upgraded_bytes(b"").unwrap(), b"");
    assert_eq!(downgraded_bytes(b"").unwrap(), Some(Vec::new()));
}

#[test]
fn widening_and_narrowing_append() {
    let mut out = b"so far: ".to_vec();
    upgrade_into(&mut out, &[0x61, 0xE9, 0x7F, 0x80]);
    assert_eq!(out, "so far: aé\u{7F}\u{80}".as_bytes());
    downgrade_into(&mut out, "éÿz".as_bytes());
    assert_eq!(&out[out.len() - 3..], &[0xE9, 0xFF, 0x7A]);
    assert_eq!(&out[..8], b"so far: ");
}

#[test]
fn what_was_not_granted_is_refused() {
    assert_eq!(provided(true, vec![1, 2], 9), Ok(vec![1, 2]));
    assert_eq!(provided(false, vec![1, 2], 9), Err(AllocError { requested: 9 }));
    assert_eq!(upgraded_bytes(&[0xE9]).unwrap(), vec![0xC3, 0xA9]);
}

#[test]
fn packing_and_its_order() {
    let numeric = pack(b"1234567890.12345").unwrap();
    assert_eq!(numeric.alphabet, PackedAlphabet::Numeric);
    assert_eq!(numeric.len(), 16);
    let mut out = [0xAAu8; 41];
    let n = numeric.unpack(&mut out);
    assert_eq!(&out[..n], b"1234567890.12345");
    assert!(out[n..].iter().all(|b| *b == 0xAA));
    assert!(pack(b"short").is_none());
    assert!(pack(b"1234567890123456a").is_none());
    let longer = numeric.push(b"6").unwrap();
    assert!(longer.eq_bytes(b"1234567890.123456"));
    assert_eq!(numeric.order_same_alphabet(&longer), Order::Less);
    assert_eq!(numeric.order_bytes(b"1234567890.12344"), Order::Greater);
    assert!(numeric.transcode(PackedAlphabet::DateTimePlus).unwrap().eq_bytes(b"1234567890.12345"));
    assert!(numeric.push(b"x").is_none());
    assert!(numeric.padding_is_canonical());
    assert_eq!(compare_bytes(b"a", b"b"), Order::Less);
    assert_eq!(compare_bytes(b"b", b"a").reverse(), Order::Less);
}

#[test]
fn identifiers_round_trip() {
    for text in [
        "550e8400-e29b-41d4-a716-446655440000",
        "6ba7b810-9dad-11d1-80b4-00c04fd430c8",
        "018f3b0e-7b1c-7def-8abc-0123456789ab",
    ] {
        let (form, payload) = classify_uuid(text.as_bytes()).unwrap();
        let mut out = [0xAAu8; 41];
        let n = decode_uuid(form, &payload, &mut out);
        assert_eq!(&out[..n], text.as_bytes());
        assert!(out[n..].iter().all(|b| *b == 0xAA));
    }
    assert!(classify_uuid(b"550E8400-e29b-41d4-a716-446655440000").is_none());
    assert!(classify_uuid(b"550e8400-e29b-41d4-a716-44665544000").is_none());
}

#[test]
fn hex_bytes_round_trip() {
    for text in ["00:1a:2b:3c:4d:5e", "AA-BB-CC-DD-EE-FF", "deadbeefcafe0123", "0xdeadbeefcafe0123", "01 02 03 04 05 06"] {
        let payload = classify_hex_bytes(text.as_bytes()).unwrap();
        let mut out = [0xAAu8; 41];
        assert_eq!(hex_rendered_len(&payload), text.len());
        let n = decode_hex_bytes(&payload, &mut out);
        assert_eq!(&out[..n], text.as_bytes());
        assert!(out[n..].iter().all(|b| *b == 0xAA));
    }
    assert!(classify_hex_bytes(b"00:1a:2b:3c:4d:5e:").is_none());
    assert!(classify_hex_bytes(b"aA:1a:2b:3c:4d:5e").is_none());
    assert!(classify_hex_bytes(b"00:1a-2b:3c:4d:5e").is_none());
}

#[test]
fn inline_classes() {
    assert_eq!(classify_inline(b"abc").unwrap().class, InlineClass::Ascii);
    assert_eq!(classify_inline("é".as_bytes()).unwrap().class, InlineClass::Latin1);
    assert_eq!(classify_inline("日".as_bytes()).unwrap().class, InlineClass::NonLatin1);
    assert_eq!(classify_inline(&[0xED, 0xA0, 0x80]).unwrap().class, InlineClass::Extended);
    assert_eq!(classify_inline(&[0xFF]).unwrap().class, InlineClass::Bytes);
    assert!(classify_inline(&[0x61; 16]).is_none());
    assert!(classify_inline("éééééééé".as_bytes()).is_some());
}

#[test]
fn tiers_and_their_classes() {
    assert_eq!(Tier::for_length(255), Tier::Heap8);
    assert_eq!(Tier::for_length(256), Tier::Heap16);
    assert_eq!(Tier::for_length(65536), Tier::Heap32);
    assert!(Tier::Heap8.is_small() && !Tier::Heap32.is_small());
    assert_eq!(Tier::Heap8.class_capacity(20), 28);
    assert_eq!(Tier::Heap8.class_capacity(255), 255);
    assert_eq!(size_class(17), Some(32));
    assert_eq!(size_class(usize::MAX), None);
}
