use perl_core::scan::{is_known_latin1_range, ScanState};
use perl_core::storage::StorageType;
use perl_core::string::PString;
use std::cmp::Ordering;
use std::collections::hash_map::RandomState;
use std::hash::BuildHasher;

fn content(s: &PString) -> Vec<u8> {
    let mut scratch = [0u8; 41];
    s.as_bytes(&mut scratch).to_vec()
}

fn flagged(bytes: &[u8]) -> PString {
    let mut s = PString::from_bytes(bytes).unwrap();
    s.reinterpret_utf8(true);
    s
}

fn text(s: &str) -> PString {
    PString::new(s).unwrap()
}

#[test]
fn every_form_gives_its_bytes_back() {
    let long_ascii = "a".repeat(300);
    let long_text = "é".repeat(200);
    let cases: Vec<(Vec<u8>, StorageType)> = vec![
        (b"".to_vec(), StorageType::InlineAscii),
        (b"hello".to_vec(), StorageType::InlineAscii),
        (b"fifteen bytes!!".to_vec(), StorageType::InlineAsciiFull),
        ("naïve".as_bytes().to_vec(), StorageType::InlineLatin1),
        ("ÀÁÂÃÄÅÆÇÈÉÊËÌÍÎ".as_bytes().to_vec(), StorageType::InlineLatin1Full),
        ("日本".as_bytes().to_vec(), StorageType::InlineNonLatin1),
        ("日本語日本".as_bytes().to_vec(), StorageType::InlineNonLatin1Full),
        (vec![0xED, 0xA0, 0x80], StorageType::InlineExtended),
        (vec![0xFF, 0x41], StorageType::InlineBytes),
        (b"2024-01-01 12:00:00.5".to_vec(), StorageType::PackedDateTimePlus),
        (b"2024-01-01T12:00:00Z".to_vec(), StorageType::PackedDateTimeZulu),
        (b"123456789012345678".to_vec(), StorageType::PackedNumeric),
        (b"123456789012345678901234567890".to_vec(), StorageType::PackedNumericFull),
        (b"sixteen bytes!!!".to_vec(), StorageType::Heap8Ascii),
        (long_ascii.as_bytes().to_vec(), StorageType::Heap16Ascii),
        (long_text.as_bytes().to_vec(), StorageType::Heap16),
    ];
    for (bytes, storage) in cases {
        let s = PString::from_bytes(&bytes).unwrap();
        assert_eq!(content(&s), bytes);
        assert_eq!(s.storage_type(), storage, "{:?}", bytes);
        assert_eq!(s.len(), bytes.len());
        assert!(!s.is_utf8() && !s.is_tainted());
    }
}

#[test]
fn identifiers_and_hex_are_packed() {
    let uuid = "550e8400-e29b-41d4-a716-446655440000";
    let s = text(uuid);
    assert_eq!(content(&s), uuid.as_bytes());
    assert!(s.storage_type().is_packed());
    let mac = "00:1a:2b:3c:4d:5e";
    let m = text(mac);
    assert_eq!(content(&m), mac.as_bytes());
    assert_eq!(m.storage_type(), StorageType::PackedHexBytes);
    assert!(text("00:1a:2b:3c:4d:5e:").storage_type().is_heap());
}

#[test]
fn construction_flags_what_is_not_ascii() {
    assert!(!text("plain").is_utf8());
    assert!(text("naïve").is_utf8());
    assert!(!PString::from_bytes("naïve".as_bytes()).unwrap().is_utf8());
    let parsed: PString = "naïve".parse().unwrap();
    assert!(parsed.is_utf8());
    assert!(PString::default().is_empty());
}

#[test]
fn strings_held_in_the_value_need_no_allocation() {
    assert!(PString::inline("short").is_some());
    assert!(PString::inline("a string that is too long for it").is_none());
    assert!(PString::inline_bytes(&[0xFF; 15]).is_some());
    assert!(PString::inline_bytes(&[0xFF; 16]).is_none());
}

#[test]
fn images_are_read_in_place() {
    let s = PString::from_static_str("an image that outlives every value").unwrap();
    assert_eq!(s.storage_type(), StorageType::Static);
    assert!(!s.is_utf8() && !s.is_shared());
    let i = PString::from_immortal_bytes(b"immortal bytes of some length").unwrap();
    assert_eq!(i.storage_type(), StorageType::Immortal);
    assert_eq!(content(&i), b"immortal bytes of some length");
    let b = PString::from_static_bytes(&[0xC3, 0xA9, 0xFF]).unwrap();
    assert_eq!(b.scan_state(), ScanState::MalformedUtf8);
}

#[test]
fn equality_is_perls() {
    let latin = PString::from_bytes(&[0xE9]).unwrap();
    let utf8 = text("é");
    assert!(latin == utf8);
    assert!(PString::from_bytes("é".as_bytes()).unwrap() != utf8);
    assert!(text("abc") == PString::from_bytes(b"abc").unwrap());
    let mut tainted = text("abc");
    tainted.taint();
    assert!(tainted == text("abc"));
    assert!(text("abc") != text("abd"));
}

#[test]
fn order_is_by_characters() {
    assert_eq!(text("a").cmp_perl(&text("b")), Ordering::Less);
    assert_eq!(text("b").cmp_perl(&text("a")), Ordering::Greater);
    assert_eq!(PString::from_bytes(&[0xE9]).unwrap().cmp_perl(&text("é")), Ordering::Equal);
    assert_eq!(PString::from_bytes(&[0xFF]).unwrap().cmp_perl(&text("Ā")), Ordering::Less);
    assert_eq!(text("ab").cmp_perl(&text("abc")), Ordering::Less);
    assert!(text("日").partial_cmp(&text("本")) == Some("日".cmp("本")));
}

#[test]
fn equal_strings_hash_alike() {
    let state = RandomState::new();
    let latin = PString::from_bytes(&[0x61, 0xE9]).unwrap();
    assert_eq!(state.hash_one(&latin), state.hash_one(&text("aé")));
    assert_eq!(latin.digest_bytes(), vec![0x61, 0xE9]);
    assert_eq!(text("aé").digest_bytes(), vec![0x61, 0xE9]);
    assert_eq!(text("日").digest_bytes(), "日".as_bytes());
    assert_ne!(state.hash_one(&text("a")), state.hash_one(&text("b")));
}

#[test]
fn upgrade_and_downgrade_are_inverse() {
    let mut s = PString::from_bytes(&[0x61, 0xE9, 0x62]).unwrap();
    let up = s.upgraded().unwrap();
    assert!(up.is_utf8());
    assert_eq!(content(&up), "aéb".as_bytes());
    let down = up.downgraded().unwrap().unwrap();
    assert_eq!(content(&down), vec![0x61, 0xE9, 0x62]);
    assert!(!down.is_utf8());
    assert!(text("日").downgraded().unwrap().is_none());
    s.upgrade_in_place().unwrap();
    assert_eq!(content(&s), "aéb".as_bytes());
    assert!(s.downgrade_in_place().unwrap());
    assert_eq!(content(&s), vec![0x61, 0xE9, 0x62]);
    let mut wide = text("日");
    assert!(!wide.downgrade_in_place().unwrap());
    assert_eq!(content(&wide), "日".as_bytes());
}

#[test]
fn long_upgrades_go_through_the_heap() {
    let bytes: Vec<u8> = (0..400u32).map(|i| (i % 256) as u8).collect();
    let s = PString::from_bytes(&bytes).unwrap();
    let expected: String = bytes.iter().map(|b| *b as char).collect();
    let up = s.upgraded().unwrap();
    assert_eq!(content(&up), expected.as_bytes());
    assert_eq!(up.char_len(), Some(400));
    assert_eq!(content(&up.downgraded().unwrap().unwrap()), bytes);
}

#[test]
fn characters_are_counted_by_perls_rules() {
    assert_eq!(text("naïve").char_len(), Some(5));
    assert_eq!(text("").char_len(), Some(0));
    assert_eq!(PString::from_bytes(&[0xED, 0xA0, 0x80]).unwrap().char_len(), Some(1));
    assert_eq!(PString::from_bytes(&[0xFF]).unwrap().char_len(), None);
    assert_eq!(PString::from_bytes(&[0xFF, 0x80, 0x87, 0xBF, 0xBF, 0xBF, 0xBF, 0xBF, 0xBF, 0xBF, 0xBF, 0xBF, 0xBF]).unwrap().char_len(), Some(1));
    assert_eq!(PString::from_bytes(&[0xC0, 0x80]).unwrap().char_len(), None);
}

#[test]
fn rust_text_only_where_rust_can_hold_it() {
    let mut scratch = [0u8; 41];
    assert_eq!(text("naïve").as_str(&mut scratch), Some("naïve"));
    assert_eq!(PString::from_bytes("naïve".as_bytes()).unwrap().as_str(&mut scratch), Some("naïve"));
    assert_eq!(flagged(&[0xED, 0xA0, 0x80]).as_str(&mut scratch), None);
    assert_eq!(flagged(&[0xFF]).as_str(&mut scratch), None);
    assert!(flagged(&[0xED, 0xA0, 0x80]).is_perl_utf8_valid());
    assert!(!flagged(&[0xFF]).is_perl_utf8_valid());
    assert!(text("plain").is_ascii() && !text("naïve").is_ascii());
}

#[test]
fn appending_grows_through_the_forms() {
    let mut s = PString::empty();
    let mut expected: Vec<u8> = Vec::new();
    let pieces = ["2024-01-01", "T12:00:00", "Z", " ", "text", "é", "日本", "more and more and more"];
    for _ in 0..20 {
        for piece in pieces {
            s.push_str(piece).unwrap();
            expected.extend_from_slice(piece.as_bytes());
            assert_eq!(content(&s), expected);
        }
    }
    s.push_bytes(&[0xFF]).unwrap();
    expected.push(0xFF);
    assert_eq!(content(&s), expected);
    assert!(!s.is_perl_utf8_valid());
}

#[test]
fn numbers_append_in_place() {
    let mut s = text("1234567890123456");
    assert_eq!(s.storage_type(), StorageType::PackedNumeric);
    s.push_str("7890").unwrap();
    assert_eq!(s.storage_type(), StorageType::PackedNumeric);
    s.push_str(":30").unwrap();
    assert_eq!(s.storage_type(), StorageType::PackedDateTimePlus);
    assert_eq!(content(&s), b"12345678901234567890:30");
}

#[test]
fn appending_to_a_shared_string_leaves_the_other_alone() {
    let mut a = text("a string long enough for the heap");
    let b = a.clone();
    assert!(a.is_shared());
    a.push_str(", and more").unwrap();
    assert_eq!(content(&b), b"a string long enough for the heap");
    assert_eq!(content(&a), b"a string long enough for the heap, and more");
    assert!(!a.is_shared());
}

#[test]
fn an_append_keeps_the_tier_or_takes_the_one_that_fits() {
    let mut s = text(&"plain ".repeat(10));
    assert_eq!(s.storage_type(), StorageType::Heap8Ascii);
    s.push_str("x").unwrap();
    assert_eq!(s.storage_type(), StorageType::Heap8Ascii);
    s.push_str("é").unwrap();
    assert_eq!(s.storage_type(), StorageType::Heap8);
    assert_eq!(s.scan_state(), ScanState::Utf8Latin1);
    s.push_str(&"y".repeat(300)).unwrap();
    assert_eq!(s.storage_type(), StorageType::Heap16);
    assert_eq!(content(&s).len(), 363);
}

#[test]
fn slices_view_the_backing() {
    let parent = text(&"0123456789abcdefghijklmnopqrstuvwxyz".repeat(20));
    let part = parent.slice(36, 100).unwrap();
    assert_eq!(content(&part), content(&parent)[36..136].to_vec());
    assert!(part.is_shared());
    let again = part.slice(10, 50).unwrap();
    assert_eq!(content(&again), content(&parent)[46..96].to_vec());
    let tiny = parent.slice(0, 3).unwrap();
    assert_eq!(tiny.storage_type(), StorageType::InlineAscii);
    let mut own = part.clone();
    own.unshare().unwrap();
    assert!(!own.is_shared());
    assert_eq!(content(&own), content(&part));
}

#[test]
fn sharing_is_a_matter_of_who_else_holds_the_buffer() {
    let heap = text("a string long enough for the heap");
    assert!(!heap.shared_among(1) && heap.shared_among(2));
    let inline = text("short");
    assert!(!inline.shared_among(2));
    let parent = text(&"0123456789".repeat(40));
    let view = parent.slice(36, 100).unwrap();
    assert!(view.shared_among(1));
    let mut alone = heap.clone();
    alone.unshare_among(1).unwrap();
    assert!(alone.is_shared());
    alone.unshare_among(2).unwrap();
    assert!(!alone.is_shared());
    assert_eq!(content(&alone), content(&heap));
    let mut kept = view.clone();
    kept.unshare_among(1).unwrap();
    assert_eq!(kept.storage_type(), StorageType::Heap8Ascii);
    assert_eq!(content(&kept), content(&view));
}

#[test]
fn views_know_what_their_bytes_are() {
    let parent = text(&"é and a ".repeat(100));
    let short = parent.slice(3, 40).unwrap();
    assert_eq!(short.scan_state(), ScanState::Utf8Latin1);
    let long = text(&"plain ascii ".repeat(100)).slice(5, 600).unwrap();
    assert_eq!(long.scan_state(), ScanState::Ascii);
}

#[test]
fn narrowing_small_strings_never_fails() {
    let inline = text("é");
    let down = inline.downgraded().unwrap().unwrap();
    assert_eq!(content(&down), vec![0xE9]);
    assert_eq!(down.storage_type(), StorageType::InlineBytes);
    let mut packed = flagged(b"12345678901234567");
    assert!(packed.downgrade_in_place().unwrap());
    assert!(!packed.is_utf8());
    assert_eq!(packed.storage_type(), StorageType::PackedNumeric);
    let mut up = PString::from_bytes(&[0xE9]).unwrap();
    up.upgrade_in_place().unwrap();
    assert_eq!(up.storage_type(), text("é").storage_type());
}

#[test]
fn substr_keeps_flag_and_taint() {
    let mut s = text("naïve text");
    s.taint();
    let part = s.substr(0, 4).unwrap();
    assert_eq!(content(&part), "naï".as_bytes());
    assert!(part.is_utf8() && part.is_tainted());
}

#[test]
fn taint_is_raised_and_kept() {
    let mut s = text("x");
    assert!(!s.is_tainted());
    s.taint();
    assert!(s.is_tainted());
    s.push_str("y").unwrap();
    assert!(s.is_tainted());
    assert!(s.clone().is_tainted());
    assert!(s.upgraded().unwrap().is_tainted());
}

#[test]
fn truth_is_perls() {
    assert!(!text("").to_bool());
    assert!(!text("0").to_bool());
    assert!(text("00").to_bool());
    assert!(text("0.0").to_bool());
    assert!(text(" ").to_bool());
    assert!(text("a").to_bool());
}

#[test]
fn the_stored_array_of_a_string_in_the_value() {
    let s = text("ab");
    let bytes = s.envelope_bytes().unwrap();
    assert_eq!(&bytes[..3], &[b'a', b'b', 0]);
    assert!(text("a string long enough for the heap").envelope_bytes().is_none());
    assert!(text("550e8400-e29b-41d4-a716-446655440000").envelope_bytes().is_some());
}

#[test]
fn the_stored_form_is_canonical() {
    let mut grown = text("1234567890");
    grown.push_str("12345678").unwrap();
    let born = text("123456789012345678");
    assert_eq!(grown.storage_type(), born.storage_type());
    assert_eq!(grown.envelope_bytes(), born.envelope_bytes());
    let cut = text("the number 123456789012345678 in a text").slice(11, 18).unwrap();
    assert_eq!(cut.storage_type(), StorageType::PackedNumeric);
    assert_eq!(cut.envelope_bytes(), born.envelope_bytes());
    let up = PString::from_bytes(&[0xE9, 0xE8]).unwrap().upgraded().unwrap();
    assert_eq!(up.storage_type(), text("éè").storage_type());
    assert_eq!(up.envelope_bytes(), text("éè").envelope_bytes());
}

#[test]
fn small_storage_knows_its_class() {
    let mut s = PString::from_bytes(&[b'x'; 40]).unwrap();
    assert_eq!(s.scan_state(), ScanState::Ascii);
    s.push_bytes(&[0xC3]).unwrap();
    assert_eq!(s.scan_state(), ScanState::MalformedUtf8);
    s.push_bytes(&[0xA9]).unwrap();
    assert_eq!(s.scan_state(), ScanState::Utf8Latin1);
    s.push_str("日").unwrap();
    assert_eq!(s.scan_state(), ScanState::Utf8NonLatin1);
}

#[test]
fn ranges_of_ranges_are_ranges_of_the_whole() {
    let whole = text(&"abcdefghijklmnopqrstuvwxyz ".repeat(10));
    let part = whole.slice(30, 100).unwrap();
    let inner = part.slice(20, 200).unwrap();
    assert_eq!(content(&inner), content(&whole.slice(50, 80).unwrap()));
    assert_eq!(inner.storage_type(), StorageType::SmallSlice);
    assert!(part.slice(100, 5).unwrap().is_empty());
    assert!(whole.slice(1000, 5).unwrap().is_empty());
}

#[test]
fn views_by_the_reach_they_need() {
    let small = text(&"view of a small buffer ".repeat(4));
    let view = small.view_range(5, 50).unwrap();
    assert_eq!(view.storage_type(), StorageType::SmallSlice);
    assert_eq!(content(&view), content(&small)[5..55].to_vec());
    assert!(small.view_range(5, 1000).is_none());
    assert!(small.view_range(usize::MAX, 2).is_none());
    assert!(text("held in itself").view_range(0, 4).is_none());
    let large = PString::from_bytes(&vec![b'y'; 200_000]).unwrap();
    assert_eq!(large.storage_type(), StorageType::Heap32);
    assert_eq!(large.view_range(100, 50).unwrap().storage_type(), StorageType::FarSlice);
    assert_eq!(large.view_range(100, 100_000).unwrap().storage_type(), StorageType::MediumSlice);
    assert_eq!(large.slice(7, 70_000).unwrap().storage_type(), StorageType::MediumSlice);
    let far = large.slice(150_000, 60).unwrap();
    assert_eq!(far.storage_type(), StorageType::FarSlice);
    assert_eq!(far.slice(10, 45).unwrap().storage_type(), StorageType::FarSlice);
    let image = PString::from_static_str("an image that outlives every value, and then some").unwrap();
    assert_eq!(image.slice(3, 42).unwrap().storage_type(), StorageType::Static);
}

#[test]
fn families_of_storage() {
    assert!(text("short").storage_type().is_inline());
    assert!(!text("short").storage_type().is_heap());
    let small = text("a string in one of the small heap tiers");
    assert!(small.storage_type().is_small_heap_tier());
    let large = PString::from_bytes(&vec![b'y'; 70_000]).unwrap();
    assert!(large.storage_type().is_heap());
    assert!(!large.storage_type().is_small_heap_tier());
}

#[test]
fn the_order_is_total() {
    let all = vec![
        text(""),
        PString::from_bytes(&[0xE9]).unwrap(),
        text("é"),
        text("Ā"),
        flagged(&[0xE9]),
        flagged(&[0xFF, 0x80]),
        text("abc"),
    ];
    for a in &all {
        for b in &all {
            assert_eq!(a.cmp_perl(b), b.cmp_perl(a).reverse());
            assert_eq!(a.cmp_perl(b) == Ordering::Equal, a == b);
            for c in &all {
                if a.cmp_perl(b) != Ordering::Greater && b.cmp_perl(c) != Ordering::Greater {
                    assert_ne!(a.cmp_perl(c), Ordering::Greater);
                }
            }
        }
    }
}

#[test]
fn what_is_known_to_stay_in_a_byte() {
    assert!(is_known_latin1_range(text("é").scan_state()));
    assert!(is_known_latin1_range(text("e").scan_state()));
    assert!(!is_known_latin1_range(text("日").scan_state()));
}

#[test]
fn numbers_need_no_allocation() {
    for n in [i64::MIN, -1, 0, i64::MAX] {
        assert!(PString::inline(&n.to_string()).is_some());
    }
    assert!(PString::inline("-1.7976931348623157e+308").is_some());
    assert!(PString::inline(&"1".repeat(30)).is_some());
    assert!(PString::inline(&"1".repeat(42)).is_none());
}
