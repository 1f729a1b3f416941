use perl_core::flags::SvFlags;

#[test]
fn default_is_empty() {
    let f = SvFlags::default();
    assert!(f.is_empty());
    assert!(!f.contains(SvFlags::iok()));
}

#[test]
fn set_and_check() {
    let mut f = SvFlags::empty();
    f.insert(SvFlags::iok());
    assert!(f.contains(SvFlags::iok()));
    assert!(!f.contains(SvFlags::nok()));
}

#[test]
fn insert_multiple() {
    let mut f = SvFlags::empty();
    f.insert(SvFlags::iok());
    f.insert(SvFlags::pok());
    assert!(f.contains(SvFlags::iok()));
    assert!(f.contains(SvFlags::pok()));
    assert!(!f.contains(SvFlags::nok()));
}

#[test]
fn remove() {
    let mut f = SvFlags::iok() | SvFlags::pok();
    f.remove(SvFlags::iok());
    assert!(!f.contains(SvFlags::iok()));
    assert!(f.contains(SvFlags::pok()));
}

#[test]
fn intersects() {
    let f = SvFlags::iok() | SvFlags::pok();
    assert!(f.intersects(SvFlags::iok()));
    assert!(f.intersects(SvFlags::any_num()));
    assert!(!f.intersects(SvFlags::nok()));
}

#[test]
fn contains_compound() {
    let f = SvFlags::iok() | SvFlags::nok();
    assert!(f.contains(SvFlags::any_num()));

    let g = SvFlags::iok();
    assert!(!g.contains(SvFlags::any_num()));
}

#[test]
fn clear_validity() {
    let mut f = SvFlags::iok() | SvFlags::pok() | SvFlags::readonly();
    f.remove(SvFlags::all_validity());
    assert!(!f.contains(SvFlags::iok()));
    assert!(!f.contains(SvFlags::pok()));
    assert!(f.contains(SvFlags::readonly()));
}

#[test]
fn bitor_syntax() {
    let f = SvFlags::iok() | SvFlags::nok() | SvFlags::readonly();
    assert!(f.contains(SvFlags::iok()));
    assert!(f.contains(SvFlags::readonly()));
    assert!(!f.contains(SvFlags::pok()));
}

#[test]
fn the_raw_bits_of_every_flag() {
    let all = [
        (SvFlags::empty(), 0),
        (SvFlags::iok(), 0x1),
        (SvFlags::nok(), 0x2),
        (SvFlags::pok(), 0x4),
        (SvFlags::rok(), 0x8),
        (SvFlags::readonly(), 0x10),
        (SvFlags::utf8(), 0x20),
        (SvFlags::taint(), 0x40),
        (SvFlags::magical(), 0x80),
        (SvFlags::weak(), 0x100),
        (SvFlags::any_num(), 0x3),
        (SvFlags::any_val(), 0x7),
        (SvFlags::all_validity(), 0xF),
    ];
    for (flags, bits) in all {
        assert_eq!(flags.bits(), bits);
    }
}

#[test]
fn flag_operators() {
    let mut f = SvFlags::iok();
    f |= SvFlags::taint();
    assert_eq!(f.bits(), 0x41);
    assert_eq!((f & SvFlags::taint()).bits(), 0x40);
    assert_eq!((!f).bits(), 0xFFBE);
    assert_eq!(f.union(SvFlags::weak()).bits(), 0x141);
    assert_eq!(f.difference(SvFlags::iok()).bits(), 0x40);
    assert_eq!(f, SvFlags::iok() | SvFlags::taint());
    assert_ne!(f, SvFlags::iok());
}
