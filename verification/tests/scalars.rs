use perl_core::cow_buffer::AllocError;
use perl_core::scalar::{ConstScalar, MagicChain, ScalarCell, ScalarError, Stash};
use perl_core::string::PString;
use perl_core::value::{Numeric, Readings, ScalarPayload, FLOAT_ONE};
use std::sync::Arc;

fn bytes(s: &PString) -> Vec<u8> {
    let mut scratch = [0u8; 41];
    s.as_bytes(&mut scratch).to_vec()
}

fn number(n: i64) -> ScalarPayload {
    ScalarPayload::Number {
        readings: Readings { int: n, float_bits: (n as f64).to_bits(), numeric: Numeric::Int(n) },
        text: PString::new(&n.to_string()).unwrap(),
        truth: n != 0,
        tainted: false,
    }
}

fn string(s: &str, n: i64, warns: bool) -> ScalarPayload {
    ScalarPayload::String {
        string: PString::new(s).unwrap(),
        readings: Readings { int: n, float_bits: (n as f64).to_bits(), numeric: Numeric::Int(n) },
        warns,
    }
}

#[test]
fn coercions_of_every_payload() {
    let undef = ScalarPayload::undef(false);
    assert_eq!((undef.to_bool(), undef.to_int(), undef.numify()), (false, 0, Numeric::Int(0)));
    assert!(bytes(&undef.stringify()).is_empty());
    assert!(ScalarPayload::undef(true).is_tainted());
    assert!(ScalarPayload::undef(true).stringify().is_tainted());
    assert_eq!((ScalarPayload::True.to_bool(), ScalarPayload::True.to_int()), (true, 1));
    assert_eq!(ScalarPayload::True.to_float_bits(), 1.0f64.to_bits());
    assert_eq!(FLOAT_ONE, 1.0f64.to_bits());
    assert_eq!(bytes(&ScalarPayload::True.stringify()), b"1");
    assert_eq!((ScalarPayload::False.to_bool(), ScalarPayload::False.to_int()), (false, 0));
    assert!(bytes(&ScalarPayload::False.stringify()).is_empty());
    assert_eq!(number(7).to_int(), 7);
    assert_eq!(bytes(&number(7).stringify()), b"7");
    assert!(!string("0", 0, false).to_bool());
    assert!(string("0.0", 0, false).to_bool());
    assert!(matches!(ScalarPayload::default(), ScalarPayload::Undef { tainted: false }));
}

#[test]
fn assignment_drops_what_was_cached() {
    let mut cell = ScalarCell::Plain(number(1));
    cell.upgrade_to_full();
    assert_eq!(cell.to_int(), 1);
    assert_eq!(cell.to_int(), 1);
    assert_eq!(bytes(&cell.stringify()), b"1");
    assert_eq!(cell.to_float_bits(), 1.0f64.to_bits());
    cell.assign(number(2)).unwrap();
    assert_eq!(cell.to_int(), 2);
    assert_eq!(bytes(&cell.stringify()), b"2");
    assert_eq!(cell.to_float_bits(), 2.0f64.to_bits());
    assert!(cell.to_bool());
    assert_eq!(cell.numify(), Numeric::Int(2));
}

#[test]
fn readonly_refuses_assignment() {
    let mut cell = ScalarCell::Plain(number(1));
    cell.set_readonly(false);
    assert!(matches!(cell, ScalarCell::Plain(_)));
    cell.set_readonly(true);
    assert!(cell.is_readonly());
    assert_eq!(cell.assign(number(2)), Err(ScalarError::ReadOnly));
    assert_eq!(cell.to_int(), 1);
    cell.set_readonly(false);
    assert_eq!(cell.assign(number(2)), Ok(()));
    assert_eq!(cell.to_int(), 2);
}

#[test]
fn upgrades_keep_the_payload() {
    let mut cell = ScalarCell::Plain(number(5));
    assert!(!cell.has_magic());
    cell.set_magic(MagicChain {});
    assert!(cell.has_magic());
    cell.bless(Arc::new(Stash {}));
    assert_eq!(cell.payload().to_int(), 5);
    assert!(cell.has_magic() && !cell.is_readonly() && !cell.is_tainted());
}

#[test]
fn a_cell_warns_once() {
    let mut cell = ScalarCell::Plain(string("12abc", 12, true));
    let (n, warning) = cell.numify_noting_warning().unwrap();
    assert_eq!(n, Numeric::Int(12));
    assert_eq!(warning.unwrap().message(), "Argument \"12abc\" isn't numeric");
    let (n, warning) = cell.numify_noting_warning().unwrap();
    assert_eq!(n, Numeric::Int(12));
    assert!(warning.is_none());
    assert!(matches!(cell.payload(), ScalarPayload::Dual(_)));
    assert_eq!(bytes(&cell.stringify()), b"12abc");
}

#[test]
fn copies_made_before_warn_and_after_do_not() {
    let mut cell = ScalarCell::Plain(string("x", 0, true));
    let mut before = ScalarCell::Plain(cell.payload().clone());
    assert!(cell.numify_noting_warning().unwrap().1.is_some());
    let mut after = ScalarCell::Plain(cell.payload().clone());
    assert!(before.numify_noting_warning().unwrap().1.is_some());
    assert!(after.numify_noting_warning().unwrap().1.is_none());
}

#[test]
fn the_taint_of_a_warned_string_stays() {
    let mut s = PString::new("zz").unwrap();
    s.taint();
    let readings = Readings { int: 0, float_bits: 0, numeric: Numeric::Int(0) };
    let mut cell = ScalarCell::Plain(ScalarPayload::String { string: s, readings, warns: true });
    assert!(cell.numify_noting_warning().unwrap().1.is_some());
    assert!(cell.is_tainted());
    assert!(matches!(cell.payload(), ScalarPayload::DualTainted(_)));
}

#[test]
fn numbers_and_clean_strings_do_not_warn() {
    let mut cell = ScalarCell::Plain(number(3));
    assert!(cell.numify_noting_warning().unwrap().1.is_none());
    let mut cell = ScalarCell::Plain(string("42", 42, false));
    assert!(cell.numify_noting_warning().unwrap().1.is_none());
    assert!(matches!(cell.payload(), ScalarPayload::String { .. }));
}

#[test]
fn frozen_cells_hold_their_coercions() {
    let cell = ConstScalar::materialize(number(9)).unwrap();
    assert_eq!((cell.to_int(), cell.to_bool(), cell.is_tainted()), (9, true, false));
    assert_eq!(cell.to_float_bits(), 9.0f64.to_bits());
    assert_eq!(bytes(cell.stringify()), b"9");
    assert!(!cell.can_warn());
    assert!(cell.note_numify_warning(false).is_none());
    assert_eq!(cell.payload().to_int(), 9);
}

#[test]
fn frozen_cells_warn_for_the_first_note_only() {
    let long = "w".repeat(100);
    let cell = ConstScalar::materialize(string(&long, 0, true)).unwrap();
    assert!(cell.can_warn());
    let expected = format!("Argument \"{}...\" isn't numeric", "w".repeat(56));
    assert_eq!(cell.note_numify_warning(false).unwrap().message(), expected);
    assert!(cell.note_numify_warning(true).is_none());
}

#[test]
fn error_messages() {
    assert_eq!(ScalarError::ReadOnly.message(), "Modification of a read-only value attempted");
    assert_eq!(ScalarError::from(AllocError { requested: 8 }).message(), "Out of memory!");
    assert_eq!(ScalarError::from(AllocError { requested: 8 }), ScalarError::Alloc(AllocError { requested: 8 }));
}
