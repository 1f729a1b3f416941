use perl_core::array::PerlArray;
use perl_core::containers::Array;
use perl_core::hash;
use perl_core::scalar::ScalarError;
use perl_core::string::PString;
use perl_core::value::{Numeric, Readings, ScalarPayload, Value};

fn value(n: i64) -> Value {
    ScalarPayload::Number {
        readings: Readings { int: n, float_bits: 0, numeric: Numeric::Int(n) },
        text: PString::new(&n.to_string()).unwrap(),
        truth: n != 0,
        tainted: false,
    }
}

fn is_undef(v: &Value) -> bool {
    matches!(v, ScalarPayload::Undef { tainted: false })
}

fn key(s: &str) -> PString {
    PString::new(s).unwrap()
}

fn name(s: &PString) -> Vec<u8> {
    let mut scratch = [0u8; 41];
    s.as_bytes(&mut scratch).to_vec()
}

fn ints(a: &Array) -> Vec<Option<i64>> {
    (0..a.len()).map(|i| a.get(i).map(|v| v.to_int())).collect()
}

fn engines() -> Vec<Array> {
    vec![Array::new(), Array::immutable()]
}

fn hashes() -> Vec<hash::Hash> {
    vec![hash::Hash::new(), hash::Hash::ordered(), hash::Hash::immutable()]
}

#[test]
fn setting_far_leaves_holes() {
    for mut a in engines() {
        a.set(5, value(9)).unwrap();
        assert_eq!(a.len(), 6);
        assert!((0..5).all(|i| !a.exists_at(i)));
        assert!(a.exists_at(5));
        assert!(a.get(0).is_none() && a.get(6).is_none());
        assert_eq!(a.existing_values().len(), 1);
    }
}

#[test]
fn lvalue_access_creates_and_read_access_does_not() {
    for mut a in engines() {
        assert!(a.get(3).is_none());
        assert_eq!(a.len(), 0);
        assert!(is_undef(a.ensure_element(3).unwrap()));
        assert_eq!(a.len(), 4);
        assert!(a.exists_at(3) && !a.exists_at(2));
        *a.ensure_element(3).unwrap() = value(4);
        assert_eq!(a.get(3).unwrap().to_int(), 4);
        assert_eq!(a.ensure_element(3).unwrap().to_int(), 4);
        assert_eq!(ints(&a), vec![None, None, None, Some(4)]);
    }
}

#[test]
fn both_ends_of_an_array() {
    for mut a in engines() {
        for n in 0..10 {
            a.push_value(value(n)).unwrap();
        }
        for n in 1..=10 {
            a.unshift_value(value(-n)).unwrap();
        }
        let expected: Vec<Option<i64>> = (-10..10).map(Some).collect();
        assert_eq!(ints(&a), expected);
        assert_eq!(a.shift_value().unwrap().to_int(), -10);
        assert_eq!(a.pop_value().unwrap().to_int(), 9);
        a.unshift_value(value(100)).unwrap();
        assert_eq!(a.get(0).unwrap().to_int(), 100);
        assert_eq!(a.len(), 19);
        a.clear().unwrap();
        assert!(a.is_empty());
        assert!(is_undef(&a.shift_value().unwrap()));
        assert!(is_undef(&a.pop_value().unwrap()));
    }
}

#[test]
fn deleting_the_last_element_truncates() {
    for mut a in engines() {
        a.set(0, value(1)).unwrap();
        a.set(4, value(5)).unwrap();
        assert!(is_undef(&a.delete(2).unwrap()));
        assert_eq!(a.len(), 5);
        assert_eq!(a.delete(4).unwrap().to_int(), 5);
        assert_eq!(a.len(), 1);
        assert!(is_undef(&a.delete(7).unwrap()));
        assert_eq!(a.delete(0).unwrap().to_int(), 1);
        assert_eq!(a.len(), 0);
    }
}

#[test]
fn deleting_in_the_middle_leaves_a_hole() {
    for mut a in engines() {
        for n in 0..3 {
            a.push_value(value(n)).unwrap();
        }
        assert_eq!(a.delete(1).unwrap().to_int(), 1);
        assert_eq!(ints(&a), vec![Some(0), None, Some(2)]);
    }
}

#[test]
fn only_deleting_the_last_element_drops_the_holes_at_the_end() {
    for mut a in engines() {
        for n in 0..4 {
            a.push_value(value(n)).unwrap();
        }
        assert_eq!(a.delete(2).unwrap().to_int(), 2);
        assert_eq!(a.pop_value().unwrap().to_int(), 3);
        assert_eq!(ints(&a), vec![Some(0), Some(1), None]);
        assert_eq!(a.delete(0).unwrap().to_int(), 0);
        assert_eq!(ints(&a), vec![None, Some(1), None]);
        assert!(is_undef(&a.delete(2).unwrap()));
        assert_eq!(ints(&a), vec![None, Some(1)]);
        assert_eq!(a.delete(1).unwrap().to_int(), 1);
        assert!(a.is_empty());
    }
}

#[test]
fn readonly_arrays_refuse_every_change() {
    for mut a in engines() {
        a.push_value(value(1)).unwrap();
        a.set_readonly(true);
        assert!(a.is_readonly());
        assert!(matches!(a.set(0, value(2)), Err(ScalarError::ReadOnly)));
        assert!(matches!(a.push_value(value(2)), Err(ScalarError::ReadOnly)));
        assert!(matches!(a.unshift_value(value(2)), Err(ScalarError::ReadOnly)));
        assert!(matches!(a.pop_value(), Err(ScalarError::ReadOnly)));
        assert!(matches!(a.shift_value(), Err(ScalarError::ReadOnly)));
        assert!(matches!(a.delete(0), Err(ScalarError::ReadOnly)));
        assert!(matches!(a.ensure_element(3), Err(ScalarError::ReadOnly)));
        assert!(matches!(a.set(usize::MAX, value(2)), Err(ScalarError::ReadOnly)));
        assert!(matches!(a.clear(), Err(ScalarError::ReadOnly)));
        assert_eq!(ints(&a), vec![Some(1)]);
        a.set_readonly(false);
        assert!(a.clear().is_ok());
    }
}

#[test]
fn array_snapshots_diverge() {
    assert!(matches!(Array::new().snapshot(), Err(ScalarError::SnapshotUnsupported)));
    let mut a = Array::immutable();
    a.push_value(value(1)).unwrap();
    a.set_readonly(true);
    let mut b = a.snapshot().unwrap();
    assert!(!b.is_readonly());
    b.push_value(value(2)).unwrap();
    b.set(0, value(7)).unwrap();
    assert_eq!(ints(&a), vec![Some(1)]);
    assert_eq!(ints(&b), vec![Some(7), Some(2)]);
}

#[test]
fn an_element_that_was_written_can_be_written_again() {
    for mut a in engines() {
        for index in [0, 1, 9, 40] {
            a.set(index, value(1)).unwrap();
            a.set(index, value(2)).unwrap();
            *a.ensure_element(index).unwrap() = value(3);
            assert_eq!(a.get(index).unwrap().to_int(), 3);
        }
        a.pop_value().unwrap();
        a.push_value(value(4)).unwrap();
        a.shift_value().unwrap();
        a.unshift_value(value(5)).unwrap();
        assert_eq!(a.len(), 41);
        assert_eq!(a.get(0).unwrap().to_int(), 5);
        assert_eq!(a.get(40).unwrap().to_int(), 4);
    }
}

#[test]
fn the_front_gap_engine_on_its_own() {
    let mut a = PerlArray::new();
    for n in 0..50 {
        a.push_value(value(n)).unwrap();
    }
    for n in 0..25 {
        assert_eq!(a.shift_value().unwrap().to_int(), n);
    }
    for n in (0..40).rev() {
        a.unshift_value(value(1000 + n)).unwrap();
    }
    assert_eq!(a.len(), 65);
    assert_eq!(a.get(0).unwrap().to_int(), 1000);
    assert_eq!(a.get(39).unwrap().to_int(), 1039);
    assert_eq!(a.get(40).unwrap().to_int(), 25);
    *a.ensure_element(70).unwrap() = value(5);
    assert_eq!(a.len(), 71);
    assert_eq!(a.get(70).unwrap().to_int(), 5);
    assert!(a.set(usize::MAX, value(0)).is_err());
    assert_eq!(a.len(), 71);
}

#[test]
fn hash_reads_give_back_writes() {
    for mut h in hashes() {
        assert!(h.is_empty());
        for n in 0..100 {
            h.store(key(&format!("key {n}")), value(n)).unwrap();
        }
        assert_eq!(h.len(), 100);
        for n in 0..100 {
            assert_eq!(h.get(&key(&format!("key {n}"))).unwrap().to_int(), n);
        }
        assert!(h.get(&key("absent")).is_none());
        assert!(!h.exists_key(&key("absent")));
        assert!(h.exists_key(&key("key 5")));
        h.store(key("key 5"), value(500)).unwrap();
        assert_eq!(h.len(), 100);
        assert_eq!(h.get(&key("key 5")).unwrap().to_int(), 500);
        assert_eq!(h.delete(&key("key 5")).unwrap().to_int(), 500);
        assert!(is_undef(&h.delete(&key("key 5")).unwrap()));
        assert_eq!(h.len(), 99);
        h.clear().unwrap();
        assert_eq!(h.len(), 0);
    }
}

#[test]
fn keys_are_the_same_across_flags_and_keep_their_first_spelling() {
    for mut h in hashes() {
        let latin = PString::from_bytes(&[0xE9]).unwrap();
        h.store(latin.clone(), value(1)).unwrap();
        h.store(key("é"), value(2)).unwrap();
        assert_eq!(h.len(), 1);
        assert_eq!(h.get(&latin).unwrap().to_int(), 2);
        let keys = h.keys();
        assert_eq!(name(&keys[0]), vec![0xE9]);
        assert!(!keys[0].is_utf8());
    }
}

#[test]
fn keys_are_stored_clean() {
    for mut h in hashes() {
        let mut k = key("tainted");
        k.taint();
        h.store(k.clone(), value(1)).unwrap();
        assert!(!h.keys()[0].is_tainted());
        assert_eq!(h.get(&k).unwrap().to_int(), 1);
        let mut l = key("other");
        l.taint();
        h.entry_or_undef(l).unwrap();
        assert!(h.keys().iter().all(|k| !k.is_tainted()));
    }
}

#[test]
fn lvalue_access_creates_an_entry() {
    for mut h in hashes() {
        assert!(is_undef(h.entry_or_undef(key("k")).unwrap()));
        assert!(h.exists_key(&key("k")));
        h.store(key("k"), value(3)).unwrap();
        assert_eq!(h.entry_or_undef(key("k")).unwrap().to_int(), 3);
        assert_eq!(h.len(), 1);
    }
}

#[test]
fn lvalue_access_writes_in_place() {
    for mut h in hashes() {
        for i in 0..8 {
            *h.entry_or_undef(key(&format!("k{i}"))).unwrap() = value(i);
        }
        let before: Vec<Vec<u8>> = h.keys().iter().map(name).collect();
        let first = name(&h.each().unwrap().0);
        for i in 0..8 {
            *h.entry_or_undef(key(&format!("k{i}"))).unwrap() = value(10 * i);
        }
        let mut walked = vec![first];
        while let Some((k, v)) = h.each() {
            assert_eq!(h.get(&k).unwrap().to_int(), v.to_int());
            walked.push(name(&k));
        }
        assert_eq!(walked, before);
        for i in 0..8 {
            assert_eq!(h.get(&key(&format!("k{i}"))).unwrap().to_int(), 10 * i);
        }
        assert_eq!(h.len(), 8);
    }
}

#[test]
fn a_written_copy_keeps_apart_from_its_source() {
    let mut a = Array::immutable();
    a.push_value(value(1)).unwrap();
    let mut b = a.snapshot().unwrap();
    *b.ensure_element(0).unwrap() = value(2);
    assert_eq!(ints(&a), vec![Some(1)]);
    let mut h = hash::Hash::immutable();
    h.store(key("a"), value(1)).unwrap();
    let mut copy = h.snapshot().unwrap();
    *copy.entry_or_undef(key("a")).unwrap() = value(2);
    assert_eq!(h.get(&key("a")).unwrap().to_int(), 1);
    assert_eq!(copy.get(&key("a")).unwrap().to_int(), 2);
}

#[test]
fn a_walk_visits_every_key_once_and_restarts() {
    for mut h in hashes() {
        for n in 0..20 {
            h.store(key(&n.to_string()), value(n)).unwrap();
        }
        for _ in 0..2 {
            let mut seen: Vec<i64> = Vec::new();
            while let Some((k, v)) = h.each() {
                assert_eq!(name(&k), v.to_int().to_string().as_bytes());
                seen.push(v.to_int());
            }
            seen.sort();
            assert_eq!(seen, (0..20).collect::<Vec<i64>>());
        }
    }
}

#[test]
fn deleting_the_current_entry_is_safe() {
    for mut h in hashes() {
        for n in 0..20 {
            h.store(key(&n.to_string()), value(n)).unwrap();
        }
        let mut seen: Vec<i64> = Vec::new();
        while let Some((k, v)) = h.each() {
            seen.push(v.to_int());
            if v.to_int() % 2 == 0 {
                h.delete(&k).unwrap();
            }
        }
        seen.sort();
        assert_eq!(seen, (0..20).collect::<Vec<i64>>());
        assert_eq!(h.len(), 10);
    }
}

#[test]
fn keys_and_values_reset_the_walk_and_correspond() {
    for mut h in hashes() {
        for n in 0..10 {
            h.store(key(&n.to_string()), value(n)).unwrap();
        }
        assert!(h.each().is_some());
        let keys = h.keys();
        let values = h.values();
        for (k, v) in keys.iter().zip(values.iter()) {
            assert_eq!(name(k), v.to_int().to_string().as_bytes());
        }
        let mut count = 0;
        while h.each().is_some() {
            count += 1;
        }
        assert_eq!(count, 10);
        assert_eq!(h.existing_values().len(), 10);
    }
}

#[test]
fn updates_during_a_walk_are_seen() {
    for mut h in hashes() {
        h.store(key("a"), value(1)).unwrap();
        h.store(key("b"), value(1)).unwrap();
        let (first, _) = h.each().unwrap();
        let other = if name(&first) == b"a" { "b" } else { "a" };
        h.store(key(other), value(2)).unwrap();
        let (second, v) = h.each().unwrap();
        assert_eq!(name(&second), other.as_bytes());
        assert_eq!(v.to_int(), 2);
        assert!(h.each().is_none());
    }
}

#[test]
fn the_ordered_engine_keeps_insertion_order() {
    let mut h = hash::Hash::ordered();
    for k in ["z", "a", "m"] {
        h.store(key(k), value(0)).unwrap();
    }
    h.store(key("z"), value(1)).unwrap();
    let names: Vec<Vec<u8>> = h.keys().iter().map(name).collect();
    assert_eq!(names, vec![b"z".to_vec(), b"a".to_vec(), b"m".to_vec()]);
    h.delete(&key("z")).unwrap();
    let names: Vec<Vec<u8>> = h.keys().iter().map(name).collect();
    assert_eq!(names, vec![b"m".to_vec(), b"a".to_vec()]);
}

#[test]
fn new_keys_wait_for_the_next_walk_of_the_immutable_engine() {
    let mut h = hash::Hash::immutable();
    h.store(key("a"), value(1)).unwrap();
    assert!(h.each().is_some());
    h.store(key("b"), value(2)).unwrap();
    assert!(h.each().is_none());
    let mut count = 0;
    while h.each().is_some() {
        count += 1;
    }
    assert_eq!(count, 2);
}

#[test]
fn readonly_hashes_refuse_every_change() {
    for mut h in hashes() {
        h.store(key("a"), value(1)).unwrap();
        h.set_readonly(true);
        assert!(h.is_readonly());
        assert!(matches!(h.store(key("b"), value(2)), Err(ScalarError::ReadOnly)));
        assert!(matches!(h.delete(&key("a")), Err(ScalarError::ReadOnly)));
        assert!(matches!(h.entry_or_undef(key("b")), Err(ScalarError::ReadOnly)));
        assert!(matches!(h.clear(), Err(ScalarError::ReadOnly)));
        assert_eq!(h.len(), 1);
        assert!(h.each().is_some());
    }
}

#[test]
fn hash_snapshots_diverge() {
    assert!(matches!(hash::Hash::new().snapshot(), Err(ScalarError::SnapshotUnsupported)));
    assert!(matches!(hash::Hash::ordered().snapshot(), Err(ScalarError::SnapshotUnsupported)));
    let mut h = hash::Hash::immutable();
    h.store(key("a"), value(1)).unwrap();
    let mut copy = h.snapshot().unwrap();
    copy.store(key("a"), value(2)).unwrap();
    copy.store(key("b"), value(3)).unwrap();
    assert_eq!(h.get(&key("a")).unwrap().to_int(), 1);
    assert_eq!(h.len(), 1);
    assert_eq!(copy.len(), 2);
}

#[test]
fn a_walk_goes_on_without_a_deleted_key() {
    for mut h in hashes() {
        for i in 0..8 {
            h.store(key(&format!("k{i}")), value(i)).unwrap();
        }
        let first = name(&h.each().unwrap().0);
        let ahead = if first == b"k3" { key("k4") } else { key("k3") };
        let ordered = matches!(h, hash::Hash::Ordered(_));
        h.delete(&ahead).unwrap();
        let mut seen = vec![first];
        while let Some((k, _)) = h.each() {
            seen.push(name(&k));
        }
        assert!(!seen.contains(&name(&ahead)));
        assert_eq!(seen.len(), 7, "ordered: {ordered}");
    }
}

#[test]
fn a_new_key_in_the_middle_of_an_ordered_walk_comes_last() {
    let mut h = hash::Hash::ordered();
    h.store(key("a"), value(1)).unwrap();
    h.store(key("b"), value(2)).unwrap();
    assert_eq!(name(&h.each().unwrap().0), b"a");
    h.store(key("c"), value(3)).unwrap();
    assert_eq!(name(&h.each().unwrap().0), b"b");
    assert_eq!(name(&h.each().unwrap().0), b"c");
    assert!(h.each().is_none());
}

#[test]
fn keys_are_listed_in_the_order_of_a_walk() {
    for mut h in hashes() {
        for i in 0..8 {
            h.store(key(&format!("k{i}")), value(i)).unwrap();
        }
        let keys: Vec<Vec<u8>> = h.keys().iter().map(name).collect();
        let values: Vec<i64> = h.values().iter().map(|v| v.to_int()).collect();
        for _ in 0..2 {
            let mut walked = Vec::new();
            let mut met = Vec::new();
            while let Some((k, v)) = h.each() {
                walked.push(name(&k));
                met.push(v.to_int());
            }
            assert_eq!(walked, keys);
            assert_eq!(met, values);
        }
    }
}

#[test]
fn a_deleted_key_that_comes_back_is_walked_where_the_copy_has_it() {
    let mut h = hash::Hash::immutable();
    for i in 0..8 {
        h.store(key(&format!("k{i}")), value(i)).unwrap();
    }
    let keys: Vec<Vec<u8>> = h.keys().iter().map(name).collect();
    assert_eq!(name(&h.each().unwrap().0), keys[0]);
    let ahead = PString::from_bytes(&keys[5]).unwrap();
    h.delete(&ahead).unwrap();
    h.store(ahead, value(50)).unwrap();
    let mut walked = vec![keys[0].clone()];
    while let Some((k, v)) = h.each() {
        if name(&k) == keys[5] {
            assert_eq!(v.to_int(), 50);
        }
        walked.push(name(&k));
    }
    assert_eq!(walked, keys);
}

#[test]
fn deleting_a_passed_pair_of_the_insertion_order_moves_the_walk_back() {
    let mut h = hash::Hash::ordered();
    for i in 0..5 {
        h.store(key(&format!("k{i}")), value(i)).unwrap();
    }
    for _ in 0..3 {
        h.each().unwrap();
    }
    h.delete(&key("k0")).unwrap();
    let mut walked = Vec::new();
    while let Some((k, _)) = h.each() {
        walked.push(name(&k));
    }
    assert_eq!(walked, vec![b"k2".to_vec(), b"k3".to_vec()]);
}

#[test]
fn storing_into_an_idle_hash_leaves_it_idle() {
    for mut h in hashes() {
        h.store(key("a"), value(1)).unwrap();
        h.store(key("b"), value(2)).unwrap();
        let mut count = 0;
        while h.each().is_some() {
            count += 1;
        }
        h.store(key("c"), value(3)).unwrap();
        while h.each().is_some() {
            count += 1;
        }
        assert_eq!(count, 5);
    }
}
