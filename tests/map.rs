use papaya::{HashMap, SeededHash, Slot, TableKey};

#[test]
fn basic_insert_get_remove() {
    let mut m: HashMap<u64, &str> = HashMap::new();
    assert_eq!(m.insert(1, "a"), None);
    assert_eq!(m.insert(1, "b"), Some("a"));
    assert_eq!(m.get(&1), Some(&"b"));
    assert_eq!(m.remove(&1), Some("b"));
    assert_eq!(m.get(&1), None);
    assert!(m.is_empty());
}

#[test]
fn try_insert_reports_current_value() {
    let mut m: HashMap<u64, &str> = HashMap::new();
    assert_eq!(*m.try_insert(37, "a").ok().unwrap(), "a");
    match m.try_insert(37, "b") {
        Ok(_) => panic!("second try_insert must fail"),
        Err(e) => {
            assert_eq!(*e.current, "a");
            assert_eq!(e.not_inserted, "b");
        }
    }
    assert_eq!(m.len(), 1);
    assert_eq!(m.get(&37), Some(&"a"));
}

#[test]
fn insert_then_get_finds_value() {
    let mut m: HashMap<i32, i32> = HashMap::with_capacity(4);
    m.insert(-5, 50);
    assert_eq!(m.get(&-5), Some(&50));
    assert_eq!(m.remove(&-5), Some(50));
    assert_eq!(m.get(&-5), None);
    assert_eq!(m.remove(&-5), None);
}

#[test]
fn many_inserts_from_zero_capacity() {
    let mut m: HashMap<u64, u64> = HashMap::with_capacity(0);
    for t in 0..8u64 {
        for i in 0..10_000u64 {
            let k = t * 10_000 + i;
            assert_eq!(m.insert(k, k + 1), None);
        }
    }
    assert_eq!(m.len(), 80_000);
    for k in 0..80_000u64 {
        assert_eq!(m.get(&k), Some(&(k + 1)));
    }
    assert_eq!(m.get(&80_000), None);
}

#[test]
fn repeated_updates_count_exactly() {
    let mut m: HashMap<u64, u64> = HashMap::new();
    m.insert(7, 0);
    for _ in 0..160_000 {
        assert!(m.update(7, |n: &u64| *n + 1).is_some());
    }
    assert_eq!(m.get(&7), Some(&160_000));
}

#[test]
fn update_missing_key_changes_nothing() {
    let mut m: HashMap<u64, u64> = HashMap::new();
    m.insert(1, 10);
    assert_eq!(m.update(2, |n: &u64| *n * 3), None);
    assert_eq!(m.update(1, |n: &u64| *n * 3), Some(&30));
    assert_eq!(m.len(), 1);
    assert_eq!(m.get(&2), None);
}

#[test]
fn iteration_yields_each_key_once() {
    let mut m: HashMap<u64, u64> = HashMap::new();
    for k in 0..1024u64 {
        m.insert(k, k * 2);
    }
    for k in 0..512u64 {
        m.remove(&(k * 2));
    }
    for k in 2000..2512u64 {
        m.insert(k, k * 2);
    }
    let mut seen = vec![0u32; 2512];
    let mut it = m.iter();
    let mut count = 0usize;
    while let Some((k, v)) = it.next() {
        assert_eq!(*v, *k * 2);
        seen[*k as usize] += 1;
        count += 1;
    }
    assert_eq!(count, 1024);
    assert_eq!(count, m.len());
    for k in 0..1024u64 {
        assert_eq!(seen[k as usize], if k % 2 == 1 { 1 } else { 0 });
    }
    for k in 2000..2512u64 {
        assert_eq!(seen[k as usize], 1);
    }
}

#[test]
fn keys_and_values_follow_iter() {
    let mut m: HashMap<u32, u32> = HashMap::new();
    m.insert(1, 10);
    m.insert(2, 20);
    m.insert(3, 30);
    let mut ks = Vec::new();
    let mut keys = m.keys();
    while let Some(k) = keys.next() {
        ks.push(*k);
    }
    ks.sort();
    assert_eq!(ks, vec![1, 2, 3]);
    let mut vs = Vec::new();
    let mut values = m.values();
    while let Some(v) = values.next() {
        vs.push(*v);
    }
    vs.sort();
    assert_eq!(vs, vec![10, 20, 30]);
}

#[test]
fn iteration_during_resize_sees_both_tables() {
    let mut m: HashMap<u64, u64> = HashMap::with_capacity(2000);
    for k in 0..1500u64 {
        m.insert(k, k);
    }
    // a reservation far past the load limit starts a resize that the next
    // writes copy forward in ranges
    m.reserve(100_000);
    m.insert(5000, 5000);
    let mut it = m.iter();
    let mut count = 0usize;
    let mut seen = std::collections::HashSet::new();
    while let Some((k, v)) = it.next() {
        assert_eq!(k, v);
        assert!(seen.insert(*k));
        count += 1;
    }
    assert_eq!(count, 1501);
    for k in 0..1500u64 {
        assert_eq!(m.get(&k), Some(&k));
    }
}

#[test]
fn remove_entry_returns_key_and_value() {
    let mut m: HashMap<usize, &str> = HashMap::new();
    m.insert(9, "nine");
    assert_eq!(m.get_key_value(&9), Some((&9, &"nine")));
    assert_eq!(m.remove_entry(&9), Some((9, "nine")));
    assert_eq!(m.remove_entry(&9), None);
    assert_eq!(m.get_key_value(&9), None);
}

#[test]
fn contains_key_and_len() {
    let mut m: HashMap<i64, i64> = HashMap::with_hasher(SeededHash::with_seed(42));
    assert!(!m.contains_key(&3));
    m.insert(3, 4);
    m.insert(-3, 4);
    assert!(m.contains_key(&3));
    assert!(m.contains_key(&-3));
    assert_eq!(m.len(), 2);
    m.insert(3, 5);
    assert_eq!(m.len(), 2);
}

#[test]
fn clear_removes_everything() {
    let mut m: HashMap<u64, u64> = HashMap::new();
    for k in 0..300u64 {
        m.insert(k, k);
    }
    m.clear();
    assert!(m.is_empty());
    assert_eq!(m.len(), 0);
    for k in 0..300u64 {
        assert_eq!(m.get(&k), None);
    }
    m.insert(1, 2);
    assert_eq!(m.get(&1), Some(&2));
    assert_eq!(m.len(), 1);
}

#[test]
fn clear_during_resize() {
    let mut m: HashMap<u64, u64> = HashMap::with_capacity(3000);
    for k in 0..2000u64 {
        m.insert(k, k);
    }
    m.reserve(50_000);
    m.insert(9999, 1);
    m.clear();
    assert_eq!(m.len(), 0);
    assert_eq!(m.get(&9999), None);
    assert_eq!(m.get(&0), None);
}

#[test]
fn reserve_during_resize_makes_room() {
    let mut m: HashMap<u64, u64> = HashMap::with_capacity(3000);
    for k in 0..2500u64 {
        m.insert(k, k);
    }
    m.reserve(20_000);
    m.insert(7777, 1);
    m.reserve(200_000);
    assert_eq!(m.len(), 2501);
    for k in 0..2500u64 {
        assert_eq!(m.get(&k), Some(&k));
    }
    assert_eq!(m.get(&7777), Some(&1));
}

#[test]
fn reserve_keeps_contents() {
    let mut m: HashMap<u64, u64> = HashMap::new();
    m.reserve(10);
    m.insert(1, 1);
    m.reserve(5000);
    assert_eq!(m.len(), 1);
    assert_eq!(m.get(&1), Some(&1));
    for k in 2..3000u64 {
        m.insert(k, k);
    }
    assert_eq!(m.len(), 2999);
    assert_eq!(m.get(&2999), Some(&2999));
}

#[test]
fn tombstones_are_reused_without_duplicates() {
    let mut m: HashMap<u64, u64> = HashMap::with_capacity(16);
    for round in 0..50u64 {
        for k in 0..10u64 {
            m.insert(k, round);
        }
        for k in 0..10u64 {
            assert_eq!(m.remove(&k), Some(round));
        }
    }
    assert!(m.is_empty());
    m.insert(3, 3);
    m.insert(3, 4);
    assert_eq!(m.len(), 1);
    assert_eq!(m.get(&3), Some(&4));
}

#[test]
fn extend_later_pairs_win() {
    let mut m: HashMap<u64, &str> = HashMap::new();
    m.insert(1, "x");
    m.extend(vec![(1, "a"), (2, "b"), (2, "c")]);
    assert_eq!(m.len(), 2);
    assert_eq!(m.get(&1), Some(&"a"));
    assert_eq!(m.get(&2), Some(&"c"));
}

#[test]
fn from_pairs_builds_map() {
    let m: HashMap<u64, u64> = HashMap::from_pairs(vec![(1, 2), (3, 4), (1, 5)]);
    assert_eq!(m.len(), 2);
    assert_eq!(m.get(&1), Some(&5));
    assert_eq!(m.get(&3), Some(&4));
    let e: HashMap<u64, u64> = HashMap::from_pairs(Vec::new());
    assert!(e.is_empty());
}

#[test]
fn seeds_change_hashes() {
    assert_eq!(5u64.hash_with(1), 5u64.hash_with(1));
    assert_ne!(5u64.hash_with(1), 5u64.hash_with(2));
    assert_ne!(5u64.hash_with(0), 5u64);
    assert!(5u64.same_key(&5));
    assert!(!5u64.same_key(&6));
    let a = (1u64 ^ (1u64 >> 30)).wrapping_mul(0xBF58_476D_1CE4_E5B9);
    let b = (a ^ (a >> 27)).wrapping_mul(0x94D0_49BB_1331_11EB);
    assert_eq!(papaya::key::mix(1), b ^ (b >> 31));
    assert_eq!(papaya::key::mix(1), 0x5692_161D_100B_05E5);
    assert_eq!(papaya::key::mix(0), 0);
}

#[test]
fn random_seeds_still_find_keys() {
    let mut a: HashMap<u64, u64> = HashMap::new();
    let mut b: HashMap<u64, u64> = HashMap::new();
    for k in 0..100u64 {
        a.insert(k, k);
        b.insert(k, k + 1);
    }
    for k in 0..100u64 {
        assert_eq!(a.get(&k), Some(&k));
        assert_eq!(b.get(&k), Some(&(k + 1)));
    }
}

#[test]
fn guard_can_be_taken() {
    let m: HashMap<u64, u64> = HashMap::new();
    let g = m.guard();
    assert_eq!(m.len(), 0);
    drop(g);
    let m2 = m.with_collector(seize::Collector::new());
    assert!(m2.is_empty());
}

#[test]
fn slot_states_are_distinct() {
    let e: Slot<u64, u64> = Slot::Empty;
    assert!(matches!(e, Slot::Empty));
    let x: Slot<u64, u64> = Slot::Entry(1, 2);
    assert!(matches!(x, Slot::Entry(1, 2)));
}

#[test]
fn help_resize_finishes_a_resize() {
    let mut m: HashMap<u64, u64> = HashMap::with_capacity(3000);
    for k in 0..2000u64 {
        m.insert(k, k + 3);
    }
    m.reserve(40_000);
    m.help_resize(1);
    m.help_resize(usize::MAX);
    m.help_resize(0);
    assert_eq!(m.len(), 2000);
    for k in 0..2000u64 {
        assert_eq!(m.get(&k), Some(&(k + 3)));
    }
}
