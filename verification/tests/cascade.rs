use civs::map::CivMap;

// S = 4 scenarios: the buffer drains into run 0 on the fourth insert.
#[test]
fn first_promotion_fills_run_zero() {
    let mut m: CivMap<u32> = CivMap::with_slot_capacity(4);
    for k in [3u64, 7, 1, 10] {
        assert_eq!(m.insert(k, k as u32), None);
    }
    assert_eq!(m.len(), 4);
    assert_eq!(m.tombs(), 0);
    for k in [1u64, 3, 7, 10] {
        assert!(m.contains(&k));
        assert_eq!(m.get(&k), Some(&(k as u32)));
    }
    assert!(!m.contains(&2));
}

#[test]
fn second_promotion_merges_into_doubled_run() {
    let mut m: CivMap<u32> = CivMap::with_slot_capacity(4);
    for k in [3u64, 7, 1, 10, 14, 2, 8, 12] {
        assert_eq!(m.insert(k, k as u32), None);
    }
    assert_eq!(m.len(), 8);
    assert_eq!(m.tombs(), 0);
    for k in [1u64, 2, 3, 7, 8, 10, 12, 14] {
        assert_eq!(m.get(&k), Some(&(k as u32)));
    }
}

#[test]
fn third_promotion_consumes_everything_below() {
    let mut m: CivMap<u32> = CivMap::with_slot_capacity(4);
    for k in [3u64, 7, 1, 10, 14, 2, 8, 12, 11, 6, 15, 9] {
        assert_eq!(m.insert(k, k as u32), None);
    }
    assert_eq!(m.len(), 12);
    assert_eq!(m.tombs(), 0);
    for k in [1u64, 2, 3, 6, 7, 8, 9, 10, 11, 12, 14, 15] {
        assert_eq!(m.get(&k), Some(&(k as u32)));
    }
}

#[test]
fn buffered_inserts_after_promotions() {
    let mut m: CivMap<u32> = CivMap::with_slot_capacity(4);
    for k in [3u64, 7, 1, 10, 14, 2, 8, 12, 11, 6, 15, 9, 5, 4, 13] {
        assert_eq!(m.insert(k, k as u32), None);
    }
    assert_eq!(m.len(), 15);
    assert_eq!(m.tombs(), 0);
    for k in 1u64..=15 {
        assert_eq!(m.get(&k), Some(&(k as u32)));
    }
}

#[test]
fn insert_of_existing_key_returns_prior_and_keeps_len() {
    let mut m: CivMap<u32> = CivMap::with_slot_capacity(4);
    for k in [3u64, 7, 1, 10, 5] {
        m.insert(k, k as u32);
    }
    // key 3 now sits in run 0; key 5 in the buffer
    assert_eq!(m.insert(3, 300), Some(3));
    assert_eq!(m.insert(5, 500), Some(5));
    assert_eq!(m.len(), 5);
    assert_eq!(m.tombs(), 0);
    assert_eq!(m.get(&3), Some(&300));
    assert_eq!(m.get(&5), Some(&500));
}

#[test]
fn default_construction_is_empty() {
    let mut m: CivMap<u8> = CivMap::new();
    assert_eq!(m.len(), 0);
    assert_eq!(m.tombs(), 0);
    assert!(!m.contains(&0));
    assert_eq!(m.get(&0), None);
}

#[test]
fn shrink_to_fit_changes_nothing_observable() {
    let mut m: CivMap<u32> = CivMap::with_slot_capacity(4);
    for k in [3u64, 7, 1, 10, 14] {
        m.insert(k, k as u32);
    }
    m.shrink_to_fit();
    assert_eq!(m.len(), 5);
    for k in [1u64, 3, 7, 10, 14] {
        assert_eq!(m.get(&k), Some(&(k as u32)));
    }
}
