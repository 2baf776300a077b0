use bvmap::BvMap;

#[test]
fn basic() {
    let mut bvmap: BvMap<usize, usize> = BvMap::new();
    let a1 = bvmap.insert(11);
    let a2 = bvmap.insert(12);
    assert_eq!(bvmap.get(a1), Some(&11));
    assert_eq!(bvmap.get(34), None);
    assert_eq!(bvmap.remove(a2), Some(12));
    assert_eq!(bvmap.get(a2), None);
}

#[test]
fn get_right_after_insert() {
    let mut m: BvMap<usize, String> = BvMap::new();
    for i in 0..100usize {
        let h = m.insert(format!("value {}", i));
        assert_eq!(m.get(h), Some(&format!("value {}", i)));
    }
}

#[test]
fn remove_makes_handle_stale_and_is_idempotent() {
    let mut m: BvMap<usize, u32> = BvMap::new();
    let a = m.insert(5);
    let b = m.insert(6);
    assert_eq!(m.remove(a), Some(5));
    assert_eq!(m.get(a), None);
    assert_eq!(m.remove(a), None);
    assert_eq!(m.get(b), Some(&6));
}

#[test]
fn remove_returns_inserted_value_unchanged() {
    let mut m: BvMap<usize, String> = BvMap::new();
    let v = String::from("a value that is moved in and back out");
    let h = m.insert(v.clone());
    assert_eq!(m.remove(h), Some(v));
}

#[test]
fn reinsertion_reuses_freed_indices() {
    let mut m: BvMap<usize, usize> = BvMap::new();
    let n: usize = 50;
    let mut handles = Vec::new();
    for i in 0..n {
        handles.push(m.insert(i));
    }
    for &h in &handles {
        m.remove(h);
    }
    assert_eq!(m.iter().len(), 0);
    // Freed slots are reused most recently freed first, so the second round
    // of inserts walks the same indices in reverse removal order and the
    // storage does not grow.
    for i in 0..n {
        let h = m.insert(n + i);
        assert_eq!(h, n - 1 - i);
    }
    assert_eq!(m.iter().len(), n);
}

#[test]
fn iter_yields_occupied_values_in_index_order() {
    let mut m: BvMap<usize, u32> = BvMap::new();
    let h0 = m.insert(10);
    let h1 = m.insert(11);
    let h2 = m.insert(12);
    let h3 = m.insert(13);
    m.remove(h1);
    m.remove(h3);
    let got: Vec<u32> = m.iter().into_iter().copied().collect();
    assert_eq!(got, vec![10, 12]);
    // The slot freed last (h3) is refilled first, then the one at h1;
    // iteration stays in index order throughout.
    m.insert(99);
    let got: Vec<u32> = m.iter().into_iter().copied().collect();
    assert_eq!(got, vec![10, 12, 99]);
    m.insert(77);
    let got: Vec<u32> = m.iter().into_iter().copied().collect();
    assert_eq!(got, vec![10, 77, 12, 99]);
    assert_eq!(m.get(h0), Some(&10));
    assert_eq!(m.get(h2), Some(&12));
}

#[test]
fn iter_count_tracks_inserts_minus_removals() {
    let mut m: BvMap<usize, usize> = BvMap::new();
    let mut handles = Vec::new();
    for i in 0..20usize {
        handles.push(m.insert(i));
    }
    for &h in handles.iter().take(7) {
        m.remove(h);
    }
    assert_eq!(m.iter().len(), 20 - 7);
}

#[test]
fn clone_is_independent_of_source() {
    let mut source: BvMap<usize, String> = BvMap::new();
    let a = source.insert(String::from("alpha"));
    let b = source.insert(String::from("beta"));
    let c = source.insert(String::from("gamma"));
    source.remove(b);

    let mut copy = source.clone();
    assert_eq!(copy.get(a), Some(&String::from("alpha")));
    assert_eq!(copy.get(c), Some(&String::from("gamma")));

    // Mutating the copy must not change the source.
    copy.remove(a);
    let d = copy.insert(String::from("delta"));
    assert_eq!(source.get(a), Some(&String::from("alpha")));
    assert_eq!(source.get(b), None);
    assert_eq!(source.get(c), Some(&String::from("gamma")));

    // And mutating the source must not change the copy.
    source.remove(c);
    assert_eq!(copy.get(c), Some(&String::from("gamma")));
    assert_eq!(copy.get(d), Some(&String::from("delta")));
}

#[test]
fn clone_copies_free_chain_verbatim() {
    let mut source: BvMap<usize, u32> = BvMap::new();
    let a = source.insert(1);
    let b = source.insert(2);
    source.insert(3);
    source.remove(a);
    source.remove(b);
    let mut copy = source.clone();
    // The cloned free chain is structurally identical: both sides reuse the
    // same indices in the same order, most recently freed first.
    assert_eq!(source.insert(20), b);
    assert_eq!(copy.insert(20), b);
    assert_eq!(source.insert(10), a);
    assert_eq!(copy.insert(10), a);
}

#[test]
fn large_churn_keeps_old_entries_and_slot_count() {
    let mut m: BvMap<usize, usize> = BvMap::new();
    for v in 0..10000usize {
        let h = m.insert(v);
        assert_eq!(h, v);
    }
    for i in 5000..10000usize {
        assert_eq!(m.remove(i), Some(i));
    }
    assert_eq!(m.iter().len(), 5000);
    for v in 0..5000usize {
        // Every freed index is reused: no handle addresses a new slot.
        let h = m.insert(10000 + v);
        assert!(h < 10000);
    }
    assert_eq!(m.iter().len(), 10000);
    for i in 0..5000usize {
        assert_eq!(m.get(i), Some(&i));
    }
}

#[test]
fn default_is_empty() {
    let mut m: BvMap<usize, u16> = Default::default();
    assert_eq!(m.get(0), None);
    assert_eq!(m.iter().len(), 0);
    let h = m.insert(7);
    assert_eq!(m.get(h), Some(&7));
}

#[test]
fn out_of_range_and_freed_handles_are_both_absent() {
    let mut m: BvMap<usize, u8> = BvMap::new();
    assert_eq!(m.get(0), None);
    assert_eq!(m.remove(0), None);
    let h = m.insert(1);
    assert_eq!(m.get(h + 1000), None);
    assert_eq!(m.remove(h + 1000), None);
    m.remove(h);
    assert_eq!(m.get(h), None);
}
