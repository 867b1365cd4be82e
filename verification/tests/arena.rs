use lsn::arena::Arena;

#[test]
fn test_insert_and_get() {
    let mut arena = Arena::new();
    let h1 = arena.insert(10);
    let h2 = arena.insert(20);

    assert_eq!(arena.get(&h1), Some(&10));
    assert_eq!(arena.get(&h2), Some(&20));
}

#[test]
fn test_remove() {
    let mut arena = Arena::new();
    let h1 = arena.insert(10);
    assert_eq!(arena.remove(h1), Some(10));
    assert_eq!(arena.get(&h1), None);
    // Double remove should fail
    assert_eq!(arena.remove(h1), None);
}

#[test]
fn test_reuse_slot() {
    let mut arena = Arena::new();
    let h1 = arena.insert(10);
    let idx = h1.index;
    let old_gen = h1.generation;

    arena.remove(h1);

    let h2 = arena.insert(30);
    assert_eq!(h2.index, idx); // Should reuse index
    assert!(h2.generation > old_gen); // Generation should increase
    assert_eq!(arena.get(&h2), Some(&30));
}

#[test]
fn test_stale_handle() {
    let mut arena = Arena::new();
    let h1 = arena.insert(10);
    arena.remove(h1);

    // Slot reused
    let h2 = arena.insert(20);

    // Old handle should not access new data
    assert_eq!(arena.get(&h1), None);
    // New handle should work
    assert_eq!(arena.get(&h2), Some(&20));
}

#[test]
fn test_get_mut() {
    let mut arena = Arena::new();
    let h1 = arena.insert("hello".to_string());

    let mut val = String::new();
    if arena.get_mut(&h1, &mut val) {
        val.push_str(" world");
        arena.get_mut(&h1, &mut val);
    }

    assert_eq!(arena.get(&h1).map(|s| s.as_str()), Some("hello world"));
}

#[test]
fn test_multiple_generations() {
    let mut arena = Arena::new();
    let h1 = arena.insert(1);

    arena.remove(h1);
    let h2 = arena.insert(2);

    arena.remove(h2);
    let h3 = arena.insert(3);

    assert_ne!(h1, h2);
    assert_ne!(h2, h3);
    assert_ne!(h1, h3);

    assert_eq!(arena.get(&h1), None);
    assert_eq!(arena.get(&h2), None);
    assert_eq!(arena.get(&h3), Some(&3));
}

#[test]
fn test_forged_handle_misses() {
    let mut arena = Arena::new();
    let h1 = arena.insert(5);
    let forged = lsn::arena::Handle {
        index: h1.index,
        generation: h1.generation + 1,
    };
    assert_eq!(arena.get(&forged), None);
    let far = lsn::arena::Handle {
        index: 100,
        generation: 0,
    };
    assert_eq!(arena.get(&far), None);
    assert_eq!(arena.remove(far), None);
    assert_eq!(arena.get(&h1), Some(&5));
}

#[test]
fn test_interleaved_matches_map_model() {
    // A hand-run of the reference model: a map from handles to values must
    // agree with the arena through inserts, removals and slot reuse.
    let mut arena = Arena::new();
    let mut handles = Vec::new();
    for v in 0..8 {
        handles.push(arena.insert(v));
    }
    // Remove the even-indexed handles.
    for k in [0usize, 2, 4, 6] {
        assert_eq!(arena.remove(handles[k]), Some(k as i32));
    }
    // Reuse the freed slots.
    let fresh: Vec<_> = (100..104).map(|v| arena.insert(v)).collect();
    for k in [0usize, 2, 4, 6] {
        assert_eq!(arena.get(&handles[k]), None);
    }
    for k in [1usize, 3, 5, 7] {
        assert_eq!(arena.get(&handles[k]), Some(&(k as i32)));
    }
    for (j, h) in fresh.iter().enumerate() {
        assert_eq!(arena.get(h), Some(&(100 + j as i32)));
    }
}
