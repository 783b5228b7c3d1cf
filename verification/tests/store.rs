use chess_positions::store::PositionStore;

#[test]
fn interning_assigns_ascending_ids_from_one() {
    let mut store = PositionStore::new();
    assert_eq!(store.intern(1, 2, 3, 4), 1);
    assert_eq!(store.intern(5, 6, 7, 8), 2);
    assert_eq!(store.intern(1, 6, 3, 8), 3);
    assert_eq!(store.len(), 3);
}

#[test]
fn interning_is_idempotent() {
    let mut store = PositionStore::new();
    let id = store.intern(0xdead_beef, 0, u64::MAX, 42);
    for _ in 0..10 {
        assert_eq!(store.intern(0xdead_beef, 0, u64::MAX, 42), id);
    }
    assert_eq!(store.len(), 1);
    let all = store.get_all();
    assert_eq!(all.len(), 1);
    assert_eq!(all[0], (id, 0xdead_beef, 0, u64::MAX, 42));
}

#[test]
fn fingerprints_sharing_quarters_get_distinct_ids() {
    // the four words agree pairwise somewhere, yet every tuple is new
    let mut store = PositionStore::new();
    let a = store.intern(1, 1, 1, 1);
    let b = store.intern(1, 1, 1, 2);
    let c = store.intern(2, 1, 1, 1);
    assert_ne!(a, b);
    assert_ne!(a, c);
    assert_ne!(b, c);
}

#[test]
fn export_scan_lists_everything_ascending_exactly_once() {
    let mut store = PositionStore::new();
    let fps = [
        (1u64, 2u64, 3u64, 4u64),
        (4, 3, 2, 1),
        (1, 2, 3, 5),
        (0, 0, 0, 0),
    ];
    for (a, b, c, d) in fps {
        store.intern(a, b, c, d);
    }
    // re-intern everything: nothing may change
    for (a, b, c, d) in fps {
        store.intern(a, b, c, d);
    }
    let all = store.get_all();
    assert_eq!(all.len(), fps.len());
    for (i, (a, b, c, d)) in fps.into_iter().enumerate() {
        assert_eq!(all[i], ((i + 1) as u64, a, b, c, d));
    }
}
