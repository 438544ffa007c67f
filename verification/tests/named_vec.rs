use named_vec::{Lookup, Named, NamedVec, Record};

fn rec(name: &str, value: u64) -> Record {
    Record { name: name.to_string(), value }
}

/// Every stored element's name must resolve back to its current position,
/// and the element found by name must be the element found by position.
fn check_index_consistent(v: &NamedVec<Record>) {
    for i in 0..v.len() {
        let by_pos = v.get(Lookup::Index(i)).expect("position in range").clone();
        let by_name = v.get(Lookup::Name(by_pos.name())).expect("name resolves");
        assert_eq!(*by_name, by_pos);
    }
}

#[test]
fn new_is_empty() {
    let v: NamedVec<Record> = NamedVec::new();
    assert_eq!(v.len(), 0);
    assert!(v.is_empty());
    assert!(v.get(Lookup::Index(0)).is_none());
    assert!(v.get(Lookup::Name("a")).is_none());
}

#[test]
fn push_appends_new_names() {
    let mut v = NamedVec::new();
    v.push(rec("a", 1));
    v.push(rec("b", 2));
    assert_eq!(v.len(), 2);
    assert_eq!(v.get(Lookup::Index(0)).unwrap().value, 1);
    assert_eq!(v.get(Lookup::Index(1)).unwrap().value, 2);
    check_index_consistent(&v);
}

#[test]
fn push_replaces_same_name_in_place() {
    let mut v = NamedVec::new();
    v.push(rec("a", 1));
    v.push(rec("b", 2));
    v.push(rec("a", 7));
    assert_eq!(v.len(), 2);
    assert_eq!(v.get(Lookup::Index(0)).unwrap().value, 7);
    assert_eq!(v.get(Lookup::Name("a")).unwrap().value, 7);
    assert_eq!(v.get(Lookup::Index(1)).unwrap().value, 2);
    check_index_consistent(&v);
}

#[test]
fn pop_returns_last_and_unmaps_it() {
    let mut v = NamedVec::new();
    v.push(rec("a", 1));
    v.push(rec("b", 2));
    let p = v.pop().unwrap();
    assert_eq!(p, rec("b", 2));
    assert_eq!(v.len(), 1);
    assert!(v.get(Lookup::Name("b")).is_none());
    assert_eq!(v.get(Lookup::Name("a")).unwrap().value, 1);
    check_index_consistent(&v);
}

#[test]
fn pop_on_empty_returns_none() {
    let mut v: NamedVec<Record> = NamedVec::new();
    assert!(v.pop().is_none());
    assert_eq!(v.len(), 0);
}

#[test]
fn pop_then_push_restores() {
    let mut v = NamedVec::new();
    v.push(rec("a", 1));
    v.push(rec("b", 2));
    v.push(rec("c", 3));
    // Shuffle the internal index around first.
    v.swap(Lookup::Name("a"), Lookup::Name("c"));
    let before: Vec<Record> = v.as_slice().to_vec();
    let p = v.pop().unwrap();
    v.push(p);
    assert_eq!(v.as_slice(), before.as_slice());
    check_index_consistent(&v);
}

#[test]
fn truncate_to_larger_length_is_noop() {
    let mut v = NamedVec::new();
    v.push(rec("a", 1));
    v.push(rec("b", 2));
    let before: Vec<Record> = v.as_slice().to_vec();
    v.truncate(2);
    assert_eq!(v.as_slice(), before.as_slice());
    v.truncate(100);
    assert_eq!(v.as_slice(), before.as_slice());
    assert_eq!(v.get(Lookup::Name("a")).unwrap().value, 1);
    assert_eq!(v.get(Lookup::Name("b")).unwrap().value, 2);
    check_index_consistent(&v);
}

#[test]
fn truncate_prunes_names_past_boundary() {
    let mut v = NamedVec::new();
    v.push(rec("a", 1));
    v.push(rec("b", 2));
    v.push(rec("c", 3));
    v.push(rec("d", 4));
    v.push(rec("e", 5));
    v.truncate(2);
    assert_eq!(v.len(), 2);
    assert_eq!(v.get(Lookup::Name("a")).unwrap().value, 1);
    assert_eq!(v.get(Lookup::Name("b")).unwrap().value, 2);
    for name in ["c", "d", "e"] {
        assert!(v.get(Lookup::Name(name)).is_none());
    }
    for pos in 2..5 {
        assert!(v.get(Lookup::Index(pos)).is_none());
    }
    check_index_consistent(&v);
}

#[test]
fn truncate_empty_is_noop() {
    let mut v: NamedVec<Record> = NamedVec::new();
    v.truncate(0);
    v.truncate(3);
    assert_eq!(v.len(), 0);
}

#[test]
fn clear_removes_everything() {
    let mut v = NamedVec::new();
    v.push(rec("a", 1));
    v.push(rec("b", 2));
    v.clear();
    assert_eq!(v.len(), 0);
    assert!(v.is_empty());
    assert!(v.get(Lookup::Name("a")).is_none());
    assert!(v.get(Lookup::Index(0)).is_none());
}

#[test]
fn get_by_name_and_position_agree() {
    let mut v = NamedVec::new();
    v.push(rec("x", 10));
    v.push(rec("y", 20));
    assert_eq!(v.get("x".into()).unwrap().value, 10);
    assert_eq!(v.get(1usize.into()).unwrap().value, 20);
    assert!(v.get("z".into()).is_none());
    assert!(v.get(2usize.into()).is_none());
}

#[test]
fn get_mut_updates_element_value() {
    let mut v = NamedVec::new();
    v.push(rec("a", 1));
    v.push(rec("b", 2));
    {
        let e = v.get_mut(Lookup::Name("b")).unwrap();
        e.value = 99;
    }
    assert_eq!(v.get(Lookup::Name("b")).unwrap().value, 99);
    assert_eq!(v.get(Lookup::Index(1)).unwrap().value, 99);
    assert!(v.get_mut(Lookup::Name("z")).is_none());
    assert!(v.get_mut(Lookup::Index(5)).is_none());
    check_index_consistent(&v);
}

#[test]
fn swap_self_is_noop() {
    let mut v = NamedVec::new();
    v.push(rec("a", 1));
    v.push(rec("b", 2));
    let before: Vec<Record> = v.as_slice().to_vec();
    v.swap(Lookup::Name("a"), Lookup::Name("a"));
    assert_eq!(v.as_slice(), before.as_slice());
    v.swap(Lookup::Index(1), Lookup::Index(1));
    assert_eq!(v.as_slice(), before.as_slice());
    // A name and a position resolving to the same element are also a no-op.
    v.swap(Lookup::Name("b"), Lookup::Index(1));
    assert_eq!(v.as_slice(), before.as_slice());
    check_index_consistent(&v);
}

#[test]
fn swap_cross_updates_positions_and_names() {
    let mut v = NamedVec::new();
    v.push(rec("a", 1));
    v.push(rec("b", 2));
    v.swap(Lookup::Name("a"), Lookup::Name("b"));
    assert_eq!(v.get(Lookup::Index(0)).unwrap().name(), "b");
    assert_eq!(v.get(Lookup::Index(1)).unwrap().name(), "a");
    // The name "a" now resolves to the position formerly held by "b".
    assert_eq!(v.get(Lookup::Name("a")).unwrap().value, 1);
    assert_eq!(v.get(Lookup::Name("b")).unwrap().value, 2);
    check_index_consistent(&v);
}

#[test]
fn swap_by_mixed_keys() {
    let mut v = NamedVec::new();
    v.push(rec("a", 1));
    v.push(rec("b", 2));
    v.push(rec("c", 3));
    v.swap(Lookup::Index(0), Lookup::Name("c"));
    assert_eq!(v.get(Lookup::Index(0)).unwrap().name(), "c");
    assert_eq!(v.get(Lookup::Index(2)).unwrap().name(), "a");
    assert_eq!(v.get(Lookup::Index(1)).unwrap().name(), "b");
    check_index_consistent(&v);
}

#[test]
fn with_capacity_and_reserve_give_headroom() {
    let v: NamedVec<Record> = NamedVec::with_capacity(16);
    assert_eq!(v.len(), 0);
    assert!(v.capacity() >= 16);
    let mut w: NamedVec<Record> = NamedVec::new();
    w.reserve(10);
    assert!(w.capacity() >= 10);
    assert_eq!(w.len(), 0);
}

#[test]
fn reserve_is_observably_transparent() {
    let mut reserved: NamedVec<Record> = NamedVec::new();
    reserved.reserve(3);
    let mut plain: NamedVec<Record> = NamedVec::new();
    for (name, value) in [("a", 1), ("b", 2), ("a", 3)] {
        reserved.push(rec(name, value));
        plain.push(rec(name, value));
    }
    assert_eq!(reserved.as_slice(), plain.as_slice());
    assert_eq!(
        reserved.get(Lookup::Name("a")).unwrap().value,
        plain.get(Lookup::Name("a")).unwrap().value
    );
    check_index_consistent(&reserved);
}

#[test]
fn shrink_to_fit_keeps_contents() {
    let mut v = NamedVec::with_capacity(64);
    v.push(rec("a", 1));
    v.push(rec("b", 2));
    v.shrink_to_fit();
    assert_eq!(v.len(), 2);
    assert!(v.capacity() >= 2);
    assert_eq!(v.get(Lookup::Name("a")).unwrap().value, 1);
    assert_eq!(v.get(Lookup::Name("b")).unwrap().value, 2);
    check_index_consistent(&v);
}

#[test]
fn range_accessors_give_position_order_views() {
    let mut v = NamedVec::new();
    for (name, value) in [("a", 1), ("b", 2), ("c", 3), ("d", 4)] {
        v.push(rec(name, value));
    }
    assert_eq!(v.as_slice().len(), 4);
    assert_eq!(v.as_slice()[0], rec("a", 1));
    let mid = v.range(1, 3);
    assert_eq!(mid, &[rec("b", 2), rec("c", 3)]);
    assert_eq!(v.range_from(2), &[rec("c", 3), rec("d", 4)]);
    assert_eq!(v.range_to(2), &[rec("a", 1), rec("b", 2)]);
    assert_eq!(v.range(2, 2), &[]);
}

#[test]
fn index_stays_consistent_across_mixed_operations() {
    let mut v = NamedVec::new();
    for (name, value) in [("a", 1), ("b", 2), ("c", 3), ("d", 4), ("e", 5)] {
        v.push(rec(name, value));
        check_index_consistent(&v);
    }
    v.swap(Lookup::Name("a"), Lookup::Name("e"));
    check_index_consistent(&v);
    v.pop();
    check_index_consistent(&v);
    v.truncate(3);
    check_index_consistent(&v);
    v.push(rec("b", 20));
    check_index_consistent(&v);
    v.push(rec("f", 6));
    check_index_consistent(&v);
    assert!(v.get(Lookup::Name("a")).is_none());
    assert!(v.get(Lookup::Name("d")).is_none());
    assert_eq!(v.get(Lookup::Name("e")).unwrap().value, 5);
    assert_eq!(v.get(Lookup::Name("b")).unwrap().value, 20);
    v.clear();
    check_index_consistent(&v);
    assert!(v.is_empty());
}

#[test]
fn lookup_conversions_build_both_variants() {
    let by_name: Lookup = "foo".into();
    assert!(matches!(by_name, Lookup::Name("foo")));
    let by_index: Lookup = 3usize.into();
    assert!(matches!(by_index, Lookup::Index(3)));
    let from_name = Lookup::from("bar");
    assert!(matches!(from_name, Lookup::Name("bar")));
    let from_index = Lookup::from(0usize);
    assert!(matches!(from_index, Lookup::Index(0)));
}
