use sharedfileholder::fieldmap::FieldMap2;

#[derive(Debug, PartialEq, Eq)]
struct S(i32, i32, i32);

#[test]
fn fieldmap2() {
    let mut map: FieldMap2<S, i32, i32, _, _> = FieldMap2::new(|s: &S| s.0, |s: &S| s.1);

    map.insert(S(1, 2, 3)).unwrap_or_else(|_| panic!("insert"));
    assert_eq!(map.get_k1(&1), Some(&S(1, 2, 3)));
    assert_eq!(map.get_k2(&2), Some(&S(1, 2, 3)));

    map.insert(S(4, 5, 6)).unwrap_or_else(|_| panic!("insert"));
    assert_eq!(map.get_k1(&1), Some(&S(1, 2, 3)));
    assert_eq!(map.get_k2(&2), Some(&S(1, 2, 3)));
    assert_eq!(map.get_k1(&4), Some(&S(4, 5, 6)));
    assert_eq!(map.get_k2(&5), Some(&S(4, 5, 6)));

    map.insert(S(7, 8, 9)).unwrap_or_else(|_| panic!("insert"));
    assert_eq!(map.get_k1(&1), Some(&S(1, 2, 3)));
    assert_eq!(map.get_k2(&2), Some(&S(1, 2, 3)));
    assert_eq!(map.get_k1(&4), Some(&S(4, 5, 6)));
    assert_eq!(map.get_k2(&5), Some(&S(4, 5, 6)));
    assert_eq!(map.get_k1(&7), Some(&S(7, 8, 9)));
    assert_eq!(map.get_k2(&8), Some(&S(7, 8, 9)));

    assert!(map.get_k1(&0).is_none());
    assert!(map.get_k2(&0).is_none());

    assert!(map.insert(S(10, 11, 12)).is_ok());
    assert!(map.insert(S(13, 14, 15)).is_ok());

    assert!(map.insert(S(10, -1, -1)).is_err());
    assert!(map.insert(S(-1, 11, -1)).is_err());
    assert!(map.insert(S(-1, -1, 12)).is_ok());

    assert!(map
        .insert_multi(vec![S(20, 30, 40), S(50, 60, 70), S(80, 90, 100)])
        .is_ok());
}

#[test]
fn overlap_leaves_map_unchanged() {
    let mut map: FieldMap2<S, i32, i32, _, _> = FieldMap2::new(|s: &S| s.0, |s: &S| s.1);
    assert!(map.insert(S(1, 2, 3)).is_ok());
    let err = match map.insert(S(1, 9, 9)) {
        Err(e) => e,
        Ok(()) => panic!("overlap on the first key accepted"),
    };
    assert_eq!(err.new, S(1, 9, 9));
    assert_eq!(err.existing, Some(0));
    assert!(map.insert(S(9, 2, 9)).is_err());
    assert_eq!(map.iter(), &[S(1, 2, 3)]);
    assert!(map.get_k1(&9).is_none());
    assert!(map.get_k2(&9).is_none());
}

#[test]
fn identical_duplicate_is_accepted_once() {
    let mut map: FieldMap2<S, i32, i32, _, _> = FieldMap2::new(|s: &S| s.0, |s: &S| s.1);
    assert!(map.insert(S(1, 2, 3)).is_ok());
    assert!(map.insert(S(1, 2, 3)).is_ok());
    assert_eq!(map.iter().len(), 1);
    assert!(map.insert(S(1, 2, 4)).is_err());
    assert_eq!(map.iter(), &[S(1, 2, 3)]);
}

#[test]
fn distinct_keys_all_reachable() {
    let items: Vec<S> = (0..100).map(|i| S(i, 1000 + i, 0)).collect();
    let map = match FieldMap2::from_iter(|s: &S| s.0, |s: &S| s.1, items) {
        Ok(m) => m,
        Err(_) => panic!("distinct keys refused"),
    };
    for i in 0..100 {
        assert_eq!(map.get_k1(&i), Some(&S(i, 1000 + i, 0)));
        assert_eq!(map.get_k2(&(1000 + i)), Some(&S(i, 1000 + i, 0)));
    }
    assert_eq!(map.iter().len(), 100);
}

#[test]
fn insert_multi_stops_at_first_overlap() {
    let mut map: FieldMap2<S, i32, i32, _, _> = FieldMap2::new(|s: &S| s.0, |s: &S| s.1);
    let r = map.insert_multi(vec![S(1, 1, 0), S(2, 2, 0), S(1, 3, 0), S(4, 4, 0)]);
    match r {
        Err(e) => assert_eq!(e.new, S(1, 3, 0)),
        Ok(()) => panic!("overlap accepted"),
    }
    assert_eq!(map.iter(), &[S(1, 1, 0), S(2, 2, 0)]);
    let r = FieldMap2::from_iter(|s: &S| s.0, |s: &S| s.1, vec![S(1, 1, 0), S(5, 1, 0)]);
    match r {
        Err(e) => {
            assert_eq!(e.new, S(5, 1, 0));
            assert_eq!(e.existing, None);
        }
        Ok(_) => panic!("overlap accepted"),
    }
}
