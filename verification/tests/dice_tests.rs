use azdice::dice::{advantage_bounds, classify_roll, count_victories, table_title, RollRequest};

#[test]
fn titles() {
    assert_eq!(table_title("3d6", 20000), "3d6 (20000 rolls of the dice-bag)");
}

#[test]
fn classification() {
    match classify_roll("3d6") {
        Some(RollRequest::Single(s)) => assert_eq!(s, "3d6"),
        _ => panic!("expected a single bag"),
    }
    match classify_roll("3d6 vs 1d20") {
        Some(RollRequest::Opposed(a, b)) => {
            assert_eq!(a, "3d6 ");
            assert_eq!(b, " 1d20");
        }
        _ => panic!("expected two bags"),
    }
    assert!(classify_roll("1 vs 2 vs 3").is_none());
}

#[test]
fn bounds_and_victories() {
    assert_eq!(advantage_bounds([3, 18], [1, 20]), (-17, 17));
    assert_eq!(count_victories(0, &vec![3, 10, 5], &vec![3, 11, 1]), 2);
    assert_eq!(count_victories(1, &vec![3, 10, 5], &vec![3, 11, 1]), 3);
}
