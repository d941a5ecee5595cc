use erps::matchmaking::{pick_side, tolerance, within};

#[test]
fn tolerance_grows_with_waiting_up_to_the_cap() {
    assert_eq!(tolerance(0), 50);
    assert_eq!(tolerance(999), 50);
    assert_eq!(tolerance(1000), 70);
    assert_eq!(tolerance(5500), 150);
    assert_eq!(tolerance(17_000), 390);
    assert_eq!(tolerance(17_999), 390);
    assert_eq!(tolerance(18_000), 400);
    assert_eq!(tolerance(u64::MAX), 400);
}

#[test]
fn within_is_symmetric_and_inclusive() {
    assert!(within(1000, 1050, 50));
    assert!(within(1050, 1000, 50));
    assert!(!within(1000, 1051, 50));
    assert!(within(0, u32::MAX, u64::MAX));
}

#[test]
fn side_is_filled_first_come_first_served() {
    let sizes = vec![2, 3, 1, 1, 2];
    let eligible = vec![true, true, true, false, true];
    let (picked, taken) = pick_side(&sizes, &eligible, 4);
    assert_eq!(picked, vec![true, false, true, false, false]);
    assert_eq!(taken, 3);
}

#[test]
fn older_party_of_equal_size_is_never_passed_over() {
    let sizes = vec![1, 1, 1, 1];
    let eligible = vec![true, true, true, true];
    let (picked, taken) = pick_side(&sizes, &eligible, 2);
    assert_eq!(picked, vec![true, true, false, false]);
    assert_eq!(taken, 2);
}

#[test]
fn nothing_fits_into_no_room() {
    let (picked, taken) = pick_side(&vec![1, 2], &vec![true, true], 0);
    assert_eq!(picked, vec![false, false]);
    assert_eq!(taken, 0);
    let (picked, taken) = pick_side(&vec![], &vec![], 5);
    assert_eq!(picked, Vec::<bool>::new());
    assert_eq!(taken, 0);
}
