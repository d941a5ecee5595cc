use erps::supervisor::{publisher_index, Supervisor, Verdict};

#[test]
fn standby_takes_over_after_two_silent_checks() {
    let mut s = Supervisor::new(true);
    s.on_heartbeat();
    assert_eq!(s.on_check(), Verdict::Quiet);
    assert!(!s.is_active());
    assert_eq!(s.on_check(), Verdict::ServerDead);
    assert!(s.is_active());
    assert_eq!(s.on_check(), Verdict::Quiet);
}

#[test]
fn heartbeat_between_checks_keeps_the_standby_waiting() {
    let mut s = Supervisor::new(true);
    for _ in 0..10 {
        assert_eq!(s.on_check(), Verdict::Quiet);
        s.on_heartbeat();
    }
    assert!(!s.is_active());
}

#[test]
fn primary_never_declares_itself_dead() {
    let mut s = Supervisor::new(false);
    for _ in 0..5 {
        assert_eq!(s.on_check(), Verdict::Quiet);
    }
    assert!(s.is_active());
}

#[test]
fn one_topic_goes_to_one_publisher() {
    let a = publisher_index("room/r1/res/join", 8);
    assert!(a < 8);
    assert_eq!(a, publisher_index("room/r1/res/join", 8));
    assert_eq!(publisher_index("", 8), 0);
    assert_eq!(publisher_index("a", 8), 97 % 8);
    assert_eq!(publisher_index("ab", 5), ((97 * 31 + 98) % 5) as usize);
    assert_eq!(publisher_index("anything", 1), 0);
}
