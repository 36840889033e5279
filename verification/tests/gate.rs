use shades::gate::InFlightGate;

#[test]
fn gate_starts_empty() {
    let gate = InFlightGate::new();
    assert_eq!(gate.in_flight(), 0);
}

#[test]
fn gate_admits_up_to_cap() {
    let mut gate = InFlightGate::new();
    assert!(gate.try_admit());
    assert_eq!(gate.in_flight(), 1);
    assert!(gate.try_admit());
    assert_eq!(gate.in_flight(), 2);
    // The cap is 2: a third frame is refused and the counter holds.
    assert!(!gate.try_admit());
    assert_eq!(gate.in_flight(), 2);
    assert!(!gate.try_admit());
    assert_eq!(gate.in_flight(), 2);
}

#[test]
fn gate_release_reopens_a_slot() {
    let mut gate = InFlightGate::new();
    assert!(gate.try_admit());
    assert!(gate.try_admit());
    assert!(!gate.try_admit());
    gate.release();
    assert_eq!(gate.in_flight(), 1);
    assert!(gate.try_admit());
    assert_eq!(gate.in_flight(), 2);
    gate.release();
    gate.release();
    assert_eq!(gate.in_flight(), 0);
}

#[test]
fn gate_counter_stays_bounded_over_a_long_run() {
    let mut gate = InFlightGate::new();
    for step in 0..1000u32 {
        if step % 3 == 2 {
            if gate.in_flight() > 0 {
                gate.release();
            }
        } else {
            gate.try_admit();
        }
        assert!(gate.in_flight() <= 2);
    }
}
