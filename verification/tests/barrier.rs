use track::barrier::GeyserConnectBarrier;

#[test]
fn barrier_ready_after_mark() {
    let mut b = GeyserConnectBarrier::new();
    b.mark_ready();
    assert!(b.is_ready());
    assert_eq!(b.wait_ready(0, 50), Some(Ok(())));
}

#[test]
fn barrier_failed_returns_error() {
    let mut b = GeyserConnectBarrier::new();
    b.mark_failed();
    assert!(!b.is_ready());
    assert_eq!(
        b.wait_ready(0, 20),
        Some(Err("geyser_explicit_barrier_failed"))
    );
}

#[test]
fn barrier_is_looked_at_again_until_the_deadline() {
    let mut b = GeyserConnectBarrier::default();
    assert_eq!(b.wait_ready(100, 120), None);
    assert_eq!(b.wait_ready(119, 120), None);
    b.mark_ready();
    assert_eq!(b.wait_ready(119, 120), Some(Ok(())));
}

#[test]
fn barrier_times_out_at_the_deadline_whatever_its_state() {
    let mut b = GeyserConnectBarrier::new();
    assert_eq!(
        b.wait_ready(120, 120),
        Some(Err("geyser_explicit_barrier_timeout"))
    );
    b.mark_ready();
    assert_eq!(
        b.wait_ready(121, 120),
        Some(Err("geyser_explicit_barrier_timeout"))
    );
    assert!(b.is_ready());
}

#[test]
fn barrier_takes_the_last_mark() {
    let mut b = GeyserConnectBarrier::new();
    b.mark_failed();
    b.mark_ready();
    assert!(b.is_ready());
    b.mark_failed();
    assert!(!b.is_ready());
}
