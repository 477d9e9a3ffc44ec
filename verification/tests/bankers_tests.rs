use libtl2::bankers::Bankers;

// Two resources, two threads. Thread 0 may need up to (2, 1), thread 1 up to
// (1, 2); the pool starts at (2, 2).
fn fresh() -> Bankers<2, 2> {
    Bankers::new([2, 2], [[2, 1], [1, 2]])
}

#[test]
fn bankers_grants_safe_requests() {
    let mut b = fresh();
    assert!(b.take(0, 0));
    assert!(b.take(1, 1));
    assert!(b.take(0, 1));
    // With the pool at (0, 0) and both threads still short, one more grant
    // would deadlock: the banker refuses it.
    assert!(!b.take(1, 0));
    // Once thread 0 hands a unit back there is a safe order again.
    b.release(0, 1);
    assert!(b.take(1, 0));
}

#[test]
fn bankers_refuses_out_of_range_and_exhausted() {
    let mut b = fresh();
    assert!(!b.take(2, 0));
    assert!(!b.take(0, 2));
    assert!(b.take(0, 0));
    assert!(b.take(1, 0));
    // Resource 0 is exhausted now.
    assert!(!b.take(0, 0));
}

#[test]
fn bankers_refuses_an_unsafe_grant() {
    // One resource with two units; both threads may need both units.
    let mut b: Bankers<1, 2> = Bankers::new([2], [[2], [2]]);
    // The first unit each is safe: the pool can still satisfy one thread at a
    // time to completion.
    assert!(b.take(0, 0));
    // Granting the last unit to the other thread would leave both threads one
    // unit short with nothing free: deadlock, so the banker refuses.
    assert!(!b.take(1, 0));
    // The same unit for thread 0 completes its maximum: safe.
    assert!(b.take(0, 0));
}

#[test]
fn bankers_release_makes_room_again() {
    let mut b: Bankers<1, 2> = Bankers::new([2], [[2], [2]]);
    assert!(b.take(0, 0));
    assert!(b.take(0, 0));
    b.release(0, 0);
    b.release(0, 0);
    assert!(b.take(1, 0));
    // Releasing what is not held changes nothing.
    b.release(0, 0);
    b.release(5, 0);
    assert!(b.take(1, 0));
}
