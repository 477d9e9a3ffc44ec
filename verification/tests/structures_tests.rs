use libtl2::fair_lock::FairLock;
use libtl2::mapped_list::MappedList;
use libtl2::semaphore::Semaphore;
use libtl2::ticket_lock::TicketLock;

#[test]
fn semaphore_counts_holders() {
    let mut s = Semaphore::new(3);
    assert_eq!(s.cnt, 0);
    s.wait();
    s.wait();
    s.wait();
    assert_eq!(s.cnt, 3);
    s.post();
    assert_eq!(s.cnt, 2);
    s.wait();
    assert_eq!(s.cnt, 3);
    assert_eq!(s.max, 3);
}

#[test]
fn mapped_list_is_fifo_per_key() {
    let mut m: MappedList<u32> = MappedList::new();
    m.push_back(1, 10);
    m.push_back(1, 11);
    m.push_back(2, 20);
    assert_eq!(m.pop_front(1), Some(10));
    assert_eq!(m.pop_front(1), Some(11));
    assert_eq!(m.pop_front(1), None);
    assert_eq!(m.pop_front(2), Some(20));
    assert_eq!(m.pop_front(2), None);
    assert_eq!(m.pop_front(3), None);
}

#[test]
fn mapped_list_clear_drops_everything() {
    let mut m: MappedList<&str> = MappedList::new();
    m.push_back(7, "a");
    m.push_back(8, "b");
    m.clear();
    assert_eq!(m.pop_front(7), None);
    assert_eq!(m.pop_front(8), None);
    m.push_back(7, "c");
    assert_eq!(m.pop_front(7), Some("c"));
}

#[test]
fn ticket_lock_serves_in_ticket_order() {
    let mut l = TicketLock::new(5u64);
    let g0 = l.lock();
    assert_eq!(g0.ticket, 0);
    assert_eq!(*l.read(&g0), 5);
    l.write(&g0, 7);
    assert_eq!(*l.read(&g0), 7);
    l.unlock(g0);
    let g1 = l.lock();
    assert_eq!(g1.ticket, 1);
    assert_eq!(*l.read(&g1), 7);
    l.unlock(g1);
}

#[test]
fn fair_lock_frees_when_nobody_waits() {
    let mut fl = FairLock::new(0u32);
    let g = fl.lock(3);
    assert!(fl.locked);
    fl.write(&g, 9);
    assert_eq!(*fl.read(&g), 9);
    fl.unlock(g);
    assert!(!fl.locked);
    let g2 = fl.lock(3);
    assert_eq!(*fl.read(&g2), 9);
    fl.unlock(g2);
}

#[test]
fn fair_lock_hands_over_to_a_waiter() {
    let mut fl = FairLock::new(0u32);
    let g = fl.lock(0);
    // Another slot announces itself while the lock is held.
    fl.waiting[1] = true;
    fl.unlock(g);
    // The lock was handed straight over: still held, the waiter's flag
    // cleared, the turn pointing at the waiter.
    assert!(fl.locked);
    assert!(!fl.waiting[1]);
    assert_eq!(fl.turn, 1);
}
