use libtl2::memory::Memory;
use libtl2::read_trans::ReadTrans;
use libtl2::stm::{STMResult, STM};
use libtl2::write_trans::WriteTrans;

#[test]
fn memory_starts_zeroed() {
    let mem = Memory::new();
    assert_eq!(mem.clock_value(), 0);
    assert_eq!(mem.read_stripe(0), [0u8; 8]);
    assert_eq!(mem.read_stripe(504), [0u8; 8]);
    assert_eq!(mem.get_addr_ver(0), 0);
}

#[test]
fn lock_addr_roundtrip() {
    let mut mem = Memory::new();
    assert!(mem.lock_addr(16));
    assert!(!mem.lock_addr(16));
    assert!(mem.lock_addr(24));
    assert_eq!(mem.get_addr_ver(16), 0);
    mem.unlock_addr(16);
    assert!(mem.lock_addr(16));
    assert_eq!(mem.get_addr_ver(16), 0);
}

#[test]
fn conflict_test_sees_locks_and_versions() {
    let mut mem = Memory::new();
    assert!(mem.test_not_modify(0, 0));
    assert!(mem.lock_addr(0));
    assert!(!mem.test_not_modify(0, 0));
    mem.unlock_addr(0);
    assert!(mem.test_not_modify(0, 0));
    // Publish version 3 for the stripe: older read-versions now fail.
    let c0 = mem.inc_global_clock();
    assert_eq!(c0, 0);
    let c1 = mem.inc_global_clock();
    assert_eq!(c1, 1);
    let c2 = mem.inc_global_clock();
    assert_eq!(c2, 2);
    mem.set_stripe_version(0, 3);
    assert_eq!(mem.get_addr_ver(0), 3);
    assert!(!mem.test_not_modify(0, 2));
    assert!(mem.test_not_modify(0, 3));
}

#[test]
fn read_transaction_object_loads_current_bytes() {
    let mem = Memory::new();
    let mut tr = ReadTrans::new(&mem);
    let v = tr.load(&mem, 8);
    assert_eq!(v, Some([0u8; 8]));
    assert!(!tr.is_abort);
}

#[test]
fn read_transaction_object_aborts_on_locked_stripe() {
    let mut mem = Memory::new();
    assert!(mem.lock_addr(8));
    let mut tr = ReadTrans::new(&mem);
    assert_eq!(tr.load(&mem, 8), None);
    assert!(tr.is_abort);
    // Fail-fast: even an unlocked stripe is refused once aborted.
    assert_eq!(tr.load(&mem, 0), None);
}

#[test]
fn write_transaction_object_commits() {
    let mut mem = Memory::new();
    let mut tr = WriteTrans::new(&mem);
    let bytes = [1u8, 2, 3, 4, 5, 6, 7, 8];
    tr.store(16, bytes);
    assert_eq!(tr.load(&mem, 16), Some(bytes));
    assert!(tr.lock_write_set(&mut mem));
    let ver = 1 + mem.inc_global_clock();
    tr.commit(&mut mem, ver);
    assert_eq!(mem.read_stripe(16), bytes);
    assert_eq!(mem.get_addr_ver(16), 1);
    assert_eq!(mem.read_stripe(24), [0u8; 8]);
    // The stripe is unlocked again: a fresh reader sees the new bytes.
    let mut r = ReadTrans::new(&mem);
    assert_eq!(r.load(&mem, 16), Some(bytes));
}

#[test]
fn last_store_wins_within_attempt() {
    let mut mem = Memory::new();
    let mut tr = WriteTrans::new(&mem);
    tr.store(0, [1u8; 8]);
    tr.store(0, [9u8; 8]);
    assert_eq!(tr.load(&mem, 0), Some([9u8; 8]));
    assert!(tr.lock_write_set(&mut mem));
    let ver = 1 + mem.inc_global_clock();
    tr.commit(&mut mem, ver);
    assert_eq!(mem.read_stripe(0), [9u8; 8]);
}

#[test]
fn validation_fails_after_rival_commit() {
    let mut mem = Memory::new();
    let mut tr = WriteTrans::new(&mem);
    // Record a read of stripe 0 without writing it.
    assert_eq!(tr.load(&mem, 0), Some([0u8; 8]));
    // A rival commits new bytes to that stripe.
    let mut rival = WriteTrans::new(&mem);
    rival.store(0, [7u8; 8]);
    assert!(rival.lock_write_set(&mut mem));
    let ver = 1 + mem.inc_global_clock();
    rival.commit(&mut mem, ver);
    // The first attempt's read-set is stale now.
    assert!(!tr.validate_read_set(&mem));
}

#[test]
fn lock_write_set_stops_at_held_stripe() {
    let mut mem = Memory::new();
    let mut ta = WriteTrans::new(&mem);
    ta.store(32, [1u8; 8]);
    assert!(ta.lock_write_set(&mut mem));
    let mut tb = WriteTrans::new(&mem);
    tb.store(32, [2u8; 8]);
    assert!(!tb.lock_write_set(&mut mem));
    tb.release_locks(&mut mem);
    // The first attempt still holds its lock.
    assert!(!mem.test_not_modify(32, 0));
    ta.release_locks(&mut mem);
    assert!(mem.test_not_modify(32, 0));
}

#[test]
fn stm_write_then_read() {
    let mut stm = STM::new();
    let bytes = [42u8, 0, 0, 0, 0, 0, 0, 1];
    let wrote = stm.write_transaction(|mut tr, m: &Memory| {
        tr.store(40, bytes);
        let seen = tr.load(m, 40);
        (tr, STMResult::Done(seen))
    });
    assert_eq!(wrote, Some(Some(bytes)));
    let read = stm.read_transaction(|mut tr, m: &Memory| {
        let v = tr.load(m, 40);
        (tr, STMResult::Done(v))
    });
    assert_eq!(read, Some(Some(bytes)));
}

#[test]
fn stm_retry_and_abort_return_nothing() {
    let mut stm = STM::new();
    let r1: Option<u32> = stm.write_transaction(|mut tr, _m: &Memory| {
        tr.store(0, [5u8; 8]);
        (tr, STMResult::Retry)
    });
    assert_eq!(r1, None);
    let r2: Option<u32> = stm.write_transaction(|mut tr, _m: &Memory| {
        tr.store(0, [5u8; 8]);
        (tr, STMResult::Abort)
    });
    assert_eq!(r2, None);
    // Neither outcome committed anything.
    let read = stm.read_transaction(|mut tr, m: &Memory| {
        let v = tr.load(m, 0);
        (tr, STMResult::Done(v))
    });
    assert_eq!(read, Some(Some([0u8; 8])));
    let r3: Option<u32> = stm.read_transaction(|tr, _m: &Memory| (tr, STMResult::Retry));
    assert_eq!(r3, None);
    let r4: Option<u32> = stm.read_transaction(|tr, _m: &Memory| (tr, STMResult::Abort));
    assert_eq!(r4, None);
}

// Region of 512 bytes, stripe size 8, 64 stripes. Eight philosophers each
// try to set two specific stripes' first byte from 0 to 1, then reset them
// to 0, many times over; an observer samples all 64 stripes' first bytes in
// one read transaction and the number of set bytes must always be even: an
// odd count would mean a half-applied commit leaked through.
#[test]
fn philosophers_keep_an_even_number_of_set_bytes() {
    const NUM_PHILOSOPHERS: usize = 8;
    let mut stm = STM::new();

    let observe = |stm: &STM| -> usize {
        let sampled = stm.read_transaction(|mut tr, m: &Memory| {
            let mut flags = [0u8; NUM_PHILOSOPHERS];
            for i in 0..NUM_PHILOSOPHERS {
                match tr.load(m, 8 * i) {
                    Some(v) => flags[i] = v[0],
                    None => return (tr, STMResult::Retry),
                }
            }
            (tr, STMResult::Done(flags))
        });
        let flags = sampled.expect("a quiescent read transaction must succeed");
        flags.iter().filter(|f| **f == 1).count()
    };

    let acquire = |stm: &mut STM, left: usize, right: usize| -> bool {
        stm.write_transaction(|mut tr, m: &Memory| {
            let f1 = match tr.load(m, left) {
                Some(v) => v,
                None => return (tr, STMResult::Retry),
            };
            let f2 = match tr.load(m, right) {
                Some(v) => v,
                None => return (tr, STMResult::Retry),
            };
            if f1[0] == 0 && f2[0] == 0 {
                let mut g1 = f1;
                let mut g2 = f2;
                g1[0] = 1;
                g2[0] = 1;
                tr.store(left, g1);
                tr.store(right, g2);
                (tr, STMResult::Done(true))
            } else {
                (tr, STMResult::Done(false))
            }
        })
        .expect("the acquire transaction never asks for an external retry")
    };

    let release = |stm: &mut STM, left: usize, right: usize| {
        let done = stm.write_transaction(|mut tr, _m: &Memory| {
            tr.store(left, [0u8; 8]);
            tr.store(right, [0u8; 8]);
            (tr, STMResult::Done(()))
        });
        assert_eq!(done, Some(()));
    };

    let mut holding = [false; NUM_PHILOSOPHERS];
    for round in 0..200 {
        let n = round % NUM_PHILOSOPHERS;
        let left = 8 * n;
        let right = 8 * ((n + 1) % NUM_PHILOSOPHERS);
        if holding[n] {
            release(&mut stm, left, right);
            holding[n] = false;
        } else {
            holding[n] = acquire(&mut stm, left, right);
        }
        let set = observe(&stm);
        assert!(set % 2 == 0, "observed an odd number of set bytes: {}", set);
    }
}
