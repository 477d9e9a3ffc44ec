use libtl2::laws::{
    aborted_attempt_leaves_memory_unchanged, conflicting_writers_serialize,
    disjoint_writers_both_commit, no_torn_reads, read_your_write, stm_store_commits,
};
use libtl2::memory::Memory;
use libtl2::stm::{STMResult, STM};

#[test]
fn aborted_attempt_is_invisible() {
    let mut mem = Memory::new();
    // Put some bytes in first so the abandoned attempt has something to spare.
    let mut seed = libtl2::write_trans::WriteTrans::new(&mem);
    seed.store(48, [3u8; 8]);
    assert!(seed.lock_write_set(&mut mem));
    let ver = 1 + mem.inc_global_clock();
    seed.commit(&mut mem, ver);

    let before = mem.read_stripe(48);
    let clock_before = mem.clock_value();
    aborted_attempt_leaves_memory_unchanged(&mut mem, 48, [200u8; 8]);
    assert_eq!(mem.read_stripe(48), before);
    assert_eq!(mem.clock_value(), clock_before);
    assert_eq!(mem.get_addr_ver(48), 1);
    assert!(mem.test_not_modify(48, mem.clock_value()));
}

#[test]
fn buffered_store_wins_over_rival_commit() {
    let mut mem = Memory::new();
    let r = read_your_write(&mut mem, 16, [1u8; 8], [2u8; 8]);
    assert_eq!(r, Some([1u8; 8]));
    // The rival's bytes are what actually landed in memory.
    assert_eq!(mem.read_stripe(16), [2u8; 8]);
}

#[test]
fn disjoint_stripes_commit_side_by_side() {
    let mut mem = Memory::new();
    disjoint_writers_both_commit(&mut mem, 0, [10u8; 8], 8, [20u8; 8]);
    assert_eq!(mem.read_stripe(0), [10u8; 8]);
    assert_eq!(mem.read_stripe(8), [20u8; 8]);
    assert_eq!(mem.get_addr_ver(0), 1);
    assert_eq!(mem.get_addr_ver(8), 2);
    assert_eq!(mem.clock_value(), 2);
}

#[test]
fn same_stripe_commits_one_after_the_other() {
    let mut mem = Memory::new();
    conflicting_writers_serialize(&mut mem, 32, [10u8; 8], [20u8; 8]);
    assert_eq!(mem.read_stripe(32), [20u8; 8]);
    assert_eq!(mem.get_addr_ver(32), 2);
    assert_eq!(mem.clock_value(), 2);
}

#[test]
fn readers_never_see_a_torn_stripe() {
    let mut mem = Memory::new();
    let (before, during, after) = no_torn_reads(&mut mem, 56, [9u8; 8]);
    assert_eq!(before, Some([0u8; 8]));
    assert_eq!(during, None);
    assert_eq!(after, Some([9u8; 8]));
    assert_eq!(mem.read_stripe(56), [9u8; 8]);
}

#[test]
fn orchestrated_store_lands() {
    let mut stm = STM::new();
    let r = stm_store_commits(&mut stm, 24, [6u8; 8]);
    assert_eq!(r, Some(true));
    let read = stm.read_transaction(|mut tr, m: &Memory| {
        let v = tr.load(m, 24);
        (tr, STMResult::Done(v))
    });
    assert_eq!(read, Some(Some([6u8; 8])));
}
