use orion_serve::id::SequenceId;
use orion_serve::scheduler::cache::KvCacheManagerLike;
use orion_serve::scheduler::testing::FakeCache;

#[test]
fn the_fake_accounts_blocks_like_the_real_manager() {
    let mut c = FakeCache::new(8, 4);
    let s = SequenceId::from_raw(1);
    assert_eq!(c.blocks_needed_for(10), 3);
    c.allocate(s, &[1; 10]).unwrap();
    assert_eq!(c.free_blocks(), 5);
    c.free(s);
    assert_eq!(c.free_blocks(), 8);
}

#[test]
fn forced_failures_fire_exactly_once() {
    let mut c = FakeCache::new(8, 4);
    let s = SequenceId::from_raw(1);
    c.allocate(s, &[1; 4]).unwrap();

    c.fail_next_append();
    assert!(c.append_token(s).is_err());
    assert!(c.append_token(s).is_ok(), "failure must not be sticky");
}

#[test]
fn allocation_beyond_capacity_fails() {
    let mut c = FakeCache::new(2, 4);
    assert!(c.allocate(SequenceId::from_raw(1), &[1; 100]).is_err());
    assert_eq!(c.free_blocks(), 2, "a failed allocation must not consume");
}

#[test]
fn the_fake_knows_what_each_sequence_holds() {
    let mut c = FakeCache::new(8, 4);
    let s = SequenceId::from_raw(1);
    assert_eq!(c.blocks_held(s), 0);
    c.allocate(s, &[1; 10]).unwrap();
    assert_eq!(c.blocks_held(s), 3);
    c.free(s);
    assert_eq!(c.blocks_held(s), 0);
}
