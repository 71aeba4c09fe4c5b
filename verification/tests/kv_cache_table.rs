use orion_serve::id::BlockId;
use orion_serve::kv_cache::block::BlockHash;
use orion_serve::kv_cache::table::{hash_block, BlockTable};

#[test]
fn blocks_required_rounds_up() {
    assert_eq!(BlockTable::blocks_required(0, 16), 0);
    assert_eq!(BlockTable::blocks_required(1, 16), 1);
    assert_eq!(BlockTable::blocks_required(16, 16), 1);
    assert_eq!(BlockTable::blocks_required(17, 16), 2);
    assert_eq!(BlockTable::blocks_required(32, 16), 2);
}

#[test]
fn slack_reports_room_in_the_final_block() {
    let mut t = BlockTable::new();
    assert_eq!(t.slack(16), 0, "empty table has no allocated slack");

    t.push(BlockId(0));
    t.set_num_tokens(10);
    assert_eq!(t.slack(16), 6);

    t.set_num_tokens(16);
    assert_eq!(t.slack(16), 0, "exactly full");
}

#[test]
fn additional_blocks_accounts_for_what_is_already_held() {
    let mut t = BlockTable::new();
    t.push(BlockId(0));
    t.set_num_tokens(16);
    // Growing 16 -> 17 tokens needs one more block.
    assert_eq!(t.additional_blocks_for(17, 16), 1);
    // Growing within the existing block needs none.
    assert_eq!(t.additional_blocks_for(16, 16), 0);
    // Shrinking never asks for blocks.
    assert_eq!(t.additional_blocks_for(4, 16), 0);
}

#[test]
fn take_blocks_empties_the_table() {
    let mut t = BlockTable::new();
    t.push(BlockId(1));
    t.push(BlockId(2));
    t.set_num_tokens(20);

    let taken = t.take_blocks();
    assert_eq!(taken, vec![BlockId(1), BlockId(2)]);
    assert!(t.is_empty());
    assert_eq!(t.num_tokens(), 0);
}

#[test]
fn truncate_returns_only_the_trailing_blocks() {
    let mut t = BlockTable::new();
    for i in 0..4 {
        t.push(BlockId(i));
    }
    let dropped = t.truncate_blocks(2);
    assert_eq!(dropped, vec![BlockId(2), BlockId(3)]);
    assert_eq!(t.blocks(), &[BlockId(0), BlockId(1)]);
}

#[test]
fn raw_conversion_preserves_logical_order() {
    let mut t = BlockTable::new();
    t.push(BlockId(9));
    t.push(BlockId(3));
    assert_eq!(t.to_raw(), vec![9, 3]);
}

#[test]
fn identical_prefixes_hash_identically() {
    let a = hash_block(None, &[1, 2, 3]);
    let b = hash_block(None, &[1, 2, 3]);
    assert_eq!(a, b);

    let a2 = hash_block(Some(a), &[4, 5]);
    let b2 = hash_block(Some(b), &[4, 5]);
    assert_eq!(a2, b2);
}

#[test]
fn different_tokens_hash_differently() {
    assert_ne!(hash_block(None, &[1, 2, 3]), hash_block(None, &[1, 2, 4]));
    assert_ne!(hash_block(None, &[1, 2, 3]), hash_block(None, &[3, 2, 1]));
}

#[test]
fn the_same_tokens_under_a_different_prefix_hash_differently() {
    // This is the property that makes position-dependent KV reuse sound:
    // the same block content preceded by different history must not match.
    let p1 = hash_block(None, &[10, 11]);
    let p2 = hash_block(None, &[20, 21]);
    assert_ne!(hash_block(Some(p1), &[1, 2]), hash_block(Some(p2), &[1, 2]));
}

#[test]
fn a_root_block_differs_from_the_same_tokens_mid_sequence() {
    let root = hash_block(None, &[1, 2]);
    assert_ne!(root, hash_block(Some(BlockHash(0)), &[1, 2]));
}

#[test]
fn length_is_mixed_in_so_short_blocks_do_not_collide() {
    assert_ne!(hash_block(None, &[1, 2]), hash_block(None, &[1, 2, 0]));
}
