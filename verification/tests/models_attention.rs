use orion_serve::error::EngineError;
use orion_serve::models::attention::{
    attention_plan, locate, write_rows, AttentionArgs, KvStore,
};
use orion_serve::models::tensor::Matrix;

fn store() -> KvStore<f32> {
    // 2 layers, 4 blocks, block size 2, 2 kv heads, head dim 4.
    KvStore::new(2, 4, 2, 2, 4, 0.0f32)
}

#[test]
fn the_arena_is_sized_from_its_dimensions() {
    let s = store();
    assert_eq!(s.len(), 2 * 4 * 2 * 2 * 2 * 4);
    assert_eq!(s.block_size(), 2);
    assert_eq!(s.num_blocks(), 4);
}

#[test]
fn a_written_vector_reads_back_unchanged() {
    let mut s = store();
    s.write(1, 2, 1, 0, false, &[1.0, 2.0, 3.0, 4.0]).unwrap();
    assert_eq!(s.read(1, 2, 1, 0, false).unwrap(), &[1.0, 2.0, 3.0, 4.0]);
}

#[test]
fn keys_and_values_occupy_distinct_storage() {
    let mut s = store();
    s.write(0, 0, 0, 0, false, &[1.0, 1.0, 1.0, 1.0]).unwrap();
    s.write(0, 0, 0, 0, true, &[2.0, 2.0, 2.0, 2.0]).unwrap();
    assert_eq!(s.read(0, 0, 0, 0, false).unwrap()[0], 1.0);
    assert_eq!(s.read(0, 0, 0, 0, true).unwrap()[0], 2.0);
}

#[test]
fn every_index_dimension_is_independent() {
    // Writing to one (layer, block, slot, head) must not disturb another.
    let mut s = store();
    s.write(0, 0, 0, 0, false, &[1.0; 4]).unwrap();
    s.write(1, 0, 0, 0, false, &[2.0; 4]).unwrap();
    s.write(0, 1, 0, 0, false, &[3.0; 4]).unwrap();
    s.write(0, 0, 1, 0, false, &[4.0; 4]).unwrap();
    s.write(0, 0, 0, 1, false, &[5.0; 4]).unwrap();

    assert_eq!(s.read(0, 0, 0, 0, false).unwrap()[0], 1.0);
    assert_eq!(s.read(1, 0, 0, 0, false).unwrap()[0], 2.0);
    assert_eq!(s.read(0, 1, 0, 0, false).unwrap()[0], 3.0);
    assert_eq!(s.read(0, 0, 1, 0, false).unwrap()[0], 4.0);
    assert_eq!(s.read(0, 0, 0, 1, false).unwrap()[0], 5.0);
}

#[test]
fn out_of_range_indices_are_errors_not_panics() {
    let mut s = store();
    assert!(s.write(9, 0, 0, 0, false, &[0.0; 4]).is_err(), "layer");
    assert!(s.write(0, 9, 0, 0, false, &[0.0; 4]).is_err(), "block");
    assert!(s.write(0, 0, 9, 0, false, &[0.0; 4]).is_err(), "slot");
    assert!(s.write(0, 0, 0, 9, false, &[0.0; 4]).is_err(), "head");
    assert!(s.write(0, 0, 0, 0, false, &[0.0; 3]).is_err(), "length");
}

#[test]
fn locate_maps_logical_positions_through_the_block_table() {
    let table = [7u32, 3, 9];
    // block_size 4: positions 0-3 -> block 7, 4-7 -> block 3, 8-11 -> 9.
    assert_eq!(locate(&table, 0, 4), Some((7, 0)));
    assert_eq!(locate(&table, 3, 4), Some((7, 3)));
    assert_eq!(locate(&table, 4, 4), Some((3, 0)));
    assert_eq!(locate(&table, 11, 4), Some((9, 3)));
    assert_eq!(locate(&table, 12, 4), None, "beyond the table");
}

#[test]
fn locate_handles_non_contiguous_physical_blocks() {
    // The whole point of paging: physical order need not match logical.
    let table = [100u32, 2, 57];
    assert_eq!(locate(&table, 5, 4), Some((2, 1)));
}

#[test]
fn head_groups_must_be_even() {
    let s = KvStore::new(1, 1, 2, 2, 2, 0.0f32);
    let err = attention_plan(
        &s,
        6,
        6,
        AttentionArgs {
            block_table: &[0],
            context_len: 1,
            query_position: 0,
            layer: 0,
            num_query_heads: 3,
            num_kv_heads: 2,
            head_dim: 2,
            block_size: 2,
        },
    );
    assert!(err.is_err(), "3 query heads do not divide over 2 kv heads");
}

#[test]
fn a_plan_needs_a_block_for_every_position() {
    let s = KvStore::new(1, 1, 2, 1, 2, 0.0f32);
    // Position 5 needs a third block; the table has one.
    let err = attention_plan(
        &s,
        2,
        2,
        AttentionArgs {
            block_table: &[0],
            context_len: 6,
            query_position: 5,
            layer: 0,
            num_query_heads: 1,
            num_kv_heads: 1,
            head_dim: 2,
            block_size: 2,
        },
    );
    assert!(matches!(err, Err(EngineError::Internal(_))));
}

#[test]
fn refused_accesses_say_what_is_out_of_range() {
    let mut s = store();
    let text = |r: Result<(), EngineError>| r.unwrap_err().message();
    let prefix = "internal invariant violated: ";
    assert_eq!(
        text(s.write(9, 0, 0, 0, false, &[0.0; 4])),
        format!("{prefix}layer 9 out of range (have 2)")
    );
    assert_eq!(
        text(s.write(0, 9, 0, 0, false, &[0.0; 4])),
        format!("{prefix}block 9 out of range (have 4)")
    );
    assert_eq!(
        text(s.write(0, 0, 9, 0, false, &[0.0; 4])),
        format!("{prefix}slot 9 out of range (block holds 2)")
    );
    assert_eq!(
        text(s.write(0, 0, 0, 9, false, &[0.0; 4])),
        format!("{prefix}kv head 9 out of range (have 2)")
    );
    assert_eq!(
        text(s.write(0, 0, 0, 0, false, &[0.0; 3])),
        format!("{prefix}vector length 3 does not match head_dim 4")
    );
}

#[test]
fn an_attention_plan_resolves_every_position_up_to_the_query() {
    let s = KvStore::new(1, 8, 2, 2, 2, 0.0f32);
    let plan = attention_plan(
        &s,
        8,
        8,
        AttentionArgs {
            block_table: &[6, 2],
            context_len: 4,
            query_position: 2,
            layer: 0,
            num_query_heads: 4,
            num_kv_heads: 2,
            head_dim: 2,
            block_size: 2,
        },
    )
    .unwrap();
    assert_eq!(plan.group_size, 2);
    assert_eq!(plan.slots, vec![(6, 0), (6, 1), (2, 0)]);
    let heads: Vec<usize> = (0..4).map(|h| plan.kv_head(h)).collect();
    assert_eq!(heads, vec![0, 0, 1, 1]);
}

#[test]
fn the_context_after_the_query_does_not_change_its_plan() {
    let s = KvStore::new(1, 8, 2, 2, 2, 0.0f32);
    let args = AttentionArgs {
        block_table: &[6, 2],
        context_len: 4,
        query_position: 2,
        layer: 0,
        num_query_heads: 4,
        num_kv_heads: 2,
        head_dim: 2,
        block_size: 2,
    };
    let later = AttentionArgs {
        block_table: &[6, 2, 7, 99],
        context_len: 8,
        ..args
    };
    let a = attention_plan(&s, 8, 8, args).unwrap();
    let b = attention_plan(&s, 8, 8, later).unwrap();
    assert_eq!(a.slots, b.slots);
    assert_eq!(a.group_size, b.group_size);
}

#[test]
fn a_refused_plan_names_the_first_thing_that_is_wrong() {
    let s = KvStore::new(1, 4, 2, 2, 2, 0.0f32);
    let args = AttentionArgs {
        block_table: &[0, 9],
        context_len: 4,
        query_position: 3,
        layer: 0,
        num_query_heads: 4,
        num_kv_heads: 4,
        head_dim: 2,
        block_size: 2,
    };
    let text = |args: AttentionArgs<'_>| attention_plan(&s, 8, 8, args).unwrap_err().message();
    // Block 9 does not exist, and neither does head 2; the block comes first.
    assert!(text(args).ends_with("block 9 out of range (have 4)"));
    let existing = AttentionArgs {
        block_table: &[0, 1],
        ..args
    };
    assert!(text(existing).ends_with("kv head 2 out of range (have 2)"));
    let short = AttentionArgs {
        block_table: &[0],
        ..args
    };
    assert!(text(short).ends_with("position 2 is outside the block table of 1 blocks"));
}

#[test]
fn rows_are_written_at_their_slots_and_later_rows_win() {
    let mut s = KvStore::new(2, 4, 2, 2, 2, 0.0f32);
    let k = Matrix::new((0..12).map(|i| i as f32).collect(), 3, 4).unwrap();
    let v = Matrix::new((100..112).map(|i| i as f32).collect(), 3, 4).unwrap();
    write_rows(&mut s, 1, &vec![(3, 0), (0, 1), (3, 0)], &k, &v).unwrap();
    assert_eq!(s.read(1, 3, 0, 0, false).unwrap(), &[8.0, 9.0]);
    assert_eq!(s.read(1, 3, 0, 1, false).unwrap(), &[10.0, 11.0]);
    assert_eq!(s.read(1, 3, 0, 1, true).unwrap(), &[110.0, 111.0]);
    assert_eq!(s.read(1, 0, 1, 0, true).unwrap(), &[104.0, 105.0]);
    assert_eq!(s.read(0, 3, 0, 0, false).unwrap(), &[0.0, 0.0]);
    let err = write_rows(&mut s, 1, &vec![(0, 0), (4, 0), (0, 0)], &k, &v).unwrap_err();
    assert!(err.message().ends_with("block 4 out of range (have 4)"));
}
