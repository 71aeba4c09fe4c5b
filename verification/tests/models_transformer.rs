use orion_serve::error::EngineError;
use orion_serve::models::tensor::Matrix;
use orion_serve::models::transformer::{
    check_position, embed, last_rows, plan_rows, sequence_ids,
};
use orion_serve::traits::ForwardBatch;

fn batch() -> ForwardBatch {
    ForwardBatch {
        tokens: vec![1, 2, 3, 4],
        positions: vec![0, 1, 2, 5],
        sequence_ids: sequence_ids(2),
        slot_token_counts: vec![3, 1],
        context_lens: vec![3, 6],
        block_tables: vec![vec![7, 4], vec![0, 1, 9]],
        has_prefill: true,
    }
}

#[test]
fn rows_are_mapped_to_their_sequence_and_slot() {
    let plan = plan_rows(&batch(), 2).unwrap();
    assert_eq!(plan.seq_of_row, vec![0, 0, 0, 1]);
    assert_eq!(plan.slots, vec![(7, 0), (7, 1), (4, 0), (9, 1)]);
}

#[test]
fn a_position_without_a_block_is_an_error() {
    let mut b = batch();
    b.positions[3] = 6;
    let err = plan_rows(&b, 2).unwrap_err();
    assert!(
        matches!(err, EngineError::Internal(t) if t == "position 6 has no block in the table for sequence 1")
    );
}

#[test]
fn an_inconsistent_batch_is_not_planned() {
    let mut b = batch();
    b.positions.pop();
    assert!(plan_rows(&b, 2).is_err());
}

#[test]
fn an_empty_batch_plans_nothing() {
    let b = ForwardBatch {
        tokens: vec![],
        positions: vec![],
        sequence_ids: vec![],
        slot_token_counts: vec![],
        context_lens: vec![],
        block_tables: vec![],
        has_prefill: false,
    };
    let plan = plan_rows(&b, 2).unwrap();
    assert!(plan.seq_of_row.is_empty() && plan.slots.is_empty());
    assert!(last_rows(&b.slot_token_counts).unwrap().is_empty());
}

#[test]
fn only_the_last_position_of_each_sequence_is_wanted() {
    assert_eq!(last_rows(&vec![3, 1, 2]).unwrap(), vec![2, 3, 5]);
    let err = last_rows(&vec![3, 0]).unwrap_err();
    assert!(
        matches!(err, EngineError::Internal(t) if t == "a scheduled sequence contributed zero tokens")
    );
}

#[test]
fn an_unknown_token_has_no_embedding() {
    let table = Matrix::new(vec![0.0, 0.1, 1.0, 1.1, 2.0, 2.1], 3, 2).unwrap();
    assert_eq!(
        embed(&table, &[2, 0], 3).unwrap().into_data(),
        vec![2.0, 2.1, 0.0, 0.1]
    );
    let err = embed(&table, &[0, 99], 3).unwrap_err();
    assert!(
        matches!(err, EngineError::Internal(t) if t == "token id 99 is outside the vocabulary of 3")
    );
}

#[test]
fn positions_are_limited_by_the_rotary_tables() {
    assert!(check_position(7, 8).is_ok());
    let err = check_position(8, 8).unwrap_err();
    assert!(
        matches!(err, EngineError::Internal(t) if t == "position 8 exceeds the RoPE table (8 entries)")
    );
}

#[test]
fn handmade_ids_count_from_one() {
    let ids: Vec<u64> = sequence_ids(3).iter().map(|i| i.as_u64()).collect();
    assert_eq!(ids, vec![1, 2, 3]);
}
