use orion_serve::id::{BlockId, IdCounter, RequestId, SequenceId};

#[test]
fn request_ids_are_unique_and_monotonic() {
    let mut counter = IdCounter::new();
    let a = RequestId::next(&mut counter);
    let b = RequestId::next(&mut counter);
    assert!(b.as_u64() > a.as_u64());
    assert_ne!(a, b);
}

#[test]
fn ids_display_with_a_readable_prefix() {
    assert_eq!(RequestId::from_raw(7).to_text(), "req-7");
    assert_eq!(SequenceId::from_raw(7).to_text(), "seq-7");
    assert_eq!(BlockId(7).to_text(), "blk-7");
}
