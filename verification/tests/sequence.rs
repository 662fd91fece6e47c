use video_transport::sequence::SequenceNumber;

#[test]
fn next_wraps_on_overflow() {
    let start = SequenceNumber::new(u32::MAX);
    let next = start.next();
    assert_eq!(next.value(), 0);
}

#[test]
fn next_counts_up_by_one() {
    assert_eq!(SequenceNumber::new(0).next().value(), 1);
    assert_eq!(SequenceNumber::new(41).next().value(), 42);
    assert_eq!(SequenceNumber::new(u32::MAX - 1).next().value(), u32::MAX);
}

#[test]
fn value_reads_back_what_new_was_given() {
    assert_eq!(SequenceNumber::new(0).value(), 0);
    assert_eq!(SequenceNumber::new(0x5442_4448).value(), 0x5442_4448);
    assert_eq!(SequenceNumber::new(u32::MAX).value(), u32::MAX);
}

#[test]
fn sequence_numbers_order_as_their_values() {
    assert!(SequenceNumber::new(1) < SequenceNumber::new(2));
    assert!(SequenceNumber::new(0) < SequenceNumber::new(u32::MAX));
    assert_eq!(SequenceNumber::new(7), SequenceNumber::new(7));
    assert_ne!(SequenceNumber::new(7), SequenceNumber::new(8));
}
