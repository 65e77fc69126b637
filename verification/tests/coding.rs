use std::collections::VecDeque;
use succinct::coding::round_trip::code_decode;
use succinct::coding::{CodeError, Unary, UniversalCode};
use succinct::stream::{BitRead, BitWrite};

fn bits(pattern: &[bool]) -> VecDeque<bool> {
    pattern.iter().copied().collect()
}

#[test]
fn queue_is_written_at_the_back_and_read_at_the_front() {
    let mut queue = VecDeque::<bool>::new();
    assert_eq!(None, queue.read_bit());
    queue.write_bit(true);
    queue.write_bit(false);
    queue.write_bit(false);
    assert_eq!(bits(&[true, false, false]), queue);
    assert_eq!(Some(true), queue.read_bit());
    assert_eq!(Some(false), queue.read_bit());
    assert_eq!(bits(&[false]), queue);
    assert_eq!(Some(false), queue.read_bit());
    assert_eq!(None, queue.read_bit());
}

#[test]
fn unary_codewords() {
    let mut sink = VecDeque::<bool>::new();
    assert_eq!(Ok(()), Unary::encode(&mut sink, 1));
    assert_eq!(bits(&[false, true]), sink);

    let mut sink = VecDeque::<bool>::new();
    assert_eq!(Ok(()), Unary::encode(&mut sink, 3));
    assert_eq!(bits(&[false, false, false, true]), sink);
}

#[test]
fn unary_appends_to_what_was_written() {
    let mut sink = bits(&[true, true]);
    assert_eq!(Ok(()), Unary::encode(&mut sink, 2));
    assert_eq!(bits(&[true, true, false, false, true]), sink);
}

#[test]
fn unary_rejects_zero_and_writes_nothing() {
    let mut sink = bits(&[false, true]);
    assert_eq!(Err(CodeError::OutOfRange), Unary::encode(&mut sink, 0));
    assert_eq!(bits(&[false, true]), sink);
}

#[test]
fn unary_decode_consumes_exactly_one_codeword() {
    let mut source = bits(&[false, false, true, false, true, true]);
    assert_eq!(Ok(Some(2)), Unary::decode(&mut source));
    assert_eq!(bits(&[false, true, true]), source);
    assert_eq!(Ok(Some(1)), Unary::decode(&mut source));
    assert_eq!(bits(&[true]), source);
}

#[test]
fn unary_decode_at_end_of_input() {
    let mut source = VecDeque::<bool>::new();
    assert_eq!(Ok(None), Unary::decode(&mut source));

    let mut source = bits(&[false, false]);
    assert_eq!(Ok(None), Unary::decode(&mut source));
}

#[test]
fn unary_decode_malformed() {
    let mut source = bits(&[true, false, true]);
    assert_eq!(Err(CodeError::Malformed), Unary::decode(&mut source));
}

#[test]
fn unary_round_trip_single_values() {
    for value in [1u64, 2, 3, 17, 64, 1000] {
        let mut stream = VecDeque::<bool>::new();
        assert_eq!(Ok(()), Unary::encode(&mut stream, value));
        assert_eq!(value as usize + 1, stream.len());
        assert_eq!(Ok(Some(value)), Unary::decode(&mut stream));
        assert!(stream.is_empty());
    }
}

#[test]
fn unary_round_trip_stream() {
    let values = [5u64, 1, 1, 9, 2, 30];
    let mut stream = VecDeque::<bool>::new();
    for &value in &values {
        assert_eq!(Ok(()), Unary::encode(&mut stream, value));
    }
    for &value in &values {
        assert_eq!(Ok(Some(value)), Unary::decode(&mut stream));
    }
    assert!(stream.is_empty());
    assert_eq!(Ok(None), Unary::decode(&mut stream));
}

#[test]
fn code_decode_one_to_thousand() {
    let values: Vec<u64> = (1..=1000).collect();
    assert!(code_decode::<Unary>(values));
}

#[test]
fn code_decode_with_zeros_and_repeats() {
    assert!(code_decode::<Unary>(vec![0, 0, 7, 0, 7, 1, 255]));
}

#[test]
fn code_decode_of_nothing() {
    assert!(code_decode::<Unary>(Vec::new()));
}

#[test]
fn code_decode_fails_beyond_the_domain() {
    assert!(!code_decode::<Unary>(vec![u64::MAX]));
    assert!(!code_decode::<Unary>(vec![3, 1, u64::MAX, 2]));
}

#[test]
fn code_error_variants_differ() {
    assert_ne!(CodeError::OutOfRange, CodeError::Malformed);
    assert_eq!("Malformed", format!("{:?}", CodeError::Malformed));
}
