use stream_join::barrier_align::{AlignedMessage, BarrierAligner};
use stream_join::chunk::{Column, StreamChunk};
use stream_join::error::StreamError;
use stream_join::executor::{Barrier, Epoch, Message};
use stream_join::hash_join::SideType;
use stream_join::types::{Op, ScalarImpl};

fn chunk(v: i64) -> StreamChunk {
    StreamChunk {
        ops: vec![Op::Insert],
        columns: vec![Column::new(vec![Some(ScalarImpl::Int64(v))])],
        visibility: None,
    }
}

fn value(c: &StreamChunk) -> i64 {
    match c.columns[0].data[0] {
        Some(ScalarImpl::Int64(v)) => v,
        _ => panic!("not an int64"),
    }
}

fn barrier(curr: u64) -> Message {
    Message::Barrier(Barrier { epoch: Epoch::new(curr, curr - 1), ..Barrier::default() })
}

#[test]
fn chunks_pass_in_the_order_of_arrival() {
    let mut aligner = BarrierAligner::new();
    let a = aligner.next(SideType::Right, Ok(Message::Chunk(chunk(1)))).unwrap().unwrap();
    let b = aligner.next(SideType::Left, Ok(Message::Chunk(chunk(2)))).unwrap().unwrap();
    assert!(matches!(a, AlignedMessage::Right(Ok(c)) if value(&c) == 1));
    assert!(matches!(b, AlignedMessage::Left(Ok(c)) if value(&c) == 2));
}

#[test]
fn a_barrier_waits_for_the_other_input() {
    let mut aligner = BarrierAligner::new();
    assert!(aligner.may_read(SideType::Left));
    assert!(aligner.next(SideType::Left, Ok(barrier(1))).unwrap().is_none());
    // the left input is parked, the right input goes on
    assert!(!aligner.may_read(SideType::Left));
    assert!(aligner.may_read(SideType::Right));
    let c = aligner.next(SideType::Right, Ok(Message::Chunk(chunk(5)))).unwrap().unwrap();
    assert!(matches!(c, AlignedMessage::Right(Ok(c)) if value(&c) == 5));
    let b = aligner.next(SideType::Right, Ok(barrier(1))).unwrap().unwrap();
    assert!(matches!(b, AlignedMessage::Barrier(b) if b.epoch.curr == 1));
    assert!(aligner.may_read(SideType::Left));
    // and the other way round, for the next epoch
    assert!(aligner.next(SideType::Right, Ok(barrier(2))).unwrap().is_none());
    assert!(!aligner.may_read(SideType::Right));
    let b = aligner.next(SideType::Left, Ok(barrier(2))).unwrap().unwrap();
    assert!(matches!(b, AlignedMessage::Barrier(b) if b.epoch.curr == 2));
}

#[test]
fn a_parked_input_is_not_read() {
    let mut aligner = BarrierAligner::new();
    aligner.next(SideType::Left, Ok(barrier(1))).unwrap();
    assert_eq!(
        aligner.next(SideType::Left, Ok(Message::Chunk(chunk(1)))).unwrap_err(),
        StreamError::ParkedInput
    );
    // the refusal changes nothing: the right barrier still aligns
    assert!(aligner.next(SideType::Right, Ok(barrier(1))).unwrap().is_some());
}

#[test]
fn barriers_of_different_epochs_do_not_align() {
    let mut aligner = BarrierAligner::new();
    aligner.next(SideType::Left, Ok(barrier(1))).unwrap();
    assert_eq!(
        aligner.next(SideType::Right, Ok(barrier(2))).unwrap_err(),
        StreamError::EpochMismatch
    );
}

#[test]
fn epochs_of_one_input_have_to_rise() {
    let mut aligner = BarrierAligner::new();
    aligner.next(SideType::Left, Ok(barrier(3))).unwrap();
    aligner.next(SideType::Right, Ok(barrier(3))).unwrap();
    assert_eq!(
        aligner.next(SideType::Left, Ok(barrier(3))).unwrap_err(),
        StreamError::EpochRegression
    );
    assert_eq!(
        aligner.next(SideType::Right, Ok(barrier(2))).unwrap_err(),
        StreamError::EpochRegression
    );
    assert!(aligner.next(SideType::Left, Ok(barrier(4))).unwrap().is_none());
}

#[test]
fn an_error_of_an_input_is_handed_on() {
    let mut aligner = BarrierAligner::new();
    let e = aligner.next(SideType::Left, Err(StreamError::Upstream)).unwrap().unwrap();
    assert!(matches!(e, AlignedMessage::Left(Err(StreamError::Upstream))));
}

/// For each input, what comes out is what went in, in the same order, with
/// every barrier where that input had it.
#[test]
fn no_output_straddles_a_barrier() {
    let mut aligner = BarrierAligner::new();
    // (input, chunk value or 0 for a barrier of the epoch in the third place)
    let inputs: Vec<(SideType, i64, u64)> = vec![
        (SideType::Left, 1, 0),
        (SideType::Right, 10, 0),
        (SideType::Left, 0, 1),
        (SideType::Right, 11, 0),
        (SideType::Right, 12, 0),
        (SideType::Right, 0, 1),
        (SideType::Right, 13, 0),
        (SideType::Left, 2, 0),
        (SideType::Right, 0, 2),
        (SideType::Left, 3, 0),
        (SideType::Left, 0, 2),
        (SideType::Left, 4, 0),
    ];
    let mut out_left: Vec<i64> = vec![];
    let mut out_right: Vec<i64> = vec![];
    for (side, v, epoch) in &inputs {
        let msg = if *v == 0 { barrier(*epoch) } else { Message::Chunk(chunk(*v)) };
        match aligner.next(*side, Ok(msg)).unwrap() {
            None => {}
            Some(AlignedMessage::Left(Ok(c))) => out_left.push(value(&c)),
            Some(AlignedMessage::Right(Ok(c))) => out_right.push(value(&c)),
            Some(AlignedMessage::Barrier(b)) => {
                out_left.push(-(b.epoch.curr as i64));
                out_right.push(-(b.epoch.curr as i64));
            }
            Some(_) => unreachable!(),
        }
    }
    let of = |want: SideType| -> Vec<i64> {
        inputs
            .iter()
            .filter(|(side, _, _)| *side == want)
            .map(|(_, v, epoch)| if *v == 0 { -(*epoch as i64) } else { *v })
            .collect()
    };
    assert_eq!(out_left, of(SideType::Left));
    assert_eq!(out_right, of(SideType::Right));
}
