//! Merges the messages of two inputs into one sequence: chunks pass in the
//! order in which they arrive, and a barrier passes once both inputs have
//! delivered it.

use vstd::prelude::*;
use crate::chunk::StreamChunk;
use crate::error::StreamError;
use crate::executor::{Barrier, Message};
use crate::hash_join::SideType;

verus! {

/// What the aligner hands on: a chunk, or an error, of one input, or a
/// barrier that both inputs have delivered.
#[derive(Debug)]
pub enum AlignedMessage {
    Left(Result<StreamChunk, StreamError>),
    Right(Result<StreamChunk, StreamError>),
    Barrier(Barrier),
}

/// What the aligner remembers between two messages.
pub struct AlignerState {
    /// The input that has delivered a barrier which the other input has not, with that barrier.
    pub parked: Option<(SideType, Barrier)>,
    /// The epoch of the last barrier of the left input.
    pub last_left: Option<u64>,
    /// The epoch of the last barrier of the right input.
    pub last_right: Option<u64>,
}

pub open spec fn initial_state() -> AlignerState {
    AlignerState { parked: None, last_left: None, last_right: None }
}

/// A chunk, or an error, of input `side` as the aligner hands it on.
pub open spec fn forward(side: SideType, item: Result<StreamChunk, StreamError>) -> AlignedMessage {
    match side {
        SideType::Left => AlignedMessage::Left(item),
        SideType::Right => AlignedMessage::Right(item),
    }
}

pub open spec fn last_epoch(s: AlignerState, side: SideType) -> Option<u64> {
    match side {
        SideType::Left => s.last_left,
        SideType::Right => s.last_right,
    }
}

pub open spec fn with_last_epoch(s: AlignerState, side: SideType, epoch: u64) -> AlignerState {
    match side {
        SideType::Left => AlignerState { last_left: Some(epoch), ..s },
        SideType::Right => AlignerState { last_right: Some(epoch), ..s },
    }
}

/// Whether input `side` may be read: it is not waiting for the other input's barrier.
pub open spec fn permits(s: AlignerState, side: SideType) -> bool {
    !(s.parked matches Some((p, _)) && p == side)
}

/// One step of the aligner: what it answers to `msg` from input `side` in
/// state `s`, and its state afterwards. After an error the state is as before.
pub open spec fn align_step(s: AlignerState, side: SideType, msg: Result<Message, StreamError>) -> (
    Result<Option<AlignedMessage>, StreamError>,
    AlignerState,
) {
    if !permits(s, side) {
        (Err(StreamError::ParkedInput), s)
    } else {
        match msg {
            Err(e) => (Ok(Some(forward(side, Err(e)))), s),
            Ok(Message::Chunk(c)) => (Ok(Some(forward(side, Ok(c)))), s),
            Ok(Message::Barrier(b)) => {
                if last_epoch(s, side) matches Some(e) && b.epoch.curr <= e {
                    (Err(StreamError::EpochRegression), s)
                } else {
                    match s.parked {
                        Some((_, waiting)) => {
                            if waiting.epoch.curr != b.epoch.curr {
                                (Err(StreamError::EpochMismatch), s)
                            } else {
                                (
                                    Ok(Some(AlignedMessage::Barrier(b))),
                                    with_last_epoch(
                                        AlignerState { parked: None, ..s },
                                        side,
                                        b.epoch.curr,
                                    ),
                                )
                            }
                        },
                        None => (
                            Ok(None),
                            with_last_epoch(
                                AlignerState { parked: Some((side, b)), ..s },
                                side,
                                b.epoch.curr,
                            ),
                        ),
                    }
                }
            },
        }
    }
}

/// Aligns the barriers of two inputs.
#[derive(Debug)]
pub struct BarrierAligner {
    parked: Option<(SideType, Barrier)>,
    last_left: Option<u64>,
    last_right: Option<u64>,
}

impl View for BarrierAligner {
    type V = AlignerState;

    closed spec fn view(&self) -> AlignerState {
        AlignerState { parked: self.parked, last_left: self.last_left, last_right: self.last_right }
    }
}

impl BarrierAligner {
    pub fn new() -> (a: Self)
        ensures
            a@ == initial_state(),
    {
        BarrierAligner { parked: None, last_left: None, last_right: None }
    }

    /// Whether input `side` may be read now.
    pub fn may_read(&self, side: SideType) -> (r: bool)
        ensures
            r == permits(self@, side),
    {
        match &self.parked {
            Some((p, _)) => !side_eq(*p, side),
            None => true,
        }
    }

    /// Takes the next message of input `side` and says what to hand on:
    /// `None` where a barrier has to wait for the other input.
    pub fn next(&mut self, side: SideType, msg: Result<Message, StreamError>) -> (r: Result<
        Option<AlignedMessage>,
        StreamError,
    >)
        ensures
            (r, final(self)@) == align_step(old(self)@, side, msg),
    {
        if !self.may_read(side) {
            return Err(StreamError::ParkedInput);
        }
        match msg {
            Err(e) => Ok(Some(forward_message(side, Err(e)))),
            Ok(Message::Chunk(c)) => Ok(Some(forward_message(side, Ok(c)))),
            Ok(Message::Barrier(b)) => {
                let last = match side {
                    SideType::Left => self.last_left,
                    SideType::Right => self.last_right,
                };
                let curr = b.epoch.curr;
                if let Some(e) = last {
                    if curr <= e {
                        return Err(StreamError::EpochRegression);
                    }
                }
                let waiting: Option<u64> = match &self.parked {
                    Some((_, w)) => Some(w.epoch.curr),
                    None => None,
                };
                match side {
                    SideType::Left => {
                        if let Some(w) = waiting {
                            if w != curr {
                                return Err(StreamError::EpochMismatch);
                            }
                        }
                        self.last_left = Some(curr);
                    },
                    SideType::Right => {
                        if let Some(w) = waiting {
                            if w != curr {
                                return Err(StreamError::EpochMismatch);
                            }
                        }
                        self.last_right = Some(curr);
                    },
                }
                if waiting.is_some() {
                    self.parked = None;
                    Ok(Some(AlignedMessage::Barrier(b)))
                } else {
                    self.parked = Some((side, b));
                    Ok(None)
                }
            },
        }
    }
}

fn side_eq(a: SideType, b: SideType) -> (r: bool)
    ensures
        r == (a == b),
{
    match (a, b) {
        (SideType::Left, SideType::Left) => true,
        (SideType::Right, SideType::Right) => true,
        _ => false,
    }
}

fn forward_message(side: SideType, item: Result<StreamChunk, StreamError>) -> (m: AlignedMessage)
    ensures
        m == forward(side, item),
{
    match side {
        SideType::Left => AlignedMessage::Left(item),
        SideType::Right => AlignedMessage::Right(item),
    }
}

/// What one input contributes to the order of things: a chunk, an error, or
/// the epoch of a barrier.
pub enum Event {
    Chunk(StreamChunk),
    Error(StreamError),
    Barrier(u64),
}

pub open spec fn event_of(msg: Result<Message, StreamError>) -> Event {
    match msg {
        Err(e) => Event::Error(e),
        Ok(Message::Chunk(c)) => Event::Chunk(c),
        Ok(Message::Barrier(b)) => Event::Barrier(b.epoch.curr),
    }
}

/// The events of input `side` among `inputs`, in order.
pub open spec fn input_events(
    inputs: Seq<(SideType, Result<Message, StreamError>)>,
    side: SideType,
) -> Seq<Event>
    decreases inputs.len(),
{
    if inputs.len() == 0 {
        Seq::empty()
    } else {
        let before = input_events(inputs.drop_last(), side);
        if inputs.last().0 == side {
            before.push(event_of(inputs.last().1))
        } else {
            before
        }
    }
}

/// The events among `outs` that concern input `side`, in order: its chunks
/// and errors, and every barrier.
pub open spec fn output_events(outs: Seq<AlignedMessage>, side: SideType) -> Seq<Event>
    decreases outs.len(),
{
    if outs.len() == 0 {
        Seq::empty()
    } else {
        let before = output_events(outs.drop_last(), side);
        match outs.last() {
            AlignedMessage::Barrier(b) => before.push(Event::Barrier(b.epoch.curr)),
            AlignedMessage::Left(item) => if side == SideType::Left {
                before.push(
                    match item {
                        Ok(c) => Event::Chunk(c),
                        Err(e) => Event::Error(e),
                    },
                )
            } else {
                before
            },
            AlignedMessage::Right(item) => if side == SideType::Right {
                before.push(
                    match item {
                        Ok(c) => Event::Chunk(c),
                        Err(e) => Event::Error(e),
                    },
                )
            } else {
                before
            },
        }
    }
}

/// The barrier of input `side` that the aligner holds back, as an event.
pub open spec fn parked_events(s: AlignerState, side: SideType) -> Seq<Event> {
    match s.parked {
        Some((p, b)) => if p == side {
            seq![Event::Barrier(b.epoch.curr)]
        } else {
            Seq::empty()
        },
        None => Seq::empty(),
    }
}

/// The state and the output after the aligner took `inputs` one by one from
/// state `s`, or `None` if it refused one of them.
pub open spec fn run(s: AlignerState, inputs: Seq<(SideType, Result<Message, StreamError>)>) -> Option<
    (AlignerState, Seq<AlignedMessage>),
>
    decreases inputs.len(),
{
    if inputs.len() == 0 {
        Some((s, Seq::empty()))
    } else {
        match run(s, inputs.drop_last()) {
            None => None,
            Some((mid, outs)) => {
                let (answer, next) = align_step(mid, inputs.last().0, inputs.last().1);
                match answer {
                    Err(_) => None,
                    Ok(None) => Some((next, outs)),
                    Ok(Some(m)) => Some((next, outs.push(m))),
                }
            },
        }
    }
}

/// No output straddles a barrier. For each input, what the aligner has handed
/// on is what that input delivered, in the same order: its chunks between the
/// same barriers, and every barrier where that input had it, but for a barrier
/// that still waits for the other input.
pub proof fn lemma_alignment(
    s: AlignerState,
    inputs: Seq<(SideType, Result<Message, StreamError>)>,
    side: SideType,
)
    requires
        run(s, inputs).is_some(),
    ensures
        parked_events(s, side) + input_events(inputs, side) == output_events(
            run(s, inputs).unwrap().1,
            side,
        ) + parked_events(run(s, inputs).unwrap().0, side),
    decreases inputs.len(),
{
    let (end, outs) = run(s, inputs).unwrap();
    if inputs.len() == 0 {
        assert(parked_events(s, side) + input_events(inputs, side) =~= output_events(outs, side)
            + parked_events(end, side));
    } else {
        let (mid, outs0) = run(s, inputs.drop_last()).unwrap();
        lemma_alignment(s, inputs.drop_last(), side);
        let from = inputs.last().0;
        let msg = inputs.last().1;
        let (answer, next) = align_step(mid, from, msg);
        assert(end == next);
        match answer {
            Err(_) => {},
            Ok(None) => {
                assert(outs == outs0);
            },
            Ok(Some(m)) => {
                assert(outs == outs0.push(m));
                assert(outs.drop_last() =~= outs0);
            },
        }
        assert(parked_events(s, side) + input_events(inputs, side) =~= output_events(outs, side)
            + parked_events(end, side));
    }
}

} // verus!
