//! A multi-threaded, in-process task scheduler for dataflow pipelines.
//!
//! Tasks register under unique names with a scheduling rule; a paged
//! registry maps dense task identifiers to control blocks, a dependency
//! resolver wires producer/consumer wake edges, and worker sweeps drive
//! each task's scheduling state machine.

use vstd::prelude::*;

pub mod scheduler;
pub mod elem;

verus! {

/// Errors returned from registration and notification; the execution hot
/// path never produces them.
#[derive(Copy, Clone, Debug, PartialEq, Eq, Structural)]
pub enum Error {
    Busy,
    NonExistent,
    Stopping,
    AlreadyExists,
}

/// An inclusive range of message sequence numbers, as acknowledged in-band.
#[derive(Copy, Clone, Debug, PartialEq, Eq, Structural)]
pub struct InclusiveMessageRange {
    pub from: usize,
    pub to: usize,
}

/// A position (sequence number) within a channel.
#[derive(Copy, Clone, Debug, PartialEq, Eq, Structural)]
pub struct ChannelPosition(pub usize);

/// The carrier exchanged on channels; opaque to the scheduler except for
/// the channel's sequence number.
#[derive(Copy, Clone, Debug)]
pub enum Message<T> {
    Empty,
    Value(T),
    Ack(InclusiveMessageRange),
    Error(ChannelPosition, &'static str),
}

/// Index of an output channel on the sending task.
#[derive(Copy, Clone, Debug, PartialEq, Eq, Structural)]
pub struct SenderChannelId(pub usize);

/// Index of an input channel on the receiving task.
#[derive(Copy, Clone, Debug, PartialEq, Eq, Structural)]
pub struct ReceiverChannelId(pub usize);

/// A channel is identified by the producer's output index paired with the
/// consumer's input index.
#[derive(Copy, Clone, Debug, PartialEq, Eq, Structural)]
pub struct ChannelId {
    pub sender_id: SenderChannelId,
    pub receiver_id: ReceiverChannelId,
}

/// A relative delay, in microseconds from now.
#[derive(Copy, Clone, Debug, PartialEq, Eq, Structural)]
pub struct DelayFromNowInUsec {
    pub n_usec: usize,
}

/// The period of a time-driven task, in microseconds.
#[derive(Copy, Clone, Debug, PartialEq, Eq, Structural)]
pub struct PeriodLengthInUsec(pub usize);

/// What a task asks to wait for next, returned from `execute`.
#[derive(Copy, Clone, Debug, PartialEq, Eq, Structural)]
pub enum Schedule {
    Loop,
    OnMessage(ChannelId, ChannelPosition),
    DelayUsec(DelayFromNowInUsec),
    OnExternalEvent,
    Stop,
}

/// Absolute scheduler time, microseconds since scheduler start.
#[derive(Copy, Clone, Debug, PartialEq, Eq, Structural)]
pub struct AbsSchedulerTimeInUsec(pub usize);

/// Dense task identifier; ids start at 1, 0 is reserved as null.
#[derive(Copy, Clone, Debug, PartialEq, Eq, Structural)]
pub struct TaskId(pub usize);

/// Identifier of a sending task, as recorded in a wait state.
#[derive(Copy, Clone, Debug, PartialEq, Eq, Structural)]
pub struct SenderId(pub usize);

/// Name of a producer task, used only for resolution at wiring time.
#[derive(Clone, Debug, PartialEq)]
pub struct SenderName(pub String);

/// Name of a consumer task, used only for resolution at wiring time.
#[derive(Clone, Debug, PartialEq)]
pub struct ReceiverName(pub String);

/// Sequence number of external trigger events.
#[derive(Copy, Clone, Debug, PartialEq, Eq, Structural)]
pub struct ExtEventSeqno(pub usize);

/// The per-task scheduling state machine's states.
#[derive(Copy, Clone, Debug, PartialEq, Eq, Structural)]
pub enum TaskState {
    Execute,
    TimeWait(AbsSchedulerTimeInUsec),
    MessageWait(SenderId, ChannelId, ChannelPosition),
    MessageWaitNeedSenderId(ChannelId, ChannelPosition),
    ExtEventWait(ExtEventSeqno),
    Stop,
}

/// Events that drive the per-task state machine, besides the schedule a
/// task returns from `execute`.
#[derive(Copy, Clone, Debug)]
pub enum Event {
    User(Schedule),
    Execute,
    TimerExpired,
    MessageArrived,
    ExtTrigger,
    Delay,
}

/// The scheduling rule chosen at registration, immutable thereafter.
#[derive(Copy, Clone, Debug, PartialEq, Eq, Structural)]
pub enum SchedulingRule {
    Loop,
    OnMessage,
    OnExternalEvent,
    Periodic(PeriodLengthInUsec),
    Stop,
}

/// The contract a pipeline element implements so that the scheduler can
/// run it. The ghost functions fix, for contracts, the name the task
/// registers under, its channel counts, and its declared input wiring;
/// the executable methods must agree with them.
pub trait Task {
    /// The task's registration name.
    spec fn name_spec(&self) -> Seq<char>;

    /// How many input channels the task declares.
    spec fn input_count_spec(&self) -> int;

    /// How many output channels the task declares.
    spec fn output_count_spec(&self) -> int;

    /// The upstream channel and producer name feeding local input `i`,
    /// if declared.
    spec fn input_spec(&self, i: int) -> Option<(ChannelId, Seq<char>)>;

    /// Run one short, non-blocking step of the task's work and say what
    /// to wait for next.
    fn execute(&mut self) -> Schedule;

    /// The task's name; must match `name_spec`.
    fn name(&self) -> (r: &String)
        ensures
            r@ == self.name_spec(),
    ;

    /// Number of declared input channels.
    fn input_count(&self) -> (r: usize)
        ensures
            r as int == self.input_count_spec(),
    ;

    /// Number of declared output channels.
    fn output_count(&self) -> (r: usize)
        ensures
            r as int == self.output_count_spec(),
    ;

    /// Which upstream channel feeds local input `ch_id`, and under what
    /// producer name; must match `input_spec`.
    fn input_id(&self, ch_id: ReceiverChannelId) -> (r: Option<(ChannelId, SenderName)>)
        ensures
            match r {
                Some(p) => self.input_spec(ch_id.0 as int) == Some((p.0, p.1.0@)),
                None => self.input_spec(ch_id.0 as int) is None,
            },
    ;

    /// The current sequence number of output channel `idx`. The scheduler
    /// snapshots these around `execute` to detect message emission.
    fn output_seqno(&self, idx: SenderChannelId) -> usize;
}


/// A channel end at wiring time: not yet connected, or carrying the
/// receiving half of a lossy queue together with the peer's name.
#[verifier::reject_recursive_types(Input)]
pub enum ChannelWrapper<Input> {
    ReceiverNotConnected(ReceiverChannelId, ReceiverName),
    ConnectedReceiver(ChannelId, lossyq::spsc::Receiver<Message<Input>>, SenderName),
    SenderNotConnected(SenderChannelId, lossyq::spsc::Receiver<Message<Input>>, SenderName),
    ConnectedSender(ChannelId, ReceiverName),
}

} // verus!
