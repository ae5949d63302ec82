//! The producer element: user logic with one output channel, adapted to
//! the scheduler's task contract.

use vstd::prelude::*;
use lossyq::spsc::Sender;
use crate::{
    ChannelId, ChannelWrapper, Message, ReceiverChannelId, Schedule, SenderChannelId,
    SenderName, Task,
};

verus! {

/// User logic producing messages into one output channel.
pub trait Source {
    type OutputType: Send;

    /// One short production step; says what to wait for next.
    fn process(&mut self, output: &mut Sender<Message<Self::OutputType>>) -> Schedule;
}

/// Adapter that runs a `Source` as a scheduler task: one output channel,
/// no inputs.
pub struct SourceWrap<S: Source> {
    name: String,
    state: S,
    output_tx: Sender<Message<S::OutputType>>,
}

impl<S: Source> Task for SourceWrap<S> {
    closed spec fn name_spec(&self) -> Seq<char> {
        self.name@
    }

    closed spec fn input_count_spec(&self) -> int {
        0
    }

    closed spec fn output_count_spec(&self) -> int {
        1
    }

    closed spec fn input_spec(&self, i: int) -> Option<(ChannelId, Seq<char>)> {
        None
    }

    fn execute(&mut self) -> Schedule {
        self.state.process(&mut self.output_tx)
    }

    fn name(&self) -> (r: &String) {
        &self.name
    }

    fn input_count(&self) -> (r: usize) {
        0
    }

    fn output_count(&self) -> (r: usize) {
        1
    }

    fn input_id(&self, ch_id: ReceiverChannelId) -> (r: Option<(ChannelId, SenderName)>) {
        None
    }

    fn output_seqno(&self, idx: SenderChannelId) -> usize {
        self.output_tx.seqno()
    }
}

/// Build a source task and the receiving half of its output channel,
/// handed back for downstream wiring.
pub fn new<S: Source>(name: &str, output_q_size: usize, source: S) -> (r: (
    SourceWrap<S>,
    ChannelWrapper<S::OutputType>,
))
    ensures
        r.0.name_spec() == name@,
        r.0.input_count_spec() == 0,
        r.0.output_count_spec() == 1,
        r.1 is SenderNotConnected,
        r.1->SenderNotConnected_0 == SenderChannelId(0),
        r.1->SenderNotConnected_2.0@ == name@,
{
    let (output_tx, output_rx) = lossyq::spsc::channel(output_q_size);
    (
        SourceWrap { name: name.to_owned(), state: source, output_tx },
        ChannelWrapper::SenderNotConnected(
            SenderChannelId(0),
            output_rx,
            SenderName(name.to_owned()),
        ),
    )
}

} // verus!
