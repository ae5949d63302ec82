//! The scatter element: user logic reading one input channel and fanning
//! out to several output channels, adapted to the scheduler's task
//! contract.

use vstd::prelude::*;
use lossyq::spsc::{Receiver, Sender};
use crate::{
    ChannelId, ChannelWrapper, DelayFromNowInUsec, Message, ReceiverChannelId, Schedule,
    SenderChannelId, SenderName, Task,
};

verus! {

/// User logic consuming one input channel and producing into many.
pub trait Scatter {
    type InputType: Send;
    type OutputType: Send;

    /// One short processing step; says what to wait for next.
    fn process(
        &mut self,
        input: &mut Receiver<Message<Self::InputType>>,
        output: &mut Vec<Sender<Message<Self::OutputType>>>,
    ) -> Schedule;
}

/// Adapter that runs a `Scatter` as a scheduler task: one input channel,
/// resolved by the producer's name at wiring time, and a fan of outputs.
pub struct ScatterWrap<S: Scatter> {
    name: String,
    state: S,
    input_ch: ChannelId,
    input_from: SenderName,
    input_rx: Option<Receiver<Message<S::InputType>>>,
    output_tx_vec: Vec<Sender<Message<S::OutputType>>>,
}

impl<S: Scatter> ScatterWrap<S> {
    /// Whether the input channel has been wired up.
    pub closed spec fn connected(&self) -> bool {
        self.input_rx is Some
    }

    /// Wire the input: the receiving half of the upstream channel, with
    /// the upstream channel id and producer name used for wake edges.
    pub fn connect(
        &mut self,
        ch: ChannelId,
        from: SenderName,
        rx: Receiver<Message<S::InputType>>,
    )
        ensures
            final(self).connected(),
            final(self).input_spec(0) == Some::<(ChannelId, Seq<char>)>((ch, from.0@)),
            final(self).name_spec() == old(self).name_spec(),
            final(self).output_count_spec() == old(self).output_count_spec(),
    {
        self.input_ch = ch;
        self.input_from = from;
        self.input_rx = Some(rx);
    }
}

impl<S: Scatter> Task for ScatterWrap<S> {
    closed spec fn name_spec(&self) -> Seq<char> {
        self.name@
    }

    closed spec fn input_count_spec(&self) -> int {
        1
    }

    closed spec fn output_count_spec(&self) -> int {
        self.output_tx_vec@.len() as int
    }

    closed spec fn input_spec(&self, i: int) -> Option<(ChannelId, Seq<char>)> {
        if i == 0 && self.input_rx is Some {
            Some((self.input_ch, self.input_from.0@))
        } else {
            None
        }
    }

    fn execute(&mut self) -> (r: Schedule)
        ensures
            !old(self).connected() ==> r == Schedule::DelayUsec(
                DelayFromNowInUsec { n_usec: 10_000 },
            ),
    {
        match self.input_rx.as_mut() {
            Some(rx) => self.state.process(rx, &mut self.output_tx_vec),
            None => Schedule::DelayUsec(DelayFromNowInUsec { n_usec: 10_000 }),
        }
    }

    fn name(&self) -> (r: &String) {
        &self.name
    }

    fn input_count(&self) -> (r: usize) {
        1
    }

    fn output_count(&self) -> (r: usize) {
        self.output_tx_vec.len()
    }

    fn input_id(&self, ch_id: ReceiverChannelId) -> (r: Option<(ChannelId, SenderName)>) {
        if ch_id.0 == 0 && self.input_rx.is_some() {
            Some((self.input_ch, SenderName(self.input_from.0.clone())))
        } else {
            None
        }
    }

    fn output_seqno(&self, idx: SenderChannelId) -> usize {
        if idx.0 < self.output_tx_vec.len() {
            self.output_tx_vec[idx.0].seqno()
        } else {
            0
        }
    }
}

/// Build a scatter task with `n_channels` output channels; the receiving
/// halves are handed back for downstream wiring. The input is connected
/// later through `connect`.
pub fn new<S: Scatter>(name: &str, output_q_size: usize, scatter: S, n_channels: usize) -> (r: (
    ScatterWrap<S>,
    Vec<ChannelWrapper<S::OutputType>>,
))
    ensures
        r.0.name_spec() == name@,
        r.0.input_count_spec() == 1,
        r.0.output_count_spec() == n_channels,
        !r.0.connected(),
        r.1@.len() == n_channels,
        forall|i: int| 0 <= i < n_channels ==> {
            &&& (#[trigger] r.1@[i]) is SenderNotConnected
            &&& r.1@[i]->SenderNotConnected_0 == SenderChannelId(i as usize)
            &&& r.1@[i]->SenderNotConnected_2.0@ == name@
        },
{
    let mut tx_vec: Vec<Sender<Message<S::OutputType>>> = Vec::new();
    let mut rx_vec: Vec<ChannelWrapper<S::OutputType>> = Vec::new();
    let mut i: usize = 0;
    while i < n_channels
        invariant
            i <= n_channels,
            tx_vec@.len() == i,
            rx_vec@.len() == i,
            forall|j: int| 0 <= j < i ==> {
                &&& (#[trigger] rx_vec@[j]) is SenderNotConnected
                &&& rx_vec@[j]->SenderNotConnected_0 == SenderChannelId(j as usize)
                &&& rx_vec@[j]->SenderNotConnected_2.0@ == name@
            },
        decreases n_channels - i,
    {
        let (output_tx, output_rx) = lossyq::spsc::channel(output_q_size);
        tx_vec.push(output_tx);
        rx_vec.push(ChannelWrapper::SenderNotConnected(
            SenderChannelId(i),
            output_rx,
            SenderName(name.to_owned()),
        ));
        i += 1;
    }
    (
        ScatterWrap {
            name: name.to_owned(),
            state: scatter,
            input_ch: ChannelId {
                sender_id: SenderChannelId(0),
                receiver_id: ReceiverChannelId(0),
            },
            input_from: SenderName(name.to_owned()),
            input_rx: None,
            output_tx_vec: tx_vec,
        },
        rx_vec,
    )
}

} // verus!
