//! The lossy single-producer/single-consumer channel, as the scheduler
//! sees it: an opaque queue pair whose producer half exposes a monotonic
//! sequence number.

use vstd::prelude::*;

verus! {

#[verifier::external_type_specification]
#[verifier::external_body]
#[verifier::reject_recursive_types(T)]
pub struct ExSender<T>(lossyq::spsc::Sender<T>);

#[verifier::external_type_specification]
#[verifier::external_body]
#[verifier::reject_recursive_types(T)]
pub struct ExReceiver<T>(lossyq::spsc::Receiver<T>);

/// Relies on lossyq::spsc::channel: builds the two halves of a bounded
/// lossy queue (a zero size is silently raised to one).
pub assume_specification<T: Send>[ lossyq::spsc::channel::<T> ](size: usize) -> (r: (
    lossyq::spsc::Sender<T>,
    lossyq::spsc::Receiver<T>,
));

/// Relies on lossyq::spsc::Sender::seqno: reads how many messages were
/// ever put into the channel; nothing is assumed of the value.
pub assume_specification<T: Send>[ lossyq::spsc::Sender::<T>::seqno ](
    s: &lossyq::spsc::Sender<T>,
) -> usize;

} // verus!
