//! Pipeline elements the scheduler runs: adapters that wrap user logic
//! into tasks wired by lossy single-producer/single-consumer channels.

pub mod chan;
pub mod source;
pub mod scatter;
