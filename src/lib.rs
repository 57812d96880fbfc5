//! Streaming transforms over a corpus of records: a length filter, a
//! bounded-memory local shuffle, and the random-removal buffer behind it.
//!
//! Each stage is a step function: it is handed what the upstream source
//! returned on one pull and answers with the next action. The loop that
//! pulls from a file-backed source lives with the caller.

pub mod filter;
pub mod pipeline;
pub mod shuffle;
pub mod source;
pub mod util;

pub use filter::LengthFilter;
pub use pipeline::Pipeline;
pub use shuffle::Shuffled;
pub use source::{Measured, Record, Step};
pub use util::RandomRemoveVec;
