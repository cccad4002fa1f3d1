//! A discrete-event timeline: a virtual clock that only moves forward, and
//! entries scheduled against it that are handed out in time order.
//!
//! Times are whole ticks of the virtual clock. An entry is a value that
//! becomes due at a fixed time; scheduling returns a handle by which the entry
//! can be cancelled for as long as it is pending. A step takes the next live
//! entry out, moves the clock to its time and hands it to the caller, who may
//! schedule and cancel further entries before the next step.
//!
//! - [`timeline`] holds the clock and the operations.
//! - [`queue`] orders the keys of the pending entries, [`store`] keeps the
//!   entries themselves, and [`entry`] defines them.
//! - [`moment`] is the timeline as a mathematical value, over which the
//!   operations are stated, and [`laws`] proves what follows for every
//!   timeline.

pub mod entry;
pub mod laws;
pub mod moment;
pub mod queue;
pub mod store;
pub mod timeline;

pub use entry::{CausalityViolation, Handle, Trigger};
pub use moment::Moment;
pub use queue::{Key, Queue};
pub use store::Store;
pub use timeline::Timeline;
