//! Renders several concurrent progress indicators inside a fixed-height
//! terminal viewport.
//!
//! The heart of the crate is [`RowManager`]: it owns a growable collection of
//! [`Indicator`] values, tracks which of a bounded set of row slots are
//! occupied or free, and on every notification decides whether to compact the
//! visible rows, hide a newly completed indicator, or promote a waiting one
//! into a freed slot.  [`Writer`] delivers raw bytes to a terminal stream and
//! can position output at a row offset below the current cursor line.

mod indicator;
pub mod laws;
mod manager;
mod slots;
mod writer;

pub use indicator::Indicator;
pub use manager::leave_line_bytes;
pub use manager::RowManager;
pub use slots::SlotSet;
pub use writer::encode_print_at;
pub use writer::Writer;
