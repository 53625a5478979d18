//! A string type that can carry ruby glosses: short annotations (usually
//! readings) attached to parts of a text.
//!
//! The text and the glosses are each stored packed in a single buffer, with a
//! list of byte-offset placements telling which span of the text carries which
//! span of the glosses.
//!
//! - `segment`: a run of text, plain or with one gloss, and its model.
//! - `string`: `RubyString`, the packed container, which only grows by appending.
//! - `iterator`: `SegmentIterator`, a cursor that hands the runs back out as
//!   views into the container's buffers.
//! - `laws`: what holds between pushing, iterating and encoding.
//! - `text`: UTF-8 byte offsets of character sequences.
pub mod iterator;
pub mod laws;
pub mod segment;
pub mod string;
pub mod text;

pub use iterator::SegmentIterator;
pub use segment::Segment;
pub use string::RubyString;
