//! A streaming merge of two independently sorted sequences.
//!
//! The engine combines two non-decreasing sequences of "value or read
//! failure" events into one strictly increasing, duplicate-free sequence,
//! while lazily checking that each input really is non-decreasing and while
//! propagating read failures from the underlying sources.

pub mod events;
pub mod merge;
pub mod order;
