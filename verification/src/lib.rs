//! Log aggregation for an on-screen log window, together with the small
//! state machines that drive the sheet viewer around it.
//!
//! A log emission is a severity and a free-form text. The text is cut into
//! lines, each line into chunks of a bounded width, and every chunk that is
//! valid UTF-8 becomes a fragment. Fragments are appended to a [`LogStore`],
//! where a fragment equal to the text of the last row is counted on that row
//! instead of being stored again.

pub mod fragment;
pub mod laws;
pub mod lines;
pub mod split;
pub mod store;
pub mod viewer;

pub use crate::store::{LogItem, LogLevel, LogStore};
