//! An interactive picker over a list of named candidates (branch names).
//!
//! The crate owns the selection engine: a matcher that filters and ranks
//! candidates by a literal substring query, and a state machine that tracks
//! the query, the filtered view and the cursor as key events arrive.
//! Terminal drawing and command execution are left to the caller.

pub mod branches;
pub mod cli;
pub mod matcher;
pub mod text;
