//! A positional binary delta codec.
//!
//! Two byte buffers are compared position by position. Every run of
//! differing bytes becomes a record that carries the target's bytes, and the
//! records, written one after another, form the delta. Replaying a delta on
//! the base buffer rebuilds the target.
//!
//! The delta exists in two layouts, named by [`format::Format`]: a plain
//! stream of records that covers the common prefix of the two buffers, and an
//! extended layout that starts with a header and may end with the tail of a
//! longer target.

pub mod apply;
pub mod encode;
pub mod format;
pub mod progress;
pub mod record;
pub mod round_trip;
pub mod scan;
pub mod shape;
