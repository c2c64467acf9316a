//! A day-partitioned store of labelled time intervals.
//!
//! A day is recorded as a sequence of blocks, each a half-open interval of
//! time with a category and a title. The blocks are filed by the calendar
//! date on which they close, one record per date. This crate holds the
//! records in memory and states, and proves, what each operation does to
//! them; reading and writing the records is left to the caller.

pub mod analysis;
pub mod blocktype;
pub mod currentblock;
pub mod duration;
pub mod error;
pub mod handlers;
pub mod migrator;
pub mod store;
pub mod sync;
pub mod time;
pub mod timeblock;
pub mod timestamp;
