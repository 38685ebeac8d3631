//! A consistent, deduplicated and time-bounded view of marketplace listings,
//! fed by snapshots and by an event stream.

pub mod bptf;
pub mod db;
pub mod digest;
pub mod event;
pub mod source;
pub mod text;
pub mod types;

