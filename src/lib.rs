//! A persistent key-value store whose entries may carry an expiry time.
pub mod timestamp;
pub mod memo;
pub mod command;
