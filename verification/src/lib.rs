//! A small task tracker: an in-memory store of tasks with unique ids,
//! partial updates, status changes, filtered listing, and a JSON
//! persistence format that round-trips losslessly.

pub mod codec;
pub mod store;
pub mod task;
