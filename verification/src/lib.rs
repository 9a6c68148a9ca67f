//! A task queue kept in a key-value store, with its behaviour stated in contracts.

pub mod calls;
pub mod clock;
pub mod error;
pub mod forms;
pub mod key;
pub mod laws;
pub mod memory;
pub mod queue;
pub mod segment;
pub mod select;
pub mod store;
pub mod task;
pub mod text;
