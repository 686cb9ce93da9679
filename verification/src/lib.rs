//! A small task-list manager: named lists of tasks with optional due
//! dates, a single focused list, and a byte-level codec for persisting
//! the whole store to a file.

pub mod codec;
pub mod date;
pub mod store;
pub mod tasks;
