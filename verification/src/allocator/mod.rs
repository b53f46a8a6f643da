//! The in-buffer heap and the handles to its allocations.

pub mod arc;
pub mod laws;
pub mod page;
pub mod pool;
pub mod raw;
pub mod text;
pub mod view;
pub mod words;
