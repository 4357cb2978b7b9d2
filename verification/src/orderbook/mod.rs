//! The order book: its types, the model its contracts are written in,
//! the matching engine, and the laws that hold across its operations.

pub mod book;
pub mod laws;
pub mod model;
pub mod types;
