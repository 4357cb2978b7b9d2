//! A price-time priority matching engine for a single instrument, with the
//! command language of its interactive prompt.

pub mod cli;
pub mod modes;
pub mod orderbook;
