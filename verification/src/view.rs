//! What the views show: decisions behind the user interface.

pub mod connection;
pub mod filter;
pub mod status;
pub mod stream;
pub mod summary;
pub mod transmit;
