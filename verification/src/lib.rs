//! CAN bus explorer: the logic behind the application, with proofs.

pub mod bus;
pub mod candump;
pub mod device;
pub mod msg;
pub mod number;
pub mod symbols;
pub mod text;
pub mod view;
