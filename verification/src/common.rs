//! Utilities shared by both sides of a transfer.

pub mod counter;
pub mod hash;
pub mod registry;
pub mod text;
pub mod transfer_state;
