//! The protocol: discovery, offer negotiation and file transfer.

pub mod control;
pub mod data;
pub mod discovery;
pub mod ledger;
pub mod offers;
pub mod peers;
