//! What the presentation layer hands to the protocol.

pub mod app;
