//! Protocol engine of a peer-to-peer file transfer tool for a local network.
//!
//! Peers find each other with a broadcast probe, negotiate over a control
//! channel which files may be sent, and move each file over a data channel
//! of its own, guarded by a SHA-256 digest. Everything here works on plain
//! values (bytes, integers, the types of this crate); sockets, files, clocks
//! and threads belong to the program around it.

pub mod common;
pub mod gui;
pub mod networking;
