//! Session registry and delivery routing for a hub that relays files to
//! named client devices.
//!
//! The crate holds the sequential core of the hub: who is online, which
//! delivery queue belongs to whom, how a file travels as a pair of frames,
//! and what each side does with the frames it reads. Sockets, tasks and
//! locks stay with the program that embeds it; every operation here is one
//! atomic step that such a program performs under its own exclusion.

pub mod config;
pub mod endpoint;
pub mod history;
pub mod hub;
pub mod inbox;
pub mod protocol;
pub mod registry;
pub mod sink;
pub mod text;
