//! Core logic of a speed-enforcement telemetry server and of a reliable
//! byte-stream session protocol carried over datagrams, with a few small
//! companion services.

mod text;
mod wire;

pub mod camera;
pub mod client;
pub mod collector;
pub mod connection;
pub mod escape;
pub mod frame;
pub mod mob;
pub mod netcrab;
pub mod pricetime;
pub mod primes;
pub mod reverse;
pub mod server;
pub mod session;
pub mod timeprice;
pub mod unusual;

pub use wire::{DecodeError, Decoding};
