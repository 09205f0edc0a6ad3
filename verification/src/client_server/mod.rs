//! A server that rules over numbers, and clients that ask it.

pub mod authority;
pub mod controller;
pub mod puppet;
