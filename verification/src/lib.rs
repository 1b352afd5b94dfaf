//! Wiring: a wire format for sending values over byte streams.
//!
//! Every value is written as a deterministic sequence of bytes (integers in
//! big-endian order, sequences and strings behind a `u64` length, enums behind a
//! tag), and read back by the matching decoder.
use vstd::prelude::*;

pub mod error;
pub mod endian;
pub mod wire;
pub mod unwire;
pub mod compound;
pub mod listener;
pub mod wired;
pub mod collections;
pub mod attributes;
pub mod laws;

verus! {

} // verus!
