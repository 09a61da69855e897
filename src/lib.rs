//! Static recovery of the 4-byte function selectors that EVM bytecode
//! dispatches on, by a gas-bounded abstract interpretation of the code.
//!
//! `decoder` finds instruction boundaries and valid jump destinations,
//! `interpreter` executes one instruction on abstract values, `analysis`
//! walks the branches under the gas budget, `encoding` turns the result into
//! bytes for a caller's buffer, and `laws` proves what holds across calls.
pub mod analysis;
pub mod decoder;
pub mod encoding;
pub mod interpreter;
pub mod laws;
