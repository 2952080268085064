//! A discrete-time economy simulator.
//!
//! A fixed set of named resources (bounded stocks, optionally decaying) is
//! transformed by named processes (rules that consume inputs, require
//! catalysts, and produce outputs) under periodic and time-windowed
//! scheduling constraints. The engine advances in one-second ticks and
//! reports resource levels over time.
//!
//! Quantities are fixed-point integers: a caller picks a unit granularity
//! (the bundled definition-file parser uses thousandths) and every amount,
//! capacity and per-invocation quantity is a whole number of those units.

pub mod constraint;
pub mod laws;
pub mod names;
pub mod parser;
pub mod process;
pub mod resource;
pub mod simulation;
pub mod throughput;
