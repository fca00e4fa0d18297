//! A gate-level digital logic simulator: a four-valued signal model, an
//! event-driven scheduler with per-link propagation delays, a staged
//! construction protocol, and a library of circuits composed from NAND gates.

pub mod adder;
pub mod assembly;
pub mod circuit;
pub mod coherence;
pub mod collection;
pub mod cpu0;
pub mod creator;
pub mod demux;
pub mod element;
pub mod holding;
pub mod laws;
pub mod levels;
pub mod logic_gates;
pub mod mux;
pub mod nand;
pub mod netlist;
pub mod node;
pub mod obedience;
pub mod part;
pub mod pin;
pub mod queue;
pub mod rest;
pub mod rom;
pub mod settling;
pub mod sim;
pub mod split;
pub mod storage;
pub mod sums;
pub mod switches;
pub mod truths;
pub mod wellformed;
pub mod word;
pub mod zones;
