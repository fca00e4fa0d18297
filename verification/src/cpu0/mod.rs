//! The building blocks of a small processor.

pub mod alu;
pub mod params;
pub mod register_bank;
