//! A CHIP-8 virtual machine core: memory, display, register file and the
//! fetch-decode-execute engine, each stated against a mathematical model.

pub mod cpu;
pub mod error;
pub mod interconnect;

pub use cpu::{decode, Cpu, Instruction};
pub use error::Chip8Error;
pub use interconnect::Interconnect;
