//! The target machine: its registers, devices and instructions.
pub mod instructions;
pub mod text;
pub mod types;
