//! Core of a just-in-time compiler for interpreter-style virtual machines.
//!
//! A client describes a virtual machine as a dataflow graph of branch-free
//! operations together with a control-flow tree of guarded hot and cold
//! paths.  This crate turns such a description into an extended basic block
//! with registers allocated and instructions scheduled, and provides an
//! x86-64 assembler that emits the corresponding machine bytes into a
//! growable code buffer with patchable forward jumps.

pub mod allocator;
pub mod assembler;
pub mod buffer;
pub mod builder;
pub mod cft;
pub mod code;
pub mod codegen;
pub mod dataflow;
pub mod flood;
pub mod keep_alive;
pub mod util;
pub mod x86_64;
