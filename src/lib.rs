//! Inspect and change the memory of another process through a small
//! line-oriented command protocol: attach to a process, read bytes, write bytes.
//!
//! The library holds the parts that decide: the command parser, the process
//! directory built from an enumeration, and the session state machine. The
//! operating-system calls that enumerate processes and move bytes between
//! address spaces are made by the program around it.

pub mod text;
pub mod command;
pub mod directory;
pub mod session;
