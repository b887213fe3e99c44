//! Scoped sandboxes for code that changes the working directory and the
//! environment of the process.
//!
//! The library holds the decisions: which variables a closing sandbox removes
//! and sets, what a sandbox asks its owner to undo and when, and which error a
//! scoped run reports. The owner performs the effects (entering and leaving
//! directories, reading and writing the environment) and hands the outcomes
//! back as plain values.

pub mod env;
pub mod error;
pub mod jail;
pub mod scope;
