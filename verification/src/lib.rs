//! Orchestrates a named set of independent deployable units ("stacks"),
//! each with its own working directory and service definition, applying
//! lifecycle commands across them in an order that respects declared
//! inter-stack dependencies.
//!
//! The library owns the dependency-graph model and its ordering
//! algorithms, the composition of the external-process invocation for
//! each stack, and the fail-fast multi-stack dispatch. Reading the
//! configuration file, command-line parsing and actually spawning
//! processes are left to the surrounding program.

pub mod commands;
pub mod config;
pub mod error;
pub mod exec;
pub mod program;
pub mod text;
