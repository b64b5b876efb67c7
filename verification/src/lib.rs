//! A small configuration language: package dependency trees that are staged
//! into install levels, and single-argument function definitions that are
//! composed into a registry of callables.

pub mod functions;
pub mod graph;
pub mod lexer;
pub mod output;
pub mod packages;
pub mod text;
pub mod types;
