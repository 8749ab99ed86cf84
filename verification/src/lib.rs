//! Interprocedural taint analysis over a control-flow-graph representation.
//!
//! Values produced by *source* functions are tainted. The analysis reports every
//! call of a *sink* function that may receive a tainted argument, unless the value
//! went through a *sanitizer* first.
//!
//! The program to analyse is given as a [`mir::Program`]. The entry points are in
//! [`eval`]; they return the findings as a list of [`diagnostics::Diagnostic`].

// The program representation.
pub mod mir;

// The domain: taint states, alias maps, and both together.
pub mod taint_state;
pub mod points;
pub mod taint_domain;

// Findings and the summary cache, and what one run shares of them.
pub mod contexts;
pub mod diagnostics;

// The fixpoint engine over a graph of blocks.
pub mod graph;
pub mod engine;

// The transfer function and the analysis that drives it.
pub mod transfer;
pub mod progress;
pub mod taint_analysis;
pub mod eval;

// What holds of every analysis.
pub mod laws;
pub mod call_graph;
pub mod transparency;

// What the compiler driver decides before it starts the compiler.
pub mod driver;
