//! A delegated authorization engine for nested invocations between
//! mutually distrusting units.
//!
//! A principal declares trees of invocations that it accepts in advance.
//! While a tree of calls runs, every checkpoint asks whether a principal has
//! consented to the call that is executing; the engine matches the call
//! against the declared trees, consumes what it matches, and opens the
//! matched node's children to the calls nested below.
//!
//! - [`context`] and [`node`] hold the data model: principals, invocation
//!   contexts and authorization trees.
//! - [`pool`] holds the pending declarations and the scan that consumes one.
//! - [`tracker`] holds the stack of active frames.
//! - [`engine`] puts them together: declaring, entering and leaving calls,
//!   and the checkpoint.
//! - [`program`] and [`laws`] state what holds of the engine in every state.
//! - [`units`] holds four units that exercise the engine, and [`outcomes`]
//!   what their invocations come to.

pub mod context;
pub mod engine;
pub mod error;
pub mod laws;
pub mod node;
pub mod outcomes;
pub mod pool;
pub mod program;
pub mod tracker;
pub mod units;
