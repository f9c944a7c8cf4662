//! A tokenizer and execution engine for a small jump-based language whose
//! only data structure is the unstack: a sequence of integers that grows and
//! shrinks at a single end, the bottom.
//!
//! [`parse`] turns program text into [`Operation`]s. A [`Machine`] executes
//! them against one [`Unstack`], and [`interpret`] does both ends of a run:
//! it starts from an empty unstack and returns what is left on it.

pub mod error;
pub mod machine;
pub mod operation;
pub mod output;
pub mod tokenizer;
pub mod unstack;

pub use error::{ExecError, Fault};
pub use machine::{interpret, Machine};
pub use operation::{Kind, Operation};
pub use output::{byte_of, bytes_of};
pub use tokenizer::parse;
pub use unstack::Unstack;
