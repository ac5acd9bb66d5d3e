//! A tape machine for the eight-symbol instruction language, and a compiler
//! that lowers a stack of typed values into programs for it.
//!
//! `brackets` resolves loop boundaries, `bf` executes instructions against a
//! growable tape with injected input and output, `b_unf` keeps a logical
//! stack of typed values in step with the instruction text it emits, and
//! `label` renders a program with the current instruction marked. `emitted`
//! proves what the compiler's text does when the machine runs it.

pub mod b_unf;
pub mod bf;
pub mod brackets;
pub mod emitted;
pub mod error;
pub mod label;

pub use b_unf::{BunF, BunFError, EmptyType, Type};
pub use bf::{exec_BF_instruction, run_bf, BFInput, BFInterpreter, BFOutput};
pub use brackets::equalize_brackets;
pub use error::BFError;
