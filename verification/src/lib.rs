//! A minimal interpreter for a tape-based esoteric language with eight
//! one-byte instructions.
//!
//! The interpreter runs in two stages.  [`bf_jumps`] scans a program once,
//! validates that its loop brackets are properly nested, and builds a
//! bidirectional jump table.  [`bf_eval`] and [`bf_eval_on`] then execute the
//! instruction stream against a zero-initialized byte tape, consulting the
//! jump table on the two branch instructions.  Every cell operation wraps
//! modulo 256; the tape cursor itself never wraps, and moving it outside the
//! tape is a fatal error.

mod jumps;
mod machine;
mod eval;

pub use eval::bf_eval;
pub use eval::bf_eval_on;
pub use eval::BFEvalError;
pub use eval::EvalOutput;
pub use jumps::bf_jumps;
pub use jumps::InvalidProgramError;
