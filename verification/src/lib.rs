//! Translation of ACIR circuits into SMT-LIB constraints, with the
//! decision logic that turns solver answers into verification outcomes.

pub mod text;
pub mod smt;
pub mod field;
pub mod circuit;
pub mod error;
pub mod encoding;
pub mod encoder;
pub mod check;
pub mod model;
pub mod source;
pub mod report;
pub mod invariants;
pub mod declarations;
pub mod ranges;
pub mod stops;
pub mod conditions;
pub mod emitted;

pub use check::{BackendType, Output, RangeEncodingKind, RangeOpts, VerifyResult, PRIME};
pub use error::Error;
pub use smt::{Bool, SolverOutput, Type, Value};
