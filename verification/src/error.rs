//! Errors of the encoder and of the solving that follows it.

use vstd::prelude::*;
use vstd::string::StringExecFns;

verus! {

/// Why a circuit could not be checked.
#[derive(Debug)]
pub enum Error {
    /// A part of the circuit that the encoding does not support.
    EncodingError(String),
    /// The solver could not be run or answered with an error.
    SmtSolvingError(String),
    /// The circuit breaks an assumption of the encoder: a memory operation
    /// before its block is initialised, an operation on a block with no
    /// cells, a `verify_print` call whose output array is empty, a
    /// verification call under a predicate other than 1, or more witnesses
    /// than indices up to `u32::MAX`. The encoding stops on such a circuit in
    /// either mode: `encoding_stop` reports it, the command-line tool stops
    /// there, and `translate_program` does not take such a circuit.
    InvalidCircuit(String),
}

impl Error {
    /// The text shown for the error: the kind of the error, then its message.
    pub open spec fn shown_text(&self) -> Seq<char> {
        match self {
            Error::EncodingError(m) => "Encoding error: "@ + m@,
            Error::SmtSolvingError(m) => "SMT solving error: "@ + m@,
            Error::InvalidCircuit(m) => "Invalid circuit: "@ + m@,
        }
    }

    /// The text shown for the error: the kind of the error, then its message.
    pub fn to_display_string(&self) -> (s: String)
        ensures
            s@ == self.shown_text(),
    {
        match self {
            Error::EncodingError(m) => String::from_str("Encoding error: ").concat(m.as_str()),
            Error::SmtSolvingError(m) => String::from_str("SMT solving error: ").concat(m.as_str()),
            Error::InvalidCircuit(m) => String::from_str("Invalid circuit: ").concat(m.as_str()),
        }
    }
}

} // verus!
