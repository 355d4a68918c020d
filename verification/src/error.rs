//! The ways in which building a circuit can fail.

use vstd::prelude::*;

verus! {

/// Why an operation of a circuit backend, or a gadget built from such
/// operations, did not produce a wire.
#[derive(Clone, Copy, Debug, PartialEq, Eq, Structural)]
pub enum FancyError {
    /// The operands carry moduli that the operation cannot combine; a binary
    /// gadget that met a wire whose modulus is not 2 answers this too.
    UnequalModuli,
    /// A gadget was handed `got` arguments where its arity is `needed`.
    InvalidArgNum { got: usize, needed: usize },
    /// A truth table has the wrong length for the wire it is applied to, or
    /// holds an entry that does not fit the target modulus.
    InvalidTruthTable,
    /// A value lies outside the range of its modulus.
    InvalidInput,
    /// The backend itself could not carry the operation out.
    BackendError,
}

impl FancyError {
    /// The name of the kind of error.
    pub fn kind(&self) -> (name: &'static str)
        ensures
            name == match *self {
                FancyError::UnequalModuli => "unequal moduli",
                FancyError::InvalidArgNum { .. } => "invalid number of arguments",
                FancyError::InvalidTruthTable => "invalid truth table",
                FancyError::InvalidInput => "invalid input",
                FancyError::BackendError => "backend error",
            },
    {
        match self {
            FancyError::UnequalModuli => "unequal moduli",
            FancyError::InvalidArgNum { .. } => "invalid number of arguments",
            FancyError::InvalidTruthTable => "invalid truth table",
            FancyError::InvalidInput => "invalid input",
            FancyError::BackendError => "backend error",
        }
    }
}

/// The error that an operation owes: `otherwise` where its operands are not
/// `valid`; on valid operands only a backend that can fail on its own account
/// may fail, and then with `BackendError`.
pub open spec fn failed(e: FancyError, valid: bool, otherwise: FancyError, infallible: bool) -> bool {
    if valid {
        !infallible && e == FancyError::BackendError
    } else {
        e == otherwise
    }
}

/// The way in which an operation on valid operands may fail: not at all on
/// a backend that cannot fail on its own account, and with `BackendError`
/// on another.
pub open spec fn backend_failure(e: FancyError, infallible: bool) -> bool {
    !infallible && e == FancyError::BackendError
}

} // verus!
