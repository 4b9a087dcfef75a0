//! The error type shared by the planner's functions.

use vstd::prelude::*;
use vstd::string::StringExecFns;

verus! {

/// What went wrong, with a message for the user.
#[derive(Debug)]
pub enum PolarsError {
    /// A computation was asked for on types that do not allow it.
    ComputeError(String),
    /// An operation is not defined for the type it was applied to.
    InvalidOperation(String),
    /// A struct has no field of the requested name; holds that name.
    StructFieldNotFound(String),
    /// The plan is not a tree laid out in the arena: a slot that the
    /// traversal needs is vacant or out of range.
    InvariantViolation(String),
}

/// Mathematical model of a [`PolarsError`].
pub ghost enum PolarsErrorView {
    ComputeError(Seq<char>),
    InvalidOperation(Seq<char>),
    StructFieldNotFound(Seq<char>),
    InvariantViolation(Seq<char>),
}

/// A value, or the reason why there is none.
pub type PolarsResult<T> = Result<T, PolarsError>;

impl View for PolarsError {
    type V = PolarsErrorView;

    open spec fn view(&self) -> PolarsErrorView {
        match self {
            PolarsError::ComputeError(m) => PolarsErrorView::ComputeError(m@),
            PolarsError::InvalidOperation(m) => PolarsErrorView::InvalidOperation(m@),
            PolarsError::StructFieldNotFound(m) => PolarsErrorView::StructFieldNotFound(m@),
            PolarsError::InvariantViolation(m) => PolarsErrorView::InvariantViolation(m@),
        }
    }
}

impl PolarsError {
    /// A compute error with the given message.
    pub fn compute(msg: &str) -> (res: PolarsError)
        ensures
            res@ == PolarsErrorView::ComputeError(msg@),
    {
        PolarsError::ComputeError(String::from_str(msg))
    }

    /// An invalid-operation error with the given message.
    pub fn invalid_operation(msg: &str) -> (res: PolarsError)
        ensures
            res@ == PolarsErrorView::InvalidOperation(msg@),
    {
        PolarsError::InvalidOperation(String::from_str(msg))
    }

    /// The error for a struct field that does not exist.
    pub fn struct_field_not_found(name: &str) -> (res: PolarsError)
        ensures
            res@ == PolarsErrorView::StructFieldNotFound(name@),
    {
        PolarsError::StructFieldNotFound(String::from_str(name))
    }

    /// An invariant-violation error with the given message.
    pub fn invariant_violation(msg: &str) -> (res: PolarsError)
        ensures
            res@ == PolarsErrorView::InvariantViolation(msg@),
    {
        PolarsError::InvariantViolation(String::from_str(msg))
    }

    /// The message carried by the error.
    pub fn message(&self) -> (res: &String)
        ensures
            res@ == self.spec_message(),
    {
        match self {
            PolarsError::ComputeError(m) => m,
            PolarsError::InvalidOperation(m) => m,
            PolarsError::StructFieldNotFound(m) => m,
            PolarsError::InvariantViolation(m) => m,
        }
    }

    /// The message carried by the error.
    pub open spec fn spec_message(&self) -> Seq<char> {
        match self {
            PolarsError::ComputeError(m) => m@,
            PolarsError::InvalidOperation(m) => m@,
            PolarsError::StructFieldNotFound(m) => m@,
            PolarsError::InvariantViolation(m) => m@,
        }
    }
}

} // verus!
