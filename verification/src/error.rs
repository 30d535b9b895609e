//! The failures that the engine reports.

use vstd::prelude::*;

verus! {

/// Why an operation of the engine was refused or an evaluation failed.
#[derive(Clone, Debug, PartialEq, Eq)]
pub enum EngineError {
    /// No node has the identifier that is carried.
    NotFound(String),
    /// The registry holds no definition for the kind that is carried.
    UnknownKind(String),
    /// A socket index is out of range: of the source's outputs when `output`,
    /// of the target's inputs otherwise.
    InvalidIndex { output: bool },
    /// The operation is not allowed: an edge from a node to itself, or a
    /// second node under an identifier that is taken.
    InvalidOperation,
    /// The arithmetic that a node relies on reported the failure that is
    /// carried.
    ComputeError(String),
    /// The evaluation came by a node whose own evaluation was under way: what
    /// was asked for depends on itself.
    CyclicDependency,
}

/// The model of an [`EngineError`].
pub enum Failure {
    NotFound(Seq<char>),
    UnknownKind(Seq<char>),
    InvalidIndex { output: bool },
    InvalidOperation,
    ComputeError(Seq<char>),
    CyclicDependency,
}

impl View for EngineError {
    type V = Failure;

    open spec fn view(&self) -> Failure {
        match self {
            EngineError::NotFound(id) => Failure::NotFound(id@),
            EngineError::UnknownKind(kind) => Failure::UnknownKind(kind@),
            EngineError::InvalidIndex { output } => Failure::InvalidIndex { output: *output },
            EngineError::InvalidOperation => Failure::InvalidOperation,
            EngineError::ComputeError(message) => Failure::ComputeError(message@),
            EngineError::CyclicDependency => Failure::CyclicDependency,
        }
    }
}

} // verus!
