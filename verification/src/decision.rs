//! Decisions, deciders, and the error taxonomy of the command trie.

use vstd::prelude::*;

verus! {

/// The outcome of running a decider over the tokens that follow a segment.
///
/// `Accept(n)` means the decider consumed `n` of the tokens it was shown
/// (zero is legal: a decider may produce values without consuming input).
/// `Deny` carries the decider's reason for rejecting the input.
#[derive(Debug, PartialEq)]
pub enum Decision<D> {
    Accept(usize),
    Deny(D),
}

/// A decider: a human-readable description of the argument shape it parses,
/// paired with the parsing function itself.
///
/// The function is shown the tokens that follow the matched segment and
/// returns a [`Decision`] together with the typed values it produced.  A
/// decider must be total: it is called on any token sequence, including the
/// empty one, and must return rather than panic.
#[derive(Clone, Copy)]
pub struct Decider<DF> {
    pub description: &'static str,
    pub decider: DF,
}

/// Errors surfaced while registering a command specification.
#[derive(Debug, PartialEq)]
pub enum RegError {
    /// A decider was supplied for an edge that already exists.
    DeciderAlreadyExists,
    /// The path is already registered as a complete command.
    FinalizerAlreadyExists,
}

/// Errors surfaced while looking up a command.
#[derive(Debug, PartialEq)]
pub enum LookError<D> {
    /// A decider claimed to consume more tokens than were available.
    DeciderAdvancedTooFar,
    /// A decider rejected the input: its description, and its reason.
    DeciderDenied(String, D),
    /// The path exists but no complete command ends there.
    FinalizerDoesNotExist,
    /// No child of the current node carries this segment name.
    UnknownMapping(String),
}

/// The mathematical reading of a [`LookError`]: strings become their
/// character sequences.
pub enum LookErrorView<D> {
    DeciderAdvancedTooFar,
    DeciderDenied(Seq<char>, D),
    FinalizerDoesNotExist,
    UnknownMapping(Seq<char>),
}

impl<D> View for LookError<D> {
    type V = LookErrorView<D>;

    open spec fn view(&self) -> LookErrorView<D> {
        match self {
            LookError::DeciderAdvancedTooFar => LookErrorView::DeciderAdvancedTooFar,
            LookError::DeciderDenied(desc, deny) => LookErrorView::DeciderDenied(desc@, *deny),
            LookError::FinalizerDoesNotExist => LookErrorView::FinalizerDoesNotExist,
            LookError::UnknownMapping(segment) => LookErrorView::UnknownMapping(segment@),
        }
    }
}

} // verus!
