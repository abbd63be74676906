//! The error model of the resolver.
//!
//! Every error is fatal to the whole invocation: resolution is all-or-nothing,
//! because silently dropping targets from a scanning tool is worse than
//! failing loudly. The aggregator raises no errors of its own.

use vstd::prelude::*;

verus! {

/// Mathematical image of a [`ResolveError`]: the same variants over views.
pub enum ErrView {
    /// A port token that is neither an integer in `[0, 65535]` nor a range.
    PortParse(Seq<char>),
    /// A token that matches no recognized address, subnet, range or domain form.
    AddressClassification(Seq<char>),
    /// A range whose start does not strictly precede its end.
    RangeOrder(Seq<char>),
    /// A domain lookup that the DNS collaborator could not answer.
    Dns(Seq<char>),
    /// Resolution finished with zero targets.
    EmptyTargetSet,
    /// A target file that could not be opened or read (raised by callers that
    /// do the reading; the library itself performs no I/O).
    Io(Seq<char>),
}

/// Why a resolution attempt failed. Each payload is the offending input.
#[derive(Debug, Clone, PartialEq, Eq)]
pub enum ResolveError {
    PortParse(String),
    AddressClassification(String),
    RangeOrder(String),
    Dns(String),
    EmptyTargetSet,
    Io(String),
}

impl View for ResolveError {
    type V = ErrView;

    open spec fn view(&self) -> ErrView {
        match self {
            ResolveError::PortParse(t) => ErrView::PortParse(t@),
            ResolveError::AddressClassification(t) => ErrView::AddressClassification(t@),
            ResolveError::RangeOrder(t) => ErrView::RangeOrder(t@),
            ResolveError::Dns(t) => ErrView::Dns(t@),
            ResolveError::EmptyTargetSet => ErrView::EmptyTargetSet,
            ResolveError::Io(t) => ErrView::Io(t@),
        }
    }
}

} // verus!
