//! Error values of the simplification engine.

use vstd::prelude::*;

use crate::schemalet::{ref_view, RefView, SchemaRef, State, StateView};

verus! {

/// Why one node could not be simplified.
pub enum SimplifyError {
    /// A conjunction needs a merge rule the algebra does not define, such
    /// as two objects declaring the same property key, or an exclusion
    /// among nodes of one type. The run goes on and gathers every such
    /// gap; `a` and `b` are the identities whose combination has no rule.
    UnsupportedMerge { a: SchemaRef, b: SchemaRef },
    /// The engine's own preconditions were broken: a node with an
    /// unresolved address reached the simplifier, or finished references
    /// form a cycle. This marks a bug at the extraction boundary, not a
    /// property of the input, and aborts the run.
    InternalContractViolation,
}

/// Mathematical model of a [`SimplifyError`].
pub enum SimplifyErrorView {
    UnsupportedMerge { a: RefView, b: RefView },
    InternalContractViolation,
}

impl View for SimplifyError {
    type V = SimplifyErrorView;

    open spec fn view(&self) -> SimplifyErrorView {
        match self {
            SimplifyError::UnsupportedMerge { a, b } => SimplifyErrorView::UnsupportedMerge {
                a: ref_view(*a),
                b: ref_view(*b),
            },
            SimplifyError::InternalContractViolation =>
                SimplifyErrorView::InternalContractViolation,
        }
    }
}

/// The model of a simplification outcome.
pub open spec fn state_result_view(r: Result<State, SimplifyError>) -> Result<
    StateView,
    SimplifyErrorView,
> {
    match r {
        Ok(s) => Ok(s@),
        Err(e) => Err(e@),
    }
}

} // verus!
