//! A registry for the names handed out to generated declarations.
//!
//! The registry moves through two states: while open it accepts names,
//! and once finalized its contents are frozen. The state is tracked in
//! the type, so code holding a finalized registry can never insert.

use vstd::prelude::*;

verus! {

/// A state of the name registry.
pub trait NamespaceState {

}

/// The registry still accepts names.
pub struct NamespaceOpen;

/// The registry is frozen.
pub struct NamespaceFinalized;

impl NamespaceState for NamespaceOpen {

}

impl NamespaceState for NamespaceFinalized {

}

/// A name held by the registry: already resolved to its final spelling,
/// or still pending.
pub enum NameInner {
    Pending,
    Resolved(String),
}

impl NameInner {
    /// Whether the name has its final spelling.
    pub open spec fn spec_is_resolved(&self) -> bool {
        self is Resolved
    }

    /// The final spelling of a resolved name.
    pub fn as_resolved(&self) -> (out: String)
        requires
            self.spec_is_resolved(),
        ensures
            out@ == self->Resolved_0@,
    {
        match self {
            NameInner::Resolved(s) => s.clone(),
            NameInner::Pending => {
                proof {
                    assert(false);
                }
                vstd::pervasive::unreached()
            },
        }
    }
}

/// A name handed out by the registry.
pub struct Name {
    inner: NameInner,
}

impl Name {
    /// Whether the name has its final spelling.
    pub closed spec fn spec_is_resolved(&self) -> bool {
        self.inner.spec_is_resolved()
    }

    /// The final spelling.
    pub closed spec fn spec_str(&self) -> Seq<char>
        recommends
            self.spec_is_resolved(),
    {
        self.inner->Resolved_0@
    }

    /// The final spelling of a resolved name.
    pub fn to_string(&self) -> (out: String)
        requires
            self.spec_is_resolved(),
        ensures
            out@ == self.spec_str(),
    {
        self.inner.as_resolved()
    }
}

/// The registry of names, in the order they were inserted.
pub struct Namespace<S: NamespaceState> {
    names: Vec<String>,
    state: core::marker::PhantomData<S>,
}

impl<S: NamespaceState> Namespace<S> {
    /// The names inserted so far, in order.
    pub closed spec fn names_spec(&self) -> Seq<Seq<char>> {
        self.names.deep_view()
    }
}

impl Namespace<NamespaceOpen> {
    /// An open registry with no names.
    pub fn new() -> (out: Namespace<NamespaceOpen>)
        ensures
            out.names_spec() == Seq::<Seq<char>>::empty(),
    {
        Namespace { names: Vec::new(), state: core::marker::PhantomData }
    }

    /// Records one more name and hands back a resolved handle to it.
    pub fn insert(&mut self, s: String) -> (out: Name)
        ensures
            final(self).names_spec() == old(self).names_spec().push(s@),
            out.spec_is_resolved(),
            out.spec_str() == s@,
    {
        let handle = Name { inner: NameInner::Resolved(s.clone()) };
        self.names.push(s);
        proof {
            assert(self.names.deep_view() =~= old(self).names.deep_view().push(
                self.names@.last()@,
            ));
        }
        handle
    }

    /// Freezes the registry; the recorded names are kept.
    pub fn finalize(self) -> (out: Namespace<NamespaceFinalized>)
        ensures
            out.names_spec() == self.names_spec(),
    {
        let Namespace { names, state: _ } = self;
        Namespace { names, state: core::marker::PhantomData }
    }
}

} // verus!
