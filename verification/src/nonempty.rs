//! A container attested to hold at least one item.

use vstd::prelude::*;

verus! {

/// A container that can say whether it holds no items.
pub trait IsEmpty {
    /// Whether the container holds no items.
    spec fn spec_is_empty(&self) -> bool;

    /// Decides [`IsEmpty::spec_is_empty`].
    fn is_empty(&self) -> (out: bool)
        ensures
            out == self.spec_is_empty(),
    ;
}

impl<T> IsEmpty for Vec<T> {
    open spec fn spec_is_empty(&self) -> bool {
        self@.len() == 0
    }

    fn is_empty(&self) -> (out: bool)
        ensures
            out == self.spec_is_empty(),
    {
        self.len() == 0
    }
}

/// A container holding at least one item.
pub struct NonEmpty<T>(T);

impl<T> NonEmpty<T> {
    /// The wrapped container.
    pub closed spec fn inner_spec(&self) -> T {
        self.0
    }

    /// Unwraps the container.
    pub fn into_inner(self) -> (out: T)
        ensures
            out == self.inner_spec(),
    {
        self.0
    }

    /// Borrows the container.
    pub fn as_inner(&self) -> (out: &T)
        ensures
            *out == self.inner_spec(),
    {
        &self.0
    }
}

impl<T: IsEmpty> NonEmpty<T> {
    /// Wraps a container, demanding at least one item.
    pub fn try_from(values: T) -> (out: Result<NonEmpty<T>, &'static str>)
        ensures
            match out {
                Ok(ne) => !values.spec_is_empty() && ne.inner_spec() == values,
                Err(_) => values.spec_is_empty(),
            },
    {
        if values.is_empty() {
            Err("at least one item is required")
        } else {
            Ok(NonEmpty(values))
        }
    }
}

} // verus!
