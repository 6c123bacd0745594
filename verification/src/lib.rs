//! Canonicalization of schema constraint graphs.
//!
//! A schema document is flattened into a graph of small, self-contained
//! nodes ("schemalets"), each addressed by a [`SchemaRef`]. The engine
//! rewrites that graph, via repeated local simplification, into a graph
//! in which every node has one of a few canonical shapes: a concrete
//! value constraint, a reference alias, an exclusive union of
//! alternatives, a constant, or the universal / empty constraint. The
//! rewriting runs as a fixed-point worklist ([`driver`]) over local,
//! one-step rules ([`schemalet::Schemalet::simplify`]) and never recurses
//! into a dependency: a node whose dependencies are unfinished simply
//! waits for a later pass, so reference cycles surface as a reported
//! failure to converge rather than unbounded recursion.

pub mod clone_eq;
pub mod closure;
pub mod driver;
pub mod errors;
pub mod expand;
pub mod laws;
pub mod merge;
pub mod merge_all;
pub mod namespace;
pub mod nonempty;
pub mod refmap;
pub mod resolve;
pub mod schemalet;
pub mod simple_type;
pub mod simplify;

pub use schemalet::SchemaRef;

use vstd::prelude::*;

verus! {

/// Error returned when a document cannot be added to the graph's source
/// bundle.
pub struct Error;

/// Error returned when a document's contents cannot be loaded: the
/// message names what went wrong.
pub struct LoadError(pub String);

/// A loader that knows no documents; every load fails.
pub struct NullLoader;

/// Where a reference is evaluated from: the address of the enclosing
/// document plus the dynamic anchors in scope there. Extraction builds
/// one per document and consults it to turn relative and dynamic
/// addresses into absolute ones before a node enters the engine.
pub struct Context {
    id: String,
    dyn_anchors: Vec<(String, String)>,
}

impl Context {
    /// The anchors in scope, as name/address pairs in insertion order.
    pub closed spec fn anchors_spec(&self) -> Seq<(Seq<char>, Seq<char>)> {
        Seq::new(
            self.dyn_anchors@.len(),
            |i: int| (self.dyn_anchors@[i].0@, self.dyn_anchors@[i].1@),
        )
    }

    /// The enclosing document's address.
    pub closed spec fn id_spec(&self) -> Seq<char> {
        self.id@
    }

    /// A context for the document at `id`, with no anchors in scope yet.
    pub fn new(id: String) -> (out: Context)
        ensures
            out.id_spec() == id@,
            out.anchors_spec() == Seq::<(Seq<char>, Seq<char>)>::empty(),
    {
        let out = Context { id, dyn_anchors: Vec::new() };
        proof {
            assert(out.anchors_spec() =~= Seq::<(Seq<char>, Seq<char>)>::empty());
        }
        out
    }

    /// The enclosing document's address.
    pub fn id(&self) -> (out: &String)
        ensures
            out@ == self.id_spec(),
    {
        &self.id
    }

    /// Brings one more dynamic anchor into scope.
    pub fn add_dyn_anchor(&mut self, name: String, target: String)
        ensures
            final(self).id_spec() == old(self).id_spec(),
            final(self).anchors_spec() == old(self).anchors_spec().push((name@, target@)),
    {
        self.dyn_anchors.push((name, target));
        proof {
            assert(self.anchors_spec() =~= old(self).anchors_spec().push(
                (self.dyn_anchors@.last().0@, self.dyn_anchors@.last().1@),
            ));
        }
    }

    /// The address of the first anchor in scope named `name`, if any.
    pub fn dyn_resolve(&self, name: &String) -> (out: Option<&String>)
        ensures
            match out {
                Some(target) => exists|i: int|
                    0 <= i < self.anchors_spec().len() && #[trigger] self.anchors_spec()[i] == (
                        name@,
                        target@,
                    ),
                None => forall|i: int|
                    0 <= i < self.anchors_spec().len() ==> (#[trigger] self.anchors_spec()[i]).0
                        != name@,
            },
    {
        let mut i: usize = 0;
        while i < self.dyn_anchors.len()
            invariant
                i <= self.dyn_anchors@.len(),
                forall|j: int| 0 <= j < i ==> (#[trigger] self.anchors_spec()[j]).0 != name@,
            decreases self.dyn_anchors@.len() - i,
        {
            if self.dyn_anchors[i].0 == *name {
                proof {
                    assert(self.anchors_spec()[i as int] == (
                        self.dyn_anchors@[i as int].0@,
                        self.dyn_anchors@[i as int].1@,
                    ));
                }
                return Some(&self.dyn_anchors[i].1);
            }
            proof {
                assert(self.anchors_spec()[i as int] == (
                    self.dyn_anchors@[i as int].0@,
                    self.dyn_anchors@[i as int].1@,
                ));
            }
            i = i + 1;
        }
        None
    }
}

} // verus!
