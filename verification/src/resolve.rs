//! Chasing reference aliases through the finished part of the graph.

use vstd::prelude::*;

use crate::refmap::RefMap;
use crate::schemalet::{
    lemma_refs_view, ref_view, refs_view, CanonicalSchemalet, CanonicalDetailsView, CanonicalView,
    RefView, SchemaRef, SchemaletType, spec_get_type,
};

verus! {

broadcast use lemma_refs_view;

/// The finished part of the graph.
pub type CanonicalMap = RefMap<CanonicalSchemalet>;

/// The outcome of chasing reference aliases from one identity.
pub enum Resolution {
    /// The identity of the first non-reference node reached.
    Found(SchemaRef),
    /// Some link of the chain is not finished yet.
    Missing,
    /// The chain revisits a finished node: a cycle among finished
    /// references, which finished nodes must never form.
    Cycle,
}

/// Mathematical model of a [`Resolution`].
pub enum ResolutionView {
    Found(RefView),
    Missing,
    Cycle,
}

impl View for Resolution {
    type V = ResolutionView;

    open spec fn view(&self) -> ResolutionView {
        match self {
            Resolution::Found(r) => ResolutionView::Found(ref_view(*r)),
            Resolution::Missing => ResolutionView::Missing,
            Resolution::Cycle => ResolutionView::Cycle,
        }
    }
}

/// Follows reference aliases from `r` for at most `fuel` steps. A chain
/// that leaves the map is `Missing`; one that takes more than `fuel`
/// steps is reported as a `Cycle`, since the engine hands in the number
/// of finished nodes as fuel and an acyclic chain can never be longer.
pub open spec fn spec_resolve(done: Map<RefView, CanonicalView>, r: RefView, fuel: nat) -> ResolutionView
    decreases fuel,
{
    if !done.dom().contains(r) {
        ResolutionView::Missing
    } else {
        match done[r].details {
            CanonicalDetailsView::Reference(next) => if fuel == 0 {
                ResolutionView::Cycle
            } else {
                spec_resolve(done, next, (fuel - 1) as nat)
            },
            _ => ResolutionView::Found(r),
        }
    }
}

/// A resolved identity names a finished node that is not itself a
/// reference.
pub proof fn lemma_resolve_found(done: Map<RefView, CanonicalView>, r: RefView, fuel: nat)
    requires
        spec_resolve(done, r, fuel) is Found,
    ensures
        done.dom().contains(spec_resolve(done, r, fuel)->Found_0),
        !(done[spec_resolve(done, r, fuel)->Found_0].details is Reference),
    decreases fuel,
{
    if done.dom().contains(r) {
        match done[r].details {
            CanonicalDetailsView::Reference(next) => {
                if fuel > 0 {
                    lemma_resolve_found(done, next, (fuel - 1) as nat);
                }
            },
            _ => {},
        }
    }
}

/// Follows reference aliases from `r` until a non-reference node is
/// found, the chain leaves the finished map, or the chain proves cyclic.
pub fn resolve(done: &CanonicalMap, r: &SchemaRef) -> (out: Resolution)
    requires
        done.wf(),
    ensures
        out@ == spec_resolve(done@, r@, done.spec_len()),
{
    let ghost fuel0: nat = done.spec_len();
    let mut cur: SchemaRef = r.clone();
    let mut fuel: usize = done.len();
    loop
        invariant
            done.wf(),
            fuel0 == done.spec_len(),
            fuel <= fuel0,
            spec_resolve(done@, r@, fuel0) == spec_resolve(done@, cur@, fuel as nat),
        decreases fuel,
    {
        match done.get(&cur) {
            None => {
                return Resolution::Missing;
            },
            Some(node) => {
                match &node.details {
                    crate::schemalet::CanonicalSchemaletDetails::Reference(next) => {
                        if fuel == 0 {
                            return Resolution::Cycle;
                        }
                        fuel = fuel - 1;
                        cur = next.clone();
                    },
                    _ => {
                        return Resolution::Found(cur);
                    },
                }
            },
        }
    }
}

/// The outcome of resolving a list of identities: the resolved identity
/// of each, or the leftmost failure.
pub enum ResolutionAll {
    Found(Vec<SchemaRef>),
    Missing,
    Cycle,
}

/// Mathematical model of a [`ResolutionAll`].
pub enum ResolutionAllView {
    Found(Seq<RefView>),
    Missing,
    Cycle,
}

impl View for ResolutionAll {
    type V = ResolutionAllView;

    open spec fn view(&self) -> ResolutionAllView {
        match self {
            ResolutionAll::Found(refs) => ResolutionAllView::Found(refs_view(refs@)),
            ResolutionAll::Missing => ResolutionAllView::Missing,
            ResolutionAll::Cycle => ResolutionAllView::Cycle,
        }
    }
}

/// Resolves every identity of the list; the leftmost failure wins.
pub open spec fn spec_resolve_all(
    done: Map<RefView, CanonicalView>,
    refs: Seq<RefView>,
    fuel: nat,
) -> ResolutionAllView
    decreases refs.len(),
{
    if refs.len() == 0 {
        ResolutionAllView::Found(Seq::empty())
    } else {
        match spec_resolve_all(done, refs.drop_last(), fuel) {
            ResolutionAllView::Found(rest) => match spec_resolve(done, refs.last(), fuel) {
                ResolutionView::Found(r) => ResolutionAllView::Found(rest.push(r)),
                ResolutionView::Missing => ResolutionAllView::Missing,
                ResolutionView::Cycle => ResolutionAllView::Cycle,
            },
            fail => fail,
        }
    }
}

/// A failure at one position decides the whole list.
pub proof fn lemma_resolve_all_fail(
    done: Map<RefView, CanonicalView>,
    refs: Seq<RefView>,
    fuel: nat,
    i: int,
)
    requires
        0 <= i < refs.len(),
        spec_resolve_all(done, refs.take(i), fuel) is Found,
        !(spec_resolve(done, refs[i], fuel) is Found),
    ensures
        spec_resolve_all(done, refs, fuel) == match spec_resolve(done, refs[i], fuel) {
            ResolutionView::Missing => ResolutionAllView::Missing,
            _ => ResolutionAllView::Cycle,
        },
    decreases refs.len(),
{
    if refs.len() - 1 == i {
        assert(refs.drop_last() =~= refs.take(i));
    } else {
        assert(refs.drop_last().take(i) =~= refs.take(i));
        lemma_resolve_all_fail(done, refs.drop_last(), fuel, i);
    }
}

/// When every identity of the list resolves, the list's outcome gathers
/// the resolved identities in order.
pub proof fn lemma_resolve_all_found(
    done: Map<RefView, CanonicalView>,
    refs: Seq<RefView>,
    fuel: nat,
    out: Seq<RefView>,
)
    requires
        out.len() == refs.len(),
        forall|j: int|
            0 <= j < refs.len() ==> spec_resolve(done, refs[j], fuel) == ResolutionView::Found(
                out[j],
            ),
    ensures
        spec_resolve_all(done, refs, fuel) == ResolutionAllView::Found(out),
    decreases refs.len(),
{
    if refs.len() == 0 {
        assert(out =~= Seq::<RefView>::empty());
    } else {
        lemma_resolve_all_found(done, refs.drop_last(), fuel, out.drop_last());
        assert(out.drop_last().push(out.last()) =~= out);
    }
}

/// Every identity a successful list resolution returns names a finished,
/// non-reference node.
pub proof fn lemma_resolve_all_found_nodes(
    done: Map<RefView, CanonicalView>,
    refs: Seq<RefView>,
    fuel: nat,
)
    requires
        spec_resolve_all(done, refs, fuel) is Found,
    ensures
        spec_resolve_all(done, refs, fuel)->Found_0.len() == refs.len(),
        forall|j: int|
            0 <= j < refs.len() ==> spec_resolve(done, refs[j], fuel) == ResolutionView::Found(
                #[trigger] spec_resolve_all(done, refs, fuel)->Found_0[j],
            ),
        forall|j: int|
            0 <= j < refs.len() ==> done.dom().contains(
                #[trigger] spec_resolve_all(done, refs, fuel)->Found_0[j],
            ) && !(done[spec_resolve_all(done, refs, fuel)->Found_0[j]].details is Reference),
    decreases refs.len(),
{
    if refs.len() > 0 {
        lemma_resolve_all_found_nodes(done, refs.drop_last(), fuel);
        let whole = spec_resolve_all(done, refs, fuel)->Found_0;
        let prefix = spec_resolve_all(done, refs.drop_last(), fuel)->Found_0;
        assert forall|j: int| 0 <= j < refs.len() implies spec_resolve(done, refs[j], fuel)
            == ResolutionView::Found(#[trigger] whole[j]) by {
            if j < refs.len() - 1 {
                assert(refs.drop_last()[j] == refs[j]);
                assert(whole[j] == prefix[j]);
            }
        }
        assert forall|j: int| 0 <= j < refs.len() implies done.dom().contains(#[trigger] whole[j])
            && !(done[whole[j]].details is Reference) by {
            lemma_resolve_found(done, refs[j], fuel);
        }
    }
}

/// Resolves every identity of the list, or reports the leftmost failure.
pub fn resolve_all(done: &CanonicalMap, refs: &Vec<SchemaRef>) -> (out: ResolutionAll)
    requires
        done.wf(),
    ensures
        out@ == spec_resolve_all(done@, refs_view(refs@), done.spec_len()),
{
    let ghost fuel: nat = done.spec_len();
    let ghost rv = refs_view(refs@);
    let mut out: Vec<SchemaRef> = Vec::new();
    let mut i: usize = 0;
    while i < refs.len()
        invariant
            done.wf(),
            fuel == done.spec_len(),
            rv == refs_view(refs@),
            i <= refs@.len(),
            out@.len() == i,
            forall|j: int|
                0 <= j < i ==> spec_resolve(done@, rv[j], fuel) == ResolutionView::Found(
                    ref_view(out@[j]),
                ),
        decreases refs@.len() - i,
    {
        match resolve(done, &refs[i]) {
            Resolution::Found(r) => {
                out.push(r);
                i = i + 1;
            },
            Resolution::Missing => {
                proof {
                    lemma_resolve_all_found(done@, rv.take(i as int), fuel, refs_view(out@));
                    lemma_resolve_all_fail(done@, rv, fuel, i as int);
                }
                return ResolutionAll::Missing;
            },
            Resolution::Cycle => {
                proof {
                    lemma_resolve_all_found(done@, rv.take(i as int), fuel, refs_view(out@));
                    lemma_resolve_all_fail(done@, rv, fuel, i as int);
                }
                return ResolutionAll::Cycle;
            },
        }
    }
    proof {
        lemma_resolve_all_found(done@, rv, fuel, refs_view(out@));
    }
    ResolutionAll::Found(out)
}

/// The outcome of chasing reference aliases while gathering
/// documentation: the resolved identity plus the first title and first
/// description seen on the aliases along the way.
pub enum MetaResolution {
    Found { schema_ref: RefView, title: Option<Seq<char>>, description: Option<Seq<char>> },
    Missing,
    Cycle,
}

/// Follows reference aliases from `r` as [`spec_resolve`] does, while
/// accumulating the first title and first description attached to the
/// aliases passed through: documentation on an intermediate alias is not
/// lost when the chain ends at a concrete node. A value once gathered is
/// never overwritten.
pub open spec fn spec_resolve_with_metadata(
    done: Map<RefView, CanonicalView>,
    r: RefView,
    fuel: nat,
    title: Option<Seq<char>>,
    description: Option<Seq<char>>,
) -> MetaResolution
    decreases fuel,
{
    if !done.dom().contains(r) {
        MetaResolution::Missing
    } else {
        match done[r].details {
            CanonicalDetailsView::Reference(next) => if fuel == 0 {
                MetaResolution::Cycle
            } else {
                spec_resolve_with_metadata(
                    done,
                    next,
                    (fuel - 1) as nat,
                    if title is None {
                        done[r].metadata.title
                    } else {
                        title
                    },
                    if description is None {
                        done[r].metadata.description
                    } else {
                        description
                    },
                )
            },
            _ => MetaResolution::Found { schema_ref: r, title, description },
        }
    }
}

/// A resolved identity together with a copy of its node and the first
/// documentation gathered along the alias chain.
pub struct ResolvedWithMetadata {
    pub schema_ref: SchemaRef,
    pub node: CanonicalSchemalet,
    pub title: Option<String>,
    pub description: Option<String>,
}

/// Follows reference aliases from `r`, gathering the first title and
/// first description attached to aliases along the way, and hands back
/// the resolved identity with a copy of its node. `None` when the chain
/// leaves the finished map or proves cyclic.
pub fn resolve_with_metadata(done: &CanonicalMap, r: &SchemaRef) -> (out: Option<
    ResolvedWithMetadata,
>)
    requires
        done.wf(),
    ensures
        match out {
            Some(res) => spec_resolve_with_metadata(done@, r@, done.spec_len(), None, None)
                == (MetaResolution::Found {
                schema_ref: res.schema_ref@,
                title: res.title.deep_view(),
                description: res.description.deep_view(),
            }) && done@.dom().contains(res.schema_ref@) && res.node@ == done@[res.schema_ref@],
            None => !(spec_resolve_with_metadata(done@, r@, done.spec_len(), None, None)
                is Found),
        },
{
    let ghost fuel0: nat = done.spec_len();
    let mut cur: SchemaRef = r.clone();
    let mut fuel: usize = done.len();
    let mut title: Option<String> = None;
    let mut description: Option<String> = None;
    loop
        invariant
            done.wf(),
            fuel0 == done.spec_len(),
            fuel <= fuel0,
            spec_resolve_with_metadata(done@, r@, fuel0, None, None)
                == spec_resolve_with_metadata(
                done@,
                cur@,
                fuel as nat,
                title.deep_view(),
                description.deep_view(),
            ),
        decreases fuel,
    {
        match done.get(&cur) {
            None => {
                return None;
            },
            Some(node) => {
                match &node.details {
                    crate::schemalet::CanonicalSchemaletDetails::Reference(next) => {
                        if fuel == 0 {
                            return None;
                        }
                        if title.is_none() {
                            title = crate::clone_eq::clone_opt_string(&node.metadata.title);
                        }
                        if description.is_none() {
                            description = crate::clone_eq::clone_opt_string(
                                &node.metadata.description,
                            );
                        }
                        fuel = fuel - 1;
                        cur = next.clone();
                    },
                    _ => {
                        let node = node.clone();
                        return Some(
                            ResolvedWithMetadata { schema_ref: cur, node, title, description },
                        );
                    },
                }
            },
        }
    }
}

/// The type tag of the node that `r` resolves to, where `r` resolves and
/// the node's tag is known.
pub open spec fn spec_resolved_type(
    done: Map<RefView, CanonicalView>,
    r: RefView,
    fuel: nat,
) -> Option<SchemaletType> {
    match spec_resolve(done, r, fuel) {
        ResolutionView::Found(r2) => spec_get_type(done[r2].details),
        _ => None,
    }
}

/// Whether `a` and `b` can be seen, from type tags alone, to admit no
/// common value: both resolve to nodes of known, different tags. This is
/// a conservative test: it proves disjointness only from a coarse type
/// mismatch and never proves compatibility.
pub open spec fn spec_trivially_incompatible(
    done: Map<RefView, CanonicalView>,
    a: RefView,
    b: RefView,
    fuel: nat,
) -> bool {
    match (spec_resolved_type(done, a, fuel), spec_resolved_type(done, b, fuel)) {
        (Some(ta), Some(tb)) => ta != tb,
        _ => false,
    }
}

/// The type tag of the node `r` resolves to, or `None` where `r` does
/// not resolve or the node's tag is unknown.
pub fn resolved_type(done: &CanonicalMap, r: &SchemaRef) -> (out: Option<SchemaletType>)
    requires
        done.wf(),
    ensures
        out == spec_resolved_type(done@, r@, done.spec_len()),
{
    match resolve(done, r) {
        Resolution::Found(r2) => {
            proof {
                lemma_resolve_found(done@, r@, done.spec_len());
            }
            match done.get(&r2) {
                Some(node) => node.details.get_type(),
                None => {
                    proof {
                        assert(false);
                    }
                    None
                },
            }
        },
        _ => None,
    }
}

/// Decides [`spec_trivially_incompatible`] for two identities.
pub fn trivially_incompatible(done: &CanonicalMap, a: &SchemaRef, b: &SchemaRef) -> (out: bool)
    requires
        done.wf(),
    ensures
        out == spec_trivially_incompatible(done@, a@, b@, done.spec_len()),
{
    let ra = resolve(done, a);
    let rb = resolve(done, b);
    match (ra, rb) {
        (Resolution::Found(a2), Resolution::Found(b2)) => {
            proof {
                lemma_resolve_found(done@, a@, done.spec_len());
                lemma_resolve_found(done@, b@, done.spec_len());
            }
            let na = match done.get(&a2) {
                Some(n) => n,
                None => {
                    proof {
                        assert(false);
                    }
                    return false;
                },
            };
            let nb = match done.get(&b2) {
                Some(n) => n,
                None => {
                    proof {
                        assert(false);
                    }
                    return false;
                },
            };
            match (na.details.get_type(), nb.details.get_type()) {
                (Some(ta), Some(tb)) => ta != tb,
                _ => false,
            }
        },
        _ => false,
    }
}

} // verus!
