//! The fixed-point worklist loop.
//!
//! The driver holds the in-progress map and the finished map and
//! repeatedly offers every in-progress node to the simplifier. Within one
//! pass every node reads only the snapshot of the finished map from the
//! end of the previous pass; nodes that finish are committed only between
//! passes. A pass in which no node finishes and no node is rewritten is a
//! failure to converge, as is exhausting the caller's pass ceiling — a
//! cooperative cancellation point that surfaces the same way.

use vstd::prelude::*;

use crate::clone_eq::schemalet_eq;
use crate::closure::{
    canonical_graph_closed, done_children_in, entry_keys, lemma_children_in_mono,
    lemma_known_shift, lemma_simplify_children, outputs_children_in, pass_known,
    raw_graph_children_in, raw_graph_closed, work_keys,
};
use crate::errors::{SimplifyError, SimplifyErrorView};
use crate::expand::{spec_bitmap_work, spec_expand_work};
use crate::refmap::{lemma_map_of, seq_has_key, unique_keys, RefMap};
use crate::resolve::{
    lemma_resolve_all_found_nodes, spec_resolve, spec_resolve_all, CanonicalMap, ResolutionAllView,
    ResolutionView,
};
use crate::schemalet::{
    canonical_node_wf, children_in, raw_children, spec_children, CanonicalView, DetailsView,
    RefView, SchemaRef, Schemalet, SchemaletView, State, StateView,
};
use crate::simplify::{canonical_outcome_wf, lemma_simplify_canonical_wf, spec_simplify};

verus! {

broadcast use crate::schemalet::lemma_work_view;

/// The in-progress part of the graph.
pub type SchemaletMap = RefMap<Schemalet>;

/// Whether a node is small enough to simplify on this machine: expanding
/// a disjunction of `n` branches materializes `2^n - 1` subset nodes, so
/// a disjunction's branch count must stay below the word width.
pub open spec fn bounded_node(n: SchemaletView) -> bool {
    n.details matches DetailsView::AnyOf(refs) ==> refs.len() < usize::BITS
}

/// Whether a node already has a terminal shape, one the simplifier
/// finishes in a single step: the universal or empty constraint, a
/// constant, a concrete value, or a resolved reference.
pub open spec fn terminal_node(n: SchemaletView) -> bool {
    match n.details {
        DetailsView::Anything => true,
        DetailsView::Nothing => true,
        DetailsView::Constant(_) => true,
        DetailsView::Value(_) => true,
        DetailsView::ResolvedRef(_) => true,
        DetailsView::ResolvedDynamicRef(_) => true,
        _ => false,
    }
}

/// Whether a simplification outcome finishes the node.
pub open spec fn finishes(r: Result<StateView, SimplifyErrorView>) -> bool {
    match r {
        Ok(s) => s is Canonical,
        Err(_) => false,
    }
}

/// A node of terminal shape finishes in one step.
proof fn lemma_terminal_finishes(node: SchemaletView, done: Map<RefView, CanonicalView>, fuel: nat)
    requires
        terminal_node(node),
    ensures
        finishes(spec_simplify(node, done, fuel)),
{
    reveal(spec_simplify);
}

/// Whether a simplification outcome leaves the node in progress: the
/// step hands the node back unchanged because a dependency is not
/// finished, or the node needs a merge rule the algebra does not define.
pub open spec fn spec_still_stuck(
    n: SchemaletView,
    r: Result<StateView, SimplifyErrorView>,
) -> bool {
    match r {
        Ok(s) => match s {
            StateView::Stuck(m) => m == n,
            _ => false,
        },
        Err(e) => match e {
            SimplifyErrorView::UnsupportedMerge { .. } => true,
            SimplifyErrorView::InternalContractViolation => false,
        },
    }
}

/// Whether a stuck outcome hands back the very node that was offered.
pub open spec fn stuck_preserves_input(
    r: Result<StateView, SimplifyErrorView>,
    node: SchemaletView,
) -> bool {
    match r {
        Ok(s) => match s {
            StateView::Stuck(m) => m == node,
            _ => true,
        },
        Err(_) => true,
    }
}

/// The simplifier never invents a stuck node: a stuck outcome is the
/// offered node itself.
proof fn lemma_stuck_is_input(node: SchemaletView, done: Map<RefView, CanonicalView>, fuel: nat)
    ensures
        stuck_preserves_input(spec_simplify(node, done, fuel), node),
{
    reveal(spec_simplify);
}

/// Whether the finished map upholds the engine's invariants: every
/// finished exclusive union has at least two branches, each branch a
/// finished, non-alias, non-empty node, with the branches' shared type
/// tag cached exactly when they agree on one.
pub open spec fn finished_wf(done: Map<RefView, CanonicalView>) -> bool {
    forall|k: RefView| #[trigger] done.dom().contains(k) ==> canonical_node_wf(done[k], done)
}

/// Whether the node's shape waits on some identity of `s`: it is a
/// combinator and one of its immediate dependencies lies in `s`.
pub open spec fn spec_blocking_dep(n: SchemaletView, s: Set<RefView>) -> bool {
    match n.details {
        DetailsView::AllOf(rs) => exists|i: int| 0 <= i < rs.len() && s.contains(#[trigger] rs[i]),
        DetailsView::AnyOf(rs) => exists|i: int| 0 <= i < rs.len() && s.contains(#[trigger] rs[i]),
        DetailsView::ExclusiveOneOf(rs) => exists|i: int|
            0 <= i < rs.len() && s.contains(#[trigger] rs[i]),
        DetailsView::YesNo { yes, no } => s.contains(yes) || (exists|i: int|
            0 <= i < no.len() && s.contains(#[trigger] no[i])),
        _ => false,
    }
}

/// Whether `s` names a genuinely unresolvable dependency cycle of the
/// graph `m`: a non-empty set of nodes, each a combinator waiting on
/// another member of the set. No member can ever finish, since finishing
/// first would need another member already finished.
pub open spec fn spec_dependency_cycle(m: Map<RefView, SchemaletView>, s: Set<RefView>) -> bool {
    &&& exists|k: RefView| s.contains(k)
    &&& forall|k: RefView| #[trigger]
        s.contains(k) ==> m.dom().contains(k) && spec_blocking_dep(m[k], s)
}

/// A list with a member in `s` does not fully resolve while `s` is
/// disjoint from the finished map.
proof fn lemma_blocked_list(
    rs: Seq<RefView>,
    s: Set<RefView>,
    done: Map<RefView, CanonicalView>,
    fuel: nat,
)
    requires
        exists|i: int| 0 <= i < rs.len() && s.contains(#[trigger] rs[i]),
        forall|k: RefView| #[trigger] s.contains(k) ==> !done.dom().contains(k),
    ensures
        !(spec_resolve_all(done, rs, fuel) is Found),
{
    let i0 = choose|i: int| 0 <= i < rs.len() && s.contains(#[trigger] rs[i]);
    assert(!done.dom().contains(rs[i0]));
    assert(spec_resolve(done, rs[i0], fuel) is Missing);
    if spec_resolve_all(done, rs, fuel) is Found {
        lemma_resolve_all_found_nodes(done, rs, fuel);
        assert(spec_resolve(done, rs[i0], fuel) == ResolutionView::Found(
            spec_resolve_all(done, rs, fuel)->Found_0[i0],
        ));
        assert(false);
    }
}

/// A node waiting on an identity that the finished map lacks stays in
/// progress: one step hands it back stuck, or reports a reference cycle
/// among finished nodes as a contract violation.
proof fn lemma_blocked_stuck(
    n: SchemaletView,
    s: Set<RefView>,
    done: Map<RefView, CanonicalView>,
    fuel: nat,
)
    requires
        spec_blocking_dep(n, s),
        forall|k: RefView| #[trigger] s.contains(k) ==> !done.dom().contains(k),
    ensures
        spec_simplify(n, done, fuel) == Ok::<StateView, SimplifyErrorView>(StateView::Stuck(n))
            || spec_simplify(n, done, fuel) == Err::<StateView, SimplifyErrorView>(
            SimplifyErrorView::InternalContractViolation,
        ),
{
    reveal(spec_simplify);
    match n.details {
        DetailsView::AllOf(rs) => {
            lemma_blocked_list(rs, s, done, fuel);
        },
        DetailsView::AnyOf(rs) => {
            lemma_blocked_list(rs, s, done, fuel);
        },
        DetailsView::ExclusiveOneOf(rs) => {
            lemma_blocked_list(rs, s, done, fuel);
        },
        DetailsView::YesNo { yes, no } => {
            if s.contains(yes) {
                assert(spec_resolve(done, yes, fuel) is Missing);
            } else {
                match spec_resolve(done, yes, fuel) {
                    ResolutionView::Found(_) => {
                        lemma_blocked_list(no, s, done, fuel);
                    },
                    _ => {},
                }
            }
        },
        _ => {},
    }
}

/// One conjunction the merge algebra had no rule for: the node under
/// rewrite and the two identities whose combination is unsupported.
pub struct UnsupportedMerge {
    pub at: SchemaRef,
    pub a: SchemaRef,
    pub b: SchemaRef,
}

/// Why a canonicalization run failed.
pub enum DriverError {
    /// The run did not converge. `stuck` holds every node still in
    /// progress, under its identity; `finished` holds the nodes that did
    /// finish. With `ceiling` false a full pass changed nothing: each
    /// stuck node, offered to the simplifier against `finished`, comes
    /// back stuck or needs a merge rule the algebra lacks, and
    /// `unsupported` gathers those gaps. With `ceiling` true the pass
    /// budget ran out first.
    Convergence {
        stuck: SchemaletMap,
        finished: CanonicalMap,
        unsupported: Vec<UnsupportedMerge>,
        ceiling: bool,
    },
    /// A node broke the engine's contract: an unresolved address reached
    /// the simplifier, finished references form a cycle, or one synthetic
    /// identity was derived twice within a single pass with different
    /// content. (A node spawned under an identity that finished in an
    /// earlier pass is dropped as a duplicate derivation, without a
    /// content comparison.)
    InternalContractViolation { at: SchemaRef },
}

/// Every node the expansion of a disjunction spawns is a conjunction or
/// an exclusion, hence small enough for a later pass.
proof fn lemma_expand_work_bounded(rs: Seq<RefView>, count: nat)
    ensures
        forall|i: int|
            0 <= i < spec_expand_work(rs, count).len() ==> bounded_node(
                #[trigger] spec_expand_work(rs, count)[i].1,
            ),
    decreases count,
{
    if count > 0 {
        lemma_expand_work_bounded(rs, (count - 1) as nat);
        let whole = spec_expand_work(rs, count);
        let prefix = spec_expand_work(rs, (count - 1) as nat);
        assert forall|i: int| 0 <= i < whole.len() implies bounded_node(#[trigger] whole[i].1) by {
            if i < prefix.len() {
                assert(whole[i] == prefix[i]);
            } else {
                assert(whole[i] == spec_bitmap_work(rs, count)[i - prefix.len()]);
            }
        }
    }
}

/// Whether every spawned node of a work list is small enough to
/// simplify in a later pass.
pub open spec fn all_work_bounded(work: Seq<(RefView, SchemaletView)>) -> bool {
    forall|i: int| 0 <= i < work.len() ==> bounded_node((#[trigger] work[i]).1)
}

/// Whether every node of a simplification outcome — a stuck node, a
/// rewritten node, or spawned work — is small enough for a later pass.
pub open spec fn outputs_bounded(r: Result<StateView, SimplifyErrorView>) -> bool {
    match r {
        Ok(s) => match s {
            StateView::Stuck(n) => bounded_node(n),
            StateView::Simplified(n, work) => bounded_node(n) && all_work_bounded(work),
            StateView::Canonical(_) => true,
        },
        Err(_) => true,
    }
}

/// Unpacks [`outputs_bounded`] for one spawned node of a rewrite.
proof fn lemma_bounded_work(n: SchemaletView, work: Seq<(RefView, SchemaletView)>, i: int)
    requires
        outputs_bounded(Ok(StateView::Simplified(n, work))),
        0 <= i < work.len(),
    ensures
        bounded_node(n),
        bounded_node(work[i].1),
{
    assert(all_work_bounded(work));
}

/// Unpacks [`outputs_bounded`] for a stuck or rewritten node.
proof fn lemma_bounded_node_out(r: Result<StateView, SimplifyErrorView>)
    requires
        outputs_bounded(r),
    ensures
        r matches Ok(StateView::Stuck(n)) ==> bounded_node(n),
        r matches Ok(StateView::Simplified(n, _work)) ==> bounded_node(n),
{
}

/// The simplifier only hands back nodes that are small enough to
/// simplify in a later pass.
proof fn lemma_simplify_bounded(node: SchemaletView, done: Map<RefView, CanonicalView>, fuel: nat)
    requires
        bounded_node(node),
    ensures
        outputs_bounded(spec_simplify(node, done, fuel)),
{
    reveal(spec_simplify);
    match node.details {
        DetailsView::AnyOf(refs) => {
            match spec_resolve_all(done, refs, fuel) {
                ResolutionAllView::Found(rs) => {
                    lemma_expand_work_bounded(
                        rs,
                        (vstd::arithmetic::power2::pow2(rs.len()) - 1) as nat,
                    );
                },
                _ => {},
            }
        },
        _ => {},
    }
}

/// One processed entry keeps every identity covered: what the old
/// coverage attributed to the popped entry is now in the finished
/// additions or in the queue.
proof fn lemma_coverage_step(
    dom: Set<RefView>,
    done: Map<RefView, CanonicalView>,
    a0: Map<RefView, CanonicalView>,
    a1: Map<RefView, CanonicalView>,
    n0: Map<RefView, SchemaletView>,
    n1: Map<RefView, SchemaletView>,
    e0: Seq<(SchemaRef, Schemalet)>,
    e1: Seq<(SchemaRef, Schemalet)>,
    rv: RefView,
)
    requires
        e0.len() > 0,
        e1 == e0.drop_last(),
        e0[e0.len() - 1].0@ == rv,
        forall|k: RefView|
            #[trigger] dom.contains(k) ==> done.dom().contains(k) || a0.dom().contains(k)
                || n0.dom().contains(k) || seq_has_key(e0, k),
        forall|k: RefView| #[trigger] a0.dom().contains(k) ==> a1.dom().contains(k),
        forall|k: RefView| #[trigger] n0.dom().contains(k) ==> n1.dom().contains(k),
        a1.dom().contains(rv) || n1.dom().contains(rv),
    ensures
        forall|k: RefView|
            #[trigger] dom.contains(k) ==> done.dom().contains(k) || a1.dom().contains(k)
                || n1.dom().contains(k) || seq_has_key(e1, k),
{
    assert forall|k: RefView| #[trigger] dom.contains(k) implies done.dom().contains(k)
        || a1.dom().contains(k) || n1.dom().contains(k) || seq_has_key(e1, k) by {
        if !done.dom().contains(k) && !a0.dom().contains(k) && !n0.dom().contains(k) {
            let i = choose|i: int| 0 <= i < e0.len() && e0[i].0@ == k;
            if i < e0.len() - 1 {
                assert(e1[i] == e0[i]);
                assert(seq_has_key(e1, k));
            } else {
                assert(k == rv);
            }
        }
    }
}

/// One processed entry keeps the members of a dependency cycle out of
/// the finished additions and queued unchanged.
proof fn lemma_cs_step(
    cs: Set<RefView>,
    initial: Map<RefView, SchemaletView>,
    done: Map<RefView, CanonicalView>,
    a1: Map<RefView, CanonicalView>,
    n0: Map<RefView, SchemaletView>,
    n1: Map<RefView, SchemaletView>,
    e0: Seq<(SchemaRef, Schemalet)>,
    e1: Seq<(SchemaRef, Schemalet)>,
    rv: RefView,
)
    requires
        e0.len() > 0,
        e1 == e0.drop_last(),
        e0[e0.len() - 1].0@ == rv,
        forall|k: RefView| #[trigger] cs.contains(k) ==> !done.dom().contains(k),
        forall|k: RefView| #[trigger] cs.contains(k) ==> !a1.dom().contains(k),
        forall|k: RefView|
            #[trigger] cs.contains(k) ==> ((n0.dom().contains(k) && n0[k] == initial[k])
                || seq_has_key(e0, k)),
        forall|k: RefView|
            #[trigger] n0.dom().contains(k) ==> n1.dom().contains(k) && n1[k] == n0[k],
        cs.contains(rv) ==> n1.dom().contains(rv) && n1[rv] == initial[rv],
    ensures
        forall|k: RefView|
            #[trigger] cs.contains(k) ==> !done.dom().contains(k) && !a1.dom().contains(k) && ((
            n1.dom().contains(k) && n1[k] == initial[k]) || seq_has_key(e1, k)),
{
    assert forall|k: RefView| #[trigger] cs.contains(k) implies !done.dom().contains(k)
        && !a1.dom().contains(k) && ((n1.dom().contains(k) && n1[k] == initial[k])
        || seq_has_key(e1, k)) by {
        if !(n0.dom().contains(k) && n0[k] == initial[k]) {
            let i = choose|i: int| 0 <= i < e0.len() && e0[i].0@ == k;
            if i < e0.len() - 1 {
                assert(e1[i] == e0[i]);
                assert(seq_has_key(e1, k));
            } else {
                assert(k == rv);
            }
        }
    }
}

/// Queuing one more provably stuck node keeps every queued node provably
/// stuck.
proof fn lemma_char_step(
    n0: Map<RefView, SchemaletView>,
    n1: Map<RefView, SchemaletView>,
    rv: RefView,
    v: SchemaletView,
    done: Map<RefView, CanonicalView>,
    fuel: nat,
)
    requires
        forall|k: RefView|
            #[trigger] n0.dom().contains(k) ==> spec_still_stuck(
                n0[k],
                spec_simplify(n0[k], done, fuel),
            ),
        forall|k: RefView|
            #[trigger] n1.dom().contains(k) ==> k == rv || (n0.dom().contains(k) && n1[k]
                == n0[k]),
        n1.dom().contains(rv) ==> n1[rv] == v,
        spec_still_stuck(v, spec_simplify(v, done, fuel)),
    ensures
        forall|k: RefView|
            #[trigger] n1.dom().contains(k) ==> spec_still_stuck(
                n1[k],
                spec_simplify(n1[k], done, fuel),
            ),
{
}

/// Queues a spawned or carried node under its identity. A second node
/// under an identity already queued this pass must be the same node — a
/// synthetic identity is derived deterministically from content, so
/// re-derivation is idempotent; different content marks a bug and is
/// reported as a contract violation (`false`).
fn insert_dedup(next: &mut SchemaletMap, r: SchemaRef, n: Schemalet) -> (out: bool)
    requires
        old(next).wf(),
    ensures
        final(next).wf(),
        final(next).spec_len() >= old(next).spec_len(),
        out ==> final(next)@.dom().contains(r@),
        out ==> (if old(next)@.dom().contains(r@) {
            final(next)@ == old(next)@
        } else {
            final(next)@ == old(next)@.insert(r@, n@)
        }),
        out && old(next)@.dom().contains(r@) ==> final(next)@[r@] == n@,
        !out ==> final(next)@ == old(next)@,
{
    match next.get(&r) {
        Some(existing) => schemalet_eq(existing, &n),
        None => {
            next.insert(r, n);
            true
        },
    }
}

/// Runs the worklist to a fixed point: offers every in-progress node to
/// the simplifier, commits the nodes that finished, queues rewrites and
/// spawned nodes, and repeats — for at most `max_passes` passes — until
/// no node remains. On success every initial identity is a key of the
/// finished map, every finished node upholds the engine's invariants,
/// and a closed initial graph yields a closed finished graph: every
/// identity any finished node mentions, the spawned synthetic ones
/// included, is a key of the finished map. A pass without progress
/// reports every node still in progress, each of which provably comes
/// back stuck (or needs a missing merge rule) against the finished map;
/// an exhausted ceiling reports the same way; a broken engine contract
/// aborts the run at once. A graph of terminal nodes is guaranteed to
/// succeed, and a graph with a dependency cycle is guaranteed not to.
#[verifier::rlimit(100)]
pub fn run(initial: SchemaletMap, max_passes: usize) -> (out: Result<CanonicalMap, DriverError>)
    requires
        initial.wf(),
        forall|k: RefView| #[trigger] initial@.dom().contains(k) ==> bounded_node(initial@[k]),
    ensures
        match out {
            Ok(done) => done.wf() && finished_wf(done@) && (forall|k: RefView|
                initial@.dom().contains(k) ==> #[trigger] done@.dom().contains(k)) && (
            raw_graph_closed(initial@) ==> canonical_graph_closed(done@)),
            Err(DriverError::Convergence { stuck, finished, unsupported: _, ceiling }) => {
                &&& stuck.wf()
                &&& finished.wf()
                &&& stuck.spec_len() > 0
                &&& finished_wf(finished@)
                &&& !ceiling ==> (forall|k: RefView|
                    #[trigger] stuck@.dom().contains(k) ==> spec_still_stuck(
                        stuck@[k],
                        spec_simplify(stuck@[k], finished@, finished.spec_len()),
                    ))
                &&& forall|k: RefView|
                    #[trigger] initial@.dom().contains(k) ==> finished@.dom().contains(k)
                        || stuck@.dom().contains(k)
            },
            Err(DriverError::InternalContractViolation { .. }) => true,
        },
        // A graph whose every node already has a terminal shape converges
        // within the first pass.
        (max_passes >= 1 && (forall|k: RefView|
            #[trigger] initial@.dom().contains(k) ==> terminal_node(initial@[k]))) ==> out is Ok,
        // A graph with a genuinely unresolvable dependency cycle never
        // converges: its members can never finish.
        (exists|s: Set<RefView>| spec_dependency_cycle(initial@, s)) ==> !(out is Ok),
{
    let ghost initial_dom = initial@.dom();
    let ghost tg = max_passes >= 1 && (forall|k: RefView|
        #[trigger] initial@.dom().contains(k) ==> terminal_node(initial@[k]));
    let ghost gcl: bool = raw_graph_closed(initial@);
    let ghost cyc: bool = exists|s: Set<RefView>| spec_dependency_cycle(initial@, s);
    let ghost cs: Set<RefView> = if cyc {
        choose|s: Set<RefView>| spec_dependency_cycle(initial@, s)
    } else {
        Set::empty()
    };
    let mut wip = initial;
    let mut done: CanonicalMap = RefMap::new();
    let mut pass: usize = 0;
    loop
        invariant
            initial_dom == initial@.dom(),
            tg == (max_passes >= 1 && (forall|k: RefView|
                #[trigger] initial@.dom().contains(k) ==> terminal_node(initial@[k]))),
            tg ==> ((pass == 0 && wip@ == initial@) || wip.spec_len() == 0),
            cyc == (exists|s: Set<RefView>| spec_dependency_cycle(initial@, s)),
            cyc ==> spec_dependency_cycle(initial@, cs),
            cyc ==> (forall|k: RefView|
                #[trigger] cs.contains(k) ==> wip@.dom().contains(k) && wip@[k] == initial@[k]
                    && !done@.dom().contains(k)),
            gcl == raw_graph_closed(initial@),
            gcl ==> raw_graph_children_in(wip@, done@.dom().union(wip@.dom())),
            gcl ==> done_children_in(done@, done@.dom().union(wip@.dom())),
            wip.wf(),
            done.wf(),
            finished_wf(done@),
            pass <= max_passes,
            forall|k: RefView| #[trigger] wip@.dom().contains(k) ==> bounded_node(wip@[k]),
            forall|k: RefView| #[trigger] wip@.dom().contains(k) ==> !done@.dom().contains(k),
            forall|k: RefView|
                #[trigger] initial_dom.contains(k) ==> wip@.dom().contains(k)
                    || done@.dom().contains(k),
        decreases max_passes - pass,
    {
        if wip.is_empty() {
            proof {
                if cyc {
                    let k = choose|k: RefView| cs.contains(k);
                    assert(cs.contains(k));
                    assert(wip@.dom().contains(k));
                    assert(false);
                }
                if gcl {
                    assert forall|k: RefView| #[trigger] done@.dom().contains(
                        k,
                    ) implies children_in(spec_children(done@[k].details), done@.dom()) by {
                        let cs2 = spec_children(done@[k].details);
                        assert(children_in(cs2, done@.dom().union(wip@.dom())));
                        assert forall|i: int| 0 <= i < cs2.len() implies done@.dom().contains(
                            #[trigger] cs2[i],
                        ) by {
                            assert(done@.dom().union(wip@.dom()).contains(cs2[i]));
                            assert(!wip@.dom().contains(cs2[i]));
                        }
                    }
                    assert(canonical_graph_closed(done@));
                }
            }
            return Ok(done);
        }
        if pass == max_passes {
            proof {
                wip.lemma_dom();
                if wip.spec_len() == 0 {
                    wip@.dom().lemma_len0_is_empty();
                    assert(wip@ =~= Map::<RefView, SchemaletView>::empty());
                }
                // Under a graph of terminal nodes the first pass empties
                // the worklist, so the ceiling is never the reason.
                if tg {
                    assert(pass >= 1);
                    assert(false);
                }
            }
            return Err(
                DriverError::Convergence {
                    stuck: wip,
                    finished: done,
                    unsupported: Vec::new(),
                    ceiling: true,
                },
            );
        }

        proof {
            wip.lemma_dom();
            if wip.spec_len() == 0 {
                wip@.dom().lemma_len0_is_empty();
                assert(wip@ =~= Map::<RefView, SchemaletView>::empty());
            }
        }
        let ghost wip0 = wip@;
        let ghost done0 = done@;
        let ghost fuel0 = done.spec_len();
        proof {
            done.lemma_dom();
            assert(done0.dom().len() == fuel0);
        }
        let mut entries = wip.into_entries();
        wip = RefMap::new();
        let mut next: SchemaletMap = RefMap::new();
        let mut additions: CanonicalMap = RefMap::new();
        let mut unsupported: Vec<UnsupportedMerge> = Vec::new();
        let mut progress = false;
        let ghost entries_total = entries@.len();
        proof {
            assert forall|i: int| 0 <= i < entries@.len() implies wip0.dom().contains(
                #[trigger] entries@[i].0@,
            ) && wip0[entries@[i].0@] == entries@[i].1@ by {
                assert(wip0.dom().contains(entries@[i].0@));
            }
            if cyc {
                assert forall|k: RefView| #[trigger] cs.contains(k) implies !done@.dom().contains(
                    k,
                ) && !additions@.dom().contains(k) && ((next@.dom().contains(k) && next@[k]
                    == initial@[k]) || seq_has_key(entries@, k)) by {
                    assert(wip0.dom().contains(k));
                    assert(seq_has_key(entries@, k));
                }
            }
            assert forall|k: RefView| #[trigger] done0.dom().union(wip0.dom()).contains(
                k,
            ) implies pass_known(done0, additions@, next@, entries@).contains(k) by {
                if wip0.dom().contains(k) {
                    assert(seq_has_key(entries@, k));
                    assert(entry_keys(entries@).contains(k));
                }
            }
        }

        while entries.len() > 0
            invariant
                done.wf(),
                done@ == done0,
                done.spec_len() == fuel0,
                finished_wf(done@),
                next.wf(),
                additions.wf(),
                entries_total > 0,
                unique_keys(entries@),
                forall|i: int|
                    0 <= i < entries@.len() ==> wip0.dom().contains(#[trigger] entries@[i].0@)
                        && wip0[entries@[i].0@] == entries@[i].1@,
                forall|i: int|
                    0 <= i < entries@.len() ==> !additions@.dom().contains(
                        #[trigger] entries@[i].0@,
                    ),
                forall|k: RefView| #[trigger] wip0.dom().contains(k) ==> bounded_node(wip0[k]),
                forall|k: RefView| #[trigger] wip0.dom().contains(k) ==> !done@.dom().contains(k),
                forall|k: RefView| #[trigger]
                    additions@.dom().contains(k) ==> !done@.dom().contains(k),
                forall|k: RefView| #[trigger]
                    additions@.dom().contains(k) ==> canonical_node_wf(additions@[k], done@),
                forall|k: RefView| #[trigger] next@.dom().contains(k) ==> !done@.dom().contains(k),
                forall|k: RefView| #[trigger] next@.dom().contains(k) ==> bounded_node(next@[k]),
                forall|k: RefView|
                    #[trigger] initial_dom.contains(k) ==> done@.dom().contains(k)
                        || additions@.dom().contains(k) || next@.dom().contains(k)
                        || seq_has_key(entries@, k),
                !progress ==> additions.spec_len() == 0,
                !progress ==> (entries@.len() == entries_total || next.spec_len() > 0),
                !progress ==> (forall|k: RefView|
                    #[trigger] next@.dom().contains(k) ==> spec_still_stuck(
                        next@[k],
                        spec_simplify(next@[k], done0, fuel0),
                    )),
                tg == (max_passes >= 1 && (forall|k: RefView|
                    #[trigger] initial@.dom().contains(k) ==> terminal_node(initial@[k]))),
                initial_dom == initial@.dom(),
                tg ==> wip0 == initial@,
                tg ==> next.spec_len() == 0,
                tg ==> (entries@.len() == entries_total || progress),
                cyc == (exists|s: Set<RefView>| spec_dependency_cycle(initial@, s)),
                cyc ==> spec_dependency_cycle(initial@, cs),
                cyc ==> (forall|k: RefView|
                    #[trigger] cs.contains(k) ==> wip0.dom().contains(k) && wip0[k]
                        == initial@[k]),
                cyc ==> (forall|k: RefView|
                    #[trigger] cs.contains(k) ==> !done@.dom().contains(k)
                        && !additions@.dom().contains(k) && ((next@.dom().contains(k) && next@[k]
                        == initial@[k]) || seq_has_key(entries@, k))),
                forall|k: RefView|
                    #[trigger] done0.dom().union(wip0.dom()).contains(k) ==> pass_known(
                        done0,
                        additions@,
                        next@,
                        entries@,
                    ).contains(k),
                gcl == raw_graph_closed(initial@),
                gcl ==> raw_graph_children_in(wip0, done0.dom().union(wip0.dom())),
                gcl ==> done_children_in(done0, done0.dom().union(wip0.dom())),
                gcl ==> (forall|k: RefView|
                    #[trigger] next@.dom().contains(k) ==> children_in(
                        raw_children(next@[k].details),
                        pass_known(done0, additions@, next@, entries@),
                    )),
                gcl ==> (forall|k: RefView|
                    #[trigger] additions@.dom().contains(k) ==> children_in(
                        spec_children(additions@[k].details),
                        pass_known(done0, additions@, next@, entries@),
                    )),
            decreases entries@.len(),
        {
            let ghost entries0 = entries@;
            let ghost next_pre = next@;
            let ghost additions_pre = additions@;
            let (r, node) = match entries.pop() {
                Some(pair) => pair,
                None => {
                    proof {
                        assert(false);
                    }
                    vstd::pervasive::unreached()
                },
            };
            let ghost rv = r@;
            let ghost node_view = node@;
            let ghost pk0 = pass_known(done0, additions_pre, next_pre, entries0);
            proof {
                assert(entries0[entries0.len() - 1].0@ == rv);
                assert(entries0[entries0.len() - 1].1@ == node_view);
                assert(wip0.dom().contains(rv));
                assert(bounded_node(node_view));
                lemma_simplify_bounded(node_view, done@, done.spec_len());
                lemma_stuck_is_input(node_view, done@, done.spec_len());
                if cyc && cs.contains(rv) {
                    assert(node_view == initial@[rv]);
                    assert(spec_blocking_dep(node_view, cs));
                    lemma_blocked_stuck(node_view, cs, done@, done.spec_len());
                }
                if gcl {
                    assert(children_in(
                        raw_children(node_view.details),
                        done0.dom().union(wip0.dom()),
                    ));
                    lemma_children_in_mono(
                        raw_children(node_view.details),
                        done0.dom().union(wip0.dom()),
                        pk0,
                    );
                    assert forall|k: RefView| #[trigger] done@.dom().contains(
                        k,
                    ) implies children_in(spec_children(done@[k].details), pk0) by {
                        lemma_children_in_mono(
                            spec_children(done@[k].details),
                            done0.dom().union(wip0.dom()),
                            pk0,
                        );
                    }
                    lemma_simplify_children(node_view, done@, done.spec_len(), pk0);
                }
            }
            let saved = node.clone();
            let outcome = node.simplify(&done);
            match outcome {
                Ok(State::Canonical(c)) => {
                    proof {
                        if cyc && cs.contains(rv) {
                            assert(false);
                        }
                        lemma_simplify_canonical_wf(node_view, done@, done.spec_len());
                        assert(canonical_outcome_wf(
                            Ok::<StateView, SimplifyErrorView>(StateView::Canonical(c@)),
                            done@,
                        ));
                        assert(canonical_node_wf(c@, done@));
                    }
                    progress = true;
                    additions.insert(r, c);
                    proof {
                        assert forall|i: int| 0 <= i < entries@.len() implies !additions@.dom().contains(
                            #[trigger] entries@[i].0@,
                        ) by {
                            assert(entries@[i] == entries0[i]);
                            assert(entries0[i].0@ != rv);
                        }
                        assert forall|k: RefView| #[trigger] additions@.dom().contains(k) implies canonical_node_wf(
                            additions@[k],
                            done@,
                        ) by {
                            if k != rv {
                                assert(additions_pre.dom().contains(k));
                                assert(additions@[k] == additions_pre[k]);
                            }
                        }
                        lemma_coverage_step(
                            initial_dom,
                            done@,
                            additions_pre,
                            additions@,
                            next_pre,
                            next@,
                            entries0,
                            entries@,
                            rv,
                        );
                        if cyc {
                            lemma_cs_step(
                                cs,
                                initial@,
                                done@,
                                additions@,
                                next_pre,
                                next@,
                                entries0,
                                entries@,
                                rv,
                            );
                        }
                        lemma_known_shift(
                            pk0,
                            done0.dom(),
                            additions_pre.dom().union(next_pre.dom()),
                            additions@.dom().union(next@.dom()),
                            entries0,
                            entries@,
                            rv,
                        );
                        let pk1 = pass_known(done0, additions@, next@, entries@);
                        assert forall|k: RefView| #[trigger] pk0.contains(k) implies pk1.contains(
                            k,
                        ) by {}
                        assert forall|k: RefView| #[trigger] done0.dom().union(
                            wip0.dom(),
                        ).contains(k) implies pk1.contains(k) by {
                            assert(pk0.contains(k));
                        }
                        if gcl {
                            assert(outputs_children_in(
                                Ok::<StateView, SimplifyErrorView>(StateView::Canonical(c@)),
                                pk0,
                            ));
                            assert forall|k: RefView| #[trigger] additions@.dom().contains(
                                k,
                            ) implies children_in(spec_children(additions@[k].details), pk1) by {
                                if k == rv {
                                    lemma_children_in_mono(spec_children(c@.details), pk0, pk1);
                                } else {
                                    assert(additions_pre.dom().contains(k));
                                    assert(additions@[k] == additions_pre[k]);
                                    lemma_children_in_mono(
                                        spec_children(additions_pre[k].details),
                                        pk0,
                                        pk1,
                                    );
                                }
                            }
                            assert forall|k: RefView| #[trigger] next@.dom().contains(
                                k,
                            ) implies children_in(raw_children(next@[k].details), pk1) by {
                                lemma_children_in_mono(raw_children(next@[k].details), pk0, pk1);
                            }
                        }
                    }
                },
                Ok(State::Stuck(n)) => {
                    proof {
                        if tg {
                            assert(initial_dom.contains(rv));
                            assert(terminal_node(node_view));
                            lemma_terminal_finishes(node_view, done@, done.spec_len());
                            assert(false);
                        }
                    }
                    let at = r.clone();
                    proof {
                        assert(spec_simplify(node_view, done@, done.spec_len()) == Ok::<
                            StateView,
                            SimplifyErrorView,
                        >(StateView::Stuck(n@)));
                        lemma_bounded_node_out(spec_simplify(node_view, done@, done.spec_len()));
                        assert(bounded_node(n@));
                        assert(n@ == node_view);
                    }
                    if !insert_dedup(&mut next, r, n) {
                        return Err(DriverError::InternalContractViolation { at });
                    }
                    proof {
                        next.lemma_dom();
                        if next.spec_len() == 0 {
                            next@.dom().lemma_len0_is_empty();
                        }
                        assert(next.spec_len() > 0);
                        assert(next@[rv] == node_view);
                        if !progress {
                            lemma_char_step(next_pre, next@, rv, node_view, done0, fuel0);
                        }
                        lemma_coverage_step(
                            initial_dom,
                            done@,
                            additions_pre,
                            additions@,
                            next_pre,
                            next@,
                            entries0,
                            entries@,
                            rv,
                        );
                        if cyc {
                            if cs.contains(rv) {
                                assert(next@[rv] == initial@[rv]);
                            }
                            lemma_cs_step(
                                cs,
                                initial@,
                                done@,
                                additions@,
                                next_pre,
                                next@,
                                entries0,
                                entries@,
                                rv,
                            );
                        }
                        lemma_known_shift(
                            pk0,
                            done0.dom(),
                            additions_pre.dom().union(next_pre.dom()),
                            additions@.dom().union(next@.dom()),
                            entries0,
                            entries@,
                            rv,
                        );
                        let pk1 = pass_known(done0, additions@, next@, entries@);
                        assert forall|k: RefView| #[trigger] pk0.contains(k) implies pk1.contains(
                            k,
                        ) by {}
                        assert forall|k: RefView| #[trigger] done0.dom().union(
                            wip0.dom(),
                        ).contains(k) implies pk1.contains(k) by {
                            assert(pk0.contains(k));
                        }
                        if gcl {
                            assert forall|k: RefView| #[trigger] next@.dom().contains(
                                k,
                            ) implies children_in(raw_children(next@[k].details), pk1) by {
                                if k == rv {
                                    assert(next@[rv] == node_view);
                                    lemma_children_in_mono(
                                        raw_children(node_view.details),
                                        pk0,
                                        pk1,
                                    );
                                } else {
                                    assert(next_pre.dom().contains(k));
                                    assert(next@[k] == next_pre[k]);
                                    lemma_children_in_mono(
                                        raw_children(next_pre[k].details),
                                        pk0,
                                        pk1,
                                    );
                                }
                            }
                            assert forall|k: RefView| #[trigger] additions@.dom().contains(
                                k,
                            ) implies children_in(spec_children(additions@[k].details), pk1) by {
                                lemma_children_in_mono(
                                    spec_children(additions@[k].details),
                                    pk0,
                                    pk1,
                                );
                            }
                        }
                    }
                },
                Ok(State::Simplified(n, extras)) => {
                    proof {
                        if tg {
                            assert(initial_dom.contains(rv));
                            assert(terminal_node(node_view));
                            lemma_terminal_finishes(node_view, done@, done.spec_len());
                            assert(false);
                        }
                        if cyc && cs.contains(rv) {
                            assert(false);
                        }
                    }
                    progress = true;
                    let at = r.clone();
                    proof {
                        assert(spec_simplify(node_view, done@, done.spec_len()) == Ok::<
                            StateView,
                            SimplifyErrorView,
                        >(StateView::Simplified(n@, crate::schemalet::work_view(extras@))));
                        lemma_bounded_node_out(spec_simplify(node_view, done@, done.spec_len()));
                        assert(bounded_node(n@));
                    }
                    if !insert_dedup(&mut next, r, n) {
                        return Err(DriverError::InternalContractViolation { at });
                    }
                    let ghost next1 = next@;
                    let mut extras = extras;
                    let ghost extras_full = extras@;
                    let ghost wv = crate::schemalet::work_view(extras_full);
                    let ghost kw = pk0.union(work_keys(wv));
                    proof {
                        assert(spec_simplify(node_view, done@, done.spec_len()) == Ok::<
                            StateView,
                            SimplifyErrorView,
                        >(StateView::Simplified(n@, crate::schemalet::work_view(extras@))));
                        assert(outputs_bounded(
                            Ok(StateView::Simplified(n@, crate::schemalet::work_view(extras@))),
                        ));
                        assert forall|i: int| 0 <= i < extras@.len() implies bounded_node(
                            #[trigger] extras@[i].1@,
                        ) by {
                            assert(crate::schemalet::work_view(extras@)[i] == (
                                crate::schemalet::ref_view(extras@[i].0),
                                extras@[i].1@,
                            ));
                            lemma_bounded_work(n@, crate::schemalet::work_view(extras@), i);
                        }
                        if gcl {
                            assert(outputs_children_in(
                                Ok::<StateView, SimplifyErrorView>(
                                    StateView::Simplified(n@, wv),
                                ),
                                pk0,
                            ));
                            assert(children_in(raw_children(n@.details), kw));
                            assert forall|k: RefView| #[trigger] next@.dom().contains(
                                k,
                            ) implies children_in(raw_children(next@[k].details), kw) by {
                                if k == rv {
                                    assert(next@[rv] == n@);
                                } else {
                                    assert(next_pre.dom().contains(k));
                                    assert(next@[k] == next_pre[k]);
                                    lemma_children_in_mono(
                                        raw_children(next_pre[k].details),
                                        pk0,
                                        kw,
                                    );
                                }
                            }
                        }
                    }
                    while extras.len() > 0
                        invariant
                            tg == (max_passes >= 1 && (forall|k: RefView|
                                #[trigger] initial@.dom().contains(k) ==> terminal_node(
                                    initial@[k],
                                ))),
                            !tg,
                            done.wf(),
                            done@ == done0,
                            next.wf(),
                            next@.dom().contains(rv),
                            wv == crate::schemalet::work_view(extras_full),
                            wv.len() == extras_full.len(),
                            kw == pk0.union(work_keys(wv)),
                            extras@.len() <= extras_full.len(),
                            forall|i: int|
                                0 <= i < extras@.len() ==> #[trigger] extras@[i]
                                    == extras_full[i],
                            forall|k: RefView|
                                #[trigger] next1.dom().contains(k) ==> next@.dom().contains(k)
                                    && next@[k] == next1[k],
                            forall|i: int|
                                0 <= i < extras@.len() ==> bounded_node(#[trigger] extras@[i].1@),
                            forall|k: RefView| #[trigger]
                                next@.dom().contains(k) ==> !done@.dom().contains(k),
                            forall|k: RefView| #[trigger]
                                next@.dom().contains(k) ==> bounded_node(next@[k]),
                            gcl ==> (forall|i: int|
                                extras@.len() <= i < wv.len() ==> next@.dom().contains(
                                    (#[trigger] wv[i]).0,
                                ) || done@.dom().contains(wv[i].0)),
                            gcl ==> (forall|k: RefView|
                                #[trigger] next@.dom().contains(k) ==> children_in(
                                    raw_children(next@[k].details),
                                    kw,
                                )),
                            gcl ==> (forall|i: int|
                                0 <= i < wv.len() ==> children_in(
                                    raw_children((#[trigger] wv[i]).1.details),
                                    kw,
                                )),
                        decreases extras@.len(),
                    {
                        let ghost extras0 = extras@;
                        let (er, en) = match extras.pop() {
                            Some(pair) => pair,
                            None => {
                                proof {
                                    assert(false);
                                }
                                vstd::pervasive::unreached()
                            },
                        };
                        let ghost pi = extras@.len() as int;
                        proof {
                            assert(extras0[extras0.len() - 1].1@ == en@);
                            assert(extras0[pi] == extras_full[pi]);
                            assert(wv[pi] == (
                                crate::schemalet::ref_view(extras_full[pi].0),
                                extras_full[pi].1@,
                            ));
                            assert(er@ == wv[pi].0);
                            assert(en@ == wv[pi].1);
                        }
                        if !done.contains_key(&er) {
                            if !insert_dedup(&mut next, er, en) {
                                return Err(DriverError::InternalContractViolation { at });
                            }
                            proof {
                                if gcl {
                                    assert(next@.dom().contains(wv[pi].0));
                                }
                            }
                        }
                    }
                    proof {
                        assert forall|k: RefView| #[trigger] next_pre.dom().contains(
                            k,
                        ) implies next@.dom().contains(k) && next@[k] == next_pre[k] by {
                            assert(next1.dom().contains(k));
                            assert(next1[k] == next_pre[k]);
                        }
                        lemma_known_shift(
                            pk0,
                            done0.dom(),
                            additions_pre.dom().union(next_pre.dom()),
                            additions@.dom().union(next@.dom()),
                            entries0,
                            entries@,
                            rv,
                        );
                        let pk1 = pass_known(done0, additions@, next@, entries@);
                        assert forall|k: RefView| #[trigger] pk0.contains(k) implies pk1.contains(
                            k,
                        ) by {}
                        assert forall|k: RefView| #[trigger] done0.dom().union(
                            wip0.dom(),
                        ).contains(k) implies pk1.contains(k) by {
                            assert(pk0.contains(k));
                        }
                        if gcl {
                            assert forall|k: RefView| #[trigger] kw.contains(k) implies pk1.contains(
                                k,
                            ) by {
                                if !pk0.contains(k) {
                                    assert(work_keys(wv).contains(k));
                                    let i = choose|i: int|
                                        0 <= i < wv.len() && (#[trigger] wv[i]).0 == k;
                                    assert(next@.dom().contains(k) || done@.dom().contains(k));
                                }
                            }
                            assert forall|k: RefView| #[trigger] next@.dom().contains(
                                k,
                            ) implies children_in(raw_children(next@[k].details), pk1) by {
                                lemma_children_in_mono(raw_children(next@[k].details), kw, pk1);
                            }
                            assert forall|k: RefView| #[trigger] additions@.dom().contains(
                                k,
                            ) implies children_in(spec_children(additions@[k].details), pk1) by {
                                lemma_children_in_mono(
                                    spec_children(additions@[k].details),
                                    pk0,
                                    pk1,
                                );
                            }
                        }
                        lemma_coverage_step(
                            initial_dom,
                            done@,
                            additions_pre,
                            additions@,
                            next_pre,
                            next@,
                            entries0,
                            entries@,
                            rv,
                        );
                        if cyc {
                            lemma_cs_step(
                                cs,
                                initial@,
                                done@,
                                additions@,
                                next_pre,
                                next@,
                                entries0,
                                entries@,
                                rv,
                            );
                        }
                    }
                },
                Err(SimplifyError::UnsupportedMerge { a, b }) => {
                    proof {
                        if tg {
                            assert(initial_dom.contains(rv));
                            assert(terminal_node(node_view));
                            lemma_terminal_finishes(node_view, done@, done.spec_len());
                            assert(false);
                        }
                        if cyc && cs.contains(rv) {
                            assert(false);
                        }
                    }
                    let at = r.clone();
                    unsupported.push(UnsupportedMerge { at: r.clone(), a, b });
                    proof {
                        assert(saved@ == wip0[rv]);
                        assert(saved@ == node_view);
                    }
                    if !insert_dedup(&mut next, r, saved) {
                        return Err(DriverError::InternalContractViolation { at });
                    }
                    proof {
                        next.lemma_dom();
                        if next.spec_len() == 0 {
                            next@.dom().lemma_len0_is_empty();
                        }
                        assert(next.spec_len() > 0);
                        assert(next@[rv] == node_view);
                        if !progress {
                            assert forall|k: RefView| #[trigger] next@.dom().contains(
                                k,
                            ) implies spec_still_stuck(
                                next@[k],
                                spec_simplify(next@[k], done0, fuel0),
                            ) by {
                                if k != rv {
                                    assert(next_pre.dom().contains(k));
                                    assert(next@[k] == next_pre[k]);
                                }
                            }
                        }
                        assert forall|k: RefView| #[trigger] initial_dom.contains(k) implies done@.dom().contains(
                            k,
                        ) || additions@.dom().contains(k) || next@.dom().contains(k)
                            || seq_has_key(entries@, k) by {
                            if seq_has_key(entries0, k) {
                                let i = choose|i: int|
                                    0 <= i < entries0.len() && entries0[i].0@ == k;
                                if i < entries0.len() - 1 {
                                    assert(entries@[i] == entries0[i]);
                                    assert(seq_has_key(entries@, k));
                                } else {
                                    assert(k == rv);
                                    assert(next@.dom().contains(k));
                                }
                            }
                        }
                        if cyc {
                            assert forall|k: RefView| #[trigger] cs.contains(k) implies !done@.dom().contains(
                                k,
                            ) && !additions@.dom().contains(k) && ((next@.dom().contains(k)
                                && next@[k] == initial@[k]) || seq_has_key(entries@, k)) by {
                                assert(k != rv);
                                if !(next@.dom().contains(k) && next@[k] == initial@[k]) {
                                    if !(next_pre.dom().contains(k) && next_pre[k]
                                        == initial@[k]) {
                                        let i = choose|i: int|
                                            0 <= i < entries0.len() && entries0[i].0@ == k;
                                        assert(i < entries0.len() - 1);
                                        assert(entries@[i] == entries0[i]);
                                        assert(seq_has_key(entries@, k));
                                    }
                                }
                            }
                        }
                        lemma_known_shift(
                            pk0,
                            done0.dom(),
                            additions_pre.dom().union(next_pre.dom()),
                            additions@.dom().union(next@.dom()),
                            entries0,
                            entries@,
                            rv,
                        );
                        let pk1 = pass_known(done0, additions@, next@, entries@);
                        assert forall|k: RefView| #[trigger] pk0.contains(k) implies pk1.contains(
                            k,
                        ) by {}
                        assert forall|k: RefView| #[trigger] done0.dom().union(
                            wip0.dom(),
                        ).contains(k) implies pk1.contains(k) by {
                            assert(pk0.contains(k));
                        }
                        if gcl {
                            assert forall|k: RefView| #[trigger] next@.dom().contains(
                                k,
                            ) implies children_in(raw_children(next@[k].details), pk1) by {
                                if k == rv {
                                    assert(next@[rv] == node_view);
                                    lemma_children_in_mono(
                                        raw_children(node_view.details),
                                        pk0,
                                        pk1,
                                    );
                                } else {
                                    assert(next_pre.dom().contains(k));
                                    assert(next@[k] == next_pre[k]);
                                    lemma_children_in_mono(
                                        raw_children(next_pre[k].details),
                                        pk0,
                                        pk1,
                                    );
                                }
                            }
                            assert forall|k: RefView| #[trigger] additions@.dom().contains(
                                k,
                            ) implies children_in(spec_children(additions@[k].details), pk1) by {
                                lemma_children_in_mono(
                                    spec_children(additions@[k].details),
                                    pk0,
                                    pk1,
                                );
                            }
                        }
                    }
                },
                Err(SimplifyError::InternalContractViolation) => {
                    proof {
                        if tg {
                            assert(initial_dom.contains(rv));
                            assert(terminal_node(node_view));
                            lemma_terminal_finishes(node_view, done@, done.spec_len());
                            assert(false);
                        }
                    }
                    return Err(DriverError::InternalContractViolation { at: r });
                },
            }
        }

        // Commit this pass's finished nodes.
        let ghost had_progress = progress;
        let ghost additions_final = additions@;
        let ghost pk_end = pass_known(done0, additions_final, next@, entries@);
        let mut finished = additions.into_entries();
        proof {
            if !had_progress {
                assert(finished@.len() == 0);
            }
            assert forall|k: RefView| #[trigger] pk_end.contains(k) implies done@.dom().union(
                next@.dom(),
            ).union(entry_keys(finished@)).contains(k) by {
                if additions_final.dom().contains(k) {
                    assert(seq_has_key(finished@, k));
                    assert(entry_keys(finished@).contains(k));
                }
                if entry_keys(entries@).contains(k) {
                    assert(seq_has_key(entries@, k));
                    let i = choose|i: int| 0 <= i < entries@.len() && (#[trigger] entries@[i]).0@
                        == k;
                    assert(false);
                }
            }
            if gcl {
                assert forall|k: RefView| #[trigger] done@.dom().contains(k) implies children_in(
                    spec_children(done@[k].details),
                    done@.dom().union(next@.dom()).union(entry_keys(finished@)),
                ) by {
                    lemma_children_in_mono(
                        spec_children(done@[k].details),
                        done0.dom().union(wip0.dom()),
                        done@.dom().union(next@.dom()).union(entry_keys(finished@)),
                    );
                }
                assert forall|i: int| 0 <= i < finished@.len() implies children_in(
                    spec_children((#[trigger] finished@[i]).1@.details),
                    done@.dom().union(next@.dom()).union(entry_keys(finished@)),
                ) by {
                    assert(additions_final.dom().contains(finished@[i].0@));
                    assert(additions_final[finished@[i].0@] == finished@[i].1@);
                    lemma_children_in_mono(
                        spec_children(finished@[i].1@.details),
                        pk_end,
                        done@.dom().union(next@.dom()).union(entry_keys(finished@)),
                    );
                }
            }
            assert forall|i: int| 0 <= i < finished@.len() implies !done@.dom().contains(
                #[trigger] finished@[i].0@,
            ) && canonical_node_wf(finished@[i].1@, done0) by {
                assert(additions_final.dom().contains(finished@[i].0@));
                assert(additions_final[finished@[i].0@] == finished@[i].1@);
            }
            if cyc {
                assert forall|i: int| 0 <= i < finished@.len() implies !cs.contains(
                    #[trigger] finished@[i].0@,
                ) by {
                    assert(additions_final.dom().contains(finished@[i].0@));
                }
            }
            assert forall|k: RefView| #[trigger] initial_dom.contains(k) implies done@.dom().contains(
                k,
            ) || next@.dom().contains(k) || seq_has_key(finished@, k) by {
                if additions_final.dom().contains(k) {
                    assert(seq_has_key(finished@, k));
                }
            }
        }
        while finished.len() > 0
            invariant
                done.wf(),
                next.wf(),
                unique_keys(finished@),
                !had_progress ==> finished@.len() == 0,
                !had_progress ==> done@ == done0,
                finished_wf(done@),
                forall|k: RefView|
                    #[trigger] done0.dom().contains(k) ==> done@.dom().contains(k) && done@[k]
                        == done0[k],
                forall|i: int|
                    0 <= i < finished@.len() ==> !done@.dom().contains(#[trigger] finished@[i].0@),
                forall|i: int|
                    0 <= i < finished@.len() ==> canonical_node_wf(
                        #[trigger] finished@[i].1@,
                        done0,
                    ),
                cyc ==> (forall|i: int|
                    0 <= i < finished@.len() ==> !cs.contains(#[trigger] finished@[i].0@)),
                cyc ==> (forall|k: RefView| #[trigger]
                    cs.contains(k) ==> !done@.dom().contains(k)),
                forall|k: RefView| #[trigger] next@.dom().contains(k) ==> !done0.dom().contains(k),
                forall|k: RefView| #[trigger] next@.dom().contains(k) ==> bounded_node(next@[k]),
                forall|k: RefView|
                    #[trigger] initial_dom.contains(k) ==> done@.dom().contains(k)
                        || next@.dom().contains(k) || seq_has_key(finished@, k),
                forall|k: RefView|
                    #[trigger] pk_end.contains(k) ==> done@.dom().union(next@.dom()).union(
                        entry_keys(finished@),
                    ).contains(k),
                gcl ==> (forall|k: RefView|
                    #[trigger] done@.dom().contains(k) ==> children_in(
                        spec_children(done@[k].details),
                        done@.dom().union(next@.dom()).union(entry_keys(finished@)),
                    )),
                gcl ==> (forall|i: int|
                    0 <= i < finished@.len() ==> children_in(
                        spec_children((#[trigger] finished@[i]).1@.details),
                        done@.dom().union(next@.dom()).union(entry_keys(finished@)),
                    )),
            decreases finished@.len(),
        {
            let ghost finished0 = finished@;
            let ghost done_pre = done@;
            let (r, c) = match finished.pop() {
                Some(pair) => pair,
                None => {
                    proof {
                        assert(false);
                    }
                    vstd::pervasive::unreached()
                },
            };
            let ghost rv = r@;
            proof {
                assert(finished0[finished0.len() - 1].0@ == rv);
                assert(finished0[finished0.len() - 1].1@ == c@);
                assert(canonical_node_wf(c@, done0));
                assert forall|i: int| 0 <= i < finished@.len() implies finished@[i].0@ != rv by {
                    assert(finished@[i] == finished0[i]);
                }
            }
            done.insert(r, c);
            proof {
                lemma_known_shift(
                    pk_end,
                    next@.dom(),
                    done_pre.dom(),
                    done@.dom(),
                    finished0,
                    finished@,
                    rv,
                );
                assert forall|k: RefView| #[trigger] pk_end.contains(k) implies done@.dom().union(
                    next@.dom(),
                ).union(entry_keys(finished@)).contains(k) by {
                    if seq_has_key(finished@, k) {
                        assert(entry_keys(finished@).contains(k));
                    }
                }
                lemma_known_shift(
                    done_pre.dom().union(next@.dom()).union(entry_keys(finished0)),
                    next@.dom(),
                    done_pre.dom(),
                    done@.dom(),
                    finished0,
                    finished@,
                    rv,
                );
                if gcl {
                    assert forall|k: RefView| #[trigger] done@.dom().contains(
                        k,
                    ) implies children_in(
                        spec_children(done@[k].details),
                        done@.dom().union(next@.dom()).union(entry_keys(finished@)),
                    ) by {
                        if k == rv {
                            lemma_children_in_mono(
                                spec_children(c@.details),
                                done_pre.dom().union(next@.dom()).union(entry_keys(finished0)),
                                done@.dom().union(next@.dom()).union(entry_keys(finished@)),
                            );
                        } else {
                            assert(done_pre.dom().contains(k));
                            assert(done@[k] == done_pre[k]);
                            lemma_children_in_mono(
                                spec_children(done_pre[k].details),
                                done_pre.dom().union(next@.dom()).union(entry_keys(finished0)),
                                done@.dom().union(next@.dom()).union(entry_keys(finished@)),
                            );
                        }
                    }
                    assert forall|i: int| 0 <= i < finished@.len() implies children_in(
                        spec_children((#[trigger] finished@[i]).1@.details),
                        done@.dom().union(next@.dom()).union(entry_keys(finished@)),
                    ) by {
                        assert(finished@[i] == finished0[i]);
                        lemma_children_in_mono(
                            spec_children(finished0[i].1@.details),
                            done_pre.dom().union(next@.dom()).union(entry_keys(finished0)),
                            done@.dom().union(next@.dom()).union(entry_keys(finished@)),
                        );
                    }
                }
                assert forall|k: RefView| #[trigger] done0.dom().contains(
                    k,
                ) implies done@.dom().contains(k) && done@[k] == done0[k] by {
                    assert(done_pre.dom().contains(k));
                    assert(k != rv);
                }
                assert forall|k: RefView| #[trigger] done@.dom().contains(
                    k,
                ) implies canonical_node_wf(done@[k], done@) by {
                    if k == rv {
                        crate::simplify::lemma_wf_monotone(c@, done0, done@);
                    } else {
                        assert(done_pre.dom().contains(k));
                        assert(done@[k] == done_pre[k]);
                        crate::simplify::lemma_wf_monotone(done_pre[k], done_pre, done@);
                    }
                }
                assert(finished_wf(done@));
                assert forall|k: RefView| #[trigger] initial_dom.contains(k) implies done@.dom().contains(
                    k,
                ) || next@.dom().contains(k) || seq_has_key(finished@, k) by {
                    if seq_has_key(finished0, k) {
                        let i = choose|i: int| 0 <= i < finished0.len() && finished0[i].0@ == k;
                        if i < finished0.len() - 1 {
                            assert(finished@[i] == finished0[i]);
                            assert(seq_has_key(finished@, k));
                        } else {
                            assert(k == rv);
                        }
                    }
                }
            }
        }

        // Queue the next pass, dropping any node whose identity finished
        // this pass: such a node was a duplicate derivation of a finished
        // node.
        let ghost next_total = next.spec_len();
        let ghost next_final = next@;
        let mut carried = next.into_entries();
        proof {
            assert forall|i: int| 0 <= i < carried@.len() implies !done0.dom().contains(
                #[trigger] carried@[i].0@,
            ) && bounded_node(carried@[i].1@) && next_final.dom().contains(carried@[i].0@)
                && next_final[carried@[i].0@] == carried@[i].1@ by {
                assert(next_final.dom().contains(carried@[i].0@));
                assert(next_final[carried@[i].0@] == carried@[i].1@);
            }
            assert forall|k: RefView| #[trigger] initial_dom.contains(k) implies done@.dom().contains(
                k,
            ) || wip@.dom().contains(k) || seq_has_key(carried@, k) by {
                if next_final.dom().contains(k) {
                    assert(seq_has_key(carried@, k));
                }
            }
            if cyc {
                assert forall|k: RefView| #[trigger] cs.contains(k) implies !done@.dom().contains(
                    k,
                ) && ((wip@.dom().contains(k) && wip@[k] == initial@[k]) || (exists|i: int|
                    0 <= i < carried@.len() && (#[trigger] carried@[i]).0@ == k && carried@[i].1@
                        == initial@[k])) by {
                    assert(next_final.dom().contains(k) && next_final[k] == initial@[k]);
                    assert(seq_has_key(carried@, k));
                    let i = choose|i: int| 0 <= i < carried@.len() && carried@[i].0@ == k;
                    assert(carried@[i].1@ == next_final[k]);
                }
            }
            if gcl {
                assert forall|k: RefView|
                    #[trigger] done@.dom().union(next_final.dom()).contains(
                    k,
                ) implies done@.dom().union(wip@.dom()).union(entry_keys(carried@)).contains(
                    k,
                ) by {
                    if next_final.dom().contains(k) {
                        assert(seq_has_key(carried@, k));
                        assert(entry_keys(carried@).contains(k));
                    }
                }
                assert forall|k: RefView| #[trigger] done@.dom().contains(k) implies children_in(
                    spec_children(done@[k].details),
                    done@.dom().union(wip@.dom()).union(entry_keys(carried@)),
                ) by {
                    assert forall|k2: RefView|
                        #[trigger] done@.dom().union(next_final.dom()).union(
                        entry_keys(finished@),
                    ).contains(k2) implies done@.dom().union(wip@.dom()).union(
                        entry_keys(carried@),
                    ).contains(k2) by {
                        if entry_keys(finished@).contains(k2) {
                            assert(seq_has_key(finished@, k2));
                            let i = choose|i: int|
                                0 <= i < finished@.len() && (#[trigger] finished@[i]).0@ == k2;
                            assert(false);
                        }
                    }
                    lemma_children_in_mono(
                        spec_children(done@[k].details),
                        done@.dom().union(next_final.dom()).union(entry_keys(finished@)),
                        done@.dom().union(wip@.dom()).union(entry_keys(carried@)),
                    );
                }
                assert forall|i: int| 0 <= i < carried@.len() implies children_in(
                    raw_children((#[trigger] carried@[i]).1@.details),
                    done@.dom().union(wip@.dom()).union(entry_keys(carried@)),
                ) by {
                    assert(next_final.dom().contains(carried@[i].0@));
                    assert(next_final[carried@[i].0@] == carried@[i].1@);
                    assert(children_in(raw_children(carried@[i].1@.details), pk_end));
                    assert forall|k2: RefView| #[trigger] pk_end.contains(k2) implies done@.dom().union(
                        wip@.dom(),
                    ).union(entry_keys(carried@)).contains(k2) by {
                        assert(done@.dom().union(next_final.dom()).union(
                            entry_keys(finished@),
                        ).contains(k2));
                        if entry_keys(finished@).contains(k2) {
                            assert(seq_has_key(finished@, k2));
                            let i2 = choose|i2: int|
                                0 <= i2 < finished@.len() && (#[trigger] finished@[i2]).0@ == k2;
                            assert(false);
                        }
                        if next_final.dom().contains(k2) {
                            assert(seq_has_key(carried@, k2));
                            assert(entry_keys(carried@).contains(k2));
                        }
                    }
                    lemma_children_in_mono(
                        raw_children(carried@[i].1@.details),
                        pk_end,
                        done@.dom().union(wip@.dom()).union(entry_keys(carried@)),
                    );
                }
            }
        }
        while carried.len() > 0
            invariant
                done.wf(),
                wip.wf(),
                unique_keys(carried@),
                tg ==> carried@.len() == 0,
                tg ==> wip.spec_len() == 0,
                !had_progress ==> done@ == done0,
                !had_progress ==> wip.spec_len() + carried@.len() == next_total,
                !had_progress ==> (forall|k: RefView|
                    #[trigger] wip@.dom().contains(k) ==> next_final.dom().contains(k) && wip@[k]
                        == next_final[k]),
                finished_wf(done@),
                cyc ==> (forall|k: RefView|
                    #[trigger] cs.contains(k) ==> !done@.dom().contains(k) && ((
                    wip@.dom().contains(k) && wip@[k] == initial@[k]) || (exists|i: int|
                        0 <= i < carried@.len() && (#[trigger] carried@[i]).0@ == k
                            && carried@[i].1@ == initial@[k]))),
                forall|i: int|
                    0 <= i < carried@.len() ==> !wip@.dom().contains(#[trigger] carried@[i].0@),
                forall|i: int|
                    0 <= i < carried@.len() ==> !done0.dom().contains(#[trigger] carried@[i].0@),
                forall|i: int|
                    0 <= i < carried@.len() ==> bounded_node(#[trigger] carried@[i].1@),
                forall|i: int|
                    0 <= i < carried@.len() ==> next_final.dom().contains(
                        #[trigger] carried@[i].0@,
                    ) && next_final[carried@[i].0@] == carried@[i].1@,
                forall|k: RefView| #[trigger] wip@.dom().contains(k) ==> bounded_node(wip@[k]),
                forall|k: RefView| #[trigger] wip@.dom().contains(k) ==> !done@.dom().contains(k),
                forall|k: RefView|
                    #[trigger] initial_dom.contains(k) ==> done@.dom().contains(k)
                        || wip@.dom().contains(k) || seq_has_key(carried@, k),
                gcl == raw_graph_closed(initial@),
                gcl ==> (forall|k: RefView|
                    #[trigger] done@.dom().contains(k) ==> children_in(
                        spec_children(done@[k].details),
                        done@.dom().union(wip@.dom()).union(entry_keys(carried@)),
                    )),
                gcl ==> (forall|k: RefView|
                    #[trigger] wip@.dom().contains(k) ==> children_in(
                        raw_children(wip@[k].details),
                        done@.dom().union(wip@.dom()).union(entry_keys(carried@)),
                    )),
                gcl ==> (forall|i: int|
                    0 <= i < carried@.len() ==> children_in(
                        raw_children((#[trigger] carried@[i]).1@.details),
                        done@.dom().union(wip@.dom()).union(entry_keys(carried@)),
                    )),
            decreases carried@.len(),
        {
            let ghost carried0 = carried@;
            let (r, n) = match carried.pop() {
                Some(pair) => pair,
                None => {
                    proof {
                        assert(false);
                    }
                    vstd::pervasive::unreached()
                },
            };
            let ghost rv = r@;
            proof {
                assert(carried0[carried0.len() - 1].0@ == rv);
                assert(carried0[carried0.len() - 1].1@ == n@);
                assert forall|i: int| 0 <= i < carried@.len() implies carried@[i].0@ != rv by {
                    assert(carried@[i] == carried0[i]);
                }
            }
            proof {
                if !had_progress {
                    assert(!done@.dom().contains(rv));
                }
                if cyc && cs.contains(rv) {
                    assert(!done@.dom().contains(rv));
                }
            }
            let ghost wip_pre = wip@;
            let ghost nv = n@;
            let in_done = done.contains_key(&r);
            if !in_done {
                wip.insert(r, n);
            }
            proof {
                if gcl {
                    lemma_known_shift(
                        done@.dom().union(wip_pre.dom()).union(entry_keys(carried0)),
                        done@.dom(),
                        wip_pre.dom(),
                        wip@.dom(),
                        carried0,
                        carried@,
                        rv,
                    );
                    assert forall|k2: RefView|
                        #[trigger] done@.dom().union(wip_pre.dom()).union(
                        entry_keys(carried0),
                    ).contains(k2) implies done@.dom().union(wip@.dom()).union(
                        entry_keys(carried@),
                    ).contains(k2) by {
                        if seq_has_key(carried@, k2) {
                            assert(entry_keys(carried@).contains(k2));
                        }
                    }
                    assert forall|k: RefView| #[trigger] done@.dom().contains(
                        k,
                    ) implies children_in(
                        spec_children(done@[k].details),
                        done@.dom().union(wip@.dom()).union(entry_keys(carried@)),
                    ) by {
                        lemma_children_in_mono(
                            spec_children(done@[k].details),
                            done@.dom().union(wip_pre.dom()).union(entry_keys(carried0)),
                            done@.dom().union(wip@.dom()).union(entry_keys(carried@)),
                        );
                    }
                    assert forall|k: RefView| #[trigger] wip@.dom().contains(
                        k,
                    ) implies children_in(
                        raw_children(wip@[k].details),
                        done@.dom().union(wip@.dom()).union(entry_keys(carried@)),
                    ) by {
                        if k == rv && !in_done {
                            assert(wip@[rv] == nv);
                            assert(nv == carried0[carried0.len() - 1].1@);
                            lemma_children_in_mono(
                                raw_children(nv.details),
                                done@.dom().union(wip_pre.dom()).union(entry_keys(carried0)),
                                done@.dom().union(wip@.dom()).union(entry_keys(carried@)),
                            );
                        } else {
                            assert(wip_pre.dom().contains(k));
                            assert(wip@[k] == wip_pre[k]);
                            lemma_children_in_mono(
                                raw_children(wip_pre[k].details),
                                done@.dom().union(wip_pre.dom()).union(entry_keys(carried0)),
                                done@.dom().union(wip@.dom()).union(entry_keys(carried@)),
                            );
                        }
                    }
                    assert forall|i: int| 0 <= i < carried@.len() implies children_in(
                        raw_children((#[trigger] carried@[i]).1@.details),
                        done@.dom().union(wip@.dom()).union(entry_keys(carried@)),
                    ) by {
                        assert(carried@[i] == carried0[i]);
                        lemma_children_in_mono(
                            raw_children(carried0[i].1@.details),
                            done@.dom().union(wip_pre.dom()).union(entry_keys(carried0)),
                            done@.dom().union(wip@.dom()).union(entry_keys(carried@)),
                        );
                    }
                }
                assert forall|k: RefView| #[trigger] initial_dom.contains(k) implies done@.dom().contains(
                    k,
                ) || wip@.dom().contains(k) || seq_has_key(carried@, k) by {
                    if seq_has_key(carried0, k) {
                        let i = choose|i: int| 0 <= i < carried0.len() && carried0[i].0@ == k;
                        if i < carried0.len() - 1 {
                            assert(carried@[i] == carried0[i]);
                            assert(seq_has_key(carried@, k));
                        } else {
                            assert(k == rv);
                            if in_done {
                                assert(done@.dom().contains(k));
                            } else {
                                assert(wip@.dom().contains(k));
                            }
                        }
                    }
                }
                if cyc {
                    assert forall|k: RefView| #[trigger] cs.contains(k) implies !done@.dom().contains(
                        k,
                    ) && ((wip@.dom().contains(k) && wip@[k] == initial@[k]) || (exists|i: int|
                        0 <= i < carried@.len() && (#[trigger] carried@[i]).0@ == k
                            && carried@[i].1@ == initial@[k])) by {
                        if !(wip@.dom().contains(k) && wip@[k] == initial@[k]) {
                            let i = choose|i: int|
                                0 <= i < carried0.len() && carried0[i].0@ == k && carried0[i].1@
                                    == initial@[k];
                            if i < carried0.len() - 1 {
                                assert(carried@[i] == carried0[i]);
                            } else {
                                assert(k == rv);
                                assert(n@ == initial@[k]);
                                assert(!in_done);
                                assert(wip@.dom().contains(k) && wip@[k] == initial@[k]);
                            }
                        }
                    }
                }
            }
        }

        proof {
            if gcl {
                assert forall|k2: RefView|
                    #[trigger] done@.dom().union(wip@.dom()).union(
                    entry_keys(carried@),
                ).contains(k2) implies done@.dom().union(wip@.dom()).contains(k2) by {
                    if entry_keys(carried@).contains(k2) {
                        assert(seq_has_key(carried@, k2));
                        let i = choose|i: int|
                            0 <= i < carried@.len() && (#[trigger] carried@[i]).0@ == k2;
                        assert(false);
                    }
                }
                assert forall|k: RefView| #[trigger] done@.dom().contains(k) implies children_in(
                    spec_children(done@[k].details),
                    done@.dom().union(wip@.dom()),
                ) by {
                    lemma_children_in_mono(
                        spec_children(done@[k].details),
                        done@.dom().union(wip@.dom()).union(entry_keys(carried@)),
                        done@.dom().union(wip@.dom()),
                    );
                }
                assert forall|k: RefView| #[trigger] wip@.dom().contains(k) implies children_in(
                    raw_children(wip@[k].details),
                    done@.dom().union(wip@.dom()),
                ) by {
                    lemma_children_in_mono(
                        raw_children(wip@[k].details),
                        done@.dom().union(wip@.dom()).union(entry_keys(carried@)),
                        done@.dom().union(wip@.dom()),
                    );
                }
            }
        }

        if !progress {
            proof {
                if tg {
                    assert(false);
                }
                assert(wip.spec_len() == next_total);
                assert(next_total > 0);
                done.lemma_dom();
                assert(done@ == done0);
                assert(done.spec_len() == fuel0);
                assert forall|k: RefView| #[trigger] wip@.dom().contains(
                    k,
                ) implies spec_still_stuck(
                    wip@[k],
                    spec_simplify(wip@[k], done@, done.spec_len()),
                ) by {
                    assert(next_final.dom().contains(k));
                    assert(wip@[k] == next_final[k]);
                    assert(spec_still_stuck(next_final[k], spec_simplify(next_final[k], done0, fuel0)));
                }
            }
            return Err(
                DriverError::Convergence {
                    stuck: wip,
                    finished: done,
                    unsupported,
                    ceiling: false,
                },
            );
        }
        pass = pass + 1;
    }
}

} // verus!
