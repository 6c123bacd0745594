//! One simplification step: the per-shape rewrite rules.

use vstd::prelude::*;

use crate::clone_eq::clone_refs;
use crate::errors::{state_result_view, SimplifyError, SimplifyErrorView};
use crate::expand::{expand_any_of, spec_expand_any_of};
use crate::merge_all::{merge_all, spec_merge_all};
use crate::resolve::{
    lemma_resolve_all_found_nodes, lemma_resolve_found, resolve, resolve_all, resolved_type,
    spec_resolve, spec_resolve_all, spec_resolved_type, CanonicalMap, Resolution, ResolutionAll,
    ResolutionAllView, ResolutionView,
};
use crate::schemalet::{
    canonical_node_wf, lemma_refs_view, lemma_work_view, ref_view, refs_view, spec_get_type,
    spec_uniform_type, work_view, CanonicalDetailsView, CanonicalSchemalet,
    CanonicalSchemaletDetails, CanonicalView, DetailsView, MetadataView, RefView, SchemaRef,
    Schemalet, SchemaletDetails, SchemaletMetadata, SchemaletType, SchemaletView, State, StateView,
};

verus! {

broadcast use lemma_refs_view, lemma_work_view;

/// Whether the member `r` blocks the type-tag shortcut of an exclusion
/// whose "yes" side has tag `yt`: it does unless both tags are known and
/// differ.
pub open spec fn spec_blocks(
    done: Map<RefView, CanonicalView>,
    yt: Option<SchemaletType>,
    r: RefView,
    fuel: nat,
) -> bool {
    match yt {
        None => true,
        Some(t) => match spec_resolved_type(done, r, fuel) {
            Some(t2) => t2 == t,
            None => true,
        },
    }
}

/// The position of the first blocking member.
pub open spec fn spec_first_blocking(
    done: Map<RefView, CanonicalView>,
    yt: Option<SchemaletType>,
    rno: Seq<RefView>,
    fuel: nat,
) -> int
    decreases rno.len(),
{
    if rno.len() == 0 {
        0
    } else if spec_blocks(done, yt, rno[0], fuel) {
        0
    } else {
        1 + spec_first_blocking(done, yt, rno.drop_first(), fuel)
    }
}

/// A scan that finds a blocking member behind only non-blocking ones has
/// found the first.
proof fn lemma_first_blocking(
    done: Map<RefView, CanonicalView>,
    yt: Option<SchemaletType>,
    rno: Seq<RefView>,
    fuel: nat,
    i: int,
)
    requires
        0 <= i < rno.len(),
        spec_blocks(done, yt, rno[i], fuel),
        forall|j: int| 0 <= j < i ==> !spec_blocks(done, yt, #[trigger] rno[j], fuel),
    ensures
        spec_first_blocking(done, yt, rno, fuel) == i,
    decreases i,
{
    if i > 0 {
        assert forall|j: int| 0 <= j < i - 1 implies !spec_blocks(
            done,
            yt,
            #[trigger] rno.drop_first()[j],
            fuel,
        ) by {
            assert(rno.drop_first()[j] == rno[j + 1]);
        }
        assert(rno.drop_first()[i - 1] == rno[i]);
        lemma_first_blocking(done, yt, rno.drop_first(), fuel, i - 1);
    }
}

/// The identities of the exclusions distributed over the branches of a
/// disjunctive "yes" side.
pub open spec fn spec_distributed_ids(bs: Seq<RefView>, rno: Seq<RefView>) -> Seq<RefView> {
    Seq::new(bs.len(), |i: int| RefView::YesNo { yes: Box::new(bs[i]), no: rno })
}

/// The spawned exclusion nodes, one per branch of a disjunctive "yes"
/// side.
pub open spec fn spec_distributed_work(bs: Seq<RefView>, rno: Seq<RefView>) -> Seq<
    (RefView, SchemaletView),
> {
    Seq::new(
        bs.len(),
        |i: int|
            (
                RefView::YesNo { yes: Box::new(bs[i]), no: rno },
                SchemaletView {
                    metadata: MetadataView::empty(),
                    details: DetailsView::YesNo { yes: bs[i], no: rno },
                },
            ),
    )
}

/// The exclusion rule for a node matching `ry` but none of `rno`, both
/// sides already resolved. With no exclusions, or when every excluded
/// member's type tag is known and differs from the "yes" side's, the
/// exclusions are vacuous and the node collapses to a reference to `ry`.
/// Otherwise the rule dispatches on the "yes" shape: the empty
/// constraint stays empty; an exclusive union distributes the exclusion
/// over its branches; for any other shape an actual negative constraint
/// would be needed, which the algebra has no rule for, so the exclusion
/// is reported as unsupported with the first blocking member.
pub open spec fn spec_merge_yes_no(
    meta: MetadataView,
    ry: RefView,
    rno: Seq<RefView>,
    done: Map<RefView, CanonicalView>,
    fuel: nat,
) -> Result<StateView, SimplifyErrorView> {
    let yt = spec_get_type(done[ry].details);
    if rno.len() == 0 {
        Ok(
            StateView::Canonical(
                CanonicalView { metadata: meta, details: CanonicalDetailsView::Reference(ry) },
            ),
        )
    } else if yt is Some && (forall|i: int|
        0 <= i < rno.len() ==> !spec_blocks(done, yt, #[trigger] rno[i], fuel)) {
        Ok(
            StateView::Canonical(
                CanonicalView { metadata: meta, details: CanonicalDetailsView::Reference(ry) },
            ),
        )
    } else {
        match done[ry].details {
            CanonicalDetailsView::Nothing => Ok(
                StateView::Canonical(
                    CanonicalView { metadata: meta, details: CanonicalDetailsView::Nothing },
                ),
            ),
            CanonicalDetailsView::ExclusiveOneOf { subschemas, .. } => Ok(
                StateView::Simplified(
                    SchemaletView {
                        metadata: meta,
                        details: DetailsView::ExclusiveOneOf(
                            spec_distributed_ids(subschemas, rno),
                        ),
                    },
                    spec_distributed_work(subschemas, rno),
                ),
            ),
            CanonicalDetailsView::Reference(_) => Err(
                SimplifyErrorView::InternalContractViolation,
            ),
            _ => Err(
                SimplifyErrorView::UnsupportedMerge {
                    a: ry,
                    b: rno[spec_first_blocking(done, yt, rno, fuel)],
                },
            ),
        }
    }
}

/// The position of the first member whose type tag does not rule the
/// exclusion out against a "yes" side of tag `t`, if any member blocks.
fn find_first_blocking(done: &CanonicalMap, t: SchemaletType, rno: &Vec<SchemaRef>) -> (out:
    Option<usize>)
    requires
        done.wf(),
    ensures
        match out {
            Some(i) => i < rno@.len() && spec_blocks(
                done@,
                Some(t),
                refs_view(rno@)[i as int],
                done.spec_len(),
            ) && spec_first_blocking(done@, Some(t), refs_view(rno@), done.spec_len()) == i as int,
            None => forall|j: int|
                0 <= j < rno@.len() ==> !spec_blocks(
                    done@,
                    Some(t),
                    #[trigger] refs_view(rno@)[j],
                    done.spec_len(),
                ),
        },
{
    let ghost rno_v = refs_view(rno@);
    let ghost fuel = done.spec_len();
    let mut i: usize = 0;
    while i < rno.len()
        invariant
            done.wf(),
            fuel == done.spec_len(),
            rno_v == refs_view(rno@),
            i <= rno@.len(),
            forall|j: int| 0 <= j < i ==> !spec_blocks(done@, Some(t), #[trigger] rno_v[j], fuel),
        decreases rno@.len() - i,
    {
        let blocks = match resolved_type(done, &rno[i]) {
            Some(t2) => t2 == t,
            None => true,
        };
        if blocks {
            proof {
                assert(rno_v[i as int] == ref_view(rno@[i as int]));
                lemma_first_blocking(done@, Some(t), rno_v, fuel, i as int);
            }
            return Some(i);
        }
        i = i + 1;
    }
    None
}

/// Applies the exclusion rule; see [`spec_merge_yes_no`].
pub fn merge_yes_no(
    metadata: SchemaletMetadata,
    ry: SchemaRef,
    rno: Vec<SchemaRef>,
    done: &CanonicalMap,
) -> (out: Result<State, SimplifyError>)
    requires
        done.wf(),
        done@.dom().contains(ry@),
        !(done@[ry@].details is Reference),
    ensures
        state_result_view(out) == spec_merge_yes_no(
            metadata@,
            ry@,
            refs_view(rno@),
            done@,
            done.spec_len(),
        ),
{
    let ghost rno_v = refs_view(rno@);
    let ghost fuel = done.spec_len();
    let node = match done.get(&ry) {
        Some(node) => node,
        None => {
            proof {
                assert(false);
            }
            return Err(SimplifyError::InternalContractViolation);
        },
    };
    let yt = node.details.get_type();
    if rno.len() == 0 {
        return Ok(
            State::Canonical(
                CanonicalSchemalet { metadata, details: CanonicalSchemaletDetails::Reference(ry) },
            ),
        );
    }
    // Find the first member that blocks the type-tag shortcut, if any.
    let first_blocking: Option<usize> = match yt {
        Some(t) => find_first_blocking(done, t, &rno),
        None => {
            proof {
                assert(spec_blocks(done@, yt, rno_v[0], fuel));
                lemma_first_blocking(done@, yt, rno_v, fuel, 0);
            }
            Some(0)
        },
    };
    proof {
        if first_blocking is Some {
            assert(spec_first_blocking(done@, yt, rno_v, fuel) == first_blocking->0 as int);
        }
    }
    let first = match first_blocking {
        None => {
            // Every exclusion is vacuous by type tag.
            return Ok(
                State::Canonical(
                    CanonicalSchemalet {
                        metadata,
                        details: CanonicalSchemaletDetails::Reference(ry),
                    },
                ),
            );
        },
        Some(first) => first,
    };
    match &node.details {
        CanonicalSchemaletDetails::Nothing => Ok(
            State::Canonical(
                CanonicalSchemalet { metadata, details: CanonicalSchemaletDetails::Nothing },
            ),
        ),
        CanonicalSchemaletDetails::ExclusiveOneOf { subschemas, .. } => {
            let ghost bs = refs_view(subschemas@);
            let mut ids: Vec<SchemaRef> = Vec::new();
            let mut work: Vec<(SchemaRef, Schemalet)> = Vec::new();
            let mut i: usize = 0;
            proof {
                assert(refs_view(ids@) =~= spec_distributed_ids(bs, rno_v).take(0));
                assert(work_view(work@) =~= spec_distributed_work(bs, rno_v).take(0));
            }
            while i < subschemas.len()
                invariant
                    bs == refs_view(subschemas@),
                    rno_v == refs_view(rno@),
                    i <= subschemas@.len(),
                    ids@.len() == i,
                    work@.len() == i,
                    refs_view(ids@) == spec_distributed_ids(bs, rno_v).take(i as int),
                    work_view(work@) == spec_distributed_work(bs, rno_v).take(i as int),
                decreases subschemas@.len() - i,
            {
                let ghost ids0 = ids@;
                let ghost work0 = work@;
                let branch = subschemas[i].clone();
                let yesno_ref = SchemaRef::YesNo {
                    yes: Box::new(branch.clone()),
                    no: clone_refs(&rno),
                };
                let yesno_node = Schemalet::from_details(
                    SchemaletDetails::YesNo { yes: branch, no: clone_refs(&rno) },
                );
                work.push((yesno_ref.clone(), yesno_node));
                ids.push(yesno_ref);
                proof {
                    assert(bs[i as int] == ref_view(subschemas@[i as int]));
                    assert(refs_view(ids@) =~= refs_view(ids0).push(
                        RefView::YesNo { yes: Box::new(bs[i as int]), no: rno_v },
                    ));
                    assert(work_view(work@) =~= work_view(work0).push(
                        (
                            RefView::YesNo { yes: Box::new(bs[i as int]), no: rno_v },
                            SchemaletView {
                                metadata: MetadataView::empty(),
                                details: DetailsView::YesNo { yes: bs[i as int], no: rno_v },
                            },
                        ),
                    ));
                    assert(refs_view(ids@) =~= spec_distributed_ids(bs, rno_v).take(i + 1));
                    assert(work_view(work@) =~= spec_distributed_work(bs, rno_v).take(i + 1));
                }
                i = i + 1;
            }
            proof {
                assert(spec_distributed_ids(bs, rno_v).take(subschemas@.len() as int)
                    =~= spec_distributed_ids(bs, rno_v));
                assert(spec_distributed_work(bs, rno_v).take(subschemas@.len() as int)
                    =~= spec_distributed_work(bs, rno_v));
            }
            Ok(
                State::Simplified(
                    Schemalet::new(SchemaletDetails::ExclusiveOneOf(ids), metadata),
                    work,
                ),
            )
        },
        CanonicalSchemaletDetails::Reference(_) => {
            proof {
                assert(false);
            }
            Err(SimplifyError::InternalContractViolation)
        },
        _ => Err(SimplifyError::UnsupportedMerge { a: ry, b: rno[first].clone() }),
    }
}

/// The identities among `rs` whose nodes are not the empty constraint,
/// in order.
pub open spec fn spec_kept(done: Map<RefView, CanonicalView>, rs: Seq<RefView>) -> Seq<RefView>
    decreases rs.len(),
{
    if rs.len() == 0 {
        Seq::empty()
    } else {
        spec_kept(done, rs.drop_last()) + (if done[rs.last()].details is Nothing {
            Seq::empty()
        } else {
            seq![rs.last()]
        })
    }
}

/// The kept identities are drawn from the original list.
proof fn lemma_kept_in_done(done: Map<RefView, CanonicalView>, rs: Seq<RefView>)
    requires
        forall|i: int| 0 <= i < rs.len() ==> done.dom().contains(#[trigger] rs[i]),
    ensures
        forall|j: int|
            0 <= j < spec_kept(done, rs).len() ==> done.dom().contains(
                #[trigger] spec_kept(done, rs)[j],
            ),
    decreases rs.len(),
{
    if rs.len() > 0 {
        assert forall|i: int| 0 <= i < rs.drop_last().len() implies done.dom().contains(
            #[trigger] rs.drop_last()[i],
        ) by {
            assert(rs.drop_last()[i] == rs[i]);
        }
        lemma_kept_in_done(done, rs.drop_last());
        let whole = spec_kept(done, rs);
        let prefix = spec_kept(done, rs.drop_last());
        assert forall|j: int| 0 <= j < whole.len() implies done.dom().contains(
            #[trigger] whole[j],
        ) by {
            if j < prefix.len() {
                assert(whole[j] == prefix[j]);
            } else {
                assert(whole[j] == rs.last());
                assert(done.dom().contains(rs[rs.len() - 1]));
            }
        }
    }
}

/// The finished form of an exclusive union over the resolved branches
/// `rs`: branches whose nodes are the empty constraint contribute
/// nothing and are dropped; an empty union is the empty constraint; a
/// single branch is an alias for it; two or more branches stay an
/// exclusive union, with the shared type tag cached when all branches
/// agree on one.
pub open spec fn spec_finish_eoo(
    meta: MetadataView,
    rs: Seq<RefView>,
    done: Map<RefView, CanonicalView>,
) -> CanonicalView {
    let kept = spec_kept(done, rs);
    if kept.len() == 0 {
        CanonicalView { metadata: meta, details: CanonicalDetailsView::Nothing }
    } else if kept.len() == 1 {
        CanonicalView { metadata: meta, details: CanonicalDetailsView::Reference(kept[0]) }
    } else {
        CanonicalView {
            metadata: meta,
            details: CanonicalDetailsView::ExclusiveOneOf {
                typ: spec_uniform_type(done, kept),
                subschemas: kept,
            },
        }
    }
}

/// Finishes an exclusive union whose branches are all resolved; see
/// [`spec_finish_eoo`].
fn finish_exclusive_one_of(
    metadata: SchemaletMetadata,
    resolved: Vec<SchemaRef>,
    done: &CanonicalMap,
) -> (out: CanonicalSchemalet)
    requires
        done.wf(),
        forall|i: int|
            0 <= i < resolved@.len() ==> done@.dom().contains(#[trigger] refs_view(resolved@)[i]),
    ensures
        out@ == spec_finish_eoo(metadata@, refs_view(resolved@), done@),
{
    let ghost rv = refs_view(resolved@);
    let mut kept: Vec<SchemaRef> = Vec::new();
    let mut i: usize = 0;
    proof {
        assert(rv.take(0) =~= Seq::<RefView>::empty());
        assert(refs_view(kept@) =~= spec_kept(done@, rv.take(0)));
    }
    while i < resolved.len()
        invariant
            done.wf(),
            rv == refs_view(resolved@),
            forall|j: int| 0 <= j < resolved@.len() ==> done@.dom().contains(#[trigger] rv[j]),
            i <= resolved@.len(),
            refs_view(kept@) == spec_kept(done@, rv.take(i as int)),
        decreases resolved@.len() - i,
    {
        let ghost kept0 = kept@;
        proof {
            assert(rv.take(i + 1).drop_last() =~= rv.take(i as int));
            assert(rv.take(i + 1).last() == rv[i as int]);
            assert(rv[i as int] == ref_view(resolved@[i as int]));
        }
        let node = match done.get(&resolved[i]) {
            Some(node) => node,
            None => {
                proof {
                    assert(false);
                }
                return CanonicalSchemalet {
                    metadata,
                    details: CanonicalSchemaletDetails::Nothing,
                };
            },
        };
        if !node.details.is_nothing() {
            kept.push(resolved[i].clone());
            proof {
                assert(refs_view(kept@) =~= refs_view(kept0).push(rv[i as int]));
                assert(refs_view(kept@) =~= spec_kept(done@, rv.take(i + 1)));
            }
        } else {
            proof {
                assert(refs_view(kept@) =~= spec_kept(done@, rv.take(i + 1)));
            }
        }
        i = i + 1;
    }
    proof {
        assert(rv.take(resolved@.len() as int) =~= rv);
        lemma_kept_in_done(done@, rv);
    }
    let ghost kept_v = refs_view(kept@);
    proof {
        assert forall|m: int| 0 <= m < kept@.len() implies done@.dom().contains(
            ref_view(#[trigger] kept@[m]),
        ) by {
            assert(kept_v[m] == ref_view(kept@[m]));
            assert(done@.dom().contains(kept_v[m]));
        }
    }
    if kept.len() == 0 {
        CanonicalSchemalet { metadata, details: CanonicalSchemaletDetails::Nothing }
    } else if kept.len() == 1 {
        let alias = kept[0].clone();
        CanonicalSchemalet { metadata, details: CanonicalSchemaletDetails::Reference(alias) }
    } else {
        // Compute the shared type tag, if all branches agree on one.
        let first_node = match done.get(&kept[0]) {
            Some(node) => node,
            None => {
                proof {
                    assert(false);
                }
                return CanonicalSchemalet {
                    metadata,
                    details: CanonicalSchemaletDetails::Nothing,
                };
            },
        };
        let typ: Option<SchemaletType> = match first_node.details.get_type() {
            Some(t0) => {
                let mut j: usize = 1;
                let mut all_same = true;
                proof {
                    assert(kept_v[0] == ref_view(kept@[0]));
                }
                while j < kept.len()
                    invariant
                        done.wf(),
                        kept_v == refs_view(kept@),
                        forall|m: int|
                            0 <= m < kept_v.len() ==> done@.dom().contains(#[trigger] kept_v[m]),
                        1 <= j <= kept@.len(),
                        kept@.len() >= 2,
                        Some(t0) == spec_get_type(done@[kept_v[0]].details),
                        all_same <==> (forall|m: int|
                            0 <= m < j ==> spec_get_type(done@[#[trigger] kept_v[m]].details)
                                == Some(t0)),
                    decreases kept@.len() - j,
                {
                    proof {
                        assert(refs_view(kept@)[j as int] == ref_view(kept@[j as int]));
                        assert(done@.dom().contains(kept_v[j as int]));
                    }
                    let nj = match done.get(&kept[j]) {
                        Some(node) => node,
                        None => {
                            proof {
                                assert(false);
                            }
                            return CanonicalSchemalet {
                                metadata,
                                details: CanonicalSchemaletDetails::Nothing,
                            };
                        },
                    };
                    let same = match nj.details.get_type() {
                        Some(tj) => tj == t0,
                        None => false,
                    };
                    proof {
                        assert(spec_get_type(done@[kept_v[j as int]].details) == (match same {
                            true => Some(t0),
                            false => spec_get_type(done@[kept_v[j as int]].details),
                        }));
                        if !same {
                            assert(spec_get_type(done@[kept_v[j as int]].details) != Some(t0));
                        }
                    }
                    all_same = all_same && same;
                    j = j + 1;
                }
                if all_same {
                    Some(t0)
                } else {
                    None
                }
            },
            None => None,
        };
        CanonicalSchemalet {
            metadata,
            details: CanonicalSchemaletDetails::ExclusiveOneOf { typ, subschemas: kept },
        }
    }
}

/// One simplification step for a node of the given shape, reading only
/// the finished part of the graph. Shapes that are already terminal
/// finish at once; a combinator whose dependencies are all finished is
/// rewritten by its rule; one with an unfinished dependency is stuck and
/// unchanged; an unresolved address, or a reference cycle among finished
/// nodes, breaks the engine's contract.
#[verifier::opaque]
pub open spec fn spec_simplify(
    node: SchemaletView,
    done: Map<RefView, CanonicalView>,
    fuel: nat,
) -> Result<StateView, SimplifyErrorView> {
    let meta = node.metadata;
    match node.details {
        DetailsView::Anything => Ok(
            StateView::Canonical(
                CanonicalView { metadata: meta, details: CanonicalDetailsView::Anything },
            ),
        ),
        DetailsView::Nothing => Ok(
            StateView::Canonical(
                CanonicalView { metadata: meta, details: CanonicalDetailsView::Nothing },
            ),
        ),
        DetailsView::Constant(c) => Ok(
            StateView::Canonical(
                CanonicalView { metadata: meta, details: CanonicalDetailsView::Constant(c) },
            ),
        ),
        DetailsView::Value(v) => Ok(
            StateView::Canonical(
                CanonicalView { metadata: meta, details: CanonicalDetailsView::Value(v) },
            ),
        ),
        DetailsView::ResolvedRef(r) => Ok(
            StateView::Canonical(
                CanonicalView { metadata: meta, details: CanonicalDetailsView::Reference(r) },
            ),
        ),
        DetailsView::ResolvedDynamicRef(r) => Ok(
            StateView::Canonical(
                CanonicalView { metadata: meta, details: CanonicalDetailsView::Reference(r) },
            ),
        ),
        DetailsView::RawRef(_) => Err(SimplifyErrorView::InternalContractViolation),
        DetailsView::RawDynamicRef(_) => Err(SimplifyErrorView::InternalContractViolation),
        DetailsView::AllOf(refs) => match spec_resolve_all(done, refs, fuel) {
            ResolutionAllView::Found(rs) => spec_merge_all(meta, rs, done, fuel),
            ResolutionAllView::Missing => Ok(StateView::Stuck(node)),
            ResolutionAllView::Cycle => Err(SimplifyErrorView::InternalContractViolation),
        },
        DetailsView::AnyOf(refs) => match spec_resolve_all(done, refs, fuel) {
            ResolutionAllView::Found(rs) => Ok(spec_expand_any_of(meta, rs)),
            ResolutionAllView::Missing => Ok(StateView::Stuck(node)),
            ResolutionAllView::Cycle => Err(SimplifyErrorView::InternalContractViolation),
        },
        DetailsView::ExclusiveOneOf(refs) => match spec_resolve_all(done, refs, fuel) {
            ResolutionAllView::Found(rs) => Ok(
                StateView::Canonical(spec_finish_eoo(meta, rs, done)),
            ),
            ResolutionAllView::Missing => Ok(StateView::Stuck(node)),
            ResolutionAllView::Cycle => Err(SimplifyErrorView::InternalContractViolation),
        },
        DetailsView::YesNo { yes, no } => match spec_resolve(done, yes, fuel) {
            ResolutionView::Found(ry) => match spec_resolve_all(done, no, fuel) {
                ResolutionAllView::Found(rno) => spec_merge_yes_no(meta, ry, rno, done, fuel),
                ResolutionAllView::Missing => Ok(StateView::Stuck(node)),
                ResolutionAllView::Cycle => Err(SimplifyErrorView::InternalContractViolation),
            },
            ResolutionView::Missing => Ok(StateView::Stuck(node)),
            ResolutionView::Cycle => Err(SimplifyErrorView::InternalContractViolation),
        },
    }
}

/// Every branch the collapse keeps resolves to something other than the
/// empty constraint.
pub proof fn lemma_kept_not_nothing(done: Map<RefView, CanonicalView>, rs: Seq<RefView>)
    ensures
        forall|i: int|
            0 <= i < spec_kept(done, rs).len() ==> !(done[#[trigger] spec_kept(done, rs)[i]].details
                is Nothing),
    decreases rs.len(),
{
    if rs.len() > 0 {
        lemma_kept_not_nothing(done, rs.drop_last());
        let whole = spec_kept(done, rs);
        let prefix = spec_kept(done, rs.drop_last());
        assert forall|i: int| 0 <= i < whole.len() implies !(done[#[trigger] whole[i]].details
            is Nothing) by {
            if i < prefix.len() {
                assert(whole[i] == prefix[i]);
            } else {
                assert(whole[i] == rs.last());
            }
        }
    }
}

/// The canonical outcome of one simplification step, if any, upholds the
/// engine's invariants against the snapshot it was computed from.
pub open spec fn canonical_outcome_wf(
    r: Result<StateView, SimplifyErrorView>,
    done: Map<RefView, CanonicalView>,
) -> bool {
    match r {
        Ok(s) => match s {
            StateView::Canonical(c) => canonical_node_wf(c, done),
            _ => true,
        },
        Err(_) => true,
    }
}

/// A well-formed finished node stays well-formed when the finished map
/// grows by fresh keys: the invariant only reads the branches' own
/// entries, which an extension keeps.
pub proof fn lemma_wf_monotone(c: CanonicalView, d1: Map<RefView, CanonicalView>, d2: Map<RefView, CanonicalView>)
    requires
        canonical_node_wf(c, d1),
        forall|k: RefView| #[trigger] d1.dom().contains(k) ==> d2.dom().contains(k) && d2[k] == d1[k],
    ensures
        canonical_node_wf(c, d2),
{
    match c.details {
        CanonicalDetailsView::ExclusiveOneOf { typ, subschemas } => {
            assert forall|i: int| 0 <= i < subschemas.len() implies d2.dom().contains(
                #[trigger] subschemas[i],
            ) && !(d2[subschemas[i]].details is Reference) && !(d2[subschemas[i]].details
                is Nothing) by {
                assert(d1.dom().contains(subschemas[i]));
            }
            assert(spec_get_type(d2[subschemas[0]].details) == spec_get_type(
                d1[subschemas[0]].details,
            ));
            if spec_uniform_type(d1, subschemas) is Some {
                assert forall|i: int| 0 <= i < subschemas.len() implies spec_get_type(
                    d2[#[trigger] subschemas[i]].details,
                ) == spec_get_type(d1[subschemas[0]].details) by {
                    assert(spec_get_type(d1[subschemas[i]].details) == spec_get_type(
                        d1[subschemas[0]].details,
                    ));
                }
                assert(spec_uniform_type(d2, subschemas) == spec_uniform_type(d1, subschemas));
            } else {
                if spec_uniform_type(d2, subschemas) is Some {
                    assert forall|i: int| 0 <= i < subschemas.len() implies spec_get_type(
                        d1[#[trigger] subschemas[i]].details,
                    ) == spec_get_type(d1[subschemas[0]].details) by {
                        assert(spec_get_type(d2[subschemas[i]].details) == spec_get_type(
                            d2[subschemas[0]].details,
                        ));
                    }
                }
                assert(spec_uniform_type(d2, subschemas) is None);
            }
        },
        _ => {},
    }
}

/// The branches an exclusive-union collapse keeps are finished,
/// non-alias, non-empty nodes whenever the resolved branch list was.
pub proof fn lemma_kept_nodes(done: Map<RefView, CanonicalView>, rs: Seq<RefView>)
    requires
        forall|i: int|
            0 <= i < rs.len() ==> done.dom().contains(#[trigger] rs[i]) && !(done[rs[i]].details
                is Reference),
    ensures
        forall|j: int|
            0 <= j < spec_kept(done, rs).len() ==> done.dom().contains(
                #[trigger] spec_kept(done, rs)[j],
            ) && !(done[spec_kept(done, rs)[j]].details is Reference),
    decreases rs.len(),
{
    if rs.len() > 0 {
        assert forall|i: int| 0 <= i < rs.drop_last().len() implies done.dom().contains(
            #[trigger] rs.drop_last()[i],
        ) && !(done[rs.drop_last()[i]].details is Reference) by {
            assert(rs.drop_last()[i] == rs[i]);
        }
        lemma_kept_nodes(done, rs.drop_last());
        let whole = spec_kept(done, rs);
        let prefix = spec_kept(done, rs.drop_last());
        assert forall|j: int| 0 <= j < whole.len() implies done.dom().contains(
            #[trigger] whole[j],
        ) && !(done[whole[j]].details is Reference) by {
            if j < prefix.len() {
                assert(whole[j] == prefix[j]);
            } else {
                assert(whole[j] == rs.last());
                assert(done.dom().contains(rs[rs.len() - 1]));
            }
        }
    }
}

/// Finishing an exclusive union over resolved branches yields a
/// well-formed node: either a terminal shape, or a union of at least two
/// finished, non-alias, non-empty branches with the correct cached tag.
pub proof fn lemma_finish_eoo_wf(
    meta: MetadataView,
    rs: Seq<RefView>,
    done: Map<RefView, CanonicalView>,
)
    requires
        forall|i: int|
            0 <= i < rs.len() ==> done.dom().contains(#[trigger] rs[i]) && !(done[rs[i]].details
                is Reference),
    ensures
        canonical_node_wf(spec_finish_eoo(meta, rs, done), done),
{
    lemma_kept_nodes(done, rs);
    lemma_kept_not_nothing(done, rs);
}

/// Every canonical outcome of one simplification step upholds the
/// engine's invariants against the snapshot it read.
pub proof fn lemma_simplify_canonical_wf(
    node: SchemaletView,
    done: Map<RefView, CanonicalView>,
    fuel: nat,
)
    ensures
        canonical_outcome_wf(spec_simplify(node, done, fuel), done),
{
    reveal(spec_simplify);
    match node.details {
        DetailsView::AllOf(refs) => {
            match spec_resolve_all(done, refs, fuel) {
                ResolutionAllView::Found(rs) => {
                    lemma_resolve_all_found_nodes(done, refs, fuel);
                    crate::merge_all::lemma_merge_all_canonical_wf(
                        node.metadata,
                        rs,
                        done,
                        fuel,
                    );
                },
                _ => {},
            }
        },
        DetailsView::ExclusiveOneOf(refs) => {
            match spec_resolve_all(done, refs, fuel) {
                ResolutionAllView::Found(rs) => {
                    lemma_resolve_all_found_nodes(done, refs, fuel);
                    lemma_finish_eoo_wf(node.metadata, rs, done);
                },
                _ => {},
            }
        },
        _ => {},
    }
}

impl Schemalet {
    /// Offers this node one simplification step against the finished
    /// part of the graph; see [`spec_simplify`]. The branch-count bound
    /// on disjunctions is forced by the machine: expanding `n` branches
    /// materializes `2^n - 1` subset nodes.
    pub fn simplify(self, done: &CanonicalMap) -> (out: Result<State, SimplifyError>)
        requires
            done.wf(),
            self@.details matches DetailsView::AnyOf(refs) ==> refs.len() < usize::BITS,
        ensures
            state_result_view(out) == spec_simplify(self@, done@, done.spec_len()),
    {
        proof {
            reveal(spec_simplify);
        }
        let Schemalet { metadata, details } = self;
        match details {
            SchemaletDetails::Anything => Ok(
                State::Canonical(
                    CanonicalSchemalet { metadata, details: CanonicalSchemaletDetails::Anything },
                ),
            ),
            SchemaletDetails::Nothing => Ok(
                State::Canonical(
                    CanonicalSchemalet { metadata, details: CanonicalSchemaletDetails::Nothing },
                ),
            ),
            SchemaletDetails::Constant(c) => Ok(
                State::Canonical(
                    CanonicalSchemalet {
                        metadata,
                        details: CanonicalSchemaletDetails::Constant(c),
                    },
                ),
            ),
            SchemaletDetails::Value(v) => Ok(
                State::Canonical(
                    CanonicalSchemalet { metadata, details: CanonicalSchemaletDetails::Value(v) },
                ),
            ),
            SchemaletDetails::ResolvedRef(r) => Ok(
                State::Canonical(
                    CanonicalSchemalet {
                        metadata,
                        details: CanonicalSchemaletDetails::Reference(r),
                    },
                ),
            ),
            SchemaletDetails::ResolvedDynamicRef(r) => Ok(
                State::Canonical(
                    CanonicalSchemalet {
                        metadata,
                        details: CanonicalSchemaletDetails::Reference(r),
                    },
                ),
            ),
            SchemaletDetails::RawRef(_) => Err(SimplifyError::InternalContractViolation),
            SchemaletDetails::RawDynamicRef(_) => Err(SimplifyError::InternalContractViolation),
            SchemaletDetails::AllOf(refs) => match resolve_all(done, &refs) {
                ResolutionAll::Found(rs) => {
                    proof {
                        lemma_resolve_all_found_nodes(done@, refs_view(refs@), done.spec_len());
                    }
                    merge_all(metadata, rs, done)
                },
                ResolutionAll::Missing => Ok(
                    State::Stuck(Schemalet { metadata, details: SchemaletDetails::AllOf(refs) }),
                ),
                ResolutionAll::Cycle => Err(SimplifyError::InternalContractViolation),
            },
            SchemaletDetails::AnyOf(refs) => match resolve_all(done, &refs) {
                ResolutionAll::Found(rs) => {
                    proof {
                        lemma_resolve_all_found_nodes(done@, refs_view(refs@), done.spec_len());
                    }
                    Ok(expand_any_of(metadata, rs))
                },
                ResolutionAll::Missing => Ok(
                    State::Stuck(Schemalet { metadata, details: SchemaletDetails::AnyOf(refs) }),
                ),
                ResolutionAll::Cycle => Err(SimplifyError::InternalContractViolation),
            },
            SchemaletDetails::ExclusiveOneOf(refs) => match resolve_all(done, &refs) {
                ResolutionAll::Found(rs) => {
                    proof {
                        lemma_resolve_all_found_nodes(done@, refs_view(refs@), done.spec_len());
                    }
                    Ok(State::Canonical(finish_exclusive_one_of(metadata, rs, done)))
                },
                ResolutionAll::Missing => Ok(
                    State::Stuck(
                        Schemalet { metadata, details: SchemaletDetails::ExclusiveOneOf(refs) },
                    ),
                ),
                ResolutionAll::Cycle => Err(SimplifyError::InternalContractViolation),
            },
            SchemaletDetails::YesNo { yes, no } => match resolve(done, &yes) {
                Resolution::Found(ry) => match resolve_all(done, &no) {
                    ResolutionAll::Found(rno) => {
                        proof {
                            lemma_resolve_found(done@, yes@, done.spec_len());
                        }
                        merge_yes_no(metadata, ry, rno, done)
                    },
                    ResolutionAll::Missing => Ok(
                        State::Stuck(
                            Schemalet { metadata, details: SchemaletDetails::YesNo { yes, no } },
                        ),
                    ),
                    ResolutionAll::Cycle => Err(SimplifyError::InternalContractViolation),
                },
                Resolution::Missing => Ok(
                    State::Stuck(
                        Schemalet { metadata, details: SchemaletDetails::YesNo { yes, no } },
                    ),
                ),
                Resolution::Cycle => Err(SimplifyError::InternalContractViolation),
            },
        }
    }
}

} // verus!
