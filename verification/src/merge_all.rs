//! The conjunction of a list of resolved nodes.
//!
//! The members split into disjunctive ones — finished exclusive unions —
//! and concrete ones. With no disjunctive member the concrete shapes
//! simply fold under the merge algebra. With at least one, conjunction
//! distributes over disjunction: the first disjunctive member's branches
//! seed a partition, each further disjunctive member refines it by
//! pairing every group's representative with each of its branches, and
//! pairings whose members are trivially incompatible are never
//! materialized; nor is a group whose representative is trivially
//! incompatible with a concrete member. Each surviving group becomes a
//! new synthetic conjunction node, and the node under rewrite becomes an
//! exclusive union over those nodes.

use vstd::prelude::*;

use crate::clone_eq::{clone_refs, concat_refs};
use crate::errors::{state_result_view, SimplifyError, SimplifyErrorView};
use crate::merge::{lemma_fold_merge_not_union, merge_two, spec_fold_merge};
use crate::resolve::{spec_trivially_incompatible, trivially_incompatible, CanonicalMap};
use crate::schemalet::{
    canonical_node_wf, groups_view, lemma_groups_view, lemma_refs_view, lemma_work_view,
    lemma_xorss_view, ref_view, refs_view, work_view, xorss_view, CanonicalDetailsView,
    CanonicalSchemalet, CanonicalSchemaletDetails, CanonicalView, DetailsView, MetadataView,
    RefView, SchemaRef, Schemalet, SchemaletDetails, SchemaletMetadata, SchemaletView, State,
    StateView,
};

verus! {

broadcast use lemma_refs_view, lemma_work_view, lemma_groups_view, lemma_xorss_view;

/// The branch lists of the members that are finished exclusive unions,
/// in member order.
pub open spec fn spec_xor_lists(done: Map<RefView, CanonicalView>, rs: Seq<RefView>) -> Seq<
    Seq<RefView>,
>
    decreases rs.len(),
{
    if rs.len() == 0 {
        Seq::empty()
    } else {
        spec_xor_lists(done, rs.drop_last()) + (match done[rs.last()].details {
            CanonicalDetailsView::ExclusiveOneOf { subschemas, .. } => seq![subschemas],
            _ => Seq::empty(),
        })
    }
}

/// The members that are not exclusive unions, in member order.
pub open spec fn spec_concrete_refs(done: Map<RefView, CanonicalView>, rs: Seq<RefView>) -> Seq<
    RefView,
>
    decreases rs.len(),
{
    if rs.len() == 0 {
        Seq::empty()
    } else {
        spec_concrete_refs(done, rs.drop_last()) + (match done[rs.last()].details {
            CanonicalDetailsView::ExclusiveOneOf { .. } => Seq::empty(),
            _ => seq![rs.last()],
        })
    }
}

/// The concrete members are drawn from the member list.
pub proof fn lemma_concrete_in_done(done: Map<RefView, CanonicalView>, rs: Seq<RefView>)
    requires
        forall|i: int| 0 <= i < rs.len() ==> done.dom().contains(#[trigger] rs[i]),
    ensures
        forall|j: int|
            0 <= j < spec_concrete_refs(done, rs).len() ==> done.dom().contains(
                #[trigger] spec_concrete_refs(done, rs)[j],
            ),
    decreases rs.len(),
{
    if rs.len() > 0 {
        assert forall|i: int| 0 <= i < rs.drop_last().len() implies done.dom().contains(
            #[trigger] rs.drop_last()[i],
        ) by {
            assert(rs.drop_last()[i] == rs[i]);
        }
        lemma_concrete_in_done(done, rs.drop_last());
        let whole = spec_concrete_refs(done, rs);
        let prefix = spec_concrete_refs(done, rs.drop_last());
        assert forall|j: int| 0 <= j < whole.len() implies done.dom().contains(
            #[trigger] whole[j],
        ) by {
            if j < prefix.len() {
                assert(whole[j] == prefix[j]);
            } else {
                assert(whole[j] == rs.last());
                assert(done.dom().contains(rs[rs.len() - 1]));
            }
        }
    }
}

/// The canonical shapes of the given identities.
pub open spec fn spec_details_of(done: Map<RefView, CanonicalView>, rs: Seq<RefView>) -> Seq<
    CanonicalDetailsView,
> {
    Seq::new(rs.len(), |i: int| done[rs[i]].details)
}

/// Pairs one group with each branch of a further disjunctive member,
/// dropping pairings whose representative and branch are trivially
/// incompatible.
pub open spec fn spec_pairings(
    rep: RefView,
    members: Seq<RefView>,
    branches: Seq<RefView>,
    done: Map<RefView, CanonicalView>,
    fuel: nat,
) -> Seq<(RefView, Seq<RefView>)>
    decreases branches.len(),
{
    if branches.len() == 0 {
        Seq::empty()
    } else {
        spec_pairings(rep, members, branches.drop_last(), done, fuel) + (
        if !spec_trivially_incompatible(done, rep, branches.last(), fuel) {
            seq![(rep, members.push(branches.last()))]
        } else {
            Seq::empty()
        })
    }
}

/// Refines a partition with the branches of one further disjunctive
/// member.
pub open spec fn spec_refine_one(
    groups: Seq<(RefView, Seq<RefView>)>,
    branches: Seq<RefView>,
    done: Map<RefView, CanonicalView>,
    fuel: nat,
) -> Seq<(RefView, Seq<RefView>)>
    decreases groups.len(),
{
    if groups.len() == 0 {
        Seq::empty()
    } else {
        spec_refine_one(groups.drop_last(), branches, done, fuel) + spec_pairings(
            groups.last().0,
            groups.last().1,
            branches,
            done,
            fuel,
        )
    }
}

/// Refines a partition with each further disjunctive member in turn.
pub open spec fn spec_refine(
    groups: Seq<(RefView, Seq<RefView>)>,
    xors: Seq<Seq<RefView>>,
    done: Map<RefView, CanonicalView>,
    fuel: nat,
) -> Seq<(RefView, Seq<RefView>)>
    decreases xors.len(),
{
    if xors.len() == 0 {
        groups
    } else {
        spec_refine(spec_refine_one(groups, xors[0], done, fuel), xors.drop_first(), done, fuel)
    }
}

/// Whether a group survives the concrete members: its representative is
/// trivially incompatible with none of them.
pub open spec fn spec_group_survives(
    rep: RefView,
    concrete: Seq<RefView>,
    done: Map<RefView, CanonicalView>,
    fuel: nat,
) -> bool {
    forall|i: int|
        0 <= i < concrete.len() ==> !spec_trivially_incompatible(done, rep, concrete[i], fuel)
}

/// The groups that survive the concrete members, in order.
pub open spec fn spec_survivors(
    groups: Seq<(RefView, Seq<RefView>)>,
    concrete: Seq<RefView>,
    done: Map<RefView, CanonicalView>,
    fuel: nat,
) -> Seq<(RefView, Seq<RefView>)>
    decreases groups.len(),
{
    if groups.len() == 0 {
        Seq::empty()
    } else {
        spec_survivors(groups.drop_last(), concrete, done, fuel) + (
        if spec_group_survives(groups.last().0, concrete, done, fuel) {
            seq![groups.last()]
        } else {
            Seq::empty()
        })
    }
}

/// The initial partition: each branch of the first disjunctive member
/// seeds one group and is its representative.
pub open spec fn spec_base_groups(base: Seq<RefView>) -> Seq<(RefView, Seq<RefView>)> {
    Seq::new(base.len(), |i: int| (base[i], seq![base[i]]))
}

/// The identities of the conjunction nodes of the surviving groups, each
/// group extended with all concrete members.
pub open spec fn spec_union_refs(
    groups: Seq<(RefView, Seq<RefView>)>,
    concrete: Seq<RefView>,
) -> Seq<RefView> {
    Seq::new(groups.len(), |i: int| RefView::Merge(groups[i].1 + concrete))
}

/// The spawned conjunction nodes of the surviving groups.
pub open spec fn spec_union_work(
    groups: Seq<(RefView, Seq<RefView>)>,
    concrete: Seq<RefView>,
) -> Seq<(RefView, SchemaletView)> {
    Seq::new(
        groups.len(),
        |i: int|
            (
                RefView::Merge(groups[i].1 + concrete),
                SchemaletView {
                    metadata: MetadataView::empty(),
                    details: DetailsView::AllOf(groups[i].1 + concrete),
                },
            ),
    )
}

/// The conjunction of the resolved members `rs`, per the merge algebra.
/// With no disjunctive member, the fold of the concrete shapes finishes
/// the node; a fold the algebra has no rule for reports the first member
/// and the member whose merge failed. With disjunctive members, the node
/// is rewritten to an exclusive union over one new conjunction node per
/// surviving combination of branches.
pub open spec fn spec_merge_all(
    meta: MetadataView,
    rs: Seq<RefView>,
    done: Map<RefView, CanonicalView>,
    fuel: nat,
) -> Result<StateView, SimplifyErrorView> {
    let xors = spec_xor_lists(done, rs);
    let concrete = spec_concrete_refs(done, rs);
    if xors.len() == 0 {
        match spec_fold_merge(spec_details_of(done, concrete)) {
            Ok(d) => Ok(StateView::Canonical(CanonicalView { metadata: meta, details: d })),
            Err(j) => Err(SimplifyErrorView::UnsupportedMerge { a: concrete[0], b: concrete[j] }),
        }
    } else {
        let refined = spec_refine(spec_base_groups(xors[0]), xors.drop_first(), done, fuel);
        let survivors = spec_survivors(refined, concrete, done, fuel);
        Ok(
            StateView::Simplified(
                SchemaletView {
                    metadata: meta,
                    details: DetailsView::ExclusiveOneOf(spec_union_refs(survivors, concrete)),
                },
                spec_union_work(survivors, concrete),
            ),
        )
    }
}

/// The concrete members' shapes are never exclusive unions: the
/// partition sent those to the disjunctive side.
pub proof fn lemma_concrete_not_union(done: Map<RefView, CanonicalView>, rs: Seq<RefView>)
    ensures
        forall|j: int|
            0 <= j < spec_concrete_refs(done, rs).len() ==> !(done[#[trigger] spec_concrete_refs(
                done,
                rs,
            )[j]].details is ExclusiveOneOf),
    decreases rs.len(),
{
    if rs.len() > 0 {
        lemma_concrete_not_union(done, rs.drop_last());
        let whole = spec_concrete_refs(done, rs);
        let prefix = spec_concrete_refs(done, rs.drop_last());
        assert forall|j: int| 0 <= j < whole.len() implies !(done[#[trigger] whole[j]].details
            is ExclusiveOneOf) by {
            if j < prefix.len() {
                assert(whole[j] == prefix[j]);
            } else {
                assert(whole[j] == rs.last());
            }
        }
    }
}

/// A canonical outcome of the conjunction rule is never an exclusive
/// union, so it upholds the engine's union invariants trivially.
pub proof fn lemma_merge_all_canonical_wf(
    meta: MetadataView,
    rs: Seq<RefView>,
    done: Map<RefView, CanonicalView>,
    fuel: nat,
)
    ensures
        spec_merge_all(meta, rs, done, fuel) matches Ok(StateView::Canonical(c))
            ==> canonical_node_wf(c, done),
{
    let concrete = spec_concrete_refs(done, rs);
    let items = spec_details_of(done, concrete);
    lemma_concrete_not_union(done, rs);
    assert forall|i: int| 0 <= i < items.len() implies !(#[trigger] items[i]
        is ExclusiveOneOf) by {
        assert(items[i] == done[concrete[i]].details);
    }
    lemma_fold_merge_not_union(items);
}

/// An unsupported fold within a prefix decides the whole fold.
proof fn lemma_fold_merge_err_prefix(items: Seq<CanonicalDetailsView>, k: int)
    requires
        0 <= k <= items.len(),
        spec_fold_merge(items.take(k)) is Err,
    ensures
        spec_fold_merge(items) == spec_fold_merge(items.take(k)),
    decreases items.len(),
{
    if k == items.len() {
        assert(items.take(k) =~= items);
    } else {
        assert(items.drop_last().take(k) =~= items.take(k));
        lemma_fold_merge_err_prefix(items.drop_last(), k);
    }
}

/// Splits the resolved members into the branch lists of the disjunctive
/// ones and the identities of the concrete ones.
fn partition_members(resolved: &Vec<SchemaRef>, done: &CanonicalMap) -> (out: (
    Vec<Vec<SchemaRef>>,
    Vec<SchemaRef>,
))
    requires
        done.wf(),
        forall|i: int|
            0 <= i < resolved@.len() ==> done@.dom().contains(#[trigger] refs_view(resolved@)[i]),
    ensures
        xorss_view(out.0@) == spec_xor_lists(done@, refs_view(resolved@)),
        refs_view(out.1@) == spec_concrete_refs(done@, refs_view(resolved@)),
{
    let ghost rv = refs_view(resolved@);
    let mut xors: Vec<Vec<SchemaRef>> = Vec::new();
    let mut rest: Vec<SchemaRef> = Vec::new();
    let mut i: usize = 0;
    proof {
        assert(rv.take(0) =~= Seq::<RefView>::empty());
        assert(xorss_view(xors@) =~= spec_xor_lists(done@, rv.take(0)));
        assert(refs_view(rest@) =~= spec_concrete_refs(done@, rv.take(0)));
    }
    while i < resolved.len()
        invariant
            done.wf(),
            rv == refs_view(resolved@),
            forall|j: int| 0 <= j < resolved@.len() ==> done@.dom().contains(#[trigger] rv[j]),
            i <= resolved@.len(),
            xorss_view(xors@) == spec_xor_lists(done@, rv.take(i as int)),
            refs_view(rest@) == spec_concrete_refs(done@, rv.take(i as int)),
        decreases resolved@.len() - i,
    {
        let ghost xors0 = xors@;
        let ghost rest0 = rest@;
        proof {
            assert(rv.take(i + 1).drop_last() =~= rv.take(i as int));
            assert(rv.take(i + 1).last() == rv[i as int]);
        }
        let node = match done.get(&resolved[i]) {
            Some(node) => node,
            None => {
                proof {
                    assert(false);
                }
                return (xors, rest);
            },
        };
        match &node.details {
            CanonicalSchemaletDetails::ExclusiveOneOf { subschemas, .. } => {
                let branches = clone_refs(subschemas);
                xors.push(branches);
                proof {
                    assert(xorss_view(xors@) =~= xorss_view(xors0).push(refs_view(subschemas@)));
                    assert(xorss_view(xors@) =~= spec_xor_lists(done@, rv.take(i + 1)));
                }
            },
            _ => {
                rest.push(resolved[i].clone());
                proof {
                    assert(refs_view(rest@) =~= refs_view(rest0).push(rv[i as int]));
                    assert(refs_view(rest@) =~= spec_concrete_refs(done@, rv.take(i + 1)));
                }
            },
        }
        i = i + 1;
    }
    proof {
        assert(rv.take(resolved@.len() as int) =~= rv);
    }
    (xors, rest)
}

/// Folds the shapes of the concrete members under the merge algebra,
/// or reports the position whose merge has no rule.
fn fold_concrete(rest: &Vec<SchemaRef>, done: &CanonicalMap) -> (out: Result<
    CanonicalSchemaletDetails,
    usize,
>)
    requires
        done.wf(),
        forall|i: int|
            0 <= i < rest@.len() ==> done@.dom().contains(#[trigger] refs_view(rest@)[i]),
    ensures
        match out {
            Ok(d) => spec_fold_merge(spec_details_of(done@, refs_view(rest@))) == Ok::<
                CanonicalDetailsView,
                int,
            >(d@),
            Err(k) => 0 < rest@.len() && k < rest@.len() && spec_fold_merge(
                spec_details_of(done@, refs_view(rest@)),
            ) == Err::<CanonicalDetailsView, int>(k as int),
        },
{
    let ghost cv = refs_view(rest@);
    let ghost items = spec_details_of(done@, cv);
    let mut acc = CanonicalSchemaletDetails::Anything;
    let mut k: usize = 0;
    proof {
        assert(items.take(0) =~= Seq::<CanonicalDetailsView>::empty());
    }
    while k < rest.len()
        invariant
            done.wf(),
            cv == refs_view(rest@),
            items == spec_details_of(done@, cv),
            forall|j: int| 0 <= j < rest@.len() ==> done@.dom().contains(#[trigger] cv[j]),
            k <= rest@.len(),
            spec_fold_merge(items.take(k as int)) == Ok::<CanonicalDetailsView, int>(acc@),
        decreases rest@.len() - k,
    {
        proof {
            assert(items.take(k + 1).drop_last() =~= items.take(k as int));
            assert(items.take(k + 1).last() == items[k as int]);
        }
        let node = match done.get(&rest[k]) {
            Some(node) => node,
            None => {
                proof {
                    assert(false);
                }
                return Err(k);
            },
        };
        match merge_two(&acc, &node.details) {
            Ok(d) => {
                acc = d;
            },
            Err(_) => {
                proof {
                    assert(spec_fold_merge(items.take(k + 1)) == Err::<CanonicalDetailsView, int>(
                        k as int,
                    ));
                    lemma_fold_merge_err_prefix(items, k + 1);
                }
                return Err(k);
            },
        }
        k = k + 1;
    }
    proof {
        assert(items.take(rest@.len() as int) =~= items);
    }
    Ok(acc)
}

/// Whether the group survives every concrete member.
fn group_survives(rep: &SchemaRef, concrete: &Vec<SchemaRef>, done: &CanonicalMap) -> (out: bool)
    requires
        done.wf(),
    ensures
        out == spec_group_survives(rep@, refs_view(concrete@), done@, done.spec_len()),
{
    let ghost cv = refs_view(concrete@);
    let mut i: usize = 0;
    while i < concrete.len()
        invariant
            done.wf(),
            cv == refs_view(concrete@),
            i <= concrete@.len(),
            forall|j: int|
                0 <= j < i ==> !spec_trivially_incompatible(done@, rep@, cv[j], done.spec_len()),
        decreases concrete@.len() - i,
    {
        if trivially_incompatible(done, rep, &concrete[i]) {
            proof {
                assert(spec_trivially_incompatible(done@, rep@, cv[i as int], done.spec_len()));
            }
            return false;
        }
        i = i + 1;
    }
    true
}

/// Seeds the partition with the branches of the first disjunctive
/// member.
fn base_groups(base: &Vec<SchemaRef>) -> (out: Vec<(SchemaRef, Vec<SchemaRef>)>)
    ensures
        groups_view(out@) == spec_base_groups(refs_view(base@)),
{
    let mut out: Vec<(SchemaRef, Vec<SchemaRef>)> = Vec::new();
    let mut bi: usize = 0;
    while bi < base.len()
        invariant
            bi <= base@.len(),
            out@.len() == bi,
            forall|j: int|
                0 <= j < bi ==> ref_view(#[trigger] out@[j].0) == refs_view(base@)[j]
                    && refs_view(out@[j].1@) == seq![refs_view(base@)[j]],
        decreases base@.len() - bi,
    {
        let rep = base[bi].clone();
        let mut members: Vec<SchemaRef> = Vec::new();
        members.push(base[bi].clone());
        proof {
            assert(refs_view(members@) =~= seq![refs_view(base@)[bi as int]]);
        }
        out.push((rep, members));
        bi = bi + 1;
    }
    proof {
        assert(groups_view(out@) =~= spec_base_groups(refs_view(base@)));
    }
    out
}

/// Pairs one group with each branch, keeping the compatible pairings.
fn pair_group(
    rep: &SchemaRef,
    members: &Vec<SchemaRef>,
    branches: &Vec<SchemaRef>,
    done: &CanonicalMap,
) -> (out: Vec<(SchemaRef, Vec<SchemaRef>)>)
    requires
        done.wf(),
    ensures
        groups_view(out@) == spec_pairings(
            rep@,
            refs_view(members@),
            refs_view(branches@),
            done@,
            done.spec_len(),
        ),
{
    let ghost rep_v = ref_view(*rep);
    let ghost mem_v = refs_view(members@);
    let ghost bv = refs_view(branches@);
    let ghost fuel = done.spec_len();
    let mut out: Vec<(SchemaRef, Vec<SchemaRef>)> = Vec::new();
    let mut bi: usize = 0;
    proof {
        assert(bv.take(0) =~= Seq::<RefView>::empty());
        assert(groups_view(out@) =~= spec_pairings(rep_v, mem_v, bv.take(0), done@, fuel));
    }
    while bi < branches.len()
        invariant
            done.wf(),
            fuel == done.spec_len(),
            rep_v == ref_view(*rep),
            mem_v == refs_view(members@),
            bv == refs_view(branches@),
            bi <= branches@.len(),
            groups_view(out@) == spec_pairings(rep_v, mem_v, bv.take(bi as int), done@, fuel),
        decreases branches@.len() - bi,
    {
        let ghost out0 = out@;
        proof {
            assert(bv.take(bi + 1).drop_last() =~= bv.take(bi as int));
            assert(bv.take(bi + 1).last() == bv[bi as int]);
        }
        if !trivially_incompatible(done, rep, &branches[bi]) {
            let mut group = clone_refs(members);
            group.push(branches[bi].clone());
            proof {
                assert(refs_view(group@) =~= mem_v.push(bv[bi as int]));
            }
            out.push((rep.clone(), group));
            proof {
                assert(groups_view(out@) =~= groups_view(out0).push(
                    (rep_v, mem_v.push(bv[bi as int])),
                ));
                assert(groups_view(out@) =~= spec_pairings(
                    rep_v,
                    mem_v,
                    bv.take(bi + 1),
                    done@,
                    fuel,
                ));
            }
        } else {
            proof {
                assert(groups_view(out@) =~= spec_pairings(
                    rep_v,
                    mem_v,
                    bv.take(bi + 1),
                    done@,
                    fuel,
                ));
            }
        }
        bi = bi + 1;
    }
    proof {
        assert(bv.take(branches@.len() as int) =~= bv);
    }
    out
}

/// Refines the partition with the branches of one further disjunctive
/// member.
fn refine_one(
    groups: Vec<(SchemaRef, Vec<SchemaRef>)>,
    branches: &Vec<SchemaRef>,
    done: &CanonicalMap,
) -> (out: Vec<(SchemaRef, Vec<SchemaRef>)>)
    requires
        done.wf(),
    ensures
        groups_view(out@) == spec_refine_one(
            groups_view(groups@),
            refs_view(branches@),
            done@,
            done.spec_len(),
        ),
{
    let ghost gv = groups_view(groups@);
    let ghost bv = refs_view(branches@);
    let ghost fuel = done.spec_len();
    let mut out: Vec<(SchemaRef, Vec<SchemaRef>)> = Vec::new();
    let mut gi: usize = 0;
    proof {
        assert(gv.take(0) =~= Seq::<(RefView, Seq<RefView>)>::empty());
        assert(groups_view(out@) =~= spec_refine_one(gv.take(0), bv, done@, fuel));
    }
    while gi < groups.len()
        invariant
            done.wf(),
            fuel == done.spec_len(),
            gv == groups_view(groups@),
            bv == refs_view(branches@),
            gi <= groups@.len(),
            groups_view(out@) == spec_refine_one(gv.take(gi as int), bv, done@, fuel),
        decreases groups@.len() - gi,
    {
        let ghost out0 = out@;
        proof {
            assert(gv.len() == groups@.len());
            assert(gv.take(gi + 1).drop_last() =~= gv.take(gi as int));
            assert(gv.take(gi + 1).last() == gv[gi as int]);
            assert(groups_view(groups@)[gi as int] == (
                ref_view(groups@[gi as int].0),
                refs_view(groups@[gi as int].1@),
            ));
        }
        let mut pairs = pair_group(&groups[gi].0, &groups[gi].1, branches, done);
        let ghost pairs_v = groups_view(pairs@);
        out.append(&mut pairs);
        proof {
            assert(groups_view(out@) =~= groups_view(out0) + pairs_v);
            assert(groups_view(out@) =~= spec_refine_one(gv.take(gi + 1), bv, done@, fuel));
        }
        gi = gi + 1;
    }
    proof {
        assert(gv.take(groups@.len() as int) =~= gv);
    }
    out
}

/// Keeps the groups that survive the concrete members, extends each with
/// the concrete members, and builds the replacement union's branch list
/// and the spawned conjunction nodes.
#[verifier::rlimit(50)]
fn build_union(
    groups: Vec<(SchemaRef, Vec<SchemaRef>)>,
    rest: &Vec<SchemaRef>,
    done: &CanonicalMap,
) -> (out: (Vec<SchemaRef>, Vec<(SchemaRef, Schemalet)>))
    requires
        done.wf(),
    ensures
        refs_view(out.0@) == spec_union_refs(
            spec_survivors(groups_view(groups@), refs_view(rest@), done@, done.spec_len()),
            refs_view(rest@),
        ),
        work_view(out.1@) == spec_union_work(
            spec_survivors(groups_view(groups@), refs_view(rest@), done@, done.spec_len()),
            refs_view(rest@),
        ),
{
    let ghost gv = groups_view(groups@);
    let ghost cv = refs_view(rest@);
    let ghost fuel = done.spec_len();
    let mut subschemas: Vec<SchemaRef> = Vec::new();
    let mut work: Vec<(SchemaRef, Schemalet)> = Vec::new();
    let mut gi: usize = 0;
    proof {
        assert(gv.take(0) =~= Seq::<(RefView, Seq<RefView>)>::empty());
        assert(refs_view(subschemas@) =~= spec_union_refs(
            spec_survivors(gv.take(0), cv, done@, fuel),
            cv,
        ));
        assert(work_view(work@) =~= spec_union_work(
            spec_survivors(gv.take(0), cv, done@, fuel),
            cv,
        ));
    }
    while gi < groups.len()
        invariant
            done.wf(),
            fuel == done.spec_len(),
            gv == groups_view(groups@),
            cv == refs_view(rest@),
            gi <= groups@.len(),
            refs_view(subschemas@) == spec_union_refs(
                spec_survivors(gv.take(gi as int), cv, done@, fuel),
                cv,
            ),
            work_view(work@) == spec_union_work(
                spec_survivors(gv.take(gi as int), cv, done@, fuel),
                cv,
            ),
        decreases groups@.len() - gi,
    {
        let ghost subs0 = subschemas@;
        let ghost work0 = work@;
        let ghost surv0 = spec_survivors(gv.take(gi as int), cv, done@, fuel);
        proof {
            assert(gv.take(gi + 1).drop_last() =~= gv.take(gi as int));
            assert(gv.take(gi + 1).last() == gv[gi as int]);
            assert(groups_view(groups@)[gi as int] == (ref_view(groups@[gi as int].0), refs_view(
                groups@[gi as int].1@,
            )));
        }
        let survives = group_survives(&groups[gi].0, rest, done);
        let ghost surv1 = spec_survivors(gv.take(gi + 1), cv, done@, fuel);
        if survives {
            let full = concat_refs(&groups[gi].1, rest);
            let merge_ref = SchemaRef::Merge(clone_refs(&full));
            let merge_node = Schemalet::from_details(SchemaletDetails::AllOf(full));
            work.push((merge_ref.clone(), merge_node));
            subschemas.push(merge_ref);
            proof {
                assert(surv1 =~= surv0.push(gv[gi as int]));
                assert(refs_view(subschemas@) =~= refs_view(subs0).push(
                    RefView::Merge(gv[gi as int].1 + cv),
                ));
                assert(work_view(work@) =~= work_view(work0).push(
                    (
                        RefView::Merge(gv[gi as int].1 + cv),
                        SchemaletView {
                            metadata: MetadataView::empty(),
                            details: DetailsView::AllOf(gv[gi as int].1 + cv),
                        },
                    ),
                ));
                assert(refs_view(subschemas@) =~= spec_union_refs(surv1, cv));
                assert(work_view(work@) =~= spec_union_work(surv1, cv));
            }
        } else {
            proof {
                assert(surv1 =~= surv0);
                assert(refs_view(subschemas@) =~= spec_union_refs(surv1, cv));
                assert(work_view(work@) =~= spec_union_work(surv1, cv));
            }
        }
        gi = gi + 1;
    }
    proof {
        assert(gv.take(groups@.len() as int) =~= gv);
    }
    (subschemas, work)
}

/// Merges the resolved members of a conjunction, per the merge algebra;
/// see [`spec_merge_all`].
pub fn merge_all(
    metadata: SchemaletMetadata,
    resolved: Vec<SchemaRef>,
    done: &CanonicalMap,
) -> (out: Result<State, SimplifyError>)
    requires
        done.wf(),
        forall|i: int|
            0 <= i < resolved@.len() ==> done@.dom().contains(#[trigger] refs_view(resolved@)[i]),
    ensures
        state_result_view(out) == spec_merge_all(
            metadata@,
            refs_view(resolved@),
            done@,
            done.spec_len(),
        ),
{
    let ghost rv = refs_view(resolved@);
    let ghost fuel = done.spec_len();

    let (xors, rest) = partition_members(&resolved, done);
    let ghost xors_v = xorss_view(xors@);
    let ghost concrete_v = refs_view(rest@);

    if xors.len() == 0 {
        proof {
            lemma_concrete_in_done(done@, rv);
        }
        match fold_concrete(&rest, done) {
            Ok(details) => Ok(State::Canonical(CanonicalSchemalet { metadata, details })),
            Err(k) => Err(
                SimplifyError::UnsupportedMerge { a: rest[0].clone(), b: rest[k].clone() },
            ),
        }
    } else {
        let mut groups = base_groups(&xors[0]);
        let ghost refined_target = spec_refine(
            spec_base_groups(xors_v[0]),
            xors_v.drop_first(),
            done@,
            fuel,
        );
        let mut xi: usize = 1;
        proof {
            assert(xors_v.skip(1) =~= xors_v.drop_first());
        }
        while xi < xors.len()
            invariant
                done.wf(),
                fuel == done.spec_len(),
                xors_v == xorss_view(xors@),
                1 <= xi <= xors@.len(),
                spec_refine(groups_view(groups@), xors_v.skip(xi as int), done@, fuel)
                    == refined_target,
            decreases xors@.len() - xi,
        {
            proof {
                assert(xors_v.skip(xi as int)[0] == xors_v[xi as int]);
                assert(xors_v.skip(xi as int).drop_first() =~= xors_v.skip(xi + 1));
            }
            let refined = refine_one(groups, &xors[xi], done);
            groups = refined;
            xi = xi + 1;
        }
        proof {
            assert(xors_v.skip(xors@.len() as int) =~= Seq::<Seq<RefView>>::empty());
        }
        let (subschemas, work) = build_union(groups, &rest, done);
        Ok(
            State::Simplified(
                Schemalet::new(SchemaletDetails::ExclusiveOneOf(subschemas), metadata),
                work,
            ),
        )
    }
}

} // verus!
