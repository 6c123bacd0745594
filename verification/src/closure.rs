//! Key-closure of the rewrite rules: every identity a simplification
//! step emits — in a finished node, a rewritten node, or spawned work —
//! is drawn from the offered node's own children, the finished map and
//! its nodes' children, or the identities of the newly spawned nodes. No
//! rule invents an identity, so a closed graph stays closed as it is
//! simplified.

use vstd::prelude::*;

use crate::expand::{
    spec_bitmap_work, spec_expand_any_of, spec_expand_branches, spec_expand_work, spec_no_refs,
    spec_yes_id, spec_yes_refs, spec_yesno_id,
};
use crate::merge::{spec_fold_merge, spec_merge_two};
use crate::merge_all::{
    lemma_concrete_in_done, spec_base_groups, spec_concrete_refs, spec_details_of, spec_merge_all,
    spec_pairings, spec_refine, spec_refine_one, spec_survivors, spec_union_refs, spec_union_work,
    spec_xor_lists,
};
use crate::resolve::{
    lemma_resolve_all_found_nodes, spec_resolve, spec_resolve_all, ResolutionAllView,
    ResolutionView,
};
use crate::schemalet::{
    children_in, raw_children, spec_children, CanonicalDetailsView, CanonicalView, DetailsView,
    MetadataView, RefView, SchemaletView, StateView,
};
use crate::simplify::{
    lemma_kept_nodes, spec_distributed_ids, spec_distributed_work, spec_kept, spec_merge_yes_no,
    spec_simplify,
};

verus! {

/// The identities of the nodes a rewrite spawns.
pub open spec fn work_keys(work: Seq<(RefView, SchemaletView)>) -> Set<RefView> {
    Set::new(|k: RefView| exists|i: int| 0 <= i < work.len() && (#[trigger] work[i]).0 == k)
}

/// The identities of an entry list.
pub open spec fn entry_keys<V>(e: Seq<(crate::schemalet::SchemaRef, V)>) -> Set<RefView> {
    Set::new(|k: RefView| crate::refmap::seq_has_key(e, k))
}

/// The identities known to a pass: finished before the pass, finished
/// during it, queued for the next pass, or still to be processed.
pub open spec fn pass_known(
    done: Map<RefView, CanonicalView>,
    additions: Map<RefView, CanonicalView>,
    next: Map<RefView, SchemaletView>,
    entries: Seq<(crate::schemalet::SchemaRef, crate::schemalet::Schemalet)>,
) -> Set<RefView> {
    done.dom().union(additions.dom()).union(next.dom()).union(entry_keys(entries))
}

/// A list whose members all lie in a larger set still does.
pub proof fn lemma_children_in_mono(cs: Seq<RefView>, a: Set<RefView>, b: Set<RefView>)
    requires
        children_in(cs, a),
        forall|k: RefView| #[trigger] a.contains(k) ==> b.contains(k),
    ensures
        children_in(cs, b),
{
}

/// Popping one entry keeps a set of identities covered, as long as the
/// popped identity lands in the growing component.
pub proof fn lemma_known_shift<V>(
    dom: Set<RefView>,
    stat: Set<RefView>,
    grow0: Set<RefView>,
    grow1: Set<RefView>,
    e0: Seq<(crate::schemalet::SchemaRef, V)>,
    e1: Seq<(crate::schemalet::SchemaRef, V)>,
    rv: RefView,
)
    requires
        forall|k: RefView|
            #[trigger] dom.contains(k) ==> stat.contains(k) || grow0.contains(k)
                || crate::refmap::seq_has_key(e0, k),
        e0.len() > 0,
        e1 == e0.drop_last(),
        e0[e0.len() - 1].0@ == rv,
        forall|k: RefView| #[trigger] grow0.contains(k) ==> grow1.contains(k),
        grow1.contains(rv) || stat.contains(rv),
    ensures
        forall|k: RefView|
            #[trigger] dom.contains(k) ==> stat.contains(k) || grow1.contains(k)
                || crate::refmap::seq_has_key(e1, k),
{
    assert forall|k: RefView| #[trigger] dom.contains(k) implies stat.contains(k)
        || grow1.contains(k) || crate::refmap::seq_has_key(e1, k) by {
        if !stat.contains(k) && !grow0.contains(k) {
            let i = choose|i: int| 0 <= i < e0.len() && (#[trigger] e0[i]).0@ == k;
            if i < e0.len() - 1 {
                assert(e1[i] == e0[i]);
                assert(crate::refmap::seq_has_key(e1, k));
            } else {
                assert(k == rv);
            }
        }
    }
}

/// Whether the in-progress nodes refer only to identities in `known`.
pub open spec fn raw_graph_children_in(
    m: Map<RefView, SchemaletView>,
    known: Set<RefView>,
) -> bool {
    forall|k: RefView|
        #[trigger] m.dom().contains(k) ==> children_in(raw_children(m[k].details), known)
}

/// Whether a raw graph is closed: every identity a node mentions is a
/// key of the graph.
pub open spec fn raw_graph_closed(m: Map<RefView, SchemaletView>) -> bool {
    raw_graph_children_in(m, m.dom())
}

/// Whether a finished graph is closed: every identity a finished node
/// mentions is a key of the graph.
pub open spec fn canonical_graph_closed(d: Map<RefView, CanonicalView>) -> bool {
    done_children_in(d, d.dom())
}

/// Whether the finished map's nodes refer only to identities in `known`.
pub open spec fn done_children_in(done: Map<RefView, CanonicalView>, known: Set<RefView>) -> bool {
    forall|k: RefView|
        #[trigger] done.dom().contains(k) ==> children_in(spec_children(done[k].details), known)
}

/// Whether every identity of a simplification outcome lies in `known`,
/// extended — for a rewrite — by the identities it spawns.
pub open spec fn outputs_children_in(
    r: Result<StateView, crate::errors::SimplifyErrorView>,
    known: Set<RefView>,
) -> bool {
    match r {
        Ok(s) => match s {
            StateView::Canonical(c) => children_in(spec_children(c.details), known),
            StateView::Stuck(m) => children_in(raw_children(m.details), known),
            StateView::Simplified(m, work) => children_in(
                raw_children(m.details),
                known.union(work_keys(work)),
            ) && (forall|i: int|
                0 <= i < work.len() ==> children_in(
                    raw_children((#[trigger] work[i]).1.details),
                    known.union(work_keys(work)),
                )),
        },
        Err(_) => true,
    }
}

/// Merging two shapes emits no identity beyond the operands' children.
proof fn lemma_merge_two_children(
    a: CanonicalDetailsView,
    b: CanonicalDetailsView,
    known: Set<RefView>,
)
    requires
        children_in(spec_children(a), known),
        children_in(spec_children(b), known),
    ensures
        spec_merge_two(a, b) matches Some(x) ==> children_in(spec_children(x), known),
{
    match spec_merge_two(a, b) {
        Some(x) => {
            match (a, b) {
                (
                    CanonicalDetailsView::Value(crate::schemalet::ValueView::Object(oa)),
                    CanonicalDetailsView::Value(crate::schemalet::ValueView::Object(ob)),
                ) => {
                    match x {
                        CanonicalDetailsView::Value(
                            crate::schemalet::ValueView::Object(o),
                        ) => {
                            if o.properties == oa.properties + ob.properties {
                                let ca = spec_children(a);
                                let cb = spec_children(b);
                                let na = oa.properties.len() as int;
                                assert forall|i: int|
                                    0 <= i < spec_children(x).len() implies known.contains(
                                    #[trigger] spec_children(x)[i],
                                ) by {
                                    if i < o.properties.len() {
                                        if i < na {
                                            assert(spec_children(x)[i] == ca[i]);
                                        } else {
                                            assert(spec_children(x)[i] == cb[i - na]);
                                        }
                                    } else {
                                        if oa.additional_properties is Some {
                                            assert(spec_children(x)[i] == ca[ca.len() - 1]);
                                        } else {
                                            assert(spec_children(x)[i] == cb[cb.len() - 1]);
                                        }
                                    }
                                }
                            }
                        },
                        _ => {},
                    }
                },
                _ => {},
            }
        },
        None => {},
    }
}

/// Folding a list of shapes emits no identity beyond their children.
proof fn lemma_fold_children(items: Seq<CanonicalDetailsView>, known: Set<RefView>)
    requires
        forall|i: int|
            0 <= i < items.len() ==> children_in(spec_children(#[trigger] items[i]), known),
    ensures
        spec_fold_merge(items) matches Ok(x) ==> children_in(spec_children(x), known),
    decreases items.len(),
{
    if items.len() > 0 {
        assert forall|i: int|
            0 <= i < items.drop_last().len() implies children_in(
            spec_children(#[trigger] items.drop_last()[i]),
            known,
        ) by {
            assert(items.drop_last()[i] == items[i]);
        }
        lemma_fold_children(items.drop_last(), known);
        match spec_fold_merge(items.drop_last()) {
            Ok(acc) => {
                lemma_merge_two_children(acc, items.last(), known);
            },
            Err(_) => {},
        }
    }
}

/// The branch lists of the disjunctive members hold only children of
/// finished nodes.
proof fn lemma_xor_lists_children(
    done: Map<RefView, CanonicalView>,
    rs: Seq<RefView>,
    known: Set<RefView>,
)
    requires
        forall|i: int| 0 <= i < rs.len() ==> done.dom().contains(#[trigger] rs[i]),
        done_children_in(done, known),
    ensures
        forall|li: int|
            0 <= li < spec_xor_lists(done, rs).len() ==> children_in(
                #[trigger] spec_xor_lists(done, rs)[li],
                known,
            ),
    decreases rs.len(),
{
    if rs.len() > 0 {
        assert forall|i: int| 0 <= i < rs.drop_last().len() implies done.dom().contains(
            #[trigger] rs.drop_last()[i],
        ) by {
            assert(rs.drop_last()[i] == rs[i]);
        }
        lemma_xor_lists_children(done, rs.drop_last(), known);
        let whole = spec_xor_lists(done, rs);
        let prefix = spec_xor_lists(done, rs.drop_last());
        assert forall|li: int| 0 <= li < whole.len() implies children_in(
            #[trigger] whole[li],
            known,
        ) by {
            if li < prefix.len() {
                assert(whole[li] == prefix[li]);
            } else {
                assert(whole[li] == done[rs.last()].details->ExclusiveOneOf_subschemas);
                assert(children_in(spec_children(done[rs.last()].details), known));
            }
        }
    }
}

/// Whether every group's representative and members lie in `known`.
pub open spec fn groups_members_in(
    groups: Seq<(RefView, Seq<RefView>)>,
    known: Set<RefView>,
) -> bool {
    forall|g: int|
        0 <= g < groups.len() ==> known.contains((#[trigger] groups[g]).0) && children_in(
            groups[g].1,
            known,
        )
}

/// Seeding the partition emits only the branches themselves.
proof fn lemma_base_groups_members(base: Seq<RefView>, known: Set<RefView>)
    requires
        children_in(base, known),
    ensures
        groups_members_in(spec_base_groups(base), known),
{
    assert forall|g: int| 0 <= g < spec_base_groups(base).len() implies known.contains(
        (#[trigger] spec_base_groups(base)[g]).0,
    ) && children_in(spec_base_groups(base)[g].1, known) by {
        assert(spec_base_groups(base)[g] == (base[g], seq![base[g]]));
    }
}

/// Pairing a group with branches emits only the group's members and the
/// branches.
proof fn lemma_pairings_members(
    rep: RefView,
    members: Seq<RefView>,
    branches: Seq<RefView>,
    done: Map<RefView, CanonicalView>,
    fuel: nat,
    known: Set<RefView>,
)
    requires
        known.contains(rep),
        children_in(members, known),
        children_in(branches, known),
    ensures
        groups_members_in(spec_pairings(rep, members, branches, done, fuel), known),
    decreases branches.len(),
{
    if branches.len() > 0 {
        assert forall|i: int| 0 <= i < branches.drop_last().len() implies known.contains(
            #[trigger] branches.drop_last()[i],
        ) by {
            assert(branches.drop_last()[i] == branches[i]);
        }
        lemma_pairings_members(rep, members, branches.drop_last(), done, fuel, known);
        let whole = spec_pairings(rep, members, branches, done, fuel);
        let prefix = spec_pairings(rep, members, branches.drop_last(), done, fuel);
        assert forall|g: int| 0 <= g < whole.len() implies known.contains(
            (#[trigger] whole[g]).0,
        ) && children_in(whole[g].1, known) by {
            if g < prefix.len() {
                assert(whole[g] == prefix[g]);
            } else {
                assert(whole[g] == (rep, members.push(branches.last())));
                assert forall|i: int|
                    0 <= i < members.push(branches.last()).len() implies known.contains(
                    #[trigger] members.push(branches.last())[i],
                ) by {
                    if i < members.len() {
                        assert(members.push(branches.last())[i] == members[i]);
                    } else {
                        assert(members.push(branches.last())[i] == branches[branches.len() - 1]);
                    }
                }
            }
        }
    }
}

/// Refining the partition with one member preserves membership.
proof fn lemma_refine_one_members(
    groups: Seq<(RefView, Seq<RefView>)>,
    branches: Seq<RefView>,
    done: Map<RefView, CanonicalView>,
    fuel: nat,
    known: Set<RefView>,
)
    requires
        groups_members_in(groups, known),
        children_in(branches, known),
    ensures
        groups_members_in(spec_refine_one(groups, branches, done, fuel), known),
    decreases groups.len(),
{
    if groups.len() > 0 {
        assert forall|g: int| 0 <= g < groups.drop_last().len() implies known.contains(
            (#[trigger] groups.drop_last()[g]).0,
        ) && children_in(groups.drop_last()[g].1, known) by {
            assert(groups.drop_last()[g] == groups[g]);
        }
        lemma_refine_one_members(groups.drop_last(), branches, done, fuel, known);
        lemma_pairings_members(
            groups.last().0,
            groups.last().1,
            branches,
            done,
            fuel,
            known,
        );
        let whole = spec_refine_one(groups, branches, done, fuel);
        let prefix = spec_refine_one(groups.drop_last(), branches, done, fuel);
        let pairs = spec_pairings(groups.last().0, groups.last().1, branches, done, fuel);
        assert forall|g: int| 0 <= g < whole.len() implies known.contains(
            (#[trigger] whole[g]).0,
        ) && children_in(whole[g].1, known) by {
            if g < prefix.len() {
                assert(whole[g] == prefix[g]);
            } else {
                assert(whole[g] == pairs[g - prefix.len()]);
            }
        }
    }
}

/// Refining the partition with every further member preserves
/// membership.
proof fn lemma_refine_members(
    groups: Seq<(RefView, Seq<RefView>)>,
    xors: Seq<Seq<RefView>>,
    done: Map<RefView, CanonicalView>,
    fuel: nat,
    known: Set<RefView>,
)
    requires
        groups_members_in(groups, known),
        forall|li: int| 0 <= li < xors.len() ==> children_in(#[trigger] xors[li], known),
    ensures
        groups_members_in(spec_refine(groups, xors, done, fuel), known),
    decreases xors.len(),
{
    if xors.len() > 0 {
        lemma_refine_one_members(groups, xors[0], done, fuel, known);
        assert forall|li: int| 0 <= li < xors.drop_first().len() implies children_in(
            #[trigger] xors.drop_first()[li],
            known,
        ) by {
            assert(xors.drop_first()[li] == xors[li + 1]);
        }
        lemma_refine_members(
            spec_refine_one(groups, xors[0], done, fuel),
            xors.drop_first(),
            done,
            fuel,
            known,
        );
    }
}

/// Keeping the surviving groups preserves membership.
proof fn lemma_survivors_members(
    groups: Seq<(RefView, Seq<RefView>)>,
    concrete: Seq<RefView>,
    done: Map<RefView, CanonicalView>,
    fuel: nat,
    known: Set<RefView>,
)
    requires
        groups_members_in(groups, known),
    ensures
        groups_members_in(spec_survivors(groups, concrete, done, fuel), known),
    decreases groups.len(),
{
    if groups.len() > 0 {
        assert forall|g: int| 0 <= g < groups.drop_last().len() implies known.contains(
            (#[trigger] groups.drop_last()[g]).0,
        ) && children_in(groups.drop_last()[g].1, known) by {
            assert(groups.drop_last()[g] == groups[g]);
        }
        lemma_survivors_members(groups.drop_last(), concrete, done, fuel, known);
        let whole = spec_survivors(groups, concrete, done, fuel);
        let prefix = spec_survivors(groups.drop_last(), concrete, done, fuel);
        assert forall|g: int| 0 <= g < whole.len() implies known.contains(
            (#[trigger] whole[g]).0,
        ) && children_in(whole[g].1, known) by {
            if g < prefix.len() {
                assert(whole[g] == prefix[g]);
            } else {
                assert(whole[g] == groups[groups.len() - 1]);
            }
        }
    }
}

/// A conjunction emits no identity beyond the members' children, the
/// finished nodes' children, and the spawned conjunction nodes.
proof fn lemma_merge_all_children(
    meta: MetadataView,
    rs: Seq<RefView>,
    done: Map<RefView, CanonicalView>,
    fuel: nat,
    known: Set<RefView>,
)
    requires
        forall|i: int| 0 <= i < rs.len() ==> done.dom().contains(#[trigger] rs[i]),
        forall|k: RefView| #[trigger] done.dom().contains(k) ==> known.contains(k),
        done_children_in(done, known),
    ensures
        outputs_children_in(spec_merge_all(meta, rs, done, fuel), known),
{
    let xors = spec_xor_lists(done, rs);
    let concrete = spec_concrete_refs(done, rs);
    lemma_concrete_in_done(done, rs);
    assert(children_in(concrete, known));
    if xors.len() == 0 {
        let items = spec_details_of(done, concrete);
        assert forall|i: int|
            0 <= i < items.len() implies children_in(spec_children(#[trigger] items[i]), known) by {
            assert(items[i] == done[concrete[i]].details);
        }
        lemma_fold_children(items, known);
    } else {
        lemma_xor_lists_children(done, rs, known);
        lemma_base_groups_members(xors[0], known);
        assert forall|li: int| 0 <= li < xors.drop_first().len() implies children_in(
            #[trigger] xors.drop_first()[li],
            known,
        ) by {
            assert(xors.drop_first()[li] == xors[li + 1]);
        }
        let refined = spec_refine(spec_base_groups(xors[0]), xors.drop_first(), done, fuel);
        lemma_refine_members(spec_base_groups(xors[0]), xors.drop_first(), done, fuel, known);
        let survivors = spec_survivors(refined, concrete, done, fuel);
        lemma_survivors_members(refined, concrete, done, fuel, known);
        let work = spec_union_work(survivors, concrete);
        let wider = known.union(work_keys(work));
        let branches = spec_union_refs(survivors, concrete);
        assert forall|i: int| 0 <= i < branches.len() implies wider.contains(
            #[trigger] branches[i],
        ) by {
            assert(work[i].0 == RefView::Merge(survivors[i].1 + concrete));
            assert(work_keys(work).contains(branches[i]));
        }
        assert forall|i: int| 0 <= i < work.len() implies children_in(
            raw_children((#[trigger] work[i]).1.details),
            wider,
        ) by {
            let full = survivors[i].1 + concrete;
            assert(work[i].1.details == DetailsView::AllOf(full));
            assert forall|j: int| 0 <= j < full.len() implies wider.contains(
                #[trigger] full[j],
            ) by {
                if j < survivors[i].1.len() {
                    assert(full[j] == survivors[i].1[j]);
                } else {
                    assert(full[j] == concrete[j - survivors[i].1.len()]);
                }
            }
        }
    }
}

/// The subset sides of a bitmap split hold only the original branches.
proof fn lemma_split_children(rs: Seq<RefView>, m: nat, known: Set<RefView>)
    requires
        children_in(rs, known),
    ensures
        children_in(spec_yes_refs(rs, m), known),
        children_in(spec_no_refs(rs, m), known),
    decreases rs.len(),
{
    if rs.len() > 0 {
        assert forall|i: int| 0 <= i < rs.drop_first().len() implies known.contains(
            #[trigger] rs.drop_first()[i],
        ) by {
            assert(rs.drop_first()[i] == rs[i + 1]);
        }
        lemma_split_children(rs.drop_first(), m / 2, known);
    }
}

/// Every subset node of the expansion is one of the spawned nodes.
proof fn lemma_expand_keys(rs: Seq<RefView>, count: nat, m: nat)
    requires
        1 <= m <= count,
    ensures
        work_keys(spec_expand_work(rs, count)).contains(spec_yesno_id(rs, m)),
        spec_yes_refs(rs, m).len() != 1 ==> work_keys(spec_expand_work(rs, count)).contains(
            RefView::Merge(spec_yes_refs(rs, m)),
        ),
    decreases count,
{
    let whole = spec_expand_work(rs, count);
    let prefix = spec_expand_work(rs, (count - 1) as nat);
    let bitmap = spec_bitmap_work(rs, count);
    if m == count {
        if spec_yes_refs(rs, m).len() == 1 {
            assert(whole[prefix.len() as int] == bitmap[0]);
            assert(whole[prefix.len() as int].0 == spec_yesno_id(rs, m));
        } else {
            assert(whole[prefix.len() as int] == bitmap[0]);
            assert(whole[prefix.len() as int].0 == RefView::Merge(spec_yes_refs(rs, m)));
            assert(whole[prefix.len() as int + 1] == bitmap[1]);
            assert(whole[prefix.len() as int + 1].0 == spec_yesno_id(rs, m));
        }
    } else {
        lemma_expand_keys(rs, (count - 1) as nat, m);
        assert forall|k: RefView| work_keys(prefix).contains(k) implies work_keys(
            whole,
        ).contains(k) by {
            let i = choose|i: int| 0 <= i < prefix.len() && (#[trigger] prefix[i]).0 == k;
            assert(whole[i] == prefix[i]);
        }
    }
}

/// A disjunction's expansion emits no identity beyond the resolved
/// branches and the spawned subset nodes.
proof fn lemma_expand_children(meta: MetadataView, rs: Seq<RefView>, known: Set<RefView>)
    requires
        children_in(rs, known),
    ensures
        outputs_children_in(Ok(spec_expand_any_of(meta, rs)), known),
{
    let count = (vstd::arithmetic::power2::pow2(rs.len()) - 1) as nat;
    vstd::arithmetic::power2::lemma_pow2_pos(rs.len());
    let work = spec_expand_work(rs, count);
    let wider = known.union(work_keys(work));
    let branches = spec_expand_branches(rs, count);
    crate::expand::lemma_expand_branches_len(rs, count);
    assert forall|i: int| 0 <= i < branches.len() implies wider.contains(
        #[trigger] branches[i],
    ) by {
        assert(branches[i] == spec_yesno_id(rs, (i + 1) as nat));
        lemma_expand_keys(rs, count, (i + 1) as nat);
    }
    lemma_expand_work_children(rs, count, count, known);
}

/// Every spawned subset node of the expansion refers only to the
/// original branches and sibling spawned nodes.
proof fn lemma_expand_work_children(rs: Seq<RefView>, count: nat, total: nat, known: Set<RefView>)
    requires
        children_in(rs, known),
        count <= total,
    ensures
        forall|i: int|
            0 <= i < spec_expand_work(rs, count).len() ==> children_in(
                raw_children((#[trigger] spec_expand_work(rs, count)[i]).1.details),
                known.union(work_keys(spec_expand_work(rs, total))),
            ),
    decreases count,
{
    if count > 0 {
        lemma_expand_work_children(rs, (count - 1) as nat, total, known);
        let whole = spec_expand_work(rs, count);
        let prefix = spec_expand_work(rs, (count - 1) as nat);
        let wider = known.union(work_keys(spec_expand_work(rs, total)));
        lemma_split_children(rs, count, known);
        assert forall|i: int| 0 <= i < whole.len() implies children_in(
            raw_children((#[trigger] whole[i]).1.details),
            wider,
        ) by {
            if i < prefix.len() {
                assert(whole[i] == prefix[i]);
            } else {
                assert(whole[i] == spec_bitmap_work(rs, count)[i - prefix.len()]);
                let ys = spec_yes_refs(rs, count);
                let ns = spec_no_refs(rs, count);
                if ys.len() != 1 {
                    lemma_expand_keys(rs, total, count);
                }
                let cs = raw_children(whole[i].1.details);
                assert forall|j: int| 0 <= j < cs.len() implies wider.contains(
                    #[trigger] cs[j],
                ) by {
                    if whole[i].1.details == DetailsView::AllOf(ys) {
                        assert(cs[j] == ys[j]);
                    } else {
                        assert(whole[i].1.details == DetailsView::YesNo {
                            yes: spec_yes_id(rs, count),
                            no: ns,
                        });
                        if j == 0 {
                            assert(cs[0] == spec_yes_id(rs, count));
                            if ys.len() == 1 {
                                assert(spec_yes_id(rs, count) == ys[0]);
                            }
                        } else {
                            assert(cs[j] == ns[j - 1]);
                        }
                    }
                }
            }
        }
    }
}

/// An exclusion emits no identity beyond its resolved sides, the
/// finished nodes' children, and the spawned per-branch exclusions.
proof fn lemma_merge_yes_no_children(
    meta: MetadataView,
    ry: RefView,
    rno: Seq<RefView>,
    done: Map<RefView, CanonicalView>,
    fuel: nat,
    known: Set<RefView>,
)
    requires
        done.dom().contains(ry),
        children_in(rno, known),
        forall|k: RefView| #[trigger] done.dom().contains(k) ==> known.contains(k),
        done_children_in(done, known),
    ensures
        outputs_children_in(spec_merge_yes_no(meta, ry, rno, done, fuel), known),
{
    match spec_merge_yes_no(meta, ry, rno, done, fuel) {
        Ok(StateView::Simplified(m, work)) => {
            let bs = done[ry].details->ExclusiveOneOf_subschemas;
            assert(children_in(spec_children(done[ry].details), known));
            let wider = known.union(work_keys(work));
            let ids = spec_distributed_ids(bs, rno);
            assert(work == spec_distributed_work(bs, rno));
            assert forall|i: int| 0 <= i < ids.len() implies wider.contains(
                #[trigger] ids[i],
            ) by {
                assert(work[i].0 == ids[i]);
                assert(work_keys(work).contains(ids[i]));
            }
            assert forall|i: int| 0 <= i < work.len() implies children_in(
                raw_children((#[trigger] work[i]).1.details),
                wider,
            ) by {
                assert(work[i].1.details == DetailsView::YesNo { yes: bs[i], no: rno });
                let cs = raw_children(work[i].1.details);
                assert forall|j: int| 0 <= j < cs.len() implies wider.contains(
                    #[trigger] cs[j],
                ) by {
                    if j == 0 {
                        assert(cs[0] == bs[i]);
                        assert(spec_children(done[ry].details)[i] == bs[i]);
                    } else {
                        assert(cs[j] == rno[j - 1]);
                    }
                }
            }
        },
        _ => {},
    }
}

/// One simplification step emits no identity beyond the node's own
/// children, the finished map and its nodes' children, and the spawned
/// nodes: no rewrite rule invents an identity.
pub proof fn lemma_simplify_children(
    node: SchemaletView,
    done: Map<RefView, CanonicalView>,
    fuel: nat,
    known: Set<RefView>,
)
    requires
        children_in(raw_children(node.details), known),
        forall|k: RefView| #[trigger] done.dom().contains(k) ==> known.contains(k),
        done_children_in(done, known),
    ensures
        outputs_children_in(spec_simplify(node, done, fuel), known),
{
    reveal(spec_simplify);
    match node.details {
        DetailsView::AllOf(refs) => {
            match spec_resolve_all(done, refs, fuel) {
                ResolutionAllView::Found(rs) => {
                    lemma_resolve_all_found_nodes(done, refs, fuel);
                    lemma_merge_all_children(node.metadata, rs, done, fuel, known);
                },
                _ => {},
            }
        },
        DetailsView::AnyOf(refs) => {
            match spec_resolve_all(done, refs, fuel) {
                ResolutionAllView::Found(rs) => {
                    lemma_resolve_all_found_nodes(done, refs, fuel);
                    assert forall|i: int| 0 <= i < rs.len() implies known.contains(
                        #[trigger] rs[i],
                    ) by {
                        assert(done.dom().contains(rs[i]));
                    }
                    lemma_expand_children(node.metadata, rs, known);
                },
                _ => {},
            }
        },
        DetailsView::ExclusiveOneOf(refs) => {
            match spec_resolve_all(done, refs, fuel) {
                ResolutionAllView::Found(rs) => {
                    lemma_resolve_all_found_nodes(done, refs, fuel);
                    lemma_kept_nodes(done, rs);
                    let kept = spec_kept(done, rs);
                    assert(children_in(kept, known));
                },
                _ => {},
            }
        },
        DetailsView::YesNo { yes, no } => {
            match spec_resolve(done, yes, fuel) {
                ResolutionView::Found(ry) => {
                    match spec_resolve_all(done, no, fuel) {
                        ResolutionAllView::Found(rno) => {
                            crate::resolve::lemma_resolve_found(done, yes, fuel);
                            lemma_resolve_all_found_nodes(done, no, fuel);
                            assert forall|i: int| 0 <= i < rno.len() implies known.contains(
                                #[trigger] rno[i],
                            ) by {
                                assert(done.dom().contains(rno[i]));
                            }
                            lemma_merge_yes_no_children(
                                node.metadata,
                                ry,
                                rno,
                                done,
                                fuel,
                                known,
                            );
                        },
                        _ => {},
                    }
                },
                _ => {},
            }
        },
        _ => {},
    }
}

} // verus!
