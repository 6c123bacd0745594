//! Expansion of a disjunction into an exclusive union.
//!
//! A value matching "any of N branches" matches exactly one non-empty
//! subset of the branches at once. The expansion therefore spawns one
//! "yes/no" node per non-empty subset — matching all branches of the
//! subset while matching none of the others — and rewrites the
//! disjunction to an exclusive union over those `2^N - 1` nodes. The
//! partition is sound: the union of the values the subset nodes accept
//! equals the union of the values the original branches accept. Subsets
//! later proven impossible collapse to the empty constraint and are
//! pruned when the exclusive union is finished.

use vstd::arithmetic::power2::{lemma2_to64, lemma_pow2_unfold, pow2};
use vstd::bits::lemma_usize_pow2_no_overflow;
use vstd::prelude::*;

use crate::clone_eq::clone_refs;
use crate::schemalet::{
    lemma_refs_view, lemma_work_view, ref_view, refs_view, work_view, DetailsView, MetadataView,
    RefView, SchemaRef, Schemalet, SchemaletDetails, SchemaletMetadata, SchemaletView, State,
    StateView,
};

verus! {

broadcast use lemma_refs_view, lemma_work_view;

/// The branches selected by bitmap `m`: branch `i` is selected iff bit
/// `i` of `m` is set.
pub open spec fn spec_yes_refs(rs: Seq<RefView>, m: nat) -> Seq<RefView>
    decreases rs.len(),
{
    if rs.len() == 0 {
        Seq::empty()
    } else {
        (if m % 2 == 1 {
            seq![rs[0]]
        } else {
            Seq::empty()
        }) + spec_yes_refs(rs.drop_first(), m / 2)
    }
}

/// The branches left out by bitmap `m`: branch `i` is left out iff bit
/// `i` of `m` is clear.
pub open spec fn spec_no_refs(rs: Seq<RefView>, m: nat) -> Seq<RefView>
    decreases rs.len(),
{
    if rs.len() == 0 {
        Seq::empty()
    } else {
        (if m % 2 == 0 {
            seq![rs[0]]
        } else {
            Seq::empty()
        }) + spec_no_refs(rs.drop_first(), m / 2)
    }
}

/// The identity of the "yes" side of subset `m`: the selected branch
/// itself when the subset has one member, else the conjunction of the
/// selected branches.
pub open spec fn spec_yes_id(rs: Seq<RefView>, m: nat) -> RefView {
    let ys = spec_yes_refs(rs, m);
    if ys.len() == 1 {
        ys[0]
    } else {
        RefView::Merge(ys)
    }
}

/// The identity of the "yes/no" node of subset `m`.
pub open spec fn spec_yesno_id(rs: Seq<RefView>, m: nat) -> RefView {
    RefView::YesNo { yes: Box::new(spec_yes_id(rs, m)), no: spec_no_refs(rs, m) }
}

/// The nodes subset `m` spawns: its "yes/no" node, preceded — when the
/// subset has several members — by the conjunction node its "yes" side
/// names.
pub open spec fn spec_bitmap_work(rs: Seq<RefView>, m: nat) -> Seq<(RefView, SchemaletView)> {
    let ys = spec_yes_refs(rs, m);
    let yesno = (
        spec_yesno_id(rs, m),
        SchemaletView {
            metadata: MetadataView::empty(),
            details: DetailsView::YesNo { yes: spec_yes_id(rs, m), no: spec_no_refs(rs, m) },
        },
    );
    if ys.len() == 1 {
        seq![yesno]
    } else {
        seq![
            (
                RefView::Merge(ys),
                SchemaletView { metadata: MetadataView::empty(), details: DetailsView::AllOf(ys) },
            ),
            yesno,
        ]
    }
}

/// The branch list of the replacement exclusive union: the "yes/no"
/// identities of subsets `1..=count`, in bitmap order.
pub open spec fn spec_expand_branches(rs: Seq<RefView>, count: nat) -> Seq<RefView>
    decreases count,
{
    if count == 0 {
        Seq::empty()
    } else {
        spec_expand_branches(rs, (count - 1) as nat).push(spec_yesno_id(rs, count))
    }
}

/// All nodes the expansion spawns, in bitmap order.
pub open spec fn spec_expand_work(rs: Seq<RefView>, count: nat) -> Seq<(RefView, SchemaletView)>
    decreases count,
{
    if count == 0 {
        Seq::empty()
    } else {
        spec_expand_work(rs, (count - 1) as nat) + spec_bitmap_work(rs, count)
    }
}

/// The rewrite of a disjunction over the resolved branches `rs`: an
/// exclusive union over one "yes/no" node per non-empty subset of the
/// branches, together with the spawned nodes.
pub open spec fn spec_expand_any_of(meta: MetadataView, rs: Seq<RefView>) -> StateView {
    let count = (pow2(rs.len()) - 1) as nat;
    StateView::Simplified(
        SchemaletView { metadata: meta, details: DetailsView::ExclusiveOneOf(
            spec_expand_branches(rs, count),
        ) },
        spec_expand_work(rs, count),
    )
}

/// Expanding `n` branches yields exactly `2^n - 1` exclusive-union
/// branches, one per non-empty subset of the original branches, in
/// bitmap order: the branch at position `m` is the "yes/no" node of
/// subset `m + 1`.
pub proof fn lemma_expand_branches_len(rs: Seq<RefView>, count: nat)
    ensures
        spec_expand_branches(rs, count).len() == count,
        forall|m: int|
            0 <= m < count ==> #[trigger] spec_expand_branches(rs, count)[m] == spec_yesno_id(
                rs,
                (m + 1) as nat,
            ),
    decreases count,
{
    if count > 0 {
        lemma_expand_branches_len(rs, (count - 1) as nat);
        let whole = spec_expand_branches(rs, count);
        let prefix = spec_expand_branches(rs, (count - 1) as nat);
        assert forall|m: int| 0 <= m < count implies #[trigger] whole[m] == spec_yesno_id(
            rs,
            (m + 1) as nat,
        ) by {
            if m < count - 1 {
                assert(whole[m] == prefix[m]);
            }
        }
    }
}

/// Builds the "yes" and "no" branch lists of subset `m`.
fn split_by_bitmap(resolved: &Vec<SchemaRef>, m: usize) -> (out: (Vec<SchemaRef>, Vec<SchemaRef>))
    ensures
        refs_view(out.0@) == spec_yes_refs(refs_view(resolved@), m as nat),
        refs_view(out.1@) == spec_no_refs(refs_view(resolved@), m as nat),
{
    let ghost rv = refs_view(resolved@);
    let mut yes: Vec<SchemaRef> = Vec::new();
    let mut no: Vec<SchemaRef> = Vec::new();
    let mut mm: usize = m;
    let mut i: usize = 0;
    proof {
        assert(rv.skip(0) =~= rv);
        assert(refs_view(yes@) + spec_yes_refs(rv, m as nat) =~= spec_yes_refs(rv, m as nat));
        assert(refs_view(no@) + spec_no_refs(rv, m as nat) =~= spec_no_refs(rv, m as nat));
    }
    while i < resolved.len()
        invariant
            rv == refs_view(resolved@),
            i <= resolved@.len(),
            spec_yes_refs(rv, m as nat) == refs_view(yes@) + spec_yes_refs(
                rv.skip(i as int),
                mm as nat,
            ),
            spec_no_refs(rv, m as nat) == refs_view(no@) + spec_no_refs(
                rv.skip(i as int),
                mm as nat,
            ),
        decreases resolved@.len() - i,
    {
        let ghost yes0 = yes@;
        let ghost no0 = no@;
        proof {
            assert(rv.skip(i as int).drop_first() =~= rv.skip(i + 1));
            assert(rv.skip(i as int)[0] == rv[i as int]);
        }
        if mm % 2 == 1 {
            yes.push(resolved[i].clone());
            proof {
                assert(refs_view(yes@) =~= refs_view(yes0).push(rv[i as int]));
                assert(refs_view(yes0) + spec_yes_refs(rv.skip(i as int), mm as nat)
                    =~= refs_view(yes@) + spec_yes_refs(rv.skip(i + 1), (mm / 2) as nat));
            }
        } else {
            no.push(resolved[i].clone());
            proof {
                assert(refs_view(no@) =~= refs_view(no0).push(rv[i as int]));
                assert(refs_view(no0) + spec_no_refs(rv.skip(i as int), mm as nat)
                    =~= refs_view(no@) + spec_no_refs(rv.skip(i + 1), (mm / 2) as nat));
            }
        }
        mm = mm / 2;
        i = i + 1;
    }
    proof {
        assert(rv.skip(resolved@.len() as int) =~= Seq::<RefView>::empty());
        assert(refs_view(yes@) + Seq::<RefView>::empty() =~= refs_view(yes@));
        assert(refs_view(no@) + Seq::<RefView>::empty() =~= refs_view(no@));
    }
    (yes, no)
}

/// Rewrites a disjunction over the resolved branches `resolved` into an
/// exclusive union over one "yes/no" node per non-empty subset of the
/// branches, spawning those nodes — and, for multi-member subsets, their
/// conjunction nodes — as new work.
pub fn expand_any_of(metadata: SchemaletMetadata, resolved: Vec<SchemaRef>) -> (out: State)
    requires
        resolved@.len() < usize::BITS,
    ensures
        out@ == spec_expand_any_of(metadata@, refs_view(resolved@)),
{
    let ghost rv = refs_view(resolved@);
    let len = resolved.len();
    proof {
        lemma_usize_pow2_no_overflow(len as nat);
        lemma2_to64();
    }
    // count == 2^len - 1, computed by repeated doubling.
    let mut count: usize = 1;
    let mut k: usize = 0;
    while k < len
        invariant
            len < usize::BITS,
            k <= len,
            count == pow2(k as nat),
            count <= usize::MAX,
        decreases len - k,
    {
        proof {
            lemma_usize_pow2_no_overflow((k + 1) as nat);
            lemma_pow2_unfold((k + 1) as nat);
        }
        count = count * 2;
        k = k + 1;
    }
    proof {
        lemma2_to64();
    }
    let count: usize = count - 1;

    let mut branches: Vec<SchemaRef> = Vec::new();
    let mut work: Vec<(SchemaRef, Schemalet)> = Vec::new();
    let mut m: usize = 1;
    while m <= count
        invariant
            rv == refs_view(resolved@),
            resolved@.len() < usize::BITS,
            count == (pow2(resolved@.len() as nat) - 1) as nat,
            count < usize::MAX,
            1 <= m <= count + 1,
            refs_view(branches@) == spec_expand_branches(rv, (m - 1) as nat),
            work_view(work@) == spec_expand_work(rv, (m - 1) as nat),
        decreases count - m + 1,
    {
        let (yes, no) = split_by_bitmap(&resolved, m);
        let ghost branches0 = branches@;
        let ghost work0 = work@;
        let yes_id: SchemaRef = if yes.len() == 1 {
            yes[0].clone()
        } else {
            let merge_members = clone_refs(&yes);
            let merge_ref = SchemaRef::Merge(merge_members);
            let merge_node = Schemalet::from_details(SchemaletDetails::AllOf(clone_refs(&yes)));
            work.push((merge_ref, merge_node));
            SchemaRef::Merge(clone_refs(&yes))
        };
        let yesno_ref = SchemaRef::YesNo { yes: Box::new(yes_id.clone()), no: clone_refs(&no) };
        let yesno_node = Schemalet::from_details(
            SchemaletDetails::YesNo { yes: yes_id, no },
        );
        work.push((yesno_ref.clone(), yesno_node));
        branches.push(yesno_ref);
        proof {
            assert(ref_view(branches@.last()) == spec_yesno_id(rv, m as nat));
            assert(refs_view(branches@) =~= refs_view(branches0).push(spec_yesno_id(rv, m as nat)));
            assert(work_view(work@) =~= work_view(work0) + spec_bitmap_work(rv, m as nat));
        }
        m = m + 1;
    }
    State::Simplified(
        Schemalet::new(SchemaletDetails::ExclusiveOneOf(branches), metadata),
        work,
    )
}

} // verus!
