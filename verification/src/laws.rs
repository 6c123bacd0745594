//! Laws of the simplification engine, stated over its mathematical model
//! and proved once and for all.

use vstd::arithmetic::power2::{lemma_pow2_pos, pow2};
use vstd::prelude::*;

use crate::expand::{lemma_expand_branches_len, spec_expand_any_of, spec_no_refs, spec_yes_refs};
use crate::merge::{spec_fold_merge, spec_merge_objects, spec_merge_two};
use crate::merge_all::{spec_concrete_refs, spec_details_of, spec_xor_lists};
use crate::resolve::{
    lemma_resolve_all_found, lemma_resolve_found, spec_resolve, spec_resolve_all,
    spec_trivially_incompatible, ResolutionAllView, ResolutionView,
};
use crate::schemalet::{
    spec_has_name, CanonicalDetailsView, CanonicalView, DetailsView, MetadataView, ObjectView,
    RefView, SchemaletType, SchemaletView, StateView, ValueView,
};
use crate::schemalet::{canonical_node_wf, spec_uniform_type};
use crate::simplify::{lemma_kept_not_nothing, spec_finish_eoo, spec_kept, spec_simplify};

verus! {

/// The universal constraint is the identity of the merge algebra, and
/// the empty constraint absorbs: for every canonical shape `x`,
/// merging `x` with the universal constraint gives `x`, in either order,
/// and merging `x` with the empty constraint gives the empty constraint,
/// in either order.
pub proof fn lemma_merge_identity(x: CanonicalDetailsView)
    ensures
        spec_merge_two(CanonicalDetailsView::Anything, x) == Some(x),
        spec_merge_two(x, CanonicalDetailsView::Anything) == Some(x),
        spec_merge_two(CanonicalDetailsView::Nothing, x) == Some(CanonicalDetailsView::Nothing),
        spec_merge_two(x, CanonicalDetailsView::Nothing) == Some(CanonicalDetailsView::Nothing),
{
}

/// Two nodes that resolve to value constraints of different type tags are
/// trivially incompatible, and a conjunction of exactly those two nodes
/// finishes as the empty constraint.
pub proof fn lemma_type_disjoint(
    meta: MetadataView,
    done: Map<RefView, CanonicalView>,
    a: RefView,
    b: RefView,
    fuel: nat,
)
    requires
        spec_resolve(done, a, fuel) is Found,
        spec_resolve(done, b, fuel) is Found,
        done[spec_resolve(done, a, fuel)->Found_0].details matches CanonicalDetailsView::Value(va),
        done[spec_resolve(done, b, fuel)->Found_0].details matches CanonicalDetailsView::Value(vb),
        crate::schemalet::spec_value_type(
            done[spec_resolve(done, a, fuel)->Found_0].details->Value_0,
        ) != crate::schemalet::spec_value_type(
            done[spec_resolve(done, b, fuel)->Found_0].details->Value_0,
        ),
    ensures
        spec_trivially_incompatible(done, a, b, fuel),
        spec_simplify(
            SchemaletView { metadata: meta, details: DetailsView::AllOf(seq![a, b]) },
            done,
            fuel,
        ) == Ok::<StateView, crate::errors::SimplifyErrorView>(
            StateView::Canonical(
                CanonicalView { metadata: meta, details: CanonicalDetailsView::Nothing },
            ),
        ),
{
    reveal(spec_simplify);
    reveal_with_fuel(spec_xor_lists, 3);
    reveal_with_fuel(spec_concrete_refs, 3);
    reveal_with_fuel(spec_fold_merge, 3);
    lemma_resolve_found(done, a, fuel);
    lemma_resolve_found(done, b, fuel);
    let ra = spec_resolve(done, a, fuel)->Found_0;
    let rb = spec_resolve(done, b, fuel)->Found_0;
    let refs = seq![a, b];
    let out = seq![ra, rb];
    assert forall|j: int|
        0 <= j < refs.len() implies spec_resolve(done, refs[j], fuel) == ResolutionView::Found(
        out[j],
    ) by {
        if j == 0 {
            assert(refs[j] == a);
        } else {
            assert(refs[j] == b);
        }
    }
    lemma_resolve_all_found(done, refs, fuel, out);

    // Neither member is an exclusive union, so the conjunction folds.
    assert(out.drop_last() =~= seq![ra]);
    assert(seq![ra].drop_last() =~= Seq::<RefView>::empty());
    assert(spec_xor_lists(done, out) =~= Seq::<Seq<RefView>>::empty());
    assert(spec_concrete_refs(done, out) =~= out);

    let items = spec_details_of(done, out);
    assert(items.len() == 2);
    assert(items[0] == done[ra].details);
    assert(items[1] == done[rb].details);
    assert(items.drop_last() =~= seq![items[0]]);
    assert(seq![items[0]].drop_last() =~= Seq::<CanonicalDetailsView>::empty());
    assert(spec_fold_merge(seq![items[0]]) == Ok::<CanonicalDetailsView, int>(items[0]));
    assert(spec_fold_merge(items) == Ok::<CanonicalDetailsView, int>(
        CanonicalDetailsView::Nothing,
    ));
}

/// Merging two object constraints with pairwise-distinct property names
/// keeps the names pairwise distinct: a key union never declares a key
/// twice, since a key both sides declare makes the merge unsupported.
pub proof fn lemma_merge_objects_keys_unique(x: ObjectView, y: ObjectView)
    requires
        x.keys_unique(),
        y.keys_unique(),
        spec_merge_objects(x, y) matches Some(CanonicalDetailsView::Value(ValueView::Object(_))),
    ensures
        spec_merge_objects(x, y)->0->Value_0->Object_0.keys_unique(),
{
    let o = spec_merge_objects(x, y)->0->Value_0->Object_0;
    let nx = x.properties.len() as int;
    assert forall|i: int, j: int|
        0 <= i < j < o.properties.len() implies o.properties[i].name
        != o.properties[j].name by {
        if i < nx && j >= nx {
            if o.properties[i].name == o.properties[j].name {
                assert(spec_has_name(x.properties, y.properties[j - nx].name));
            }
        }
    }
}

/// Whether the boolean assignment `bs` — which original branches a value
/// matches — selects exactly the subset named by bitmap `m`: every
/// selected branch matches and every other branch does not. An assignment
/// matches bitmap `0` exactly when it matches no branch at all.
pub open spec fn spec_subset_matches(m: nat, bs: Seq<bool>) -> bool
    decreases bs.len(),
{
    if bs.len() == 0 {
        m == 0
    } else {
        (if m % 2 == 1 {
            bs[0]
        } else {
            !bs[0]
        }) && spec_subset_matches(m / 2, bs.drop_first())
    }
}

/// Soundness of the disjunction expansion, on the level of which
/// branches a value matches: a value that matches at least one of the
/// original branches matches the branch set of exactly one non-empty
/// subset bitmap, and a value that matches no branch matches only the
/// empty bitmap. The union of the values accepted by the `2^n - 1`
/// subset nodes therefore equals the union of the values accepted by the
/// original branches, and the subsets are mutually exclusive.
pub proof fn lemma_expand_partition(bs: Seq<bool>)
    ensures
        exists|m: nat| spec_subset_matches(m, bs),
        forall|m1: nat, m2: nat|
            spec_subset_matches(m1, bs) && spec_subset_matches(m2, bs) ==> m1 == m2,
        forall|m: nat|
            spec_subset_matches(m, bs) ==> ((m != 0) <==> (exists|i: int|
                0 <= i < bs.len() && bs[i])),
    decreases bs.len(),
{
    if bs.len() == 0 {
        assert(spec_subset_matches(0, bs));
    } else {
        let tail = bs.drop_first();
        lemma_expand_partition(tail);

        // Existence: extend the tail's unique bitmap with the first bit.
        let mt = choose|m: nat| spec_subset_matches(m, tail);
        let m0: nat = if bs[0] {
            mt * 2 + 1
        } else {
            mt * 2
        };
        assert(m0 / 2 == mt);
        assert(spec_subset_matches(m0, bs));

        // Uniqueness: both bits and both tails agree.
        assert forall|m1: nat, m2: nat|
            spec_subset_matches(m1, bs) && spec_subset_matches(m2, bs) implies m1 == m2 by {
            assert(spec_subset_matches(m1 / 2, tail));
            assert(spec_subset_matches(m2 / 2, tail));
            assert(m1 / 2 == m2 / 2);
            assert(m1 % 2 == m2 % 2);
        }

        // A non-zero bitmap selects some branch, and the other way round.
        assert forall|m: nat| spec_subset_matches(m, bs) implies ((m != 0) <==> (exists|i: int|
            0 <= i < bs.len() && bs[i])) by {
            if m % 2 == 1 {
                assert(bs[0]);
            } else {
                if m != 0 {
                    assert(m / 2 != 0);
                    let i = choose|i: int| 0 <= i < tail.len() && tail[i];
                    assert(bs[i + 1]);
                } else {
                    if exists|i: int| 0 <= i < bs.len() && bs[i] {
                        let i = choose|i: int| 0 <= i < bs.len() && bs[i];
                        assert(i > 0);
                        assert(tail[i - 1]);
                        assert(exists|j: int| 0 <= j < tail.len() && tail[j]);
                        assert(m / 2 != 0);
                    }
                }
            }
        }
    }
}

/// Expanding a disjunction of `n` branches spawns one subset node per
/// non-empty subset of the branches: the replacement exclusive union has
/// exactly `2^n - 1` branches. Every branch of the original lands in the
/// "yes" or the "no" side of each subset, never both.
pub proof fn lemma_expand_count(meta: MetadataView, rs: Seq<RefView>)
    ensures
        spec_expand_any_of(meta, rs) matches StateView::Simplified(n, _work)
            && n.details matches DetailsView::ExclusiveOneOf(branches) && branches.len() == pow2(
            rs.len(),
        ) - 1 && (forall|m: int|
            0 <= m < branches.len() ==> #[trigger] branches[m]
                == crate::expand::spec_yesno_id(rs, (m + 1) as nat)),
        forall|m: nat|
            #![trigger spec_yes_refs(rs, m)]
            spec_yes_refs(rs, m).len() + spec_no_refs(rs, m).len() == rs.len(),
{
    lemma_pow2_pos(rs.len());
    lemma_expand_branches_len(rs, (pow2(rs.len()) - 1) as nat);
    assert forall|m: nat|
        #![trigger spec_yes_refs(rs, m)]
        spec_yes_refs(rs, m).len() + spec_no_refs(rs, m).len() == rs.len() by {
        lemma_split_lens(rs, m);
    }
}

/// Each branch lands in exactly one side of a subset split.
proof fn lemma_split_lens(rs: Seq<RefView>, m: nat)
    ensures
        spec_yes_refs(rs, m).len() + spec_no_refs(rs, m).len() == rs.len(),
    decreases rs.len(),
{
    if rs.len() > 0 {
        lemma_split_lens(rs.drop_first(), m / 2);
    }
}

/// How a finished exclusive union collapses: branches resolving to the
/// empty constraint are dropped; with no branch left the union is the
/// empty constraint, with one it is an alias for that branch, and with
/// two or more it stays an exclusive union whose type tag is cached
/// exactly when all remaining branches share one known tag.
pub proof fn lemma_eoo_collapse(
    meta: MetadataView,
    rs: Seq<RefView>,
    done: Map<RefView, CanonicalView>,
    t: SchemaletType,
)
    ensures
        spec_kept(done, rs).len() == 0 ==> spec_finish_eoo(meta, rs, done) == (CanonicalView {
            metadata: meta,
            details: CanonicalDetailsView::Nothing,
        }),
        spec_kept(done, rs).len() == 1 ==> spec_finish_eoo(meta, rs, done) == (CanonicalView {
            metadata: meta,
            details: CanonicalDetailsView::Reference(spec_kept(done, rs)[0]),
        }),
        spec_kept(done, rs).len() >= 2 ==> spec_finish_eoo(meta, rs, done) == (CanonicalView {
            metadata: meta,
            details: CanonicalDetailsView::ExclusiveOneOf {
                typ: spec_uniform_type(done, spec_kept(done, rs)),
                subschemas: spec_kept(done, rs),
            },
        }),
        spec_kept(done, rs).len() >= 1 ==> ((spec_uniform_type(done, spec_kept(done, rs))
            == Some(t)) <==> (forall|i: int|
            0 <= i < spec_kept(done, rs).len() ==> crate::schemalet::spec_get_type(
                done[#[trigger] spec_kept(done, rs)[i]].details,
            ) == Some(t))),
        forall|i: int|
            0 <= i < spec_kept(done, rs).len() ==> !(done[#[trigger] spec_kept(done, rs)[i]].details
                is Nothing),
{
    let kept = spec_kept(done, rs);
    if kept.len() >= 1 {
        if spec_uniform_type(done, kept) == Some(t) {
            assert(crate::schemalet::spec_get_type(done[kept[0]].details) is Some);
        }
        if forall|i: int|
            0 <= i < kept.len() ==> crate::schemalet::spec_get_type(
                done[#[trigger] kept[i]].details,
            ) == Some(t) {
            assert(crate::schemalet::spec_get_type(done[kept[0]].details) == Some(t));
            assert(spec_uniform_type(done, kept) == Some(t));
        }
    }
    lemma_kept_not_nothing(done, rs);
}

/// The raw node that carries a finished node's content back into the
/// simplifier: aliases become resolved references and an exclusive union
/// becomes the union combinator over the same branches.
pub open spec fn raw_of(c: CanonicalView) -> SchemaletView {
    SchemaletView {
        metadata: c.metadata,
        details: match c.details {
            CanonicalDetailsView::Anything => DetailsView::Anything,
            CanonicalDetailsView::Nothing => DetailsView::Nothing,
            CanonicalDetailsView::Constant(v) => DetailsView::Constant(v),
            CanonicalDetailsView::Reference(r) => DetailsView::ResolvedRef(r),
            CanonicalDetailsView::ExclusiveOneOf { subschemas, .. } => DetailsView::ExclusiveOneOf(
                subschemas,
            ),
            CanonicalDetailsView::Value(v) => DetailsView::Value(v),
        },
    }
}

/// Idempotence: feeding a finished node's content back through one
/// simplification step yields the same finished node again, whenever the
/// node upholds the engine's invariants against the finished graph.
pub proof fn lemma_simplify_idempotent(
    c: CanonicalView,
    done: Map<RefView, CanonicalView>,
    fuel: nat,
)
    requires
        canonical_node_wf(c, done),
    ensures
        spec_simplify(raw_of(c), done, fuel) == Ok::<StateView, crate::errors::SimplifyErrorView>(
            StateView::Canonical(c),
        ),
{
    reveal(spec_simplify);
    match c.details {
        CanonicalDetailsView::ExclusiveOneOf { typ, subschemas } => {
            assert forall|j: int|
                0 <= j < subschemas.len() implies spec_resolve(done, subschemas[j], fuel)
                == ResolutionView::Found(subschemas[j]) by {
                assert(done.dom().contains(subschemas[j]));
            }
            lemma_resolve_all_found(done, subschemas, fuel, subschemas);
            lemma_kept_all(done, subschemas);
            assert(spec_kept(done, subschemas) == subschemas);
            assert(spec_finish_eoo(c.metadata, subschemas, done) == c);
        },
        _ => {},
    }
}

/// A branch list without empty-constraint branches is kept whole.
proof fn lemma_kept_all(done: Map<RefView, CanonicalView>, rs: Seq<RefView>)
    requires
        forall|i: int| 0 <= i < rs.len() ==> !(done[#[trigger] rs[i]].details is Nothing),
    ensures
        spec_kept(done, rs) == rs,
    decreases rs.len(),
{
    if rs.len() == 0 {
        assert(spec_kept(done, rs) =~= rs);
    } else {
        assert forall|i: int|
            0 <= i < rs.drop_last().len() implies !(done[#[trigger] rs.drop_last()[i]].details
            is Nothing) by {
            assert(rs.drop_last()[i] == rs[i]);
        }
        lemma_kept_all(done, rs.drop_last());
        assert(spec_kept(done, rs) =~= rs);
    }
}

} // verus!
