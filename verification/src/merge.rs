//! The conjunction of two canonical shapes.

use vstd::prelude::*;

use crate::clone_eq::{clone_opt_ref, clone_props, props_has_name};
use crate::schemalet::{
    lemma_props_view, props_view, spec_get_type, spec_has_name, CanonicalDetailsView,
    CanonicalSchemaletDetails, ObjectView, SchemaletValue, SchemaletValueObject, ValueView,
};

verus! {

broadcast use lemma_props_view;

/// A conjunction the merge algebra has no rule for.
#[derive(Debug)]
pub struct MergeConflict;

/// The conjunction of two object constraints. A key declared by both
/// sides would call for a recursive merge of the two property schemas;
/// the algebra has no rule for that and reports the conjunction as
/// unsupported, as it does when both sides constrain their remaining
/// properties. A key declared by one side carries over unchanged, and a
/// one-sided constraint on remaining properties carries over likewise.
pub open spec fn spec_merge_objects(x: ObjectView, y: ObjectView) -> Option<CanonicalDetailsView> {
    if exists|j: int| 0 <= j < y.properties.len() && spec_has_name(
        x.properties,
        #[trigger] y.properties[j].name,
    ) {
        None
    } else if x.additional_properties is Some && y.additional_properties is Some {
        None
    } else {
        Some(
            CanonicalDetailsView::Value(
                ValueView::Object(
                    ObjectView {
                        properties: x.properties + y.properties,
                        additional_properties: if x.additional_properties is Some {
                            x.additional_properties
                        } else {
                            y.additional_properties
                        },
                    },
                ),
            ),
        )
    }
}

/// The conjunction of two canonical shapes, where the algebra has a rule
/// for it. Two shapes of known, different type tags admit no common
/// value and meet to the empty constraint; the universal constraint is
/// the identity; the empty constraint absorbs; two boolean constraints
/// meet to the boolean constraint; two object constraints merge by key
/// union. Every other pairing is unsupported.
pub open spec fn spec_merge_two(
    a: CanonicalDetailsView,
    b: CanonicalDetailsView,
) -> Option<CanonicalDetailsView> {
    let ta = spec_get_type(a);
    let tb = spec_get_type(b);
    if ta is Some && tb is Some && ta != tb {
        Some(CanonicalDetailsView::Nothing)
    } else {
        match (a, b) {
            (CanonicalDetailsView::Anything, other) => Some(other),
            (other, CanonicalDetailsView::Anything) => Some(other),
            (CanonicalDetailsView::Nothing, _) => Some(CanonicalDetailsView::Nothing),
            (_, CanonicalDetailsView::Nothing) => Some(CanonicalDetailsView::Nothing),
            (
                CanonicalDetailsView::Value(ValueView::Boolean),
                CanonicalDetailsView::Value(ValueView::Boolean),
            ) => Some(CanonicalDetailsView::Value(ValueView::Boolean)),
            (
                CanonicalDetailsView::Value(ValueView::Object(x)),
                CanonicalDetailsView::Value(ValueView::Object(y)),
            ) => spec_merge_objects(x, y),
            _ => None,
        }
    }
}

/// The conjunction of a list of canonical shapes: the fold of
/// [`spec_merge_two`] seeded with the universal constraint. On the first
/// unsupported pairing the fold stops and reports that position.
pub open spec fn spec_fold_merge(items: Seq<CanonicalDetailsView>) -> Result<
    CanonicalDetailsView,
    int,
>
    decreases items.len(),
{
    if items.len() == 0 {
        Ok(CanonicalDetailsView::Anything)
    } else {
        match spec_fold_merge(items.drop_last()) {
            Ok(acc) => match spec_merge_two(acc, items.last()) {
                Some(d) => Ok(d),
                None => Err(items.len() - 1),
            },
            Err(j) => Err(j),
        }
    }
}

/// Folding shapes that are not exclusive unions never produces one: the
/// algebra's rules output the empty constraint, a boolean or object
/// constraint, or one of the operands.
pub proof fn lemma_fold_merge_not_union(items: Seq<CanonicalDetailsView>)
    requires
        forall|i: int| 0 <= i < items.len() ==> !(#[trigger] items[i] is ExclusiveOneOf),
    ensures
        spec_fold_merge(items) matches Ok(x) ==> !(x is ExclusiveOneOf),
    decreases items.len(),
{
    if items.len() > 0 {
        assert forall|i: int| 0 <= i < items.drop_last().len() implies !(
        #[trigger] items.drop_last()[i] is ExclusiveOneOf) by {
            assert(items.drop_last()[i] == items[i]);
        }
        lemma_fold_merge_not_union(items.drop_last());
        assert(!(items[items.len() - 1] is ExclusiveOneOf));
    }
}

/// Merges two object constraints, or reports the conjunction as
/// unsupported.
pub fn merge_two_objects(a: &SchemaletValueObject, b: &SchemaletValueObject) -> (out: Result<
    CanonicalSchemaletDetails,
    MergeConflict,
>)
    ensures
        match out {
            Ok(d) => spec_merge_objects(a@, b@) == Some(d@),
            Err(_) => spec_merge_objects(a@, b@) is None,
        },
{
    let mut j: usize = 0;
    while j < b.properties.len()
        invariant
            j <= b.properties@.len(),
            forall|k: int|
                0 <= k < j ==> !spec_has_name(
                    props_view(a.properties@),
                    #[trigger] props_view(b.properties@)[k].name,
                ),
        decreases b.properties@.len() - j,
    {
        if props_has_name(&a.properties, &b.properties[j].name) {
            proof {
                assert(props_view(b.properties@)[j as int].name == b.properties@[j as int].name@);
                assert(spec_has_name(
                    props_view(a.properties@),
                    props_view(b.properties@)[j as int].name,
                ));
            }
            return Err(MergeConflict);
        }
        j = j + 1;
    }
    if a.additional_properties.is_some() && b.additional_properties.is_some() {
        return Err(MergeConflict);
    }
    let mut properties = clone_props(&a.properties);
    let mut i: usize = 0;
    while i < b.properties.len()
        invariant
            i <= b.properties@.len(),
            properties@.len() == a.properties@.len() + i,
            props_view(properties@) == props_view(a.properties@) + props_view(
                b.properties@.take(i as int),
            ),
        decreases b.properties@.len() - i,
    {
        let ghost before = properties@;
        properties.push(b.properties[i].clone());
        proof {
            assert(props_view(properties@) =~= props_view(before) + seq![
                props_view(b.properties@)[i as int],
            ]);
            assert(props_view(a.properties@) + props_view(b.properties@.take(i + 1))
                =~= props_view(a.properties@) + props_view(b.properties@.take(i as int)) + seq![
                props_view(b.properties@)[i as int],
            ]);
        }
        i = i + 1;
    }
    proof {
        assert(b.properties@.take(b.properties@.len() as int) =~= b.properties@);
    }
    let additional_properties = if a.additional_properties.is_some() {
        clone_opt_ref(&a.additional_properties)
    } else {
        clone_opt_ref(&b.additional_properties)
    };
    Ok(
        CanonicalSchemaletDetails::Value(
            SchemaletValue::Object(SchemaletValueObject { properties, additional_properties }),
        ),
    )
}

/// Merges two canonical shapes, or reports the conjunction as
/// unsupported.
pub fn merge_two(a: &CanonicalSchemaletDetails, b: &CanonicalSchemaletDetails) -> (out: Result<
    CanonicalSchemaletDetails,
    MergeConflict,
>)
    ensures
        match out {
            Ok(d) => spec_merge_two(a@, b@) == Some(d@),
            Err(_) => spec_merge_two(a@, b@) is None,
        },
{
    match (a.get_type(), b.get_type()) {
        (Some(ta), Some(tb)) => {
            if ta != tb {
                return Ok(CanonicalSchemaletDetails::Nothing);
            }
        },
        _ => {},
    }
    match (a, b) {
        (CanonicalSchemaletDetails::Anything, other) => Ok(other.clone()),
        (other, CanonicalSchemaletDetails::Anything) => Ok(other.clone()),
        (CanonicalSchemaletDetails::Nothing, _) => Ok(CanonicalSchemaletDetails::Nothing),
        (_, CanonicalSchemaletDetails::Nothing) => Ok(CanonicalSchemaletDetails::Nothing),
        (
            CanonicalSchemaletDetails::Value(SchemaletValue::Boolean),
            CanonicalSchemaletDetails::Value(SchemaletValue::Boolean),
        ) => Ok(CanonicalSchemaletDetails::Value(SchemaletValue::Boolean)),
        (
            CanonicalSchemaletDetails::Value(SchemaletValue::Object(x)),
            CanonicalSchemaletDetails::Value(SchemaletValue::Object(y)),
        ) => merge_two_objects(x, y),
        _ => Err(MergeConflict),
    }
}

} // verus!
