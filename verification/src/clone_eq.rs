//! Cloning and deep equality for the node types, specified against their
//! mathematical models.

use vstd::prelude::*;

use crate::schemalet::{
    const_view, consts_view, entries_view, lemma_consts_view, lemma_entries_view,
    lemma_props_view, lemma_refs_view, props_view, ref_view, refs_view, spec_has_name,
    CanonicalSchemalet, CanonicalSchemaletDetails, ConstEntryView, ConstantEntry, ConstantValue,
    ObjectProperty, PropertyView, SchemaRef, Schemalet, SchemaletDetails, SchemaletMetadata,
    SchemaletValue, SchemaletValueObject,
};

verus! {

broadcast use lemma_refs_view, lemma_consts_view, lemma_entries_view, lemma_props_view;

/// Clones a list of node identities.
pub fn clone_refs(refs: &Vec<SchemaRef>) -> (out: Vec<SchemaRef>)
    ensures
        refs_view(out@) == refs_view(refs@),
        out@.len() == refs@.len(),
    decreases refs@,
{
    let mut out: Vec<SchemaRef> = Vec::new();
    let mut i: usize = 0;
    while i < refs.len()
        invariant
            i <= refs@.len(),
            out@.len() == i,
            forall|j: int| 0 <= j < i ==> ref_view(out@[j]) == ref_view(refs@[j]),
        decreases refs@.len() - i,
    {
        out.push(refs[i].clone());
        i = i + 1;
    }
    proof {
        assert(refs_view(out@) =~= refs_view(refs@));
    }
    out
}

impl Clone for SchemaRef {
    /// Clones the identity; the copy has the same model.
    fn clone(&self) -> (out: Self)
        ensures
            out@ == self@,
        decreases *self,
    {
        match self {
            SchemaRef::Id(id) => SchemaRef::Id(id.clone()),
            SchemaRef::Partial(id, part) => SchemaRef::Partial(id.clone(), part.clone()),
            SchemaRef::Merge(refs) => SchemaRef::Merge(clone_refs(refs)),
            SchemaRef::YesNo { yes, no } => SchemaRef::YesNo {
                yes: Box::new((**yes).clone()),
                no: clone_refs(no),
            },
        }
    }
}

/// Whether two identities have the same model.
pub fn ref_eq(a: &SchemaRef, b: &SchemaRef) -> (out: bool)
    ensures
        out == (a@ == b@),
    decreases *a,
{
    match (a, b) {
        (SchemaRef::Id(x), SchemaRef::Id(y)) => *x == *y,
        (SchemaRef::Partial(x1, x2), SchemaRef::Partial(y1, y2)) => *x1 == *y1 && *x2 == *y2,
        (SchemaRef::Merge(xs), SchemaRef::Merge(ys)) => refs_eq(xs, ys),
        (SchemaRef::YesNo { yes: xy, no: xn }, SchemaRef::YesNo { yes: yy, no: yn }) => {
            ref_eq(xy, yy) && refs_eq(xn, yn)
        },
        _ => false,
    }
}

/// Clones an optional identity.
pub fn clone_opt_ref(r: &Option<SchemaRef>) -> (out: Option<SchemaRef>)
    ensures
        out is Some <==> r is Some,
        r is Some ==> ref_view(out->0) == ref_view(r->0),
{
    match r {
        Some(inner) => Some(inner.clone()),
        None => None,
    }
}

/// Clones an optional string.
pub fn clone_opt_string(s: &Option<String>) -> (out: Option<String>)
    ensures
        out.deep_view() == s.deep_view(),
{
    match s {
        Some(inner) => Some(inner.clone()),
        None => None,
    }
}

/// Whether two optional strings have the same characters.
pub fn opt_string_eq(a: &Option<String>, b: &Option<String>) -> (out: bool)
    ensures
        out == (a.deep_view() == b.deep_view()),
{
    match (a, b) {
        (None, None) => true,
        (Some(x), Some(y)) => *x == *y,
        _ => false,
    }
}

/// Whether two optional identities have the same model.
pub fn opt_ref_eq(a: &Option<SchemaRef>, b: &Option<SchemaRef>) -> (out: bool)
    ensures
        out == ((match a {
            Some(r) => Some(ref_view(*r)),
            None => None::<crate::schemalet::RefView>,
        }) == (match b {
            Some(r) => Some(ref_view(*r)),
            None => None::<crate::schemalet::RefView>,
        })),
{
    match (a, b) {
        (None, None) => true,
        (Some(x), Some(y)) => ref_eq(x, y),
        _ => false,
    }
}

/// Whether two lists of identities have the same model, element by element.
pub fn refs_eq(a: &Vec<SchemaRef>, b: &Vec<SchemaRef>) -> (out: bool)
    ensures
        out == (refs_view(a@) == refs_view(b@)),
    decreases a@,
{
    if a.len() != b.len() {
        return false;
    }
    let mut i: usize = 0;
    while i < a.len()
        invariant
            a@.len() == b@.len(),
            i <= a@.len(),
            forall|j: int| 0 <= j < i ==> ref_view(a@[j]) == ref_view(b@[j]),
        decreases a@.len() - i,
    {
        if !ref_eq(&a[i], &b[i]) {
            proof {
                assert(refs_view(a@)[i as int] != refs_view(b@)[i as int]);
            }
            return false;
        }
        i = i + 1;
    }
    proof {
        assert(refs_view(a@) =~= refs_view(b@));
    }
    true
}

/// Clones and concatenates two lists of identities.
pub fn concat_refs(a: &Vec<SchemaRef>, b: &Vec<SchemaRef>) -> (out: Vec<SchemaRef>)
    ensures
        refs_view(out@) == refs_view(a@) + refs_view(b@),
{
    let mut out = clone_refs(a);
    let mut i: usize = 0;
    proof {
        assert(refs_view(out@) + refs_view(b@.take(0)) =~= refs_view(out@));
    }
    while i < b.len()
        invariant
            i <= b@.len(),
            out@.len() == a@.len() + i,
            refs_view(out@) == refs_view(a@) + refs_view(b@.take(i as int)),
        decreases b@.len() - i,
    {
        let ghost out0 = out@;
        out.push(b[i].clone());
        proof {
            assert(refs_view(out@) =~= refs_view(out0).push(ref_view(b@[i as int])));
            assert(refs_view(b@.take(i + 1)) =~= refs_view(b@.take(i as int)).push(
                ref_view(b@[i as int]),
            ));
            assert(refs_view(out@) =~= refs_view(a@) + refs_view(b@.take(i + 1)));
        }
        i = i + 1;
    }
    proof {
        assert(b@.take(b@.len() as int) =~= b@);
    }
    out
}

impl Clone for ConstantValue {
    /// Clones the constant; the copy has the same model.
    fn clone(&self) -> (out: Self)
        ensures
            out@ == self@,
        decreases *self,
    {
        match self {
            ConstantValue::Null => ConstantValue::Null,
            ConstantValue::Bool(b) => ConstantValue::Bool(*b),
            ConstantValue::Int(i) => ConstantValue::Int(*i),
            ConstantValue::Text(s) => ConstantValue::Text(s.clone()),
            ConstantValue::Items(items) => ConstantValue::Items(clone_consts(items)),
            ConstantValue::Entries(entries) => ConstantValue::Entries(clone_entries(entries)),
        }
    }
}

impl Clone for ConstantEntry {
    /// Clones the entry; the copy has the same model.
    fn clone(&self) -> (out: Self)
        ensures
            out.key@ == self.key@,
            const_view(out.value) == const_view(self.value),
        decreases *self,
    {
        ConstantEntry { key: self.key.clone(), value: self.value.clone() }
    }
}

/// Clones a list of constants.
pub fn clone_consts(items: &Vec<ConstantValue>) -> (out: Vec<ConstantValue>)
    ensures
        consts_view(out@) == consts_view(items@),
    decreases items@,
{
    let mut out: Vec<ConstantValue> = Vec::new();
    let mut i: usize = 0;
    while i < items.len()
        invariant
            i <= items@.len(),
            out@.len() == i,
            forall|j: int| 0 <= j < i ==> const_view(out@[j]) == const_view(items@[j]),
        decreases items@.len() - i,
    {
        out.push(items[i].clone());
        i = i + 1;
    }
    proof {
        assert(consts_view(out@) =~= consts_view(items@));
    }
    out
}

/// Clones a list of constant entries.
pub fn clone_entries(entries: &Vec<ConstantEntry>) -> (out: Vec<ConstantEntry>)
    ensures
        entries_view(out@) == entries_view(entries@),
    decreases entries@,
{
    let mut out: Vec<ConstantEntry> = Vec::new();
    let mut i: usize = 0;
    while i < entries.len()
        invariant
            i <= entries@.len(),
            out@.len() == i,
            forall|j: int|
                0 <= j < i ==> out@[j].key@ == entries@[j].key@ && const_view(out@[j].value)
                    == const_view(entries@[j].value),
        decreases entries@.len() - i,
    {
        out.push(entries[i].clone());
        i = i + 1;
    }
    proof {
        assert(entries_view(out@) =~= entries_view(entries@));
    }
    out
}

/// Whether two constants have the same model.
pub fn const_eq(a: &ConstantValue, b: &ConstantValue) -> (out: bool)
    ensures
        out == (a@ == b@),
    decreases *a,
{
    match (a, b) {
        (ConstantValue::Null, ConstantValue::Null) => true,
        (ConstantValue::Bool(x), ConstantValue::Bool(y)) => *x == *y,
        (ConstantValue::Int(x), ConstantValue::Int(y)) => *x == *y,
        (ConstantValue::Text(x), ConstantValue::Text(y)) => *x == *y,
        (ConstantValue::Items(xs), ConstantValue::Items(ys)) => consts_eq(xs, ys),
        (ConstantValue::Entries(xs), ConstantValue::Entries(ys)) => entries_eq(xs, ys),
        _ => false,
    }
}

/// Whether two lists of constants have the same model, element by element.
pub fn consts_eq(a: &Vec<ConstantValue>, b: &Vec<ConstantValue>) -> (out: bool)
    ensures
        out == (consts_view(a@) == consts_view(b@)),
    decreases a@,
{
    if a.len() != b.len() {
        return false;
    }
    let mut i: usize = 0;
    while i < a.len()
        invariant
            a@.len() == b@.len(),
            i <= a@.len(),
            forall|j: int| 0 <= j < i ==> const_view(a@[j]) == const_view(b@[j]),
        decreases a@.len() - i,
    {
        if !const_eq(&a[i], &b[i]) {
            proof {
                assert(consts_view(a@)[i as int] != consts_view(b@)[i as int]);
            }
            return false;
        }
        i = i + 1;
    }
    proof {
        assert(consts_view(a@) =~= consts_view(b@));
    }
    true
}

/// Whether two lists of constant entries have the same model.
pub fn entries_eq(a: &Vec<ConstantEntry>, b: &Vec<ConstantEntry>) -> (out: bool)
    ensures
        out == (entries_view(a@) == entries_view(b@)),
    decreases a@,
{
    if a.len() != b.len() {
        return false;
    }
    let mut i: usize = 0;
    while i < a.len()
        invariant
            a@.len() == b@.len(),
            i <= a@.len(),
            forall|j: int|
                0 <= j < i ==> a@[j].key@ == b@[j].key@ && const_view(a@[j].value) == const_view(
                    b@[j].value,
                ),
        decreases a@.len() - i,
    {
        if !(a[i].key == b[i].key && const_eq(&a[i].value, &b[i].value)) {
            proof {
                assert(entries_view(a@)[i as int] == (ConstEntryView {
                    key: a@[i as int].key@,
                    value: const_view(a@[i as int].value),
                }));
                assert(entries_view(a@)[i as int] != entries_view(b@)[i as int]);
            }
            return false;
        }
        i = i + 1;
    }
    proof {
        assert(entries_view(a@) =~= entries_view(b@));
    }
    true
}

impl Clone for SchemaletMetadata {
    /// Clones the metadata; the copy has the same model.
    fn clone(&self) -> (out: Self)
        ensures
            out@ == self@,
    {
        SchemaletMetadata {
            title: clone_opt_string(&self.title),
            description: clone_opt_string(&self.description),
            examples: clone_consts(&self.examples),
        }
    }
}

/// Whether two metadata records have the same model.
pub fn metadata_eq(a: &SchemaletMetadata, b: &SchemaletMetadata) -> (out: bool)
    ensures
        out == (a@ == b@),
{
    opt_string_eq(&a.title, &b.title) && opt_string_eq(&a.description, &b.description)
        && consts_eq(&a.examples, &b.examples)
}

impl Clone for ObjectProperty {
    /// Clones the property; the copy has the same model.
    fn clone(&self) -> (out: Self)
        ensures
            out.name@ == self.name@,
            ref_view(out.schema) == ref_view(self.schema),
    {
        ObjectProperty { name: self.name.clone(), schema: self.schema.clone() }
    }
}

/// Clones a property list.
pub fn clone_props(props: &Vec<ObjectProperty>) -> (out: Vec<ObjectProperty>)
    ensures
        props_view(out@) == props_view(props@),
{
    let mut out: Vec<ObjectProperty> = Vec::new();
    let mut i: usize = 0;
    while i < props.len()
        invariant
            i <= props@.len(),
            out@.len() == i,
            forall|j: int|
                0 <= j < i ==> out@[j].name@ == props@[j].name@ && ref_view(out@[j].schema)
                    == ref_view(props@[j].schema),
        decreases props@.len() - i,
    {
        out.push(props[i].clone());
        i = i + 1;
    }
    proof {
        assert(props_view(out@) =~= props_view(props@));
    }
    out
}

/// Whether some property of `props` is named `name`.
pub fn props_has_name(props: &Vec<ObjectProperty>, name: &String) -> (out: bool)
    ensures
        out == spec_has_name(props_view(props@), name@),
{
    let mut i: usize = 0;
    while i < props.len()
        invariant
            i <= props@.len(),
            forall|j: int| 0 <= j < i ==> props_view(props@)[j].name != name@,
        decreases props@.len() - i,
    {
        if props[i].name == *name {
            proof {
                assert(props_view(props@)[i as int].name == name@);
            }
            return true;
        }
        i = i + 1;
    }
    false
}

/// Whether two property lists have the same model, element by element.
pub fn props_eq(a: &Vec<ObjectProperty>, b: &Vec<ObjectProperty>) -> (out: bool)
    ensures
        out == (props_view(a@) == props_view(b@)),
{
    if a.len() != b.len() {
        return false;
    }
    let mut i: usize = 0;
    while i < a.len()
        invariant
            a@.len() == b@.len(),
            i <= a@.len(),
            forall|j: int|
                0 <= j < i ==> a@[j].name@ == b@[j].name@ && ref_view(a@[j].schema) == ref_view(
                    b@[j].schema,
                ),
        decreases a@.len() - i,
    {
        if !(a[i].name == b[i].name && ref_eq(&a[i].schema, &b[i].schema)) {
            proof {
                assert(props_view(a@)[i as int] == (PropertyView {
                    name: a@[i as int].name@,
                    schema: ref_view(a@[i as int].schema),
                }));
                assert(props_view(a@)[i as int] != props_view(b@)[i as int]);
            }
            return false;
        }
        i = i + 1;
    }
    proof {
        assert(props_view(a@) =~= props_view(b@));
    }
    true
}

impl Clone for SchemaletValueObject {
    /// Clones the object constraint; the copy has the same model.
    fn clone(&self) -> (out: Self)
        ensures
            out@ == self@,
    {
        SchemaletValueObject {
            properties: clone_props(&self.properties),
            additional_properties: clone_opt_ref(&self.additional_properties),
        }
    }
}

/// Whether two object constraints have the same model.
pub fn object_eq(a: &SchemaletValueObject, b: &SchemaletValueObject) -> (out: bool)
    ensures
        out == (a@ == b@),
{
    props_eq(&a.properties, &b.properties) && opt_ref_eq(
        &a.additional_properties,
        &b.additional_properties,
    )
}

impl Clone for SchemaletValue {
    /// Clones the value constraint; the copy has the same model.
    fn clone(&self) -> (out: Self)
        ensures
            out@ == self@,
    {
        match self {
            SchemaletValue::Boolean => SchemaletValue::Boolean,
            SchemaletValue::Array { items, min_items, unique_items } => SchemaletValue::Array {
                items: clone_opt_ref(items),
                min_items: *min_items,
                unique_items: *unique_items,
            },
            SchemaletValue::Object(o) => SchemaletValue::Object(o.clone()),
            SchemaletValue::String { pattern, format } => SchemaletValue::String {
                pattern: clone_opt_string(pattern),
                format: clone_opt_string(format),
            },
            SchemaletValue::Integer { minimum, exclusive_minimum } => SchemaletValue::Integer {
                minimum: *minimum,
                exclusive_minimum: *exclusive_minimum,
            },
            SchemaletValue::Number { minimum, exclusive_minimum } => SchemaletValue::Number {
                minimum: *minimum,
                exclusive_minimum: *exclusive_minimum,
            },
        }
    }
}

/// Whether two value constraints have the same model.
pub fn value_eq(a: &SchemaletValue, b: &SchemaletValue) -> (out: bool)
    ensures
        out == (a@ == b@),
{
    match (a, b) {
        (SchemaletValue::Boolean, SchemaletValue::Boolean) => true,
        (
            SchemaletValue::Array { items: xi, min_items: xm, unique_items: xu },
            SchemaletValue::Array { items: yi, min_items: ym, unique_items: yu },
        ) => opt_ref_eq(xi, yi) && *xm == *ym && *xu == *yu,
        (SchemaletValue::Object(x), SchemaletValue::Object(y)) => object_eq(x, y),
        (
            SchemaletValue::String { pattern: xp, format: xf },
            SchemaletValue::String { pattern: yp, format: yf },
        ) => opt_string_eq(xp, yp) && opt_string_eq(xf, yf),
        (
            SchemaletValue::Integer { minimum: xm, exclusive_minimum: xe },
            SchemaletValue::Integer { minimum: ym, exclusive_minimum: ye },
        ) => *xm == *ym && *xe == *ye,
        (
            SchemaletValue::Number { minimum: xm, exclusive_minimum: xe },
            SchemaletValue::Number { minimum: ym, exclusive_minimum: ye },
        ) => *xm == *ym && *xe == *ye,
        _ => false,
    }
}

impl Clone for SchemaletDetails {
    /// Clones the node shape; the copy has the same model.
    fn clone(&self) -> (out: Self)
        ensures
            out@ == self@,
    {
        match self {
            SchemaletDetails::Anything => SchemaletDetails::Anything,
            SchemaletDetails::Nothing => SchemaletDetails::Nothing,
            SchemaletDetails::AllOf(refs) => SchemaletDetails::AllOf(clone_refs(refs)),
            SchemaletDetails::AnyOf(refs) => SchemaletDetails::AnyOf(clone_refs(refs)),
            SchemaletDetails::RawRef(s) => SchemaletDetails::RawRef(s.clone()),
            SchemaletDetails::RawDynamicRef(s) => SchemaletDetails::RawDynamicRef(s.clone()),
            SchemaletDetails::Constant(c) => SchemaletDetails::Constant(c.clone()),
            SchemaletDetails::Value(v) => SchemaletDetails::Value(v.clone()),
            SchemaletDetails::ExclusiveOneOf(refs) => SchemaletDetails::ExclusiveOneOf(
                clone_refs(refs),
            ),
            SchemaletDetails::ResolvedRef(r) => SchemaletDetails::ResolvedRef(r.clone()),
            SchemaletDetails::ResolvedDynamicRef(r) => SchemaletDetails::ResolvedDynamicRef(
                r.clone(),
            ),
            SchemaletDetails::YesNo { yes, no } => SchemaletDetails::YesNo {
                yes: yes.clone(),
                no: clone_refs(no),
            },
        }
    }
}

/// Whether two node shapes have the same model.
pub fn details_eq(a: &SchemaletDetails, b: &SchemaletDetails) -> (out: bool)
    ensures
        out == (a@ == b@),
{
    match (a, b) {
        (SchemaletDetails::Anything, SchemaletDetails::Anything) => true,
        (SchemaletDetails::Nothing, SchemaletDetails::Nothing) => true,
        (SchemaletDetails::AllOf(xs), SchemaletDetails::AllOf(ys)) => refs_eq(xs, ys),
        (SchemaletDetails::AnyOf(xs), SchemaletDetails::AnyOf(ys)) => refs_eq(xs, ys),
        (SchemaletDetails::RawRef(x), SchemaletDetails::RawRef(y)) => *x == *y,
        (SchemaletDetails::RawDynamicRef(x), SchemaletDetails::RawDynamicRef(y)) => *x == *y,
        (SchemaletDetails::Constant(x), SchemaletDetails::Constant(y)) => const_eq(x, y),
        (SchemaletDetails::Value(x), SchemaletDetails::Value(y)) => value_eq(x, y),
        (SchemaletDetails::ExclusiveOneOf(xs), SchemaletDetails::ExclusiveOneOf(ys)) => refs_eq(
            xs,
            ys,
        ),
        (SchemaletDetails::ResolvedRef(x), SchemaletDetails::ResolvedRef(y)) => ref_eq(x, y),
        (SchemaletDetails::ResolvedDynamicRef(x), SchemaletDetails::ResolvedDynamicRef(y)) =>
            ref_eq(x, y),
        (
            SchemaletDetails::YesNo { yes: xy, no: xn },
            SchemaletDetails::YesNo { yes: yy, no: yn },
        ) => ref_eq(xy, yy) && refs_eq(xn, yn),
        _ => false,
    }
}

impl Clone for Schemalet {
    /// Clones the node; the copy has the same model.
    fn clone(&self) -> (out: Self)
        ensures
            out@ == self@,
    {
        Schemalet { metadata: self.metadata.clone(), details: self.details.clone() }
    }
}

/// Whether two raw nodes have the same model.
pub fn schemalet_eq(a: &Schemalet, b: &Schemalet) -> (out: bool)
    ensures
        out == (a@ == b@),
{
    metadata_eq(&a.metadata, &b.metadata) && details_eq(&a.details, &b.details)
}

impl Clone for CanonicalSchemaletDetails {
    /// Clones the canonical shape; the copy has the same model.
    fn clone(&self) -> (out: Self)
        ensures
            out@ == self@,
    {
        match self {
            CanonicalSchemaletDetails::Anything => CanonicalSchemaletDetails::Anything,
            CanonicalSchemaletDetails::Nothing => CanonicalSchemaletDetails::Nothing,
            CanonicalSchemaletDetails::Constant(c) => CanonicalSchemaletDetails::Constant(
                c.clone(),
            ),
            CanonicalSchemaletDetails::Reference(r) => CanonicalSchemaletDetails::Reference(
                r.clone(),
            ),
            CanonicalSchemaletDetails::ExclusiveOneOf { typ, subschemas } =>
                CanonicalSchemaletDetails::ExclusiveOneOf {
                    typ: *typ,
                    subschemas: clone_refs(subschemas),
                },
            CanonicalSchemaletDetails::Value(v) => CanonicalSchemaletDetails::Value(v.clone()),
        }
    }
}

/// Whether two canonical shapes have the same model.
pub fn canonical_details_eq(a: &CanonicalSchemaletDetails, b: &CanonicalSchemaletDetails) -> (out:
    bool)
    ensures
        out == (a@ == b@),
{
    match (a, b) {
        (CanonicalSchemaletDetails::Anything, CanonicalSchemaletDetails::Anything) => true,
        (CanonicalSchemaletDetails::Nothing, CanonicalSchemaletDetails::Nothing) => true,
        (CanonicalSchemaletDetails::Constant(x), CanonicalSchemaletDetails::Constant(y)) =>
            const_eq(x, y),
        (CanonicalSchemaletDetails::Reference(x), CanonicalSchemaletDetails::Reference(y)) =>
            ref_eq(x, y),
        (
            CanonicalSchemaletDetails::ExclusiveOneOf { typ: xt, subschemas: xs },
            CanonicalSchemaletDetails::ExclusiveOneOf { typ: yt, subschemas: ys },
        ) => *xt == *yt && refs_eq(xs, ys),
        (CanonicalSchemaletDetails::Value(x), CanonicalSchemaletDetails::Value(y)) => value_eq(
            x,
            y,
        ),
        _ => false,
    }
}

impl Clone for CanonicalSchemalet {
    /// Clones the finished node; the copy has the same model.
    fn clone(&self) -> (out: Self)
        ensures
            out@ == self@,
    {
        CanonicalSchemalet { metadata: self.metadata.clone(), details: self.details.clone() }
    }
}

/// Whether two finished nodes have the same model.
pub fn canonical_eq(a: &CanonicalSchemalet, b: &CanonicalSchemalet) -> (out: bool)
    ensures
        out == (a@ == b@),
{
    metadata_eq(&a.metadata, &b.metadata) && canonical_details_eq(&a.details, &b.details)
}

} // verus!
