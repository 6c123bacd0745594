//! Graph node identities and node shapes.

use vstd::prelude::*;
use vstd::string::StringExecFns;

verus! {

/// The identity of a graph node.
///
/// `Id` and `Partial` name nodes extracted from source documents; `Merge`
/// and `YesNo` name nodes synthesized during simplification. Synthetic
/// identities are derived deterministically from the identities of the
/// nodes they combine, so re-deriving one reproduces the same identity.
pub enum SchemaRef {
    /// The canonical address of a source fragment.
    Id(String),
    /// One facet of a multi-facet source fragment: the address plus a label.
    Partial(String, String),
    /// The conjunction of several nodes.
    Merge(Vec<SchemaRef>),
    /// Matches `yes` while deliberately not matching any member of `no`.
    YesNo { yes: Box<SchemaRef>, no: Vec<SchemaRef> },
}

/// Mathematical model of a [`SchemaRef`]: the same tree with strings as
/// character sequences.
pub enum RefView {
    Id(Seq<char>),
    Partial(Seq<char>, Seq<char>),
    Merge(Seq<RefView>),
    YesNo { yes: Box<RefView>, no: Seq<RefView> },
}

/// The model of one `SchemaRef`.
pub open spec fn ref_view(r: SchemaRef) -> RefView
    decreases r,
{
    match r {
        SchemaRef::Id(id) => RefView::Id(id@),
        SchemaRef::Partial(id, part) => RefView::Partial(id@, part@),
        SchemaRef::Merge(refs) => RefView::Merge(refs_view(refs@)),
        SchemaRef::YesNo { yes, no } => RefView::YesNo {
            yes: Box::new(ref_view(*yes)),
            no: refs_view(no@),
        },
    }
}

/// The model of a list of `SchemaRef`s, element by element.
pub open spec fn refs_view(refs: Seq<SchemaRef>) -> Seq<RefView>
    decreases refs,
{
    if refs.len() == 0 {
        Seq::empty()
    } else {
        seq![ref_view(refs[0])] + refs_view(refs.drop_first())
    }
}

/// `refs_view` maps the list element by element.
pub broadcast proof fn lemma_refs_view(refs: Seq<SchemaRef>)
    ensures
        (#[trigger] refs_view(refs)).len() == refs.len(),
        forall|i: int| 0 <= i < refs.len() ==> #[trigger] refs_view(refs)[i] == ref_view(refs[i]),
    decreases refs.len(),
{
    if refs.len() > 0 {
        lemma_refs_view(refs.drop_first());
    }
}

impl View for SchemaRef {
    type V = RefView;

    open spec fn view(&self) -> RefView {
        ref_view(*self)
    }
}

impl SchemaRef {
    /// Names one facet of the source fragment this identity addresses.
    pub fn partial(&self, part: &str) -> (out: Self)
        requires
            self@ is Id,
        ensures
            out@ == RefView::Partial(self@->Id_0, part@),
    {
        match self {
            SchemaRef::Id(id) => SchemaRef::Partial(id.clone(), part.to_owned()),
            _ => {
                proof {
                    assert(false);
                }
                vstd::pervasive::unreached()
            },
        }
    }

    /// Extends the address with one more path segment.
    pub fn append(&self, fragment: &str) -> (out: Self)
        requires
            self@ is Id,
        ensures
            out@ == RefView::Id(self@->Id_0 + seq!['/'] + fragment@),
    {
        match self {
            SchemaRef::Id(id) => {
                proof {
                    reveal_strlit("/");
                    assert("/"@ =~= seq!['/']);
                }
                let mut joined = id.clone();
                joined.append("/");
                joined.append(fragment);
                SchemaRef::Id(joined)
            },
            _ => {
                proof {
                    assert(false);
                }
                vstd::pervasive::unreached()
            },
        }
    }

    /// The canonical address this identity names.
    pub fn id(&self) -> (out: String)
        requires
            self@ is Id,
        ensures
            out@ == self@->Id_0,
    {
        match self {
            SchemaRef::Id(id) => id.clone(),
            _ => {
                proof {
                    assert(false);
                }
                vstd::pervasive::unreached()
            },
        }
    }
}

/// A constant value drawn from a schema document: the payload of a
/// `Constant` node and of metadata examples. Numeric constants are
/// integers; the engine does not interpret fractional constants.
pub enum ConstantValue {
    Null,
    Bool(bool),
    Int(i64),
    Text(String),
    Items(Vec<ConstantValue>),
    Entries(Vec<ConstantEntry>),
}

/// One key/value pair of an object-shaped constant.
pub struct ConstantEntry {
    pub key: String,
    pub value: ConstantValue,
}

/// Mathematical model of a [`ConstantValue`].
pub enum ConstView {
    Null,
    Bool(bool),
    Int(i64),
    Text(Seq<char>),
    Items(Seq<ConstView>),
    Entries(Seq<ConstEntryView>),
}

pub struct ConstEntryView {
    pub key: Seq<char>,
    pub value: ConstView,
}

/// The model of one `ConstantValue`.
pub open spec fn const_view(c: ConstantValue) -> ConstView
    decreases c,
{
    match c {
        ConstantValue::Null => ConstView::Null,
        ConstantValue::Bool(b) => ConstView::Bool(b),
        ConstantValue::Int(i) => ConstView::Int(i),
        ConstantValue::Text(s) => ConstView::Text(s@),
        ConstantValue::Items(items) => ConstView::Items(consts_view(items@)),
        ConstantValue::Entries(entries) => ConstView::Entries(entries_view(entries@)),
    }
}

/// The model of a list of constants, element by element.
pub open spec fn consts_view(items: Seq<ConstantValue>) -> Seq<ConstView>
    decreases items,
{
    if items.len() == 0 {
        Seq::empty()
    } else {
        seq![const_view(items[0])] + consts_view(items.drop_first())
    }
}

/// The model of a list of constant entries, element by element.
pub open spec fn entries_view(entries: Seq<ConstantEntry>) -> Seq<ConstEntryView>
    decreases entries,
{
    if entries.len() == 0 {
        Seq::empty()
    } else {
        seq![ConstEntryView { key: entries[0].key@, value: const_view(entries[0].value) }]
            + entries_view(entries.drop_first())
    }
}

/// `consts_view` maps the list element by element.
pub broadcast proof fn lemma_consts_view(items: Seq<ConstantValue>)
    ensures
        (#[trigger] consts_view(items)).len() == items.len(),
        forall|i: int| 0 <= i < items.len() ==> #[trigger] consts_view(items)[i] == const_view(items[i]),
    decreases items.len(),
{
    if items.len() > 0 {
        lemma_consts_view(items.drop_first());
    }
}

/// `entries_view` maps the list element by element.
pub broadcast proof fn lemma_entries_view(entries: Seq<ConstantEntry>)
    ensures
        (#[trigger] entries_view(entries)).len() == entries.len(),
        forall|i: int| 0 <= i < entries.len() ==> #[trigger] entries_view(entries)[i] == (ConstEntryView {
            key: entries[i].key@,
            value: const_view(entries[i].value),
        }),
    decreases entries.len(),
{
    if entries.len() > 0 {
        lemma_entries_view(entries.drop_first());
    }
}

impl View for ConstantValue {
    type V = ConstView;

    open spec fn view(&self) -> ConstView {
        const_view(*self)
    }
}

/// Documentation attached to a node. It never influences simplification,
/// but reference chains preserve it for the eventual consumer.
pub struct SchemaletMetadata {
    pub title: Option<String>,
    pub description: Option<String>,
    pub examples: Vec<ConstantValue>,
}

/// Mathematical model of [`SchemaletMetadata`].
pub struct MetadataView {
    pub title: Option<Seq<char>>,
    pub description: Option<Seq<char>>,
    pub examples: Seq<ConstView>,
}

impl View for SchemaletMetadata {
    type V = MetadataView;

    open spec fn view(&self) -> MetadataView {
        MetadataView {
            title: self.title.deep_view(),
            description: self.description.deep_view(),
            examples: consts_view(self.examples@),
        }
    }
}

impl SchemaletMetadata {
    /// Metadata with no title, no description and no examples.
    pub fn empty() -> (out: SchemaletMetadata)
        ensures
            out@ == MetadataView::empty(),
    {
        SchemaletMetadata { title: None, description: None, examples: Vec::new() }
    }
}

impl MetadataView {
    pub open spec fn empty() -> MetadataView {
        MetadataView { title: None, description: None, examples: Seq::empty() }
    }
}

/// The coarse classifier of a value constraint, used for cheap
/// incompatibility pruning: two constraints whose tags differ can never
/// hold of one value at the same time.
#[derive(Clone, Copy, PartialEq, Eq, Structural, Debug)]
pub enum SchemaletType {
    Boolean,
    Array,
    Object,
    String,
    Integer,
    Number,
    Null,
}

/// One named property of an object constraint.
pub struct ObjectProperty {
    pub name: String,
    pub schema: SchemaRef,
}

/// An object value constraint: named properties plus an optional
/// constraint on all remaining properties. Property names are unique.
pub struct SchemaletValueObject {
    pub properties: Vec<ObjectProperty>,
    pub additional_properties: Option<SchemaRef>,
}

/// Mathematical model of one object property.
pub struct PropertyView {
    pub name: Seq<char>,
    pub schema: RefView,
}

/// Mathematical model of [`SchemaletValueObject`].
pub struct ObjectView {
    pub properties: Seq<PropertyView>,
    pub additional_properties: Option<RefView>,
}

/// The model of a property list, element by element.
pub open spec fn props_view(props: Seq<ObjectProperty>) -> Seq<PropertyView>
    decreases props,
{
    if props.len() == 0 {
        Seq::empty()
    } else {
        seq![PropertyView { name: props[0].name@, schema: ref_view(props[0].schema) }]
            + props_view(props.drop_first())
    }
}

/// `props_view` maps the list element by element.
pub broadcast proof fn lemma_props_view(props: Seq<ObjectProperty>)
    ensures
        (#[trigger] props_view(props)).len() == props.len(),
        forall|i: int| 0 <= i < props.len() ==> #[trigger] props_view(props)[i] == (PropertyView {
            name: props[i].name@,
            schema: ref_view(props[i].schema),
        }),
    decreases props.len(),
{
    if props.len() > 0 {
        lemma_props_view(props.drop_first());
    }
}

/// Whether some property of `props` is named `name`.
pub open spec fn spec_has_name(props: Seq<PropertyView>, name: Seq<char>) -> bool {
    exists|i: int| 0 <= i < props.len() && props[i].name == name
}

impl ObjectView {
    /// Property names are pairwise distinct.
    pub open spec fn keys_unique(self) -> bool {
        forall|i: int, j: int|
            0 <= i < j < self.properties.len() ==> self.properties[i].name
                != self.properties[j].name
    }
}

impl View for SchemaletValueObject {
    type V = ObjectView;

    open spec fn view(&self) -> ObjectView {
        ObjectView {
            properties: props_view(self.properties@),
            additional_properties: match self.additional_properties {
                Some(r) => Some(ref_view(r)),
                None => None,
            },
        }
    }
}

/// A concrete value constraint.
pub enum SchemaletValue {
    Boolean,
    Array { items: Option<SchemaRef>, min_items: Option<u64>, unique_items: Option<bool> },
    Object(SchemaletValueObject),
    String { pattern: Option<String>, format: Option<String> },
    Integer { minimum: Option<i64>, exclusive_minimum: Option<i64> },
    Number { minimum: Option<i64>, exclusive_minimum: Option<i64> },
}

/// Mathematical model of [`SchemaletValue`].
pub enum ValueView {
    Boolean,
    Array { items: Option<RefView>, min_items: Option<u64>, unique_items: Option<bool> },
    Object(ObjectView),
    String { pattern: Option<Seq<char>>, format: Option<Seq<char>> },
    Integer { minimum: Option<i64>, exclusive_minimum: Option<i64> },
    Number { minimum: Option<i64>, exclusive_minimum: Option<i64> },
}

/// The model of one `SchemaletValue`.
pub open spec fn value_view(v: SchemaletValue) -> ValueView {
    match v {
        SchemaletValue::Boolean => ValueView::Boolean,
        SchemaletValue::Array { items, min_items, unique_items } => ValueView::Array {
            items: match items {
                Some(r) => Some(ref_view(r)),
                None => None,
            },
            min_items,
            unique_items,
        },
        SchemaletValue::Object(o) => ValueView::Object(o@),
        SchemaletValue::String { pattern, format } => ValueView::String {
            pattern: pattern.deep_view(),
            format: format.deep_view(),
        },
        SchemaletValue::Integer { minimum, exclusive_minimum } => ValueView::Integer {
            minimum,
            exclusive_minimum,
        },
        SchemaletValue::Number { minimum, exclusive_minimum } => ValueView::Number {
            minimum,
            exclusive_minimum,
        },
    }
}

impl View for SchemaletValue {
    type V = ValueView;

    open spec fn view(&self) -> ValueView {
        value_view(*self)
    }
}

/// The shape of a node that has not yet reached canonical form.
///
/// `RawRef` and `RawDynamicRef` carry an address that has not been
/// resolved; extraction must rewrite them to `ResolvedRef` and
/// `ResolvedDynamicRef` before a node enters the engine. The engine never
/// resolves addresses itself and treats an unresolved shape as a
/// contract violation.
pub enum SchemaletDetails {
    Anything,
    Nothing,
    AllOf(Vec<SchemaRef>),
    AnyOf(Vec<SchemaRef>),
    RawRef(String),
    RawDynamicRef(String),
    Constant(ConstantValue),
    Value(SchemaletValue),
    ExclusiveOneOf(Vec<SchemaRef>),
    ResolvedRef(SchemaRef),
    ResolvedDynamicRef(SchemaRef),
    YesNo { yes: SchemaRef, no: Vec<SchemaRef> },
}

/// Mathematical model of [`SchemaletDetails`].
pub enum DetailsView {
    Anything,
    Nothing,
    AllOf(Seq<RefView>),
    AnyOf(Seq<RefView>),
    RawRef(Seq<char>),
    RawDynamicRef(Seq<char>),
    Constant(ConstView),
    Value(ValueView),
    ExclusiveOneOf(Seq<RefView>),
    ResolvedRef(RefView),
    ResolvedDynamicRef(RefView),
    YesNo { yes: RefView, no: Seq<RefView> },
}

/// The model of one `SchemaletDetails`.
pub open spec fn details_view(d: SchemaletDetails) -> DetailsView {
    match d {
        SchemaletDetails::Anything => DetailsView::Anything,
        SchemaletDetails::Nothing => DetailsView::Nothing,
        SchemaletDetails::AllOf(refs) => DetailsView::AllOf(refs_view(refs@)),
        SchemaletDetails::AnyOf(refs) => DetailsView::AnyOf(refs_view(refs@)),
        SchemaletDetails::RawRef(s) => DetailsView::RawRef(s@),
        SchemaletDetails::RawDynamicRef(s) => DetailsView::RawDynamicRef(s@),
        SchemaletDetails::Constant(c) => DetailsView::Constant(c@),
        SchemaletDetails::Value(v) => DetailsView::Value(v@),
        SchemaletDetails::ExclusiveOneOf(refs) => DetailsView::ExclusiveOneOf(refs_view(refs@)),
        SchemaletDetails::ResolvedRef(r) => DetailsView::ResolvedRef(ref_view(r)),
        SchemaletDetails::ResolvedDynamicRef(r) => DetailsView::ResolvedDynamicRef(ref_view(r)),
        SchemaletDetails::YesNo { yes, no } => DetailsView::YesNo {
            yes: ref_view(yes),
            no: refs_view(no@),
        },
    }
}

impl View for SchemaletDetails {
    type V = DetailsView;

    open spec fn view(&self) -> DetailsView {
        details_view(*self)
    }
}

/// A self-contained, bounded schema node that refers to subordinate nodes
/// by [`SchemaRef`] rather than holding them inline.
pub struct Schemalet {
    pub metadata: SchemaletMetadata,
    pub details: SchemaletDetails,
}

/// Mathematical model of a [`Schemalet`].
pub struct SchemaletView {
    pub metadata: MetadataView,
    pub details: DetailsView,
}

impl View for Schemalet {
    type V = SchemaletView;

    open spec fn view(&self) -> SchemaletView {
        SchemaletView { metadata: self.metadata@, details: self.details@ }
    }
}

impl Schemalet {
    pub fn new(details: SchemaletDetails, metadata: SchemaletMetadata) -> (out: Schemalet)
        ensures
            out@ == (SchemaletView { metadata: metadata@, details: details@ }),
    {
        Schemalet { metadata, details }
    }

    /// A node with the given details and empty metadata.
    pub fn from_details(details: SchemaletDetails) -> (out: Schemalet)
        ensures
            out@ == (SchemaletView { metadata: MetadataView::empty(), details: details@ }),
    {
        Schemalet { metadata: SchemaletMetadata::empty(), details }
    }
}

/// The shape of a finished node. No combinator remains: every node is the
/// universal or the empty constraint, a constant, an alias, an exclusive
/// union of alternatives, or a concrete value constraint.
pub enum CanonicalSchemaletDetails {
    Anything,
    Nothing,
    Constant(ConstantValue),
    Reference(SchemaRef),
    ExclusiveOneOf {
        /// The shared type tag, cached iff every alternative resolves to a
        /// node with that one known tag.
        typ: Option<SchemaletType>,
        /// The alternatives, already resolved past reference aliases.
        subschemas: Vec<SchemaRef>,
    },
    Value(SchemaletValue),
}

/// Mathematical model of [`CanonicalSchemaletDetails`].
pub enum CanonicalDetailsView {
    Anything,
    Nothing,
    Constant(ConstView),
    Reference(RefView),
    ExclusiveOneOf { typ: Option<SchemaletType>, subschemas: Seq<RefView> },
    Value(ValueView),
}

/// The model of one `CanonicalSchemaletDetails`.
pub open spec fn canonical_details_view(d: CanonicalSchemaletDetails) -> CanonicalDetailsView {
    match d {
        CanonicalSchemaletDetails::Anything => CanonicalDetailsView::Anything,
        CanonicalSchemaletDetails::Nothing => CanonicalDetailsView::Nothing,
        CanonicalSchemaletDetails::Constant(c) => CanonicalDetailsView::Constant(c@),
        CanonicalSchemaletDetails::Reference(r) => CanonicalDetailsView::Reference(ref_view(r)),
        CanonicalSchemaletDetails::ExclusiveOneOf { typ, subschemas } =>
            CanonicalDetailsView::ExclusiveOneOf { typ, subschemas: refs_view(subschemas@) },
        CanonicalSchemaletDetails::Value(v) => CanonicalDetailsView::Value(v@),
    }
}

impl View for CanonicalSchemaletDetails {
    type V = CanonicalDetailsView;

    open spec fn view(&self) -> CanonicalDetailsView {
        canonical_details_view(*self)
    }
}

/// A finished node: metadata plus a canonical shape. Once produced it is
/// never simplified again.
pub struct CanonicalSchemalet {
    pub metadata: SchemaletMetadata,
    pub details: CanonicalSchemaletDetails,
}

/// Mathematical model of a [`CanonicalSchemalet`].
pub struct CanonicalView {
    pub metadata: MetadataView,
    pub details: CanonicalDetailsView,
}

impl View for CanonicalSchemalet {
    type V = CanonicalView;

    open spec fn view(&self) -> CanonicalView {
        CanonicalView { metadata: self.metadata@, details: self.details@ }
    }
}

/// The type tag of a constant value.
pub open spec fn spec_const_type(c: ConstView) -> SchemaletType {
    match c {
        ConstView::Null => SchemaletType::Null,
        ConstView::Bool(_) => SchemaletType::Boolean,
        ConstView::Int(_) => SchemaletType::Integer,
        ConstView::Text(_) => SchemaletType::String,
        ConstView::Items(_) => SchemaletType::Array,
        ConstView::Entries(_) => SchemaletType::Object,
    }
}

/// The type tag of a value constraint.
pub open spec fn spec_value_type(v: ValueView) -> SchemaletType {
    match v {
        ValueView::Boolean => SchemaletType::Boolean,
        ValueView::Array { .. } => SchemaletType::Array,
        ValueView::Object(_) => SchemaletType::Object,
        ValueView::String { .. } => SchemaletType::String,
        ValueView::Integer { .. } => SchemaletType::Integer,
        ValueView::Number { .. } => SchemaletType::Number,
    }
}

/// The type tag of a canonical shape, where one is known: values and
/// constants carry their own tag, an exclusive union carries its cached
/// tag, and the universal and empty constraints and aliases have none.
pub open spec fn spec_get_type(d: CanonicalDetailsView) -> Option<SchemaletType> {
    match d {
        CanonicalDetailsView::Anything => None,
        CanonicalDetailsView::Nothing => None,
        CanonicalDetailsView::Constant(c) => Some(spec_const_type(c)),
        CanonicalDetailsView::Reference(_) => None,
        CanonicalDetailsView::ExclusiveOneOf { typ, .. } => typ,
        CanonicalDetailsView::Value(v) => Some(spec_value_type(v)),
    }
}

/// The identities a value constraint refers to: the element constraint
/// of an array and the property constraints of an object.
pub open spec fn spec_value_children(v: ValueView) -> Seq<RefView> {
    match v {
        ValueView::Array { items: Some(r), .. } => seq![r],
        ValueView::Object(o) => Seq::new(o.properties.len(), |i: int| o.properties[i].schema)
            + (match o.additional_properties {
            Some(r) => seq![r],
            None => Seq::empty(),
        }),
        _ => Seq::empty(),
    }
}

/// The identities a canonical shape refers to directly: the target of an
/// alias, the branches of an exclusive union, and the subordinate
/// constraints of a value shape.
pub open spec fn spec_children(d: CanonicalDetailsView) -> Seq<RefView> {
    match d {
        CanonicalDetailsView::Anything => Seq::empty(),
        CanonicalDetailsView::Nothing => Seq::empty(),
        CanonicalDetailsView::Constant(_) => Seq::empty(),
        CanonicalDetailsView::Reference(r) => seq![r],
        CanonicalDetailsView::ExclusiveOneOf { subschemas, .. } => subschemas,
        CanonicalDetailsView::Value(v) => spec_value_children(v),
    }
}

/// The identities a raw shape refers to directly: combinator members,
/// exclusion sides, resolved targets, and a value shape's subordinate
/// constraints.
pub open spec fn raw_children(d: DetailsView) -> Seq<RefView> {
    match d {
        DetailsView::Anything => Seq::empty(),
        DetailsView::Nothing => Seq::empty(),
        DetailsView::Constant(_) => Seq::empty(),
        DetailsView::Value(v) => spec_value_children(v),
        DetailsView::AllOf(rs) => rs,
        DetailsView::AnyOf(rs) => rs,
        DetailsView::ExclusiveOneOf(rs) => rs,
        DetailsView::RawRef(_) => Seq::empty(),
        DetailsView::RawDynamicRef(_) => Seq::empty(),
        DetailsView::ResolvedRef(r) => seq![r],
        DetailsView::ResolvedDynamicRef(r) => seq![r],
        DetailsView::YesNo { yes, no } => seq![yes] + no,
    }
}

/// Whether every identity of the list lies in `known`.
pub open spec fn children_in(children: Seq<RefView>, known: Set<RefView>) -> bool {
    forall|i: int| 0 <= i < children.len() ==> known.contains(#[trigger] children[i])
}

impl CanonicalSchemaletDetails {
    /// The identities this shape refers to directly.
    pub fn children(&self) -> (out: Vec<SchemaRef>)
        ensures
            refs_view(out@) == spec_children(self@),
    {
        match self {
            CanonicalSchemaletDetails::Reference(r) => {
                let out = vec![r.clone()];
                proof {
                    lemma_refs_view(out@);
                    assert(refs_view(out@) =~= spec_children(self@));
                }
                out
            },
            CanonicalSchemaletDetails::ExclusiveOneOf { subschemas, .. } => {
                crate::clone_eq::clone_refs(subschemas)
            },
            CanonicalSchemaletDetails::Value(SchemaletValue::Array { items: Some(r), .. }) => {
                let out = vec![r.clone()];
                proof {
                    lemma_refs_view(out@);
                    assert(refs_view(out@) =~= spec_children(self@));
                }
                out
            },
            CanonicalSchemaletDetails::Value(SchemaletValue::Object(o)) => {
                let mut out: Vec<SchemaRef> = Vec::new();
                let mut i: usize = 0;
                while i < o.properties.len()
                    invariant
                        i <= o.properties@.len(),
                        out@.len() == i,
                        forall|j: int|
                            0 <= j < i ==> ref_view(#[trigger] out@[j]) == props_view(
                                o.properties@,
                            )[j].schema,
                    decreases o.properties@.len() - i,
                {
                    out.push(o.properties[i].schema.clone());
                    proof {
                        lemma_props_view(o.properties@);
                        assert(props_view(o.properties@)[i as int].schema == ref_view(
                            o.properties@[i as int].schema,
                        ));
                    }
                    i = i + 1;
                }
                match &o.additional_properties {
                    Some(r) => {
                        out.push(r.clone());
                    },
                    None => {},
                }
                proof {
                    lemma_refs_view(out@);
                    lemma_props_view(o.properties@);
                    assert(refs_view(out@) =~= spec_children(self@));
                }
                out
            },
            _ => {
                let out: Vec<SchemaRef> = Vec::new();
                proof {
                    lemma_refs_view(out@);
                    assert(refs_view(out@) =~= spec_children(self@));
                }
                out
            },
        }
    }

    /// The type tag of this shape, where one is known.
    pub fn get_type(&self) -> (out: Option<SchemaletType>)
        ensures
            out == spec_get_type(self@),
    {
        match self {
            CanonicalSchemaletDetails::Anything => None,
            CanonicalSchemaletDetails::Nothing => None,
            CanonicalSchemaletDetails::Constant(c) => Some(
                match c {
                    ConstantValue::Null => SchemaletType::Null,
                    ConstantValue::Bool(_) => SchemaletType::Boolean,
                    ConstantValue::Int(_) => SchemaletType::Integer,
                    ConstantValue::Text(_) => SchemaletType::String,
                    ConstantValue::Items(_) => SchemaletType::Array,
                    ConstantValue::Entries(_) => SchemaletType::Object,
                },
            ),
            CanonicalSchemaletDetails::Reference(_) => None,
            CanonicalSchemaletDetails::ExclusiveOneOf { typ, .. } => *typ,
            CanonicalSchemaletDetails::Value(v) => Some(
                match v {
                    SchemaletValue::Boolean => SchemaletType::Boolean,
                    SchemaletValue::Array { .. } => SchemaletType::Array,
                    SchemaletValue::Object(_) => SchemaletType::Object,
                    SchemaletValue::String { .. } => SchemaletType::String,
                    SchemaletValue::Integer { .. } => SchemaletType::Integer,
                    SchemaletValue::Number { .. } => SchemaletType::Number,
                },
            ),
        }
    }

    /// Whether this shape is the empty constraint.
    pub fn is_nothing(&self) -> (out: bool)
        ensures
            out == (self@ is Nothing),
    {
        matches!(self, CanonicalSchemaletDetails::Nothing)
    }
}

/// The shared type tag of the kept branches: their common known tag, or
/// `None` if any branch's tag is unknown or two differ.
pub open spec fn spec_uniform_type(
    done: Map<RefView, CanonicalView>,
    kept: Seq<RefView>,
) -> Option<SchemaletType> {
    if kept.len() == 0 {
        None
    } else {
        let t0 = spec_get_type(done[kept[0]].details);
        if t0 is Some && (forall|i: int|
            0 <= i < kept.len() ==> spec_get_type(done[#[trigger] kept[i]].details) == t0) {
            t0
        } else {
            None
        }
    }
}

/// Whether a finished node upholds the engine's invariants against the
/// finished graph: an exclusive union has at least two branches, each
/// branch is a finished node that is itself neither an alias nor the
/// empty constraint, and the cached type tag is the branches' shared tag.
pub open spec fn canonical_node_wf(c: CanonicalView, done: Map<RefView, CanonicalView>) -> bool {
    match c.details {
        CanonicalDetailsView::ExclusiveOneOf { typ, subschemas } => {
            &&& subschemas.len() >= 2
            &&& typ == spec_uniform_type(done, subschemas)
            &&& forall|i: int|
                0 <= i < subschemas.len() ==> done.dom().contains(#[trigger] subschemas[i])
                    && !(done[subschemas[i]].details is Reference) && !(done[subschemas[i]].details
                    is Nothing)
        },
        _ => true,
    }
}

/// The outcome of offering one node to the simplifier.
pub enum State {
    /// A dependency is not finished yet; the node is unchanged.
    Stuck(Schemalet),
    /// The node was rewritten, spawning zero or more new sibling nodes.
    Simplified(Schemalet, Vec<(SchemaRef, Schemalet)>),
    /// The node reached a canonical shape.
    Canonical(CanonicalSchemalet),
}

/// Mathematical model of a [`State`].
pub enum StateView {
    Stuck(SchemaletView),
    Simplified(SchemaletView, Seq<(RefView, SchemaletView)>),
    Canonical(CanonicalView),
}

/// The model of a work list of newly spawned nodes, element by element.
pub open spec fn work_view(work: Seq<(SchemaRef, Schemalet)>) -> Seq<(RefView, SchemaletView)>
    decreases work,
{
    if work.len() == 0 {
        Seq::empty()
    } else {
        seq![(ref_view(work[0].0), work[0].1@)] + work_view(work.drop_first())
    }
}

/// `work_view` maps the list element by element.
pub broadcast proof fn lemma_work_view(work: Seq<(SchemaRef, Schemalet)>)
    ensures
        (#[trigger] work_view(work)).len() == work.len(),
        forall|i: int| 0 <= i < work.len() ==> #[trigger] work_view(work)[i] == (
            ref_view(work[i].0),
            work[i].1@,
        ),
    decreases work.len(),
{
    if work.len() > 0 {
        lemma_work_view(work.drop_first());
    }
}

impl View for State {
    type V = StateView;

    open spec fn view(&self) -> StateView {
        match self {
            State::Stuck(node) => StateView::Stuck(node@),
            State::Simplified(node, work) => StateView::Simplified(node@, work_view(work@)),
            State::Canonical(node) => StateView::Canonical(node@),
        }
    }
}

/// The model of a list of partition groups, element by element: each
/// group is its representative plus its members so far.
pub open spec fn groups_view(s: Seq<(SchemaRef, Vec<SchemaRef>)>) -> Seq<(RefView, Seq<RefView>)>
    decreases s,
{
    if s.len() == 0 {
        Seq::empty()
    } else {
        seq![(ref_view(s[0].0), refs_view(s[0].1@))] + groups_view(s.drop_first())
    }
}

/// `groups_view` maps the list element by element.
pub broadcast proof fn lemma_groups_view(s: Seq<(SchemaRef, Vec<SchemaRef>)>)
    ensures
        (#[trigger] groups_view(s)).len() == s.len(),
        forall|i: int| 0 <= i < s.len() ==> #[trigger] groups_view(s)[i] == (
            ref_view(s[i].0),
            refs_view(s[i].1@),
        ),
    decreases s.len(),
{
    if s.len() > 0 {
        lemma_groups_view(s.drop_first());
    }
}

/// The model of a list of branch lists, element by element.
pub open spec fn xorss_view(s: Seq<Vec<SchemaRef>>) -> Seq<Seq<RefView>>
    decreases s,
{
    if s.len() == 0 {
        Seq::empty()
    } else {
        seq![refs_view(s[0]@)] + xorss_view(s.drop_first())
    }
}

/// `xorss_view` maps the list element by element.
pub broadcast proof fn lemma_xorss_view(s: Seq<Vec<SchemaRef>>)
    ensures
        (#[trigger] xorss_view(s)).len() == s.len(),
        forall|i: int| 0 <= i < s.len() ==> #[trigger] xorss_view(s)[i] == refs_view(s[i]@),
    decreases s.len(),
{
    if s.len() > 0 {
        lemma_xorss_view(s.drop_first());
    }
}

} // verus!
