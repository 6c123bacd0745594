//! Tests of the supporting types around the engine.

use bundler::clone_eq::{canonical_eq, ref_eq, refs_eq, schemalet_eq};
use bundler::namespace::Namespace;
use bundler::nonempty::NonEmpty;
use bundler::refmap::RefMap;
use bundler::schemalet::{
    CanonicalSchemalet, CanonicalSchemaletDetails, ConstantValue, ObjectProperty, SchemaRef,
    Schemalet, SchemaletDetails, SchemaletMetadata, SchemaletType, SchemaletValue,
    SchemaletValueObject,
};
use bundler::simple_type::SimpleType;
use bundler::Context;

fn id(s: &str) -> SchemaRef {
    SchemaRef::Id(s.to_string())
}

/// An address extends segment by segment, and facets carry their label.
#[test]
fn schema_ref_partial_append_id() {
    let base = id("https://example.com/schema");
    let extended = base.append("definitions");
    assert_eq!(extended.id(), "https://example.com/schema/definitions");
    let facet = extended.partial("object");
    match &facet {
        SchemaRef::Partial(address, label) => {
            assert_eq!(address, "https://example.com/schema/definitions");
            assert_eq!(label, "object");
        }
        _ => panic!("expected a facet identity"),
    }
}

/// Deep equality on identities distinguishes structure, not spelling of
/// the variables holding them.
#[test]
fn ref_eq_compares_structure() {
    let a = SchemaRef::Merge(vec![id("x"), id("y")]);
    let b = SchemaRef::Merge(vec![id("x"), id("y")]);
    let c = SchemaRef::Merge(vec![id("y"), id("x")]);
    assert!(ref_eq(&a, &b));
    assert!(!ref_eq(&a, &c));
    let yn = SchemaRef::YesNo { yes: Box::new(id("x")), no: vec![id("y")] };
    let yn2 = SchemaRef::YesNo { yes: Box::new(id("x")), no: vec![id("y")] };
    assert!(ref_eq(&yn, &yn2));
    assert!(!ref_eq(&yn, &a));
    assert!(refs_eq(&vec![a.clone()], &vec![b.clone()]));
    assert!(!refs_eq(&vec![a], &vec![c]));
}

/// Deep equality on nodes compares metadata and shape.
#[test]
fn schemalet_eq_compares_content() {
    let a = Schemalet::from_details(SchemaletDetails::Constant(ConstantValue::Int(7)));
    let b = Schemalet::from_details(SchemaletDetails::Constant(ConstantValue::Int(7)));
    let c = Schemalet::from_details(SchemaletDetails::Constant(ConstantValue::Int(8)));
    let d = Schemalet::from_details(SchemaletDetails::Constant(ConstantValue::Text(
        "7".to_string(),
    )));
    assert!(schemalet_eq(&a, &b));
    assert!(!schemalet_eq(&a, &c));
    assert!(!schemalet_eq(&a, &d));

    let fa = CanonicalSchemalet {
        metadata: SchemaletMetadata::empty(),
        details: CanonicalSchemaletDetails::Constant(ConstantValue::Int(7)),
    };
    let fb = CanonicalSchemalet {
        metadata: SchemaletMetadata::empty(),
        details: CanonicalSchemaletDetails::Constant(ConstantValue::Int(7)),
    };
    let fc = CanonicalSchemalet {
        metadata: SchemaletMetadata::empty(),
        details: CanonicalSchemaletDetails::Nothing,
    };
    assert!(canonical_eq(&fa, &fb));
    assert!(!canonical_eq(&fa, &fc));
}

/// The map stores one node per identity and finds it again.
#[test]
fn refmap_stores_and_finds() {
    let mut map: RefMap<Schemalet> = RefMap::new();
    assert!(map.is_empty());
    map.insert(id("a"), Schemalet::from_details(SchemaletDetails::Anything));
    map.insert(id("b"), Schemalet::from_details(SchemaletDetails::Nothing));
    assert!(!map.is_empty());
    assert_eq!(map.len(), 2);
    assert!(map.contains_key(&id("a")));
    assert!(!map.contains_key(&id("c")));
    let node = map.get(&id("b")).expect("the node was inserted");
    assert!(matches!(node.details, SchemaletDetails::Nothing));
    assert!(map.get(&id("c")).is_none());
    let keys = map.keys();
    assert_eq!(keys.len(), 2);
    assert!(ref_eq(&keys[0], &id("a")));
    assert!(ref_eq(&keys[1], &id("b")));
    let entries = map.into_entries();
    assert_eq!(entries.len(), 2);
}

/// A container must hold at least one item to be attested non-empty.
#[test]
fn nonempty_requires_an_item() {
    let empty: Vec<u64> = Vec::new();
    assert!(NonEmpty::try_from(empty).is_err());
    let wrapped = NonEmpty::try_from(vec![3u64, 4]).expect("two items are enough");
    assert_eq!(wrapped.as_inner().len(), 2);
    assert_eq!(wrapped.into_inner(), vec![3, 4]);
}

/// The registry hands out resolved names and keeps them once finalized.
#[test]
fn namespace_insert_and_finalize() {
    let mut ns = Namespace::new();
    let first = ns.insert("Alpha".to_string());
    let second = ns.insert("Beta".to_string());
    assert_eq!(first.to_string(), "Alpha");
    assert_eq!(second.to_string(), "Beta");
    let _frozen = ns.finalize();
    assert_eq!(first.to_string(), "Alpha");
}

/// A context resolves the dynamic anchors in scope, first writer wins.
#[test]
fn context_resolves_dynamic_anchors() {
    let mut ctx = Context::new("https://example.com/root".to_string());
    assert_eq!(ctx.id(), "https://example.com/root");
    ctx.add_dyn_anchor("meta".to_string(), "https://example.com/root#meta".to_string());
    ctx.add_dyn_anchor("meta".to_string(), "https://example.com/other#meta".to_string());
    let target = ctx.dyn_resolve(&"meta".to_string()).expect("the anchor is in scope");
    assert_eq!(target, "https://example.com/root#meta");
    assert!(ctx.dyn_resolve(&"items".to_string()).is_none());
}

/// The seven primitive type names convert to the engine's tags.
#[test]
fn simple_type_converts_and_enumerates() {
    assert_eq!(SimpleType::Boolean.convert(), SchemaletType::Boolean);
    assert_eq!(SimpleType::Null.convert(), SchemaletType::Null);
    assert_eq!(SimpleType::Number.convert(), SchemaletType::Number);
    let all = SimpleType::all();
    assert_eq!(all.len(), 7);
    assert_eq!(all[0], SimpleType::Array);
    assert_eq!(all[6], SimpleType::String);
}

/// A canonical shape hands out exactly the identities it refers to.
#[test]
fn canonical_children_lists_referenced_identities() {
    let alias = CanonicalSchemaletDetails::Reference(id("t"));
    let children = alias.children();
    assert_eq!(children.len(), 1);
    assert!(ref_eq(&children[0], &id("t")));

    let object = CanonicalSchemaletDetails::Value(SchemaletValue::Object(SchemaletValueObject {
        properties: vec![
            ObjectProperty { name: "x".to_string(), schema: id("a") },
            ObjectProperty { name: "y".to_string(), schema: id("b") },
        ],
        additional_properties: Some(id("c")),
    }));
    let children = object.children();
    assert_eq!(children.len(), 3);
    assert!(ref_eq(&children[0], &id("a")));
    assert!(ref_eq(&children[1], &id("b")));
    assert!(ref_eq(&children[2], &id("c")));

    assert_eq!(CanonicalSchemaletDetails::Anything.children().len(), 0);
}
