//! End-to-end tests of the canonicalization engine.

use bundler::clone_eq::{canonical_details_eq, ref_eq};
use bundler::driver::{run, DriverError, SchemaletMap};
use bundler::errors::SimplifyError;
use bundler::merge::merge_two;
use bundler::refmap::RefMap;
use bundler::resolve::{resolve_with_metadata, trivially_incompatible, CanonicalMap};
use bundler::schemalet::{
    CanonicalSchemalet, CanonicalSchemaletDetails, ConstantValue, ObjectProperty, SchemaRef,
    Schemalet, SchemaletDetails, SchemaletMetadata, SchemaletType, SchemaletValue,
    SchemaletValueObject, State,
};

fn id(s: &str) -> SchemaRef {
    SchemaRef::Id(s.to_string())
}

fn raw(details: SchemaletDetails) -> Schemalet {
    Schemalet::from_details(details)
}

fn value_object(props: Vec<(&str, SchemaRef)>) -> SchemaletDetails {
    SchemaletDetails::Value(SchemaletValue::Object(SchemaletValueObject {
        properties: props
            .into_iter()
            .map(|(name, schema)| ObjectProperty { name: name.to_string(), schema })
            .collect(),
        additional_properties: None,
    }))
}

fn value_string() -> SchemaletDetails {
    SchemaletDetails::Value(SchemaletValue::String { pattern: None, format: None })
}

fn value_integer() -> SchemaletDetails {
    SchemaletDetails::Value(SchemaletValue::Integer { minimum: None, exclusive_minimum: None })
}

fn value_boolean() -> SchemaletDetails {
    SchemaletDetails::Value(SchemaletValue::Boolean)
}

fn run_graph(nodes: Vec<(SchemaRef, Schemalet)>) -> CanonicalMap {
    let mut initial: SchemaletMap = RefMap::new();
    for (r, n) in nodes {
        initial.insert(r, n);
    }
    match run(initial, 64) {
        Ok(done) => done,
        Err(_) => panic!("the graph should converge"),
    }
}

/// Two object nodes combined under a conjunction merge into one object
/// carrying the key union.
#[test]
fn all_of_two_objects_unions_properties() {
    let x = id("x");
    let y = id("y");
    let a = id("a");
    let b = id("b");
    let c = id("c");
    let done = run_graph(vec![
        (x.clone(), raw(value_string())),
        (y.clone(), raw(value_integer())),
        (a.clone(), raw(value_object(vec![("x", x.clone())]))),
        (b.clone(), raw(value_object(vec![("y", y.clone())]))),
        (c.clone(), raw(SchemaletDetails::AllOf(vec![a.clone(), b.clone()]))),
    ]);
    let node = done.get(&c).expect("the conjunction must finish");
    match &node.details {
        CanonicalSchemaletDetails::Value(SchemaletValue::Object(o)) => {
            assert_eq!(o.properties.len(), 2);
            assert_eq!(o.properties[0].name, "x");
            assert!(ref_eq(&o.properties[0].schema, &x));
            assert_eq!(o.properties[1].name, "y");
            assert!(ref_eq(&o.properties[1].schema, &y));
            assert!(o.additional_properties.is_none());
        }
        _ => panic!("expected an object value"),
    }
}

/// A disjunction of a boolean and an object expands into three subset
/// nodes; the subset demanding both at once collapses to the empty
/// constraint and is pruned, leaving exactly two alternatives.
#[test]
fn any_of_two_incompatible_branches_keeps_two() {
    let b = id("b");
    let o = id("o");
    let any = id("any");
    let done = run_graph(vec![
        (b.clone(), raw(value_boolean())),
        (o.clone(), raw(value_object(vec![]))),
        (any.clone(), raw(SchemaletDetails::AnyOf(vec![b.clone(), o.clone()]))),
    ]);
    let node = done.get(&any).expect("the disjunction must finish");
    match &node.details {
        CanonicalSchemaletDetails::ExclusiveOneOf { typ, subschemas } => {
            assert!(typ.is_none());
            assert_eq!(subschemas.len(), 2);
            assert!(ref_eq(&subschemas[0], &b));
            assert!(ref_eq(&subschemas[1], &o));
        }
        _ => panic!("expected an exclusive union"),
    }
    // Three subset nodes and one conjunction node were spawned: together
    // with the three initial nodes the finished graph holds seven.
    assert_eq!(done.len(), 7);
    // The subset demanding both branches at once merged to the empty
    // constraint.
    let both = SchemaRef::Merge(vec![b.clone(), o.clone()]);
    let both_node = done.get(&both).expect("the spawned conjunction must finish");
    assert!(matches!(both_node.details, CanonicalSchemaletDetails::Nothing));
}

/// A single-branch exclusive union collapses to an alias for its branch.
#[test]
fn exclusive_one_of_single_branch_collapses_to_reference() {
    let x = id("x");
    let u = id("u");
    let done = run_graph(vec![
        (x.clone(), raw(value_boolean())),
        (u.clone(), raw(SchemaletDetails::ExclusiveOneOf(vec![x.clone()]))),
    ]);
    let node = done.get(&u).expect("the union must finish");
    match &node.details {
        CanonicalSchemaletDetails::Reference(r) => assert!(ref_eq(r, &x)),
        _ => panic!("expected an alias"),
    }
}

/// A zero-branch exclusive union collapses to the empty constraint.
#[test]
fn exclusive_one_of_no_branch_collapses_to_nothing() {
    let u = id("u");
    let done = run_graph(vec![(u.clone(), raw(SchemaletDetails::ExclusiveOneOf(vec![])))]);
    let node = done.get(&u).expect("the union must finish");
    assert!(matches!(node.details, CanonicalSchemaletDetails::Nothing));
}

/// An exclusive union whose branches share one type tag caches it; one
/// whose branches differ does not.
#[test]
fn exclusive_one_of_caches_uniform_type() {
    let a = id("a");
    let b = id("b");
    let u = id("u");
    let done = run_graph(vec![
        (a.clone(), raw(value_integer())),
        (b.clone(), raw(value_integer())),
        (u.clone(), raw(SchemaletDetails::ExclusiveOneOf(vec![a.clone(), b.clone()]))),
    ]);
    let node = done.get(&u).expect("the union must finish");
    match &node.details {
        CanonicalSchemaletDetails::ExclusiveOneOf { typ, subschemas } => {
            assert_eq!(*typ, Some(SchemaletType::Integer));
            assert_eq!(subschemas.len(), 2);
        }
        _ => panic!("expected an exclusive union"),
    }
}

/// A node whose only definition refers to itself makes no progress; the
/// run reports it rather than looping.
#[test]
fn self_referential_conjunction_fails_to_converge() {
    let c = id("c");
    let mut initial: SchemaletMap = RefMap::new();
    initial.insert(c.clone(), raw(SchemaletDetails::AllOf(vec![c.clone()])));
    match run(initial, 64) {
        Err(DriverError::Convergence { stuck, finished, unsupported, ceiling }) => {
            let stuck_refs = stuck.keys();
            assert_eq!(stuck_refs.len(), 1);
            assert!(ref_eq(&stuck_refs[0], &c));
            assert!(finished.is_empty());
            assert_eq!(unsupported.len(), 0);
            assert!(!ceiling);
        }
        _ => panic!("expected a convergence failure"),
    }
}

/// A conjunction over an exclusive union distributes: the pairing whose
/// members cannot share a value is never materialized, and the surviving
/// single pairing makes the node an alias for the new conjunction.
#[test]
fn all_of_distributes_over_exclusive_union() {
    let p = id("p");
    let q = id("q");
    let r = id("r");
    let u = id("u");
    let all = id("all");
    let done = run_graph(vec![
        (p.clone(), raw(value_boolean())),
        (q.clone(), raw(value_object(vec![]))),
        (r.clone(), raw(value_boolean())),
        (u.clone(), raw(SchemaletDetails::ExclusiveOneOf(vec![p.clone(), q.clone()]))),
        (all.clone(), raw(SchemaletDetails::AllOf(vec![u.clone(), r.clone()]))),
    ]);
    let merge_ref = SchemaRef::Merge(vec![p.clone(), r.clone()]);
    let node = done.get(&all).expect("the conjunction must finish");
    match &node.details {
        CanonicalSchemaletDetails::Reference(target) => assert!(ref_eq(target, &merge_ref)),
        _ => panic!("expected an alias for the surviving pairing"),
    }
    let merged = done.get(&merge_ref).expect("the pairing must finish");
    assert!(matches!(
        merged.details,
        CanonicalSchemaletDetails::Value(SchemaletValue::Boolean)
    ));
    // The pairing of the object branch with the boolean member was never
    // materialized.
    let dropped = SchemaRef::Merge(vec![q.clone(), r.clone()]);
    assert!(done.get(&dropped).is_none());
}

/// A conjunction of two nodes whose shapes the merge algebra has no rule
/// for is reported, with the offending pair, rather than invented.
#[test]
fn unsupported_merge_is_reported() {
    let a = id("a");
    let b = id("b");
    let all = id("all");
    let mut initial: SchemaletMap = RefMap::new();
    initial.insert(a.clone(), raw(value_integer()));
    initial.insert(b.clone(), raw(value_integer()));
    initial.insert(all.clone(), raw(SchemaletDetails::AllOf(vec![a.clone(), b.clone()])));
    match run(initial, 64) {
        Err(DriverError::Convergence { stuck, finished, unsupported, ceiling }) => {
            let stuck_refs = stuck.keys();
            assert_eq!(stuck_refs.len(), 1);
            assert!(ref_eq(&stuck_refs[0], &all));
            // The members themselves did finish; only the conjunction is
            // left in progress.
            assert!(finished.contains_key(&a));
            assert!(finished.contains_key(&b));
            assert_eq!(unsupported.len(), 1);
            assert!(ref_eq(&unsupported[0].at, &all));
            assert!(ref_eq(&unsupported[0].a, &a));
            assert!(ref_eq(&unsupported[0].b, &b));
            assert!(!ceiling);
        }
        _ => panic!("expected a convergence failure listing the unsupported merge"),
    }
}

/// An unresolved address reaching the engine is a contract violation and
/// aborts the run at once.
#[test]
fn unresolved_reference_is_a_contract_violation() {
    let a = id("a");
    let mut initial: SchemaletMap = RefMap::new();
    initial.insert(
        a.clone(),
        raw(SchemaletDetails::RawRef("https://example.com/other#/x".to_string())),
    );
    match run(initial, 64) {
        Err(DriverError::InternalContractViolation { at }) => assert!(ref_eq(&at, &a)),
        _ => panic!("expected a contract violation"),
    }
}

/// Exhausting the pass ceiling surfaces as the same convergence failure.
#[test]
fn pass_ceiling_reports_convergence_failure() {
    let c = id("c");
    let mut initial: SchemaletMap = RefMap::new();
    initial.insert(c.clone(), raw(value_boolean()));
    match run(initial, 0) {
        Err(DriverError::Convergence { stuck, ceiling, .. }) => {
            assert_eq!(stuck.len(), 1);
            assert!(stuck.contains_key(&c));
            assert!(ceiling);
        }
        _ => panic!("expected a convergence failure at the ceiling"),
    }
}

/// The merge algebra's identities on concrete shapes.
#[test]
fn merge_two_identities() {
    let anything = CanonicalSchemaletDetails::Anything;
    let nothing = CanonicalSchemaletDetails::Nothing;
    let boolean = CanonicalSchemaletDetails::Value(SchemaletValue::Boolean);
    let merged = merge_two(&anything, &boolean).expect("identity merge must succeed");
    assert!(canonical_details_eq(&merged, &boolean));
    let merged = merge_two(&boolean, &anything).expect("identity merge must succeed");
    assert!(canonical_details_eq(&merged, &boolean));
    let merged = merge_two(&nothing, &boolean).expect("absorbing merge must succeed");
    assert!(canonical_details_eq(&merged, &nothing));
    let merged = merge_two(&boolean, &nothing).expect("absorbing merge must succeed");
    assert!(canonical_details_eq(&merged, &nothing));
}

/// Two value constraints of different type tags merge to the empty
/// constraint.
#[test]
fn merge_two_prunes_incompatible_types() {
    let boolean = CanonicalSchemaletDetails::Value(SchemaletValue::Boolean);
    let integer = CanonicalSchemaletDetails::Value(SchemaletValue::Integer {
        minimum: None,
        exclusive_minimum: None,
    });
    let merged = merge_two(&boolean, &integer).expect("a type mismatch is a supported merge");
    assert!(matches!(merged, CanonicalSchemaletDetails::Nothing));
}

fn canonical(details: CanonicalSchemaletDetails) -> CanonicalSchemalet {
    CanonicalSchemalet { metadata: SchemaletMetadata::empty(), details }
}

/// Nodes resolving to value constraints of different tags are trivially
/// incompatible; same or unknown tags are not.
#[test]
fn trivially_incompatible_needs_different_known_tags() {
    let a = id("a");
    let b = id("b");
    let c = id("c");
    let mut done: CanonicalMap = RefMap::new();
    done.insert(
        a.clone(),
        canonical(CanonicalSchemaletDetails::Value(SchemaletValue::Boolean)),
    );
    done.insert(
        b.clone(),
        canonical(CanonicalSchemaletDetails::Value(SchemaletValue::Integer {
            minimum: None,
            exclusive_minimum: None,
        })),
    );
    done.insert(c.clone(), canonical(CanonicalSchemaletDetails::Anything));
    assert!(trivially_incompatible(&done, &a, &b));
    assert!(trivially_incompatible(&done, &b, &a));
    assert!(!trivially_incompatible(&done, &a, &a));
    assert!(!trivially_incompatible(&done, &a, &c));
}

/// Expanding a three-branch disjunction spawns one subset node per
/// non-empty subset: seven alternatives, with one conjunction node for
/// each of the four multi-member subsets.
#[test]
fn any_of_three_branches_expands_to_seven_subsets() {
    let a = id("a");
    let b = id("b");
    let c = id("c");
    let mut done: CanonicalMap = RefMap::new();
    done.insert(a.clone(), canonical(CanonicalSchemaletDetails::Value(SchemaletValue::Boolean)));
    done.insert(b.clone(), canonical(CanonicalSchemaletDetails::Value(SchemaletValue::Boolean)));
    done.insert(c.clone(), canonical(CanonicalSchemaletDetails::Value(SchemaletValue::Boolean)));
    let node = raw(SchemaletDetails::AnyOf(vec![a.clone(), b.clone(), c.clone()]));
    match node.simplify(&done) {
        Ok(State::Simplified(replacement, work)) => {
            match &replacement.details {
                SchemaletDetails::ExclusiveOneOf(branches) => assert_eq!(branches.len(), 7),
                _ => panic!("expected an exclusive union"),
            }
            assert_eq!(work.len(), 11);
        }
        _ => panic!("expected a rewrite"),
    }
}

/// An already-finished shape passes through one simplification step
/// unchanged.
#[test]
fn simplify_finished_shapes_is_idempotent() {
    let done: CanonicalMap = RefMap::new();
    match raw(SchemaletDetails::Anything).simplify(&done) {
        Ok(State::Canonical(node)) => {
            assert!(matches!(node.details, CanonicalSchemaletDetails::Anything))
        }
        _ => panic!("expected a finished node"),
    }
    match raw(value_boolean()).simplify(&done) {
        Ok(State::Canonical(node)) => assert!(matches!(
            node.details,
            CanonicalSchemaletDetails::Value(SchemaletValue::Boolean)
        )),
        _ => panic!("expected a finished node"),
    }
    let target = id("t");
    match raw(SchemaletDetails::ResolvedRef(target.clone())).simplify(&done) {
        Ok(State::Canonical(node)) => match &node.details {
            CanonicalSchemaletDetails::Reference(r) => assert!(ref_eq(r, &target)),
            _ => panic!("expected an alias"),
        },
        _ => panic!("expected a finished node"),
    }
    match raw(SchemaletDetails::YesNo { yes: id("y"), no: vec![] }).simplify(&done) {
        Ok(State::Stuck(_)) => {}
        _ => panic!("an exclusion over an unfinished node must wait"),
    }
    match raw(SchemaletDetails::RawDynamicRef("meta".to_string())).simplify(&done) {
        Err(SimplifyError::InternalContractViolation) => {}
        _ => panic!("an unresolved address must be a contract violation"),
    }
}

/// Documentation on an alias is gathered when the chain is resolved; the
/// first value seen wins and is never overwritten.
#[test]
fn resolve_with_metadata_keeps_first_documentation() {
    let a = id("a");
    let b = id("b");
    let c = id("c");
    let mut done: CanonicalMap = RefMap::new();
    done.insert(
        a.clone(),
        CanonicalSchemalet {
            metadata: SchemaletMetadata {
                title: Some("first title".to_string()),
                description: None,
                examples: Vec::new(),
            },
            details: CanonicalSchemaletDetails::Reference(b.clone()),
        },
    );
    done.insert(
        b.clone(),
        CanonicalSchemalet {
            metadata: SchemaletMetadata {
                title: Some("second title".to_string()),
                description: Some("alias description".to_string()),
                examples: Vec::new(),
            },
            details: CanonicalSchemaletDetails::Reference(c.clone()),
        },
    );
    done.insert(
        c.clone(),
        canonical(CanonicalSchemaletDetails::Value(SchemaletValue::Boolean)),
    );
    let resolved = resolve_with_metadata(&done, &a).expect("the chain must resolve");
    assert!(ref_eq(&resolved.schema_ref, &c));
    assert_eq!(resolved.title.as_deref(), Some("first title"));
    assert_eq!(resolved.description.as_deref(), Some("alias description"));
    assert!(matches!(
        resolved.node.details,
        CanonicalSchemaletDetails::Value(SchemaletValue::Boolean)
    ));
    // A dangling identity does not resolve.
    assert!(resolve_with_metadata(&done, &id("missing")).is_none());
}

/// A cycle among finished aliases is detected rather than chased forever.
#[test]
fn resolve_detects_finished_reference_cycles() {
    let a = id("a");
    let b = id("b");
    let mut done: CanonicalMap = RefMap::new();
    done.insert(a.clone(), canonical(CanonicalSchemaletDetails::Reference(b.clone())));
    done.insert(b.clone(), canonical(CanonicalSchemaletDetails::Reference(a.clone())));
    assert!(resolve_with_metadata(&done, &a).is_none());
}

/// A graph whose nodes are already terminal finishes within one pass.
#[test]
fn terminal_graph_converges_in_one_pass() {
    let a = id("a");
    let b = id("b");
    let mut initial: SchemaletMap = RefMap::new();
    initial.insert(a.clone(), raw(value_boolean()));
    initial.insert(b.clone(), raw(SchemaletDetails::ResolvedRef(a.clone())));
    let done = match run(initial, 1) {
        Ok(done) => done,
        Err(_) => panic!("a terminal graph must converge at once"),
    };
    assert_eq!(done.len(), 2);
    match &done.get(&b).expect("the alias must finish").details {
        CanonicalSchemaletDetails::Reference(target) => assert!(ref_eq(target, &a)),
        _ => panic!("expected an alias"),
    }
}

/// A disjunction with no branch expands to an empty union, which is the
/// empty constraint.
#[test]
fn any_of_no_branches_is_nothing() {
    let any = id("any");
    let done = run_graph(vec![(any.clone(), raw(SchemaletDetails::AnyOf(vec![])))]);
    let node = done.get(&any).expect("the disjunction must finish");
    assert!(matches!(node.details, CanonicalSchemaletDetails::Nothing));
}

/// Two objects declaring the same property key need a recursive merge
/// rule the algebra does not define; the gap is reported.
#[test]
fn object_key_conflict_is_unsupported() {
    let x1 = id("x1");
    let x2 = id("x2");
    let a = id("a");
    let b = id("b");
    let all = id("all");
    let mut initial: SchemaletMap = RefMap::new();
    initial.insert(x1.clone(), raw(value_string()));
    initial.insert(x2.clone(), raw(value_integer()));
    initial.insert(a.clone(), raw(value_object(vec![("x", x1.clone())])));
    initial.insert(b.clone(), raw(value_object(vec![("x", x2.clone())])));
    initial.insert(all.clone(), raw(SchemaletDetails::AllOf(vec![a.clone(), b.clone()])));
    match run(initial, 64) {
        Err(DriverError::Convergence { unsupported, ceiling, .. }) => {
            assert_eq!(unsupported.len(), 1);
            assert!(ref_eq(&unsupported[0].at, &all));
            assert!(!ceiling);
        }
        _ => panic!("expected the conflicting key to be reported"),
    }
}

/// Constants finish unchanged and carry their type tag.
#[test]
fn constants_finish_with_their_type() {
    let c = id("c");
    let u = id("u");
    let done = run_graph(vec![
        (
            c.clone(),
            raw(SchemaletDetails::Constant(ConstantValue::Text("on".to_string()))),
        ),
        (
            u.clone(),
            raw(SchemaletDetails::Constant(ConstantValue::Text("off".to_string()))),
        ),
    ]);
    let node = done.get(&c).expect("the constant must finish");
    match &node.details {
        CanonicalSchemaletDetails::Constant(ConstantValue::Text(s)) => assert_eq!(s, "on"),
        _ => panic!("expected a constant"),
    }
    assert_eq!(node.details.get_type(), Some(SchemaletType::String));
}

fn done_with(nodes: Vec<(SchemaRef, CanonicalSchemaletDetails)>) -> CanonicalMap {
    let mut done: CanonicalMap = RefMap::new();
    for (r, details) in nodes {
        done.insert(r, canonical(details));
    }
    done
}

/// An exclusion whose excluded members all have a different known type
/// tag is vacuous: the node collapses to an alias for its "yes" side.
#[test]
fn yes_no_vacuous_exclusion_collapses_to_reference() {
    let y = id("y");
    let n = id("n");
    let done = done_with(vec![
        (y.clone(), CanonicalSchemaletDetails::Value(SchemaletValue::Boolean)),
        (
            n.clone(),
            CanonicalSchemaletDetails::Value(SchemaletValue::Integer {
                minimum: None,
                exclusive_minimum: None,
            }),
        ),
    ]);
    let node = raw(SchemaletDetails::YesNo { yes: y.clone(), no: vec![n.clone()] });
    match node.simplify(&done) {
        Ok(State::Canonical(out)) => match &out.details {
            CanonicalSchemaletDetails::Reference(target) => assert!(ref_eq(target, &y)),
            _ => panic!("expected an alias for the yes side"),
        },
        _ => panic!("expected the exclusion to collapse"),
    }
}

/// An exclusion whose "yes" side is an exclusive union distributes over
/// the branches, spawning one exclusion per branch.
#[test]
fn yes_no_distributes_over_union() {
    let a = id("a");
    let b = id("b");
    let u = id("u");
    let n = id("n");
    let done = done_with(vec![
        (a.clone(), CanonicalSchemaletDetails::Value(SchemaletValue::Boolean)),
        (
            b.clone(),
            CanonicalSchemaletDetails::Value(SchemaletValue::Integer {
                minimum: None,
                exclusive_minimum: None,
            }),
        ),
        (
            u.clone(),
            CanonicalSchemaletDetails::ExclusiveOneOf {
                typ: None,
                subschemas: vec![a.clone(), b.clone()],
            },
        ),
        (n.clone(), CanonicalSchemaletDetails::Anything),
    ]);
    let node = raw(SchemaletDetails::YesNo { yes: u.clone(), no: vec![n.clone()] });
    match node.simplify(&done) {
        Ok(State::Simplified(replacement, work)) => {
            match &replacement.details {
                SchemaletDetails::ExclusiveOneOf(branches) => assert_eq!(branches.len(), 2),
                _ => panic!("expected an exclusive union over the distributed exclusions"),
            }
            assert_eq!(work.len(), 2);
            match &work[0].1.details {
                SchemaletDetails::YesNo { yes, no } => {
                    assert!(ref_eq(yes, &a));
                    assert_eq!(no.len(), 1);
                    assert!(ref_eq(&no[0], &n));
                }
                _ => panic!("expected a distributed exclusion"),
            }
        }
        _ => panic!("expected the exclusion to distribute"),
    }
}

/// An exclusion among nodes of one type needs a negative constraint the
/// algebra does not define; the gap is reported with the blocking member.
#[test]
fn yes_no_same_type_exclusion_is_unsupported() {
    let y = id("y");
    let n1 = id("n1");
    let n2 = id("n2");
    let done = done_with(vec![
        (y.clone(), CanonicalSchemaletDetails::Value(SchemaletValue::Boolean)),
        (
            n1.clone(),
            CanonicalSchemaletDetails::Value(SchemaletValue::Integer {
                minimum: None,
                exclusive_minimum: None,
            }),
        ),
        (n2.clone(), CanonicalSchemaletDetails::Value(SchemaletValue::Boolean)),
    ]);
    let node = raw(SchemaletDetails::YesNo { yes: y.clone(), no: vec![n1.clone(), n2.clone()] });
    match node.simplify(&done) {
        Err(SimplifyError::UnsupportedMerge { a, b }) => {
            assert!(ref_eq(&a, &y));
            assert!(ref_eq(&b, &n2));
        }
        _ => panic!("expected the same-type exclusion to be reported"),
    }
}

/// An exclusion of nothing at all is vacuous whatever the "yes" shape.
#[test]
fn yes_no_without_exclusions_is_an_alias() {
    let y = id("y");
    let done = done_with(vec![(y.clone(), CanonicalSchemaletDetails::Anything)]);
    let node = raw(SchemaletDetails::YesNo { yes: y.clone(), no: vec![] });
    match node.simplify(&done) {
        Ok(State::Canonical(out)) => match &out.details {
            CanonicalSchemaletDetails::Reference(target) => assert!(ref_eq(target, &y)),
            _ => panic!("expected an alias for the yes side"),
        },
        _ => panic!("expected the exclusion to collapse"),
    }
}

/// An exclusion whose "yes" side is the empty constraint stays empty.
#[test]
fn yes_no_from_nothing_stays_nothing() {
    let y = id("y");
    let n = id("n");
    let done = done_with(vec![
        (y.clone(), CanonicalSchemaletDetails::Nothing),
        (n.clone(), CanonicalSchemaletDetails::Anything),
    ]);
    let node = raw(SchemaletDetails::YesNo { yes: y.clone(), no: vec![n.clone()] });
    match node.simplify(&done) {
        Ok(State::Canonical(out)) => {
            assert!(matches!(out.details, CanonicalSchemaletDetails::Nothing))
        }
        _ => panic!("expected the empty constraint to stay empty"),
    }
}

/// A closed input graph finishes closed: every identity any finished
/// node mentions — the spawned synthetic ones included — is itself a key
/// of the finished map.
#[test]
fn finished_graph_is_closed() {
    let b = id("b");
    let o = id("o");
    let any = id("any");
    let done = run_graph(vec![
        (b.clone(), raw(value_boolean())),
        (o.clone(), raw(value_object(vec![]))),
        (any.clone(), raw(SchemaletDetails::AnyOf(vec![b.clone(), o.clone()]))),
    ]);
    let keys = done.keys();
    for (_, node) in done.into_entries() {
        for child in node.details.children() {
            assert!(
                keys.iter().any(|k| ref_eq(k, &child)),
                "a finished node mentions an identity that is not finished",
            );
        }
    }
}

/// A conjunction over an identity that was never extracted can never
/// resolve; the run reports it as stuck rather than inventing a node.
#[test]
fn dangling_dependency_fails_to_converge() {
    let a = id("a");
    let missing = id("missing");
    let mut initial: SchemaletMap = RefMap::new();
    initial.insert(a.clone(), raw(SchemaletDetails::AllOf(vec![missing.clone()])));
    match run(initial, 64) {
        Err(DriverError::Convergence { stuck, finished, unsupported, ceiling }) => {
            assert_eq!(stuck.len(), 1);
            assert!(stuck.contains_key(&a));
            assert!(finished.is_empty());
            assert_eq!(unsupported.len(), 0);
            assert!(!ceiling);
        }
        _ => panic!("expected a convergence failure on the dangling identity"),
    }
}
