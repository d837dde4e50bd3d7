use metis::rules::{RelationSignature, RuleTable};
use metis::transform::TransformationSchema;
use metis::types::EdgeKind;

#[test]
fn signature_gates_kinds() {
    let mut sig = RelationSignature::new();
    assert!(!sig.allows(EdgeKind::Equal));
    sig.declare_kind(EdgeKind::Equal);
    assert!(sig.allows(EdgeKind::Equal));
    assert!(!sig.allows(EdgeKind::In));
}

#[test]
fn rule_table_holds_transitivity() {
    let mut rules = RuleTable::default();
    rules.declare_kind(EdgeKind::Equal);
    rules.add_transform(TransformationSchema::equal_transitivity());
    assert!(rules.has_transform("equal_transitivity"));
    assert_eq!(rules.signature.kind_count(), 1);
}

#[test]
fn declaring_twice_counts_once() {
    let mut sig = RelationSignature::default();
    sig.declare_kind(EdgeKind::Custom(7));
    sig.declare_kind(EdgeKind::Custom(7));
    sig.declare_kind(EdgeKind::In);
    assert_eq!(sig.kind_count(), 2);
    assert!(sig.allows(EdgeKind::Custom(7)));
    assert!(!sig.allows(EdgeKind::Custom(8)));
    let rules = RuleTable::default();
    assert!(!rules.has_transform("equal_transitivity"));
}

#[test]
fn declaring_counts_each_new_kind_once() {
    let mut sig = RelationSignature::new();
    sig.declare_kind(EdgeKind::Custom(1));
    assert_eq!(sig.kind_count(), 1);
    sig.declare_kind(EdgeKind::Custom(2));
    assert_eq!(sig.kind_count(), 2);
    sig.declare_kind(EdgeKind::Custom(1));
    assert_eq!(sig.kind_count(), 2);
    assert!(!sig.allows(EdgeKind::Custom(3)));
}
