use metis::jit::{compile_reach, ArtifactKind};
use metis::lang::{parse_stub, SourceFile};
use metis::types::NodeId;

#[test]
fn reach_unit_is_deterministic() {
    let a = NodeId::from_raw(1);
    let b = NodeId::from_raw(2);
    let x = compile_reach(a, b).unwrap();
    let y = compile_reach(a, b).unwrap();
    assert_eq!(x, y);
    assert_eq!(x.kind, ArtifactKind::Eager);
}

#[test]
fn reach_unit_depends_on_both_ends() {
    let a = NodeId::from_raw(1);
    let b = NodeId::from_raw(2);
    let x = compile_reach(a, b).unwrap();
    let y = compile_reach(b, a).unwrap();
    assert_ne!(x.unit, y.unit);
    assert_eq!(x.unit.get(), 589729691727335466);
}

#[test]
fn rejects_empty_accepts_text() {
    let empty = SourceFile { path: "a.island".into(), text: String::new() };
    assert!(parse_stub(&empty).is_err());
    let ok = SourceFile { path: "a.island".into(), text: "island ZFC {}".into() };
    assert_eq!(parse_stub(&ok).unwrap().byte_len, ok.text.len());
}

#[test]
fn byte_length_counts_utf8_bytes() {
    let src = SourceFile { path: "b.island".into(), text: "∅ ∈ {∅}".into() };
    assert_eq!(parse_stub(&src).unwrap().byte_len, 13);
}
