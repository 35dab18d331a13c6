use periscope::interpret::{interpret, interpret_all, ModelInfo, PropDecl, ResolveError};
use periscope::model::model_info_from_btor2;
use periscope::parser::parse_witnesses;
use periscope::witness::WitnessFormat;
use periscope::{BenchConfig, Prop, PropKind};

fn decl(node: u64, name: Option<&str>) -> PropDecl {
    PropDecl { node, name: name.map(String::from) }
}

#[test]
fn resolve_named_bad_property() {
    // a model declaring property b3 with node id 17 and name
    // "overflow_check"
    let model = ModelInfo {
        bads: vec![decl(2, None), decl(5, None), decl(9, None), decl(17, Some("overflow_check"))],
        justices: vec![],
    };
    let r = model.resolve(&Prop { kind: PropKind::Bad, idx: 3 }).unwrap();
    assert_eq!(r.kind, PropKind::Bad);
    assert_eq!(r.name, Some(String::from("overflow_check")));
    assert_eq!(r.node, 17);
    assert_eq!(r.idx, 3);
}

#[test]
fn resolve_is_scoped_by_kind() {
    let model = ModelInfo { bads: vec![decl(2, None)], justices: vec![decl(8, Some("live"))] };
    let r = model.resolve(&Prop { kind: PropKind::Justice, idx: 0 }).unwrap();
    assert_eq!(r.node, 8);
    assert_eq!(r.name, Some(String::from("live")));
    let e = model.resolve(&Prop { kind: PropKind::Justice, idx: 1 }).unwrap_err();
    assert_eq!(e, ResolveError::Undeclared { kind: PropKind::Justice, idx: 1 });
}

#[test]
fn resolve_unknown_index_fails() {
    let model = ModelInfo { bads: vec![decl(2, None)], justices: vec![] };
    let e = model.resolve(&Prop { kind: PropKind::Bad, idx: 1 }).unwrap_err();
    assert_eq!(e, ResolveError::Undeclared { kind: PropKind::Bad, idx: 1 });
}

#[test]
fn interpret_minimal_block() {
    // input `sat\nb0\n@0\n.\n` with a model where property b0 has node 5
    // and no name
    let (w, _) = WitnessFormat::parse(b"sat\nb0\n@0\n.\n").unwrap();
    let model = ModelInfo { bads: vec![decl(5, None)], justices: vec![] };
    let run = interpret(&w, Some(&model)).unwrap();
    assert_eq!(run.steps, 1);
    assert_eq!(run.props.len(), 1);
    assert_eq!(run.props[0].kind, PropKind::Bad);
    assert_eq!(run.props[0].name, None);
    assert_eq!(run.props[0].node, 5);
    assert_eq!(run.props[0].idx, 0);
}

#[test]
fn interpret_without_model_fails() {
    // no model input: resolution fails, no node id is fabricated
    let (w, _) = WitnessFormat::parse(b"sat\nb0\n@0\n.\n").unwrap();
    let e = interpret(&w, None).unwrap_err();
    assert_eq!(e, ResolveError::MissingModel);
}

#[test]
fn interpret_counts_frames() {
    let (w, _) = WitnessFormat::parse(b"sat\nb0\n@0\n@1\n@2\n.\n").unwrap();
    let model = ModelInfo { bads: vec![decl(5, None)], justices: vec![] };
    let run = interpret(&w, Some(&model)).unwrap();
    assert_eq!(run.steps, 3);
}

#[test]
fn interpret_all_preserves_block_order() {
    let ws = parse_witnesses(b"sat\nb0\n@0\n.\nsat\nb1\n@0\n@1\n.\n").unwrap();
    let model = ModelInfo { bads: vec![decl(5, None), decl(7, Some("b_one"))], justices: vec![] };
    let runs = interpret_all(&ws, Some(&model)).unwrap();
    assert_eq!(runs.len(), 2);
    assert_eq!(runs[0].props[0].node, 5);
    assert_eq!(runs[0].steps, 1);
    assert_eq!(runs[1].props[0].node, 7);
    assert_eq!(runs[1].props[0].name, Some(String::from("b_one")));
    assert_eq!(runs[1].steps, 2);
}

#[test]
fn interpret_all_without_model_fails() {
    let ws = parse_witnesses(b"sat\nb0\n@0\n.\n").unwrap();
    let e = interpret_all(&ws, None).unwrap_err();
    assert_eq!(e, ResolveError::MissingModel);
}

#[test]
fn interpret_all_of_nothing_is_empty() {
    let ws = parse_witnesses(b"unsat\n").unwrap();
    let runs = interpret_all(&ws, None).unwrap();
    assert!(runs.is_empty());
}

#[test]
fn model_extraction_reads_declarations_in_order() {
    let text = b"1 sort bitvec 1\n2 input 1 reset\n10 bad 9 overflow_check\n11 justice 9\n; a comment\n12 bad 9\n";
    let m = model_info_from_btor2(text);
    assert_eq!(m.bads.len(), 2);
    assert_eq!(m.bads[0].node, 10);
    assert_eq!(m.bads[0].name, Some(String::from("overflow_check")));
    assert_eq!(m.bads[1].node, 12);
    assert_eq!(m.bads[1].name, None);
    assert_eq!(m.justices.len(), 1);
    assert_eq!(m.justices[0].node, 11);
    assert_eq!(m.justices[0].name, None);
}

#[test]
fn model_extraction_skips_non_declarations() {
    let text = b"no digits here\nbad 1 2\n7 badge 1\n\n8 bad\n";
    let m = model_info_from_btor2(text);
    // `8 bad` has no operand and no name, but is still a declaration
    assert_eq!(m.bads.len(), 1);
    assert_eq!(m.bads[0].node, 8);
    assert_eq!(m.bads[0].name, None);
    assert!(m.justices.is_empty());
}

#[test]
fn extracted_model_resolves_a_witness() {
    let model_text =
        b"5 bad 4\n6 bad 4\n7 bad 4\n17 bad 4 overflow_check\n";
    let m = model_info_from_btor2(model_text);
    let r = m.resolve(&Prop { kind: PropKind::Bad, idx: 3 }).unwrap();
    assert_eq!(r.node, 17);
    assert_eq!(r.name, Some(String::from("overflow_check")));
    assert_eq!(r.idx, 3);
}

#[test]
fn bench_config_default_is_empty() {
    let c = BenchConfig::default();
    assert!(c.timeout.is_none());
    assert!(c.files.is_empty());
    assert!(c.runs.is_empty());
    assert!(c.results_path.is_none());
}
