use periscope::parser::parse_witnesses;
use periscope::witness::{Assignment, WitnessFormat};
use periscope::{Prop, PropKind};

#[test]
fn minimal_block() {
    let input = b"sat\nb0\n@0\n.\n";
    let (w, used) = WitnessFormat::parse(input).unwrap();
    assert_eq!(used, input.len());
    assert_eq!(w.header.props, vec![Prop { kind: PropKind::Bad, idx: 0 }]);
    assert_eq!(w.frames.len(), 1);
    assert!(w.frames[0].state_part.is_none());
    assert_eq!(w.frames[0].input_part.step, 0);
    assert!(w.frames[0].input_part.model.assignments.is_empty());
}

#[test]
fn no_sat_marker_yields_zero_blocks() {
    let ws = parse_witnesses(b"unsat\n").unwrap();
    assert_eq!(ws.len(), 0);
}

#[test]
fn empty_input_yields_zero_blocks() {
    let ws = parse_witnesses(b"").unwrap();
    assert_eq!(ws.len(), 0);
}

#[test]
fn header_with_several_props() {
    let input = b"sat\nb0j1b2\n@0\n.\n";
    let (w, _) = WitnessFormat::parse(input).unwrap();
    assert_eq!(
        w.header.props,
        vec![
            Prop { kind: PropKind::Bad, idx: 0 },
            Prop { kind: PropKind::Justice, idx: 1 },
            Prop { kind: PropKind::Bad, idx: 2 },
        ]
    );
}

#[test]
fn header_without_props_is_malformed() {
    assert!(WitnessFormat::parse(b"sat\n\n@0\n.\n").is_err());
}

#[test]
fn missing_terminator_is_malformed() {
    assert!(WitnessFormat::parse(b"sat\nb0\n@0\n").is_err());
}

#[test]
fn scalar_assignment_with_name() {
    let input = b"sat\nb0\n@0\n5 0101 reset\n.\n";
    let (w, _) = WitnessFormat::parse(input).unwrap();
    let a = &w.frames[0].input_part.model.assignments[0];
    assert_eq!(a.id, 5);
    assert_eq!(a.index, None);
    assert_eq!(a.value, b"0101".to_vec());
    assert_eq!(a.name, Some(b"reset".to_vec()));
}

#[test]
fn anonymous_scalar_assignment() {
    let input = b"sat\nb0\n@0\n7 10\n.\n";
    let (w, _) = WitnessFormat::parse(input).unwrap();
    let a = &w.frames[0].input_part.model.assignments[0];
    assert_eq!(a.id, 7);
    assert_eq!(a.index, None);
    assert_eq!(a.value, b"10".to_vec());
    assert_eq!(a.name, None);
}

#[test]
fn array_assignment_with_index() {
    let input = b"sat\nb0\n@0\n2 3 0110 mem\n.\n";
    let (w, _) = WitnessFormat::parse(input).unwrap();
    let a = &w.frames[0].input_part.model.assignments[0];
    assert_eq!(a.id, 2);
    assert_eq!(a.index, Some(3));
    assert_eq!(a.value, b"0110".to_vec());
    assert_eq!(a.name, Some(b"mem".to_vec()));
}

#[test]
fn binary_shaped_token_is_the_value_not_an_index() {
    // the first binary-shaped token after the identifier is the value, so
    // `10` is the value and `0110` becomes the trailing name
    let input = b"sat\nb0\n@0\n1 10 0110\n.\n";
    let (w, _) = WitnessFormat::parse(input).unwrap();
    let a = &w.frames[0].input_part.model.assignments[0];
    assert_eq!(a.index, None);
    assert_eq!(a.value, b"10".to_vec());
    assert_eq!(a.name, Some(b"0110".to_vec()));
}

#[test]
fn comment_before_assignment_is_skipped() {
    let input = b"sat\nb0\n@0\n; a comment line\n5 01\n.\n";
    let (w, _) = WitnessFormat::parse(input).unwrap();
    let m = &w.frames[0].input_part.model.assignments;
    assert_eq!(m.len(), 1);
    assert_eq!(m[0].id, 5);
    assert_eq!(m[0].value, b"01".to_vec());
}

#[test]
fn state_and_input_parts() {
    let input = b"sat\nb1\n#0\n3 1 state_var\n@0\n4 0 in_var\n.\n";
    let (w, _) = WitnessFormat::parse(input).unwrap();
    assert_eq!(w.frames.len(), 1);
    let st = w.frames[0].state_part.as_ref().unwrap();
    assert_eq!(st.step, 0);
    assert_eq!(st.model.assignments[0].id, 3);
    assert_eq!(w.frames[0].input_part.step, 0);
    assert_eq!(w.frames[0].input_part.model.assignments[0].id, 4);
}

#[test]
fn several_frames_with_nondecreasing_steps() {
    let input = b"sat\nb0\n@0\n@1\n@1\n@3\n.\n";
    let (w, _) = WitnessFormat::parse(input).unwrap();
    assert_eq!(w.frames.len(), 4);
    let steps: Vec<u64> = w.frames.iter().map(|f| f.input_part.step).collect();
    assert_eq!(steps, vec![0, 1, 1, 3]);
}

#[test]
fn decreasing_state_step_is_rejected() {
    // the second frame's state step goes back behind the first frame's
    // input step: a malformed trace, not silently tolerated
    let input = b"sat\nb0\n@5\n#3\n@6\n.\n";
    assert!(WitnessFormat::parse(input).is_err());
    assert!(parse_witnesses(input).is_err());
}

#[test]
fn decreasing_input_step_is_rejected() {
    let input = b"sat\nb0\n@5\n@3\n.\n";
    assert!(WitnessFormat::parse(input).is_err());
}

#[test]
fn oversized_index_is_malformed() {
    let input = b"sat\nb99999999999999999999999\n@0\n.\n";
    assert!(WitnessFormat::parse(input).is_err());
}

#[test]
fn two_blocks_in_one_stream() {
    let input = b"sat\nb0\n@0\n.\nsat\nj1\n@2\n.\n";
    let ws = parse_witnesses(input).unwrap();
    assert_eq!(ws.len(), 2);
    assert_eq!(ws[0].header.props, vec![Prop { kind: PropKind::Bad, idx: 0 }]);
    assert_eq!(ws[1].header.props, vec![Prop { kind: PropKind::Justice, idx: 1 }]);
    assert_eq!(ws[1].frames[0].input_part.step, 2);
}

#[test]
fn preamble_and_trailer_text_are_skipped() {
    let input = b"checker output follows\nsat\nb0\n@0\n.\nall done\n";
    let ws = parse_witnesses(input).unwrap();
    assert_eq!(ws.len(), 1);
    assert_eq!(ws[0].header.props.len(), 1);
}

#[test]
fn malformed_block_after_marker_is_an_error() {
    // a `sat` marker followed by structurally invalid content is a parse
    // error, not a skipped line
    let input = b"sat\nb0\nno frames here\n";
    assert!(parse_witnesses(input).is_err());
}

#[test]
fn error_carries_remainder_position() {
    let input = b"sat\nb0\n@0\n";
    let e = WitnessFormat::parse(input).unwrap_err();
    assert!(e.pos <= input.len());
    // parsing stopped at the missing terminator, after the last frame
    assert_eq!(e.pos, input.len());
}

#[test]
fn error_position_points_into_the_malformed_header() {
    // the header marker is consumed; no property parses, so the
    // remainder begins right after the marker
    let e = WitnessFormat::parse(b"sat\nxyz\n@0\n.\n").unwrap_err();
    assert_eq!(e.pos, 4);
}

#[test]
fn error_position_points_at_the_backwards_frame() {
    let input = b"sat\nb0\n@5\n@3\n.\n";
    let e = WitnessFormat::parse(input).unwrap_err();
    // parsing stopped before the frame whose step goes backwards
    assert_eq!(e.pos, 10);
}

#[test]
fn round_trip_through_canonical_text() {
    let input =
        b"sat\nb0j3\n#0\n3 1 st\n@0\n; input comment\n4 0110 in0\n2 3 01\n@1\n7 10\n.\n";
    let (w, _) = WitnessFormat::parse(input).unwrap();
    let text = w.to_text();
    let (w2, used) = WitnessFormat::parse(&text).unwrap();
    assert_eq!(used, text.len());
    assert_eq!(w, w2);
}

#[test]
fn round_trip_of_multi_block_stream() {
    let input = b"sat\nb0\n@0\n.\nsat\nj1\n#2\n@2\n1 1\n.\n";
    let ws = parse_witnesses(input).unwrap();
    let mut text: Vec<u8> = Vec::new();
    for w in &ws {
        text.extend_from_slice(&w.to_text());
    }
    let ws2 = parse_witnesses(&text).unwrap();
    assert_eq!(ws, ws2);
}

#[test]
fn canonical_text_of_minimal_block() {
    let (w, _) = WitnessFormat::parse(b"sat\nb0\n@0\n.\n").unwrap();
    assert_eq!(w.to_text(), b"sat\nb0\n@0\n.\n".to_vec());
}

#[test]
fn prop_display_text() {
    let b = Prop { kind: PropKind::Bad, idx: 3 };
    assert_eq!(b.display_text(), b"Bad at 3".to_vec());
    let j = Prop { kind: PropKind::Justice, idx: 12 };
    assert_eq!(j.display_text(), b"Justice at 12".to_vec());
}

#[test]
fn terminator_without_final_newline() {
    let input = b"sat\nb0\n@0\n.";
    let (w, used) = WitnessFormat::parse(input).unwrap();
    assert_eq!(used, input.len());
    assert_eq!(w.frames.len(), 1);
}

#[test]
fn line_starting_with_sat_but_not_a_marker_is_skipped() {
    let ws = parse_witnesses(b"saturday run\nsat\nb0\n@0\n.\n").unwrap();
    assert_eq!(ws.len(), 1);
}

#[test]
fn largest_index_fits() {
    let input = b"sat\nb18446744073709551615\n@0\n.\n";
    let (w, _) = WitnessFormat::parse(input).unwrap();
    assert_eq!(w.header.props[0].idx, u64::MAX);
}

#[test]
fn index_one_past_the_largest_is_malformed() {
    let input = b"sat\nb18446744073709551616\n@0\n.\n";
    assert!(WitnessFormat::parse(input).is_err());
}

#[test]
fn assignment_equality_is_structural() {
    let a = Assignment { id: 1, index: None, value: b"01".to_vec(), name: None };
    let b = Assignment { id: 1, index: None, value: b"01".to_vec(), name: None };
    assert_eq!(a, b);
}
