use state_machine::ast::{Specification, StateBlock, TransitionEdge};
use state_machine::parser::parse_specification;
use state_machine::table::{action_variants, build_table, state_variants};
use state_machine::validate::validate_specification;
use state_machine::CompileError;

fn ids(names: &[&str]) -> Vec<Vec<u8>> {
    names.iter().map(|n| n.as_bytes().to_vec()).collect()
}

fn float_spec_text() -> &'static [u8] {
    b"FloatState, FloatAction, \
      Sign { Sign | Digit => DigitsBeforeDot }, \
      DigitsBeforeDot { Digit => DigitsBeforeDot, Dot => DigitsAfterDot, Eos => Finished }, \
      DigitsAfterDot { Digit => DigitsAfterDot, Eos => Finished },"
}

#[test]
fn parse_names_and_blocks() {
    let sp = parse_specification(float_spec_text()).unwrap();
    assert_eq!(sp.state_name, b"FloatState".to_vec());
    assert_eq!(sp.action_name, b"FloatAction".to_vec());
    assert_eq!(sp.blocks.len(), 3);
    assert_eq!(sp.blocks[0].state, b"Sign".to_vec());
    assert_eq!(sp.blocks[0].edges.len(), 1);
    assert_eq!(sp.blocks[0].edges[0].actions, ids(&["Sign", "Digit"]));
    assert_eq!(sp.blocks[0].edges[0].targets, ids(&["DigitsBeforeDot"]));
    assert_eq!(sp.blocks[1].state, b"DigitsBeforeDot".to_vec());
    assert_eq!(sp.blocks[1].edges.len(), 3);
    assert_eq!(sp.blocks[2].edges[1].actions, ids(&["Eos"]));
    assert_eq!(sp.blocks[2].edges[1].targets, ids(&["Finished"]));
}

#[test]
fn parse_empty_block_list() {
    let sp = parse_specification(b"W, A,").unwrap();
    assert_eq!(sp.state_name, b"W".to_vec());
    assert_eq!(sp.action_name, b"A".to_vec());
    assert_eq!(sp.blocks.len(), 0);
}

#[test]
fn parse_without_trailing_comma() {
    let sp = parse_specification(b"W, A, S { x => T }").unwrap();
    assert_eq!(sp.blocks.len(), 1);
    assert_eq!(sp.blocks[0].edges[0].actions, ids(&["x"]));
}

#[test]
fn parse_rejects_empty_input() {
    assert!(parse_specification(b"").is_err());
    assert!(parse_specification(b"   ").is_err());
}

#[test]
fn parse_rejects_missing_separator() {
    assert!(parse_specification(b"W A,").is_err());
    assert!(parse_specification(b"W, A").is_err());
    assert!(parse_specification(b"W, A, S { x => T } S2 { y => T },").is_err());
}

#[test]
fn parse_rejects_empty_alternative_list() {
    assert!(parse_specification(b"W, A, S { => T },").is_err());
    assert!(parse_specification(b"W, A, S { x => },").is_err());
    assert!(parse_specification(b"W, A, S { x | => T },").is_err());
}

#[test]
fn parse_rejects_unterminated_group() {
    let e = parse_specification(b"W, A, S { x => T").unwrap_err();
    assert!(e.pos <= b"W, A, S { x => T".len());
    assert!(parse_specification(b"W, A, S { x => T,").is_err());
}

#[test]
fn parse_error_reports_offending_byte() {
    let e = parse_specification(b"W, A, S ! x => T },").unwrap_err();
    assert_eq!(e.pos, 8);
    assert_eq!(e.found, Some(b'!'));
}

#[test]
fn parse_tolerates_whitespace_everywhere() {
    let text = b"  W ,\n\tA ,\n S_1 {\n   go_2 | stop => T | _u ,\n } ,\n";
    let sp = parse_specification(text).unwrap();
    assert_eq!(sp.blocks[0].state, b"S_1".to_vec());
    assert_eq!(sp.blocks[0].edges[0].actions, ids(&["go_2", "stop"]));
    assert_eq!(sp.blocks[0].edges[0].targets, ids(&["T", "_u"]));
}

#[test]
fn parse_allows_empty_edge_list() {
    let sp = parse_specification(b"W, A, S { },").unwrap();
    assert_eq!(sp.blocks.len(), 1);
    assert_eq!(sp.blocks[0].edges.len(), 0);
}

#[test]
fn parse_rejects_identifier_starting_with_digit() {
    assert!(parse_specification(b"W, A, 1S { x => T },").is_err());
}

fn edge(actions: &[&str], targets: &[&str]) -> TransitionEdge {
    TransitionEdge { actions: ids(actions), targets: ids(targets) }
}

#[test]
fn consistency_accepts_distinct_actions() {
    let block = StateBlock {
        state: b"S".to_vec(),
        edges: vec![edge(&["x", "y"], &["T"]), edge(&["z"], &["U"])],
    };
    assert!(block.check_transitions_consistency());
}

#[test]
fn consistency_rejects_action_in_two_edges() {
    let block = StateBlock {
        state: b"S".to_vec(),
        edges: vec![edge(&["x"], &["T"]), edge(&["x"], &["U"])],
    };
    assert!(!block.check_transitions_consistency());
}

#[test]
fn consistency_rejects_action_twice_in_one_edge() {
    let block = StateBlock {
        state: b"S".to_vec(),
        edges: vec![edge(&["x", "x"], &["T"])],
    };
    assert!(!block.check_transitions_consistency());
}

#[test]
fn validation_names_offending_state() {
    let sp = Specification {
        state_name: b"W".to_vec(),
        action_name: b"A".to_vec(),
        blocks: vec![
            StateBlock { state: b"Good".to_vec(), edges: vec![edge(&["x"], &["T"])] },
            StateBlock {
                state: b"Bad".to_vec(),
                edges: vec![edge(&["x"], &["T"]), edge(&["x"], &["U"])],
            },
        ],
    };
    let e = validate_specification(&sp).unwrap_err();
    assert_eq!(e.state, b"Bad".to_vec());
}

#[test]
fn duplicate_action_rejected_before_generation() {
    let text = b"W, A, Ok1 { a => T }, S { x => B, x => C }, Ok2 { b => T },";
    match state_machine::state_machine(text) {
        Err(CompileError::DuplicateAction(e)) => assert_eq!(e.state, b"S".to_vec()),
        _ => panic!("expected a duplicate-action rejection"),
    }
}

#[test]
fn syntax_error_aborts_compilation() {
    match state_machine::state_machine(b"W, A, S { x => },") {
        Err(CompileError::Syntax(_)) => (),
        _ => panic!("expected a syntax error"),
    }
}

#[test]
fn variant_sets_are_unions_in_first_occurrence_order() {
    let sp = parse_specification(float_spec_text()).unwrap();
    let states = state_variants(&sp);
    let actions = action_variants(&sp);
    assert_eq!(states, ids(&["Sign", "DigitsBeforeDot", "DigitsAfterDot", "Finished"]));
    assert_eq!(actions, ids(&["Sign", "Digit", "Dot", "Eos"]));
}

#[test]
fn variant_sets_include_target_only_states() {
    let sp = parse_specification(b"W, A, S { go => End },").unwrap();
    let states = state_variants(&sp);
    assert_eq!(states, ids(&["S", "End"]));
}

#[test]
fn table_rows_flatten_action_alternatives() {
    let sp = parse_specification(b"W, A, S { x | y => T | U },").unwrap();
    let t = build_table(&sp);
    assert_eq!(t.edges.len(), 2);
    assert_eq!(t.edges[0].src, b"S".to_vec());
    assert_eq!(t.edges[0].action, b"x".to_vec());
    assert_eq!(t.edges[0].targets, ids(&["T", "U"]));
    assert_eq!(t.edges[1].action, b"y".to_vec());
    assert_eq!(t.edges[1].targets, ids(&["T", "U"]));
}

#[test]
fn compiled_table_for_float_machine() {
    let t = state_machine::state_machine(float_spec_text()).unwrap();
    assert_eq!(t.states, ids(&["Sign", "DigitsBeforeDot", "DigitsAfterDot", "Finished"]));
    assert_eq!(t.actions, ids(&["Sign", "Digit", "Dot", "Eos"]));
    assert_eq!(t.edges.len(), 7);
}
