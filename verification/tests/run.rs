use state_machine::machine::{ActionValue, AdvanceError, StateValue, check_handler_result};
use state_machine::{State, state_machine};

fn ids(names: &[&str]) -> Vec<Vec<u8>> {
    names.iter().map(|n| n.as_bytes().to_vec()).collect()
}

fn float_spec_text() -> &'static [u8] {
    b"FloatState, FloatAction, \
      Sign { Sign | Digit => DigitsBeforeDot }, \
      DigitsBeforeDot { Digit => DigitsBeforeDot, Dot => DigitsAfterDot, Eos => Finished }, \
      DigitsAfterDot { Digit => DigitsAfterDot, Eos => Finished },"
}

#[derive(Debug, PartialEq)]
enum FloatSt {
    Sign,
    Before { pre: String },
    After { pre: String, post: String },
    Done { pre: String, post: String },
}

#[derive(Debug, PartialEq)]
enum FloatAct {
    Sign(char),
    Digit(char),
    Dot,
    Eos,
}

impl State<StateValue<FloatSt>, ActionValue<FloatAct>> for FloatSt {
    fn next(self, action: ActionValue<FloatAct>) -> StateValue<FloatSt> {
        match (self, action.payload) {
            (FloatSt::Sign, FloatAct::Sign(_)) => {
                StateValue::new(b"DigitsBeforeDot".to_vec(), FloatSt::Before { pre: String::new() })
            }
            (FloatSt::Sign, FloatAct::Digit(d)) => {
                StateValue::new(b"DigitsBeforeDot".to_vec(), FloatSt::Before { pre: d.to_string() })
            }
            (FloatSt::Before { mut pre }, FloatAct::Digit(d)) => {
                pre.push(d);
                StateValue::new(b"DigitsBeforeDot".to_vec(), FloatSt::Before { pre })
            }
            (FloatSt::Before { pre }, FloatAct::Dot) => {
                StateValue::new(b"DigitsAfterDot".to_vec(), FloatSt::After { pre, post: String::new() })
            }
            (FloatSt::Before { pre }, FloatAct::Eos) => {
                StateValue::new(b"Finished".to_vec(), FloatSt::Done { pre, post: String::new() })
            }
            (FloatSt::After { pre, mut post }, FloatAct::Digit(d)) => {
                post.push(d);
                StateValue::new(b"DigitsAfterDot".to_vec(), FloatSt::After { pre, post })
            }
            (FloatSt::After { pre, post }, FloatAct::Eos) => {
                StateValue::new(b"Finished".to_vec(), FloatSt::Done { pre, post })
            }
            (st, act) => panic!("handler invoked for an undeclared pair: {:?} / {:?}", st, act),
        }
    }
}

fn act(kind: &str, payload: FloatAct) -> ActionValue<FloatAct> {
    ActionValue::new(kind.as_bytes().to_vec(), payload)
}

#[test]
fn float_machine_reaches_finished() {
    let t = state_machine(float_spec_text()).unwrap();
    let mut st = StateValue::new(b"Sign".to_vec(), FloatSt::Sign);
    let script = vec![
        act("Digit", FloatAct::Digit('3')),
        act("Dot", FloatAct::Dot),
        act("Digit", FloatAct::Digit('1')),
        act("Digit", FloatAct::Digit('4')),
        act("Eos", FloatAct::Eos),
    ];
    for a in script {
        st = t.advance(st, a).unwrap();
    }
    assert_eq!(st.kind, b"Finished".to_vec());
    assert_eq!(st.payload, FloatSt::Done { pre: "3".to_string(), post: "14".to_string() });
}

#[test]
fn finished_state_rejects_dot_unchanged() {
    let t = state_machine(float_spec_text()).unwrap();
    let mut st = StateValue::new(b"Sign".to_vec(), FloatSt::Sign);
    for a in vec![
        act("Digit", FloatAct::Digit('3')),
        act("Dot", FloatAct::Dot),
        act("Digit", FloatAct::Digit('1')),
        act("Digit", FloatAct::Digit('4')),
        act("Eos", FloatAct::Eos),
    ] {
        st = t.advance(st, a).unwrap();
    }
    match t.advance(st, act("Dot", FloatAct::Dot)) {
        Err(AdvanceError::Rejected(s, a)) => {
            assert_eq!(s.kind, b"Finished".to_vec());
            assert_eq!(s.payload, FloatSt::Done { pre: "3".to_string(), post: "14".to_string() });
            assert_eq!(a.kind, b"Dot".to_vec());
            assert_eq!(a.payload, FloatAct::Dot);
        }
        _ => panic!("a terminal state must reject every action unchanged"),
    }
}

#[test]
fn undeclared_action_in_known_state_is_rejected() {
    let t = state_machine(float_spec_text()).unwrap();
    let st = StateValue::new(b"Sign".to_vec(), FloatSt::Sign);
    match t.advance(st, act("Eos", FloatAct::Eos)) {
        Err(AdvanceError::Rejected(s, a)) => {
            assert_eq!(s.kind, b"Sign".to_vec());
            assert_eq!(a.kind, b"Eos".to_vec());
        }
        _ => panic!("an undeclared action must be rejected, not dispatched"),
    }
}

/// A handler that always produces the state variant it was built with.
#[derive(Debug)]
struct Fixed {
    produce: Vec<u8>,
}

#[derive(Debug, PartialEq)]
struct Unit;

impl State<StateValue<Fixed>, ActionValue<Unit>> for Fixed {
    fn next(self, _action: ActionValue<Unit>) -> StateValue<Fixed> {
        let produce = self.produce.clone();
        StateValue::new(produce, self)
    }
}

#[test]
fn allowed_handler_result_never_violates() {
    let t = state_machine(b"W, A, S1 { Go => S2 | S3 },").unwrap();
    for target in ["S2", "S3"] {
        let st = StateValue::new(b"S1".to_vec(), Fixed { produce: target.as_bytes().to_vec() });
        let a = ActionValue::new(b"Go".to_vec(), Unit);
        let ns = t.advance(st, a).unwrap();
        assert_eq!(ns.kind, target.as_bytes().to_vec());
    }
}

#[test]
fn disallowed_handler_result_always_violates() {
    let t = state_machine(b"W, A, S1 { Go => S2 | S3 },").unwrap();
    for target in ["S1", "S4", "Go"] {
        let st = StateValue::new(b"S1".to_vec(), Fixed { produce: target.as_bytes().to_vec() });
        let a = ActionValue::new(b"Go".to_vec(), Unit);
        match t.advance(st, a) {
            Err(AdvanceError::ContractViolation(v)) => {
                assert_eq!(v.state, b"S1".to_vec());
                assert_eq!(v.action, b"Go".to_vec());
                assert_eq!(v.returned, target.as_bytes().to_vec());
                assert_eq!(v.allowed, ids(&["S2", "S3"]));
            }
            _ => panic!("a result outside the allowed set must be a violation"),
        }
    }
}

#[test]
fn self_loop_is_allowed_when_declared() {
    let t = state_machine(b"W, A, S1 { Go => S1 },").unwrap();
    let st = StateValue::new(b"S1".to_vec(), Fixed { produce: b"S1".to_vec() });
    let a = ActionValue::new(b"Go".to_vec(), Unit);
    let ns = t.advance(st, a).unwrap();
    assert_eq!(ns.kind, b"S1".to_vec());
}

#[test]
fn unknown_state_kind_is_treated_as_terminal() {
    let t = state_machine(b"W, A, S1 { Go => S2 },").unwrap();
    let st = StateValue::new(b"Nowhere".to_vec(), Fixed { produce: b"S2".to_vec() });
    let a = ActionValue::new(b"Go".to_vec(), Unit);
    match t.advance(st, a) {
        Err(AdvanceError::Rejected(s, a2)) => {
            assert_eq!(s.kind, b"Nowhere".to_vec());
            assert_eq!(a2.kind, b"Go".to_vec());
        }
        _ => panic!("an undeclared state must reject every action"),
    }
}

#[test]
fn first_declaration_of_a_state_wins() {
    let t = state_machine(b"W, A, S1 { Go => S2 }, S1 { Go => S3 },").unwrap();
    let st = StateValue::new(b"S1".to_vec(), Fixed { produce: b"S3".to_vec() });
    let a = ActionValue::new(b"Go".to_vec(), Unit);
    match t.advance(st, a) {
        Err(AdvanceError::ContractViolation(v)) => {
            assert_eq!(v.allowed, ids(&["S2"]));
        }
        _ => panic!("the first block for a state decides its edges"),
    }
}

#[test]
fn post_condition_check_is_exact() {
    let allowed = ids(&["S2", "S3"]);
    let ok = check_handler_result(
        &b"S1".to_vec(),
        &b"Go".to_vec(),
        &allowed,
        StateValue::new(b"S3".to_vec(), Unit),
    );
    match ok {
        Ok(s) => assert_eq!(s.kind, b"S3".to_vec()),
        Err(_) => panic!("an allowed variant must pass the check"),
    }
    let bad = check_handler_result(
        &b"S1".to_vec(),
        &b"Go".to_vec(),
        &allowed,
        StateValue::new(b"S9".to_vec(), Unit),
    );
    match bad {
        Err(v) => {
            assert_eq!(v.state, b"S1".to_vec());
            assert_eq!(v.action, b"Go".to_vec());
            assert_eq!(v.returned, b"S9".to_vec());
            assert_eq!(v.allowed, allowed);
        }
        Ok(_) => panic!("a variant outside the allowed set must fail the check"),
    }
}

#[test]
fn advance_is_deterministic_for_equal_inputs() {
    let text = b"W, A, S1 { Go => S2 },";
    let t1 = state_machine(text).unwrap();
    let t2 = state_machine(text).unwrap();
    let r1 = t1.advance(
        StateValue::new(b"S1".to_vec(), Fixed { produce: b"S2".to_vec() }),
        ActionValue::new(b"Go".to_vec(), Unit),
    );
    let r2 = t2.advance(
        StateValue::new(b"S1".to_vec(), Fixed { produce: b"S2".to_vec() }),
        ActionValue::new(b"Go".to_vec(), Unit),
    );
    assert_eq!(r1.unwrap().kind, r2.unwrap().kind);
}
