use dfa_toolkit::dfa::{new_dfa, DfaError, DFA};
use dfa_toolkit::dfa_state::{ACCEPTING, REJECTING, UNLABELLED};

fn two_state_chain() -> DFA {
    // state 0 (accepting) -- symbol 0 --> state 1 (rejecting)
    let mut d = new_dfa();
    d.add_symbol();
    let s0 = d.add_state(ACCEPTING);
    let s1 = d.add_state(REJECTING);
    d.states[s0 as usize].transitions[0] = s1;
    d.starting_state_id = s0;
    d
}

#[test]
fn new_dfa_is_empty() {
    let d = new_dfa();
    assert_eq!(d.states.len(), 0);
    assert_eq!(d.alphabet.len(), 0);
    assert_eq!(d.starting_state_id, -1);
}

#[test]
fn add_state_returns_fresh_ids_with_empty_transitions() {
    let mut d = new_dfa();
    d.add_symbol();
    d.add_symbol();
    let s0 = d.add_state(ACCEPTING);
    let s1 = d.add_state(UNLABELLED);
    assert_eq!(s0, 0);
    assert_eq!(s1, 1);
    assert_eq!(d.states[0].transitions, vec![-1, -1]);
    assert_eq!(d.states[1].transitions, vec![-1, -1]);
    assert_eq!(d.states[0].label, ACCEPTING);
    assert_eq!(d.states[1].label, UNLABELLED);
}

#[test]
fn add_symbol_extends_every_state() {
    let mut d = new_dfa();
    d.add_symbol();
    let s0 = d.add_state(ACCEPTING);
    d.states[s0 as usize].transitions[0] = s0;
    d.add_symbol();
    assert_eq!(d.alphabet.len(), 2);
    assert_eq!(d.states[0].transitions, vec![0, -1]);
}

#[test]
fn labelled_state_count_counts_accepting_and_rejecting() {
    let mut d = new_dfa();
    d.add_symbol();
    d.add_state(ACCEPTING);
    d.add_state(UNLABELLED);
    d.add_state(REJECTING);
    d.add_state(ACCEPTING);
    assert_eq!(d.labelled_state_count(), 3);
}

#[test]
fn unreachable_states_finds_orphans() {
    let mut d = new_dfa();
    d.add_symbol();
    let s0 = d.add_state(UNLABELLED);
    let s1 = d.add_state(ACCEPTING);
    let _s2 = d.add_state(REJECTING);
    let _s3 = d.add_state(UNLABELLED);
    d.states[s0 as usize].transitions[0] = s1;
    d.starting_state_id = s0;
    // states 2 and 3 are never reached
    assert_eq!(d.unreachable_states(), vec![2, 3]);
}

#[test]
fn unreachable_states_empty_when_all_reached() {
    let d = two_state_chain();
    assert_eq!(d.unreachable_states(), Vec::<i32>::new());
}

#[test]
fn validate_accepts_a_valid_dfa() {
    let d = two_state_chain();
    assert_eq!(d.validate(), Ok(()));
}

#[test]
fn validate_rejects_empty_dfa() {
    let mut d = new_dfa();
    d.add_symbol();
    assert_eq!(d.validate(), Err(DfaError::InvalidDfa));
}

#[test]
fn validate_rejects_bad_starting_state() {
    let mut d = two_state_chain();
    d.starting_state_id = 5;
    assert_eq!(d.validate(), Err(DfaError::InvalidDfa));
    d.starting_state_id = -1;
    assert_eq!(d.validate(), Err(DfaError::InvalidDfa));
}

#[test]
fn validate_rejects_empty_alphabet() {
    let mut d = new_dfa();
    d.add_state(ACCEPTING);
    d.starting_state_id = 0;
    assert_eq!(d.validate(), Err(DfaError::InvalidDfa));
}

#[test]
fn validate_rejects_unreachable_state() {
    let mut d = two_state_chain();
    d.add_state(UNLABELLED);
    assert_eq!(d.validate(), Err(DfaError::InvalidDfa));
}

#[test]
fn is_valid_panic_accepts_valid_dfa() {
    let d = two_state_chain();
    d.is_valid_panic();
}
