use dfa_toolkit::dfa::{new_dfa, DFA};
use dfa_toolkit::dfa_state::{ACCEPTING, REJECTING, UNLABELLED};
use dfa_toolkit::edsm::exhaustive_edsm;
use dfa_toolkit::merge::{exhaustive_edsm_search, rpni_search};
use dfa_toolkit::rpni::rpni;

fn apta_conflict() -> DFA {
    let mut d = new_dfa();
    d.add_symbol();
    let s0 = d.add_state(ACCEPTING);
    let s1 = d.add_state(REJECTING);
    d.states[s0 as usize].transitions[0] = s1;
    d.starting_state_id = s0;
    d
}

fn apta_two_words() -> DFA {
    let mut d = new_dfa();
    d.add_symbol();
    d.add_symbol();
    let s0 = d.add_state(UNLABELLED);
    let s1 = d.add_state(ACCEPTING);
    let s2 = d.add_state(ACCEPTING);
    d.states[s0 as usize].transitions[0] = s1;
    d.states[s0 as usize].transitions[1] = s2;
    d.starting_state_id = s0;
    d
}

fn apta_cascade() -> DFA {
    let mut d = new_dfa();
    d.add_symbol();
    d.add_symbol();
    let s0 = d.add_state(UNLABELLED);
    let s1 = d.add_state(UNLABELLED);
    let s2 = d.add_state(UNLABELLED);
    let s3 = d.add_state(ACCEPTING);
    let s4 = d.add_state(REJECTING);
    d.states[s0 as usize].transitions[0] = s1;
    d.states[s0 as usize].transitions[1] = s2;
    d.states[s1 as usize].transitions[0] = s3;
    d.states[s2 as usize].transitions[0] = s4;
    d.starting_state_id = s0;
    d
}

/// Runs the DFA on a word and reports whether it ends in an accepting state.
fn accepts(d: &DFA, word: &[usize]) -> bool {
    let mut state = d.starting_state_id;
    for symbol in word {
        if state < 0 {
            return false;
        }
        state = d.states[state as usize].transitions[*symbol];
    }
    state >= 0 && d.states[state as usize].label == ACCEPTING
}

#[test]
fn rpni_keeps_conflicting_states_apart() {
    let d = apta_conflict();
    let (q, data) = rpni(d);
    assert_eq!(q.states.len(), 2);
    assert_eq!(data.attempted_merges_count, 1);
    assert_eq!(data.valid_merges_count, 0);
    assert!(accepts(&q, &[]));
    assert!(!accepts(&q, &[0]));
}

#[test]
fn rpni_merges_consistent_blocks_and_keeps_the_language() {
    let d = apta_two_words();
    let (q, data) = rpni(d);
    // every block is consistent here, so everything collapses into one
    // accepting block: first the popped frontier block merges into the
    // start block, then the remaining one
    assert_eq!(q.states.len(), 1);
    assert_eq!(data.attempted_merges_count, 2);
    assert_eq!(data.valid_merges_count, 2);
    assert!(accepts(&q, &[0]));
    assert!(accepts(&q, &[1]));
    assert!(accepts(&q, &[0, 1, 0]));
}

#[test]
fn rpni_search_returns_partition_with_empty_frontier_data() {
    let d = apta_cascade();
    let p = d.to_state_partition();
    let (result, data) = rpni_search(p);
    assert!(result.blocks_count >= 1);
    assert!(result.blocks_count <= 5);
    assert!(data.attempted_merges_count >= data.valid_merges_count);
    assert_eq!(data.merges.len(), 0);
    // label safety: the accepting and the rejecting state stay apart
    let mut check = result;
    assert!(!check.within_same_block(3, 4));
}

#[test]
fn edsm_scores_and_tie_break_follow_enumeration_order() {
    let d = apta_two_words();
    let (q, data) = exhaustive_edsm(d);
    // round one scores (0,1) and (0,2) at 0 and (1,2) at 1; strict
    // improvement picks (1,2); round two commits (0,1) at score 1
    assert_eq!(data.merges.len(), 2);
    assert_eq!(data.merges[0].state_1, 1);
    assert_eq!(data.merges[0].state_2, 2);
    assert_eq!(data.merges[0].score, 1);
    assert_eq!(data.merges[1].state_1, 0);
    assert_eq!(data.merges[1].state_2, 1);
    assert_eq!(data.merges[1].score, 1);
    assert_eq!(data.attempted_merges_count, 4);
    assert_eq!(data.valid_merges_count, 4);
    assert_eq!(q.states.len(), 1);
    assert!(accepts(&q, &[0]));
    assert!(accepts(&q, &[1]));
}

#[test]
fn edsm_rounds_shrink_the_partition() {
    let d = apta_cascade();
    let initial_labelled = {
        let p = d.to_state_partition();
        p.number_of_labelled_blocks()
    };
    let p = d.to_state_partition();
    let (result, data) = exhaustive_edsm_search(p, d.labelled_state_count());
    // one block fewer per committed round
    assert!(result.blocks_count as usize + data.merges.len() <= 5);
    // the labelled-block count never grows
    assert!(result.number_of_labelled_blocks() <= initial_labelled);
    // label safety survives the whole search
    let mut check = result;
    assert!(!check.within_same_block(3, 4));
}

#[test]
fn edsm_keeps_conflicting_states_apart() {
    let d = apta_conflict();
    let (q, data) = exhaustive_edsm(d);
    assert_eq!(q.states.len(), 2);
    assert_eq!(data.merges.len(), 0);
    assert_eq!(data.valid_merges_count, 0);
    assert_eq!(data.attempted_merges_count, 1);
}
