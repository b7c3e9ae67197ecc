use dfa_toolkit::dfa::{new_dfa, DFA};
use dfa_toolkit::dfa_state::{ACCEPTING, REJECTING, UNLABELLED};
use dfa_toolkit::state_partition::StatePartition;

// state 0 (accepting) -- symbol 0 --> state 1 (rejecting)
fn apta_conflict() -> DFA {
    let mut d = new_dfa();
    d.add_symbol();
    let s0 = d.add_state(ACCEPTING);
    let s1 = d.add_state(REJECTING);
    d.states[s0 as usize].transitions[0] = s1;
    d.starting_state_id = s0;
    d
}

// state 0 (start, unlabelled) --0--> state 1 (accepting)
//                             --1--> state 2 (accepting)
fn apta_two_words() -> DFA {
    let mut d = new_dfa();
    d.add_symbol();
    d.add_symbol();
    let s0 = d.add_state(UNLABELLED);
    let s1 = d.add_state(ACCEPTING);
    let s2 = d.add_state(ACCEPTING);
    d.states[s0 as usize].transitions[0] = s1;
    d.states[s0 as usize].transitions[1] = s2;
    d.starting_state_id = s0;
    d
}

// 0 --0--> 1, 0 --1--> 2, 1 --0--> 3 (accepting), 2 --0--> 4 (rejecting)
fn apta_cascade() -> DFA {
    let mut d = new_dfa();
    d.add_symbol();
    d.add_symbol();
    let s0 = d.add_state(UNLABELLED);
    let s1 = d.add_state(UNLABELLED);
    let s2 = d.add_state(UNLABELLED);
    let s3 = d.add_state(ACCEPTING);
    let s4 = d.add_state(REJECTING);
    d.states[s0 as usize].transitions[0] = s1;
    d.states[s0 as usize].transitions[1] = s2;
    d.states[s1 as usize].transitions[0] = s3;
    d.states[s2 as usize].transitions[0] = s4;
    d.starting_state_id = s0;
    d
}

fn assert_partitions_equal(a: &StatePartition, b: &StatePartition) {
    assert_eq!(a.blocks.len(), b.blocks.len());
    for i in 0..a.blocks.len() {
        assert_eq!(a.blocks[i].root, b.blocks[i].root, "root of block {}", i);
        assert_eq!(a.blocks[i].size, b.blocks[i].size, "size of block {}", i);
        assert_eq!(a.blocks[i].link, b.blocks[i].link, "link of block {}", i);
        assert_eq!(a.blocks[i].label, b.blocks[i].label, "label of block {}", i);
        assert_eq!(a.blocks[i].changed, b.blocks[i].changed, "changed of block {}", i);
        assert_eq!(
            a.blocks[i].transitions, b.blocks[i].transitions,
            "transitions of block {}",
            i
        );
    }
    assert_eq!(a.blocks_count, b.blocks_count);
    assert_eq!(a.accepting_blocks_count, b.accepting_blocks_count);
    assert_eq!(a.rejecting_blocks_count, b.rejecting_blocks_count);
    assert_eq!(a.alphabet_size, b.alphabet_size);
    assert_eq!(a.starting_state_id, b.starting_state_id);
}

#[test]
fn new_partition_is_singleton_blocks() {
    let d = apta_two_words();
    let p = StatePartition::new(&d);
    assert_eq!(p.blocks_count, 3);
    assert_eq!(p.accepting_blocks_count, 2);
    assert_eq!(p.rejecting_blocks_count, 0);
    assert_eq!(p.alphabet_size, 2);
    assert_eq!(p.starting_state_id, 0);
    assert!(!p.is_copy);
    for i in 0..3 {
        assert_eq!(p.blocks[i].root, i as i32);
        assert_eq!(p.blocks[i].link, i as i32);
        assert_eq!(p.blocks[i].size, 1);
        assert_eq!(p.blocks[i].label, d.states[i].label);
        assert!(!p.blocks[i].changed);
        assert_eq!(p.blocks[i].transitions, d.states[i].transitions);
    }
}

#[test]
fn find_is_idempotent_at_runtime() {
    let d = apta_two_words();
    let mut p = d.to_state_partition();
    assert!(p.merge_states(1, 2));
    for s in 0..3 {
        let r = p.find(s);
        assert_eq!(p.find(r), r);
        assert_eq!(p.find(s), r);
    }
}

#[test]
fn merge_conflicting_roots_is_refused() {
    let d = apta_conflict();
    let mut p = d.to_state_partition();
    assert!(!p.merge_states(0, 1));
    // nothing was merged: the partition still has its two blocks
    assert_eq!(p.blocks_count, 2);
    assert!(!p.within_same_block(0, 1));
}

#[test]
fn merge_conflict_on_snapshot_rolls_back_to_base() {
    let d = apta_conflict();
    let base = d.to_state_partition();
    let mut snapshot = base.copy();
    assert!(!snapshot.merge_states(0, 1));
    snapshot.rollback_changes_from(&base);
    assert_partitions_equal(&snapshot, &base);
}

#[test]
fn merge_two_accepting_leaves_succeeds() {
    let d = apta_two_words();
    let mut p = d.to_state_partition();
    assert!(p.merge_states(1, 2));
    assert_eq!(p.blocks_count, 2);
    assert!(p.within_same_block(1, 2));
    assert!(!p.within_same_block(0, 1));
    assert_eq!(p.accepting_blocks_count, 1);
    let q = p.to_quotient_dfa();
    assert_eq!(q.states.len(), 2);
}

#[test]
fn cascading_merge_detects_deep_conflict() {
    let d = apta_cascade();
    let base = d.to_state_partition();
    let mut snapshot = base.copy();
    // merging 1 and 2 forces their shared symbol-0 targets 3 and 4 together,
    // which is an accept/reject conflict
    assert!(!snapshot.merge_states(1, 2));
    snapshot.rollback_changes_from(&base);
    assert_partitions_equal(&snapshot, &base);
}

#[test]
fn snapshot_rollback_restores_every_block() {
    let d = apta_cascade();
    let base = d.to_state_partition();
    let mut snapshot = base.copy();
    assert!(snapshot.merge_states(3, 1));
    // the snapshot drifted from the base
    assert_ne!(snapshot.blocks_count, base.blocks_count);
    snapshot.rollback_changes_from(&base);
    assert_partitions_equal(&snapshot, &base);
    assert_eq!(snapshot.changed_blocks_count, 0);
}

#[test]
fn commit_aligns_base_and_snapshot() {
    let d = apta_two_words();
    let mut base = d.to_state_partition();
    let mut snapshot = base.copy();
    assert!(snapshot.merge_states(1, 2));
    base.copy_changes_from(&mut snapshot);
    // a fresh snapshot of the committed base equals the old snapshot
    let fresh = base.copy();
    assert_partitions_equal(&fresh, &snapshot);
    assert_eq!(snapshot.changed_blocks_count, 0);
    assert_eq!(base.blocks_count, 2);
}

#[test]
fn snapshot_supports_a_second_attempt_after_commit() {
    let d = apta_cascade();
    let mut base = d.to_state_partition();
    let mut snapshot = base.copy();
    assert!(snapshot.merge_states(1, 2) == false);
    snapshot.rollback_changes_from(&base);
    assert!(snapshot.merge_states(3, 1));
    base.copy_changes_from(&mut snapshot);
    assert!(snapshot.merge_states(0, 1));
    base.copy_changes_from(&mut snapshot);
    assert_partitions_equal(&snapshot.clone(), &base.copy());
    assert_eq!(base.blocks_count, 3);
}

#[test]
fn changed_block_logs_only_on_a_copy() {
    let d = apta_two_words();
    let mut base = d.to_state_partition();
    base.changed_block(1);
    assert_eq!(base.changed_blocks_count, 0);
    assert!(!base.blocks[1].changed);
    let mut snapshot = base.copy();
    snapshot.changed_block(1);
    assert_eq!(snapshot.changed_blocks_count, 1);
    assert_eq!(snapshot.changed_blocks[0], 1);
    assert!(snapshot.blocks[1].changed);
    // a second mark of the same block is not logged twice
    snapshot.changed_block(1);
    assert_eq!(snapshot.changed_blocks_count, 1);
}

#[test]
fn union_by_size_keeps_larger_block_as_parent() {
    let d = apta_two_words();
    let mut p = d.to_state_partition();
    // merge 1 and 2: equal sizes, the left argument 1 becomes the parent
    assert!(p.merge_states(1, 2));
    assert_eq!(p.blocks[2].root, 1);
    assert_eq!(p.blocks[1].size, 2);
    // now merge 0 into the {1,2} block: the larger block 1 wins
    assert!(p.merge_states(0, 1));
    assert_eq!(p.blocks[0].root, 1);
    assert_eq!(p.blocks[1].size, 3);
}

#[test]
fn return_set_walks_the_link_cycle() {
    let d = apta_two_words();
    let mut p = d.to_state_partition();
    assert_eq!(p.return_set(1), vec![1]);
    assert!(p.merge_states(1, 2));
    let members = p.return_set(1);
    assert_eq!(members.len(), 2);
    assert!(members.contains(&1));
    assert!(members.contains(&2));
    // the cycle length matches the block size
    assert_eq!(members.len() as i32, p.blocks[1].size);
    // growing the block grows its cycle, still visiting each member once
    assert!(p.merge_states(0, 1));
    let root = p.find(0);
    let all = p.return_set(root);
    assert_eq!(all.len(), 3);
    assert!(all.contains(&0));
    assert!(all.contains(&1));
    assert!(all.contains(&2));
}

#[test]
fn root_blocks_lists_roots_in_order() {
    let d = apta_cascade();
    let mut p = d.to_state_partition();
    assert_eq!(p.root_blocks(), vec![0, 1, 2, 3, 4]);
    // 3 absorbs 1: equal sizes, the left argument becomes the parent
    assert!(p.merge_states(3, 1));
    assert_eq!(p.root_blocks(), vec![0, 2, 3, 4]);
    // count consistency: the counter matches the enumeration
    assert_eq!(p.root_blocks().len() as i32, p.blocks_count);
}

#[test]
fn labelled_block_counters_follow_merges() {
    let d = apta_two_words();
    let mut p = d.to_state_partition();
    assert_eq!(p.number_of_labelled_blocks(), 2);
    assert!(p.merge_states(1, 2));
    assert_eq!(p.number_of_labelled_blocks(), 1);
    assert_eq!(p.accepting_blocks_count, 1);
    assert_eq!(p.rejecting_blocks_count, 0);
}

#[test]
fn starting_block_follows_merges() {
    let d = apta_two_words();
    let mut p = d.to_state_partition();
    assert_eq!(p.starting_block(), 0);
    assert!(p.merge_states(0, 1));
    let sb = p.starting_block();
    assert_eq!(sb, p.find(0));
    assert_eq!(sb, p.find(1));
}

#[test]
fn ordered_blocks_starts_at_the_starting_block() {
    let d = apta_cascade();
    let mut p = d.to_state_partition();
    let order = p.ordered_blocks();
    assert_eq!(order.len(), 5);
    assert_eq!(order[0], 0);
    // every block is reachable here, so no -1 padding remains
    for x in &order {
        assert_ne!(*x, -1);
    }
}

#[test]
fn clone_is_deep() {
    let d = apta_two_words();
    let p = d.to_state_partition();
    let mut c = p.clone();
    assert!(c.merge_states(1, 2));
    // the original partition is untouched
    assert_eq!(p.blocks_count, 3);
    assert_eq!(c.blocks_count, 2);
}

#[test]
fn quotient_of_untouched_partition_reproduces_the_input() {
    let d = apta_cascade();
    let mut p = d.to_state_partition();
    let q = p.to_quotient_dfa();
    assert_eq!(q.states.len(), d.states.len());
    assert_eq!(q.alphabet.len(), d.alphabet.len());
    assert_eq!(q.starting_state_id, d.starting_state_id);
    for i in 0..d.states.len() {
        assert_eq!(q.states[i].label, d.states[i].label);
        assert_eq!(q.states[i].transitions, d.states[i].transitions);
    }
}

#[test]
fn quotient_resolves_transition_targets_to_blocks() {
    let d = apta_two_words();
    let mut p = d.to_state_partition();
    assert!(p.merge_states(1, 2));
    let q = p.to_quotient_dfa();
    assert_eq!(q.states.len(), 2);
    assert_eq!(q.starting_state_id, 0);
    assert_eq!(q.states[0].label, UNLABELLED);
    assert_eq!(q.states[1].label, ACCEPTING);
    // both symbols lead from the start block to the merged accepting block
    assert_eq!(q.states[0].transitions, vec![1, 1]);
    assert_eq!(q.states[1].transitions, vec![-1, -1]);
    // determinism: exactly one target slot per symbol, every target in range
    for st in &q.states {
        assert_eq!(st.transitions.len(), q.alphabet.len());
        for t in &st.transitions {
            assert!(*t == -1 || (*t >= 0 && (*t as usize) < q.states.len()));
        }
    }
}

#[test]
fn ordered_blocks_pads_blocks_unreachable_from_the_start() {
    let mut d = new_dfa();
    d.add_symbol();
    d.add_state(UNLABELLED);
    d.add_state(ACCEPTING);
    d.starting_state_id = 0;
    let mut p = d.to_state_partition();
    // state 1 has no incoming transition, so its block is never discovered
    assert_eq!(p.ordered_blocks(), vec![0, -1]);
}
