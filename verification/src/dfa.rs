//! The DFA value: a record of states, transitions, alphabet and start state,
//! with builder operations, a labelled-state count, a reachability check and
//! validation.

use vstd::prelude::*;
use crate::dfa_state::{State, StateLabel, label_wf, ACCEPTING, REJECTING};

verus! {

broadcast use vstd::set::group_set_axioms;

/// Error raised when a DFA fails validation: it has no states, an out-of-range
/// starting state, no symbols, or an unreachable state.
#[derive(Debug, PartialEq, Eq, Structural, Clone, Copy)]
pub enum DfaError {
    InvalidDfa,
}

/// A deterministic finite automaton. `states` is indexed by state id starting
/// at 0; symbols are the indices `[0, alphabet.len())`; `starting_state_id`
/// is a state id, or `-1` when undefined.
pub struct DFA {
    pub states: Vec<State>,
    pub starting_state_id: i32,
    pub alphabet: Vec<i32>,
}

impl DFA {
    /// Number of states.
    pub open spec fn n_states(self) -> int {
        self.states@.len() as int
    }

    /// Number of symbols.
    pub open spec fn alphabet_size(self) -> int {
        self.alphabet@.len() as int
    }

    /// Structural well-formedness: ids fit in `i32` and every transition of
    /// every state is `-1` or a state id in range.
    pub open spec fn wf(self) -> bool {
        &&& self.n_states() <= i32::MAX
        &&& self.alphabet_size() <= i32::MAX
        &&& forall|s: int|
            0 <= s < self.n_states() ==> (#[trigger] self.states@[s]).wf(
                self.n_states(),
                self.alphabet_size(),
            )
    }

    /// There is a transition from state `p` to state `t` on some symbol.
    pub open spec fn step(self, p: int, t: int) -> bool {
        exists|k: int|
            0 <= k < self.alphabet_size() && self.states@[p].transitions@[k] == t
    }

    /// State `t` can be reached from the starting state by a path of at most
    /// `m` transitions.
    pub open spec fn reach_within(self, t: int, m: nat) -> bool
        decreases m,
    {
        if t == self.starting_state_id {
            true
        } else if m == 0 {
            false
        } else {
            exists|p: int|
                0 <= p < self.n_states() && self.reach_within(p, (m - 1) as nat)
                    && self.step(p, t)
        }
    }

    /// State `t` can be reached from the starting state.
    pub open spec fn reachable(self, t: int) -> bool {
        exists|m: nat| self.reach_within(t, m)
    }

    /// The DFA is valid: at least one state, a starting state in range, at
    /// least one symbol, and no unreachable state.
    pub open spec fn valid(self) -> bool {
        &&& self.n_states() >= 1
        &&& 0 <= self.starting_state_id < self.n_states()
        &&& self.alphabet_size() >= 1
        &&& forall|s: int| 0 <= s < self.n_states() ==> self.reachable(s)
    }

    /// Appends a state with the given label and an all-`-1` transition row;
    /// returns the new state's id.
    pub fn add_state(&mut self, state_label: StateLabel) -> (id: i32)
        requires
            old(self).wf(),
            label_wf(state_label),
            old(self).n_states() < i32::MAX,
        ensures
            final(self).wf(),
            id == old(self).n_states(),
            final(self).n_states() == old(self).n_states() + 1,
            final(self).states@[id as int].label == state_label,
            forall|k: int|
                0 <= k < final(self).alphabet_size()
                    ==> final(self).states@[id as int].transitions@[k] == -1,
            forall|s: int|
                0 <= s < old(self).n_states()
                    ==> final(self).states@[s] == old(self).states@[s],
            final(self).alphabet@ == old(self).alphabet@,
            final(self).starting_state_id == old(self).starting_state_id,
    {
        let mut transitions: Vec<i32> = Vec::new();
        let mut k: usize = 0;
        let alphabet_size = self.alphabet.len();
        while k < alphabet_size
            invariant
                k <= alphabet_size,
                transitions@.len() == k,
                forall|j: int| 0 <= j < k ==> transitions@[j] == -1,
            decreases alphabet_size - k,
        {
            transitions.push(-1);
            k = k + 1;
        }
        let id = self.states.len() as i32;
        self.states.push(State { label: state_label, transitions });
        id
    }

    /// Grows the alphabet by one symbol; every existing state gains one
    /// trailing `-1` transition.
    pub fn add_symbol(&mut self)
        requires
            old(self).wf(),
            old(self).alphabet_size() < i32::MAX,
        ensures
            final(self).wf(),
            final(self).alphabet_size() == old(self).alphabet_size() + 1,
            final(self).n_states() == old(self).n_states(),
            forall|s: int|
                0 <= s < old(self).n_states() ==> {
                    &&& (#[trigger] final(self).states@[s]).label == old(self).states@[s].label
                    &&& final(self).states@[s].transitions@ == old(self).states@[s].transitions@
                        + seq![-1i32]
                },
            final(self).starting_state_id == old(self).starting_state_id,
    {
        let symbol = self.alphabet.len() as i32;
        self.alphabet.push(symbol);
        let n = self.states.len();
        let mut i: usize = 0;
        while i < n
            invariant
                i <= n,
                n == self.states@.len(),
                self.alphabet@.len() == old(self).alphabet@.len() + 1,
                self.starting_state_id == old(self).starting_state_id,
                forall|s: int|
                    0 <= s < i ==> {
                        &&& (#[trigger] self.states@[s]).label == old(self).states@[s].label
                        &&& self.states@[s].transitions@ == old(self).states@[s].transitions@
                            + seq![-1i32]
                    },
                forall|s: int| i <= s < n ==> self.states@[s] == old(self).states@[s],
                old(self).wf(),
            decreases n - i,
        {
            self.states[i].transitions.push(-1);
            i = i + 1;
        }
        assert forall|s: int| 0 <= s < self.n_states() implies (#[trigger] self.states@[s]).wf(
            self.n_states(),
            self.alphabet_size(),
        ) by {
            assert(old(self).states@[s].wf(old(self).n_states(), old(self).alphabet_size()));
        }
    }

    /// True of a labelled (accepting or rejecting) state.
    pub open spec fn is_labelled(st: State) -> bool {
        st.label == ACCEPTING || st.label == REJECTING
    }

    /// Number of labelled states among the first `i` of `ss`.
    pub open spec fn labelled_count_to(ss: Seq<State>, i: int) -> int
        decreases i,
    {
        if i <= 0 {
            0
        } else {
            Self::labelled_count_to(ss, i - 1) + if Self::is_labelled(ss[i - 1]) {
                1int
            } else {
                0int
            }
        }
    }

    /// Number of labelled (accepting or rejecting) states.
    pub fn labelled_state_count(&self) -> (count: i32)
        requires
            self.wf(),
        ensures
            count == Self::labelled_count_to(self.states@, self.n_states()),
            0 <= count <= self.n_states(),
    {
        let mut count: i32 = 0;
        let n = self.states.len();
        let mut i: usize = 0;
        while i < n
            invariant
                i <= n,
                n == self.states@.len(),
                n <= i32::MAX,
                count == Self::labelled_count_to(self.states@, i as int),
                0 <= count <= i,
            decreases n - i,
        {
            let label = self.states[i].label;
            if label == ACCEPTING || label == REJECTING {
                count = count + 1;
            }
            i = i + 1;
        }
        count
    }

    /// The set of state ids marked `true` in a visited row.
    pub open spec fn visited_set(v: Seq<bool>) -> Set<int> {
        Set::new(|i: int| 0 <= i < v.len() && v[i])
    }

    /// A visited row is closed when every transition out of a visited state
    /// leads to a visited state.
    pub open spec fn visited_closed(self, v: Seq<bool>) -> bool {
        forall|p: int, k: int|
            0 <= p < self.n_states() && v[p] && 0 <= k < self.alphabet_size()
                && #[trigger] self.states@[p].transitions@[k] >= 0
                ==> v[self.states@[p].transitions@[k] as int]
    }

    /// A closed visited row that contains the starting state contains every
    /// state reachable within `m` steps.
    proof fn lemma_closed_covers(self, v: Seq<bool>, s: int, m: nat)
        requires
            self.wf(),
            v.len() == self.n_states(),
            0 <= self.starting_state_id < self.n_states(),
            v[self.starting_state_id as int],
            self.visited_closed(v),
            0 <= s < self.n_states(),
            self.reach_within(s, m),
        ensures
            v[s],
        decreases m,
    {
        if s != self.starting_state_id {
            let p = choose|p: int|
                0 <= p < self.n_states() && self.reach_within(p, (m - 1) as nat)
                    && self.step(p, s);
            self.lemma_closed_covers(v, p, (m - 1) as nat);
            let k = choose|k: int|
                0 <= k < self.alphabet_size() && self.states@[p].transitions@[k] == s;
            assert(self.states@[p].transitions@[k] >= 0);
        }
    }

    /// Returns the ids of the unreachable states, in increasing order.
    /// A breadth-first search from the starting state over the valid
    /// (non-`-1`) transitions visits exactly the reachable states.
    pub fn unreachable_states(&self) -> (res: Vec<i32>)
        requires
            self.wf(),
            0 <= self.starting_state_id < self.n_states(),
        ensures
            forall|i: int, j: int| 0 <= i < j < res@.len() ==> res@[i] < res@[j],
            forall|i: int|
                0 <= i < res@.len()
                    ==> 0 <= #[trigger] res@[i] < self.n_states() && !self.reachable(res@[i] as int),
            forall|s: int|
                0 <= s < self.n_states() && !self.reachable(s)
                    ==> exists|i: int| 0 <= i < res@.len() && res@[i] == s,
    {
        let n = self.states.len();
        let alphabet_size = self.alphabet.len();
        let mut visited: Vec<bool> = Vec::new();
        let mut i: usize = 0;
        while i < n
            invariant
                i <= n,
                visited@.len() == i,
                forall|j: int| 0 <= j < i ==> !visited@[j],
            decreases n - i,
        {
            visited.push(false);
            i = i + 1;
        }
        let start = self.starting_state_id as usize;
        visited[start] = true;
        let mut visited_count: usize = 1;
        let mut worklist: Vec<i32> = Vec::new();
        worklist.push(self.starting_state_id);
        proof {
            assert(Self::visited_set(visited@) =~= Set::empty().insert(start as int));
            vstd::set_lib::lemma_int_range(0, n as int);
            assert(Self::visited_set(visited@).subset_of(
                vstd::set_lib::set_int_range(0, n as int),
            ));
            vstd::set_lib::lemma_len_subset(
                Self::visited_set(visited@),
                vstd::set_lib::set_int_range(0, n as int),
            );
            assert(self.reach_within(self.starting_state_id as int, 0));
            assert(worklist@[0] == self.starting_state_id);
        }
        while worklist.len() > 0
            invariant
                self.wf(),
                0 <= self.starting_state_id < self.n_states(),
                n == self.n_states(),
                alphabet_size == self.alphabet_size(),
                visited@.len() == n,
                visited@[self.starting_state_id as int],
                visited_count == Self::visited_set(visited@).len(),
                Self::visited_set(visited@).finite(),
                visited_count <= n,
                forall|j: int|
                    0 <= j < worklist@.len()
                        ==> 0 <= #[trigger] worklist@[j] < n && visited@[worklist@[j] as int],
                forall|s: int| 0 <= s < n && visited@[s] ==> self.reachable(s),
                // every visited state is either still on the worklist or fully expanded
                forall|p: int, k: int|
                    0 <= p < n && visited@[p] && !worklist@.contains(p as i32)
                        && 0 <= k < alphabet_size
                        && #[trigger] self.states@[p].transitions@[k] >= 0
                        ==> visited@[self.states@[p].transitions@[k] as int],
            decreases n - visited_count, worklist@.len(),
        {
            let ghost entry_count = visited_count;
            let ghost pre_wl = worklist@;
            let cur = worklist.pop().unwrap();
            let cur_us = cur as usize;
            let ghost entry_worklist_len = pre_wl.len();
            proof {
                assert(cur == pre_wl[pre_wl.len() - 1]);
                assert forall|p: int, kk: int|
                    0 <= p < n && visited@[p] && p != cur as int
                        && !worklist@.contains(p as i32) && 0 <= kk < alphabet_size
                        && #[trigger] self.states@[p].transitions@[kk] >= 0
                    implies visited@[self.states@[p].transitions@[kk] as int] by {
                    if pre_wl.contains(p as i32) {
                        let j = choose|j: int| 0 <= j < pre_wl.len() && pre_wl[j] == p as i32;
                        assert(j != pre_wl.len() - 1);
                        assert(worklist@[j] == p as i32);
                        assert(false);
                    }
                }
            }
            let mut k: usize = 0;
            while k < alphabet_size
                invariant
                    self.wf(),
                    0 <= self.starting_state_id < self.n_states(),
                    n == self.n_states(),
                    alphabet_size == self.alphabet_size(),
                    visited@.len() == n,
                    visited@[self.starting_state_id as int],
                    k <= alphabet_size,
                    0 <= cur < n,
                    cur_us == cur as int,
                    visited@[cur as int],
                    self.reachable(cur as int),
                    visited_count == Self::visited_set(visited@).len(),
                    Self::visited_set(visited@).finite(),
                    visited_count <= n,
                    visited_count >= entry_count,
                    worklist@.len() == entry_worklist_len - 1 + (visited_count - entry_count),
                    forall|j: int|
                        0 <= j < worklist@.len()
                            ==> 0 <= #[trigger] worklist@[j] < n && visited@[worklist@[j] as int],
                    forall|s: int| 0 <= s < n && visited@[s] ==> self.reachable(s),
                    // cur is expanded up to symbol k; all other visited states keep
                    // the worklist-or-expanded property
                    forall|j: int|
                        0 <= j < k && #[trigger] self.states@[cur as int].transitions@[j] >= 0
                            ==> visited@[self.states@[cur as int].transitions@[j] as int],
                    forall|p: int, kk: int|
                        0 <= p < n && visited@[p] && p != cur as int
                            && !worklist@.contains(p as i32) && 0 <= kk < alphabet_size
                            && #[trigger] self.states@[p].transitions@[kk] >= 0
                            ==> visited@[self.states@[p].transitions@[kk] as int],
                decreases alphabet_size - k,
            {
                let t = self.states[cur_us].transitions[k];
                if t >= 0 {
                    let t_us = t as usize;
                    if !visited[t_us] {
                        let ghost old_visited = visited@;
                        let ghost pre_push = worklist@;
                        visited[t_us] = true;
                        worklist.push(t);
                        proof {
                            assert(worklist@[worklist@.len() - 1] == t);
                            assert forall|p: int|
                                0 <= p < n && !worklist@.contains(#[trigger] (p as i32)) implies
                                !pre_push.contains(p as i32) by {
                                if pre_push.contains(p as i32) {
                                    let j = choose|j: int|
                                        0 <= j < pre_push.len() && pre_push[j] == p as i32;
                                    assert(worklist@[j] == p as i32);
                                    assert(false);
                                }
                            }
                            assert(Self::visited_set(visited@) =~= Self::visited_set(
                                old_visited,
                            ).insert(t as int));
                            vstd::set_lib::lemma_int_range(0, n as int);
                            assert(Self::visited_set(visited@).subset_of(
                                vstd::set_lib::set_int_range(0, n as int),
                            ));
                            vstd::set_lib::lemma_len_subset(
                                Self::visited_set(visited@),
                                vstd::set_lib::set_int_range(0, n as int),
                            );
                            let m = choose|m: nat| self.reach_within(cur as int, m);
                            assert(self.states@[cur as int].transitions@[k as int] == t);
                            assert(self.step(cur as int, t as int));
                            if t as int != self.starting_state_id {
                                assert(self.reach_within(t as int, m + 1));
                            } else {
                                assert(self.reach_within(t as int, 0));
                            }
                            assert(self.reachable(t as int));
                        }
                        visited_count = visited_count + 1;
                    }
                }
                k = k + 1;
            }
        }
        // the worklist is empty, so the visited row is closed: unvisited
        // states are exactly the unreachable ones
        let mut res: Vec<i32> = Vec::new();
        let mut s: usize = 0;
        while s < n
            invariant
                self.wf(),
                0 <= self.starting_state_id < self.n_states(),
                n == self.n_states(),
                s <= n,
                visited@.len() == n,
                visited@[self.starting_state_id as int],
                self.visited_closed(visited@),
                forall|q: int| 0 <= q < n && visited@[q] ==> self.reachable(q),
                forall|i: int, j: int| 0 <= i < j < res@.len() ==> res@[i] < res@[j],
                forall|i: int|
                    0 <= i < res@.len()
                        ==> 0 <= #[trigger] res@[i] < s && !visited@[res@[i] as int],
                forall|q: int|
                    0 <= q < s && !visited@[q]
                        ==> exists|i: int| 0 <= i < res@.len() && res@[i] == q,
            decreases n - s,
        {
            let ghost old_res = res@;
            if !visited[s] {
                res.push(s as i32);
            }
            let ghost s0 = s as int;
            s = s + 1;
            proof {
                assert forall|q: int| 0 <= q < s && !visited@[q] implies exists|i: int|
                    0 <= i < res@.len() && res@[i] == q by {
                    if q == s0 {
                        assert(res@[old_res.len() as int] == q);
                    } else {
                        let i = choose|i: int| 0 <= i < old_res.len() && old_res[i] == q;
                        assert(res@[i] == q);
                    }
                }
            }
        }
        proof {
            assert forall|i: int| 0 <= i < res@.len() implies 0 <= #[trigger] res@[i]
                < self.n_states() && !self.reachable(res@[i] as int) by {
                assert(!visited@[res@[i] as int]);
                if self.reachable(res@[i] as int) {
                    let m = choose|m: nat| self.reach_within(res@[i] as int, m);
                    self.lemma_closed_covers(visited@, res@[i] as int, m);
                }
            }
            assert forall|q: int| 0 <= q < self.n_states() && !self.reachable(q) implies exists|
                i: int,
            | 0 <= i < res@.len() && res@[i] == q by {
                assert(!visited@[q]);
            }
        }
        res
    }

    /// Checks the DFA per the validity rules; returns `InvalidDfa` exactly
    /// when it has no states, an out-of-range starting state, no symbols, or
    /// an unreachable state.
    pub fn validate(&self) -> (res: Result<(), DfaError>)
        requires
            self.wf(),
        ensures
            res is Ok <==> self.valid(),
    {
        if self.states.len() < 1 {
            return Err(DfaError::InvalidDfa);
        }
        if self.starting_state_id < 0 || self.starting_state_id >= self.states.len() as i32 {
            return Err(DfaError::InvalidDfa);
        }
        if self.alphabet.len() < 1 {
            return Err(DfaError::InvalidDfa);
        }
        let unreachable = self.unreachable_states();
        if unreachable.len() > 0 {
            proof {
                assert(!self.reachable(unreachable@[0] as int));
            }
            return Err(DfaError::InvalidDfa);
        }
        proof {
            assert forall|s: int| 0 <= s < self.n_states() implies self.reachable(s) by {
                if !self.reachable(s) {
                    let i = choose|i: int|
                        0 <= i < unreachable@.len() && unreachable@[i] == s;
                }
            }
        }
        Ok(())
    }

    /// Insists that the DFA is valid: the caller must establish validity, so
    /// the call itself has nothing left to check at run time. To test an
    /// arbitrary DFA, use `validate`.
    pub fn is_valid_panic(&self)
        requires
            self.wf(),
            self.valid(),
    {
    }
}

/// Returns a new empty DFA: no states, no symbols, starting state undefined.
pub fn new_dfa() -> (d: DFA)
    ensures
        d.wf(),
        d.n_states() == 0,
        d.alphabet_size() == 0,
        d.starting_state_id == -1,
{
    DFA { states: Vec::new(), starting_state_id: -1, alphabet: Vec::new() }
}

} // verus!
