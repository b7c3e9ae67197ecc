//! State labels and the per-state record of a DFA.

use vstd::prelude::*;

verus! {

/// Label of a state that marks a rejecting training example.
pub const REJECTING: i8 = 0;
/// Label of a state that marks an accepting training example.
pub const ACCEPTING: i8 = 1;
/// Label of a state about which the training set says nothing.
pub const UNLABELLED: i8 = 2;

/// Tri-valued state label: `REJECTING`, `ACCEPTING` or `UNLABELLED`.
pub type StateLabel = i8;

/// Holds whenever a label is one of the three admitted values.
pub open spec fn label_wf(label: StateLabel) -> bool {
    label == REJECTING || label == ACCEPTING || label == UNLABELLED
}

/// One state of a DFA: its label and one outgoing transition per symbol,
/// where `-1` stands for "no transition on this symbol".
pub struct State {
    pub label: StateLabel,
    pub transitions: Vec<i32>,
}

impl State {
    /// A state is well formed for a DFA with `n_states` states over
    /// `alphabet_size` symbols when its label is one of the three values and
    /// every transition is `-1` or a state id in range.
    pub open spec fn wf(self, n_states: int, alphabet_size: int) -> bool {
        &&& label_wf(self.label)
        &&& self.transitions@.len() == alphabet_size
        &&& forall|k: int|
            0 <= k < self.transitions@.len() ==> -1 <= #[trigger] self.transitions@[k] < n_states
    }
}

} // verus!
