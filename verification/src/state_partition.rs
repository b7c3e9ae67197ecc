//! The state partition: union-find with path compression and union-by-size
//! over blocks of DFA states, with per-block transition tables, label
//! aggregation, and a snapshot/rollback mechanism for speculative merges.

use vstd::prelude::*;
use crate::dfa::{DFA, new_dfa};
use crate::dfa_state::{StateLabel, label_wf, ACCEPTING, REJECTING, UNLABELLED};

verus! {

broadcast use vstd::set::group_set_axioms;

/// One block record per original state. `root` points towards the block's
/// representative (itself on a root); `size` and `transitions` are meaningful
/// on roots; `link` is a circular list connecting the members of a block;
/// `changed` marks blocks mutated since a snapshot was taken.
pub struct Block {
    pub root: i32,
    pub size: i32,
    pub link: i32,
    pub label: StateLabel,
    pub changed: bool,
    pub transitions: Vec<i32>,
}

/// A partition of the states of a DFA into blocks, implemented as union-find
/// over `blocks` (indexed by state id). When `is_copy` is set the partition
/// is a snapshot: every mutated block id is logged once in
/// `changed_blocks[0..changed_blocks_count]` so a rollback touches only what
/// changed.
pub struct StatePartition {
    pub blocks: Vec<Block>,
    pub blocks_count: i32,
    pub accepting_blocks_count: i32,
    pub rejecting_blocks_count: i32,
    pub alphabet_size: usize,
    pub starting_state_id: i32,
    pub is_copy: bool,
    pub changed_blocks: Vec<i32>,
    pub changed_blocks_count: i32,
}

/// Two blocks hold the same data in every field.
pub open spec fn block_eq(a: Block, b: Block) -> bool {
    &&& a.root == b.root
    &&& a.size == b.size
    &&& a.link == b.link
    &&& a.label == b.label
    &&& a.changed == b.changed
    &&& a.transitions@ == b.transitions@
}

/// Two blocks agree on everything except the union-find pointer and the
/// changed flag (what path compression may alter).
pub open spec fn block_eq_mod_uf(a: Block, b: Block) -> bool {
    &&& a.size == b.size
    &&& a.link == b.link
    &&& a.label == b.label
    &&& a.transitions@ == b.transitions@
}

/// Two blocks agree on everything except the changed flag.
pub open spec fn block_eq_mod_changed(a: Block, b: Block) -> bool {
    &&& a.root == b.root
    &&& a.size == b.size
    &&& a.link == b.link
    &&& a.label == b.label
    &&& a.transitions@ == b.transitions@
}

/// A member label is compatible with its block's label: an accepting member
/// forces an accepting block and a rejecting member a rejecting block.
pub open spec fn label_compat(member: StateLabel, block: StateLabel) -> bool {
    &&& member == ACCEPTING ==> block == ACCEPTING
    &&& member == REJECTING ==> block == REJECTING
}

/// The aggregated label of a union: an unlabelled parent adopts the child's
/// label, otherwise the parent's label stands.
pub open spec fn merged_label(parent: StateLabel, child: StateLabel) -> StateLabel {
    if parent == UNLABELLED && child != UNLABELLED {
        child
    } else {
        parent
    }
}

impl StatePartition {
    /// Number of blocks records (one per original state).
    pub open spec fn n(self) -> int {
        self.blocks@.len() as int
    }

    /// `s` is a state id in range.
    pub open spec fn in_range(self, s: int) -> bool {
        0 <= s < self.n()
    }

    /// The union-find pointer of state `s`.
    pub open spec fn parent(self, s: int) -> int {
        self.blocks@[s].root as int
    }

    /// `s` is the representative of its block.
    pub open spec fn is_root(self, s: int) -> bool {
        self.parent(s) == s
    }

    /// Follows `root` pointers from `s` for at most `k` steps, stopping at a
    /// root.
    pub open spec fn walk(self, s: int, k: nat) -> int
        decreases k,
    {
        if k == 0 || self.is_root(s) {
            s
        } else {
            self.walk(self.parent(s), (k - 1) as nat)
        }
    }

    /// Number of steps from `s` to its root, capped at fuel `k`.
    pub open spec fn dist_to(self, s: int, k: nat) -> nat
        decreases k,
    {
        if k == 0 || self.is_root(s) {
            0
        } else {
            1 + self.dist_to(self.parent(s), (k - 1) as nat)
        }
    }

    /// The chain of `root` pointers from `s` ends at a root within `k` steps.
    pub open spec fn rooted_in(self, s: int, k: nat) -> bool {
        self.is_root(self.walk(s, k))
    }

    /// The representative of the block containing `s`.
    pub open spec fn rep(self, s: int) -> int {
        self.walk(s, self.n() as nat)
    }

    /// Number of steps from `s` to its root.
    pub open spec fn dist(self, s: int) -> nat {
        self.dist_to(s, self.n() as nat)
    }

    /// The set of states in the block whose representative is `r`.
    pub open spec fn class(self, r: int) -> Set<int> {
        Set::new(|s: int| self.in_range(s) && self.rep(s) == r)
    }

    /// The set of current root blocks.
    pub open spec fn roots_set(self) -> Set<int> {
        Set::new(|s: int| self.in_range(s) && self.is_root(s))
    }

    /// The set of current root blocks carrying the given label.
    pub open spec fn labelled_roots(self, label: StateLabel) -> Set<int> {
        Set::new(|s: int| self.in_range(s) && self.is_root(s) && self.blocks@[s].label == label)
    }

    /// The set of blocks whose changed flag is set.
    pub open spec fn changed_set(self) -> Set<int> {
        Set::new(|s: int| self.in_range(s) && self.blocks@[s].changed)
    }

    /// Per-block domain conditions: pointers and transition targets in range,
    /// admitted label values, one transition per symbol.
    pub open spec fn block_dom_ok(self, s: int) -> bool {
        &&& 0 <= self.parent(s) < self.n()
        &&& 0 <= self.blocks@[s].link < self.n()
        &&& label_wf(self.blocks@[s].label)
        &&& self.blocks@[s].transitions@.len() == self.alphabet_size
        &&& forall|k: int|
            0 <= k < self.blocks@[s].transitions@.len()
                ==> -1 <= #[trigger] self.blocks@[s].transitions@[k] < self.n()
    }

    /// Domain conditions for the whole partition.
    pub open spec fn dom_ok(self) -> bool {
        &&& self.n() <= i32::MAX
        &&& self.alphabet_size <= i32::MAX
        &&& forall|s: int| self.in_range(s) ==> self.block_dom_ok(s)
    }

    /// Every state reaches a root within `n` steps.
    pub open spec fn reaches_ok(self) -> bool {
        forall|s: int| self.in_range(s) ==> #[trigger] self.rooted_in(s, self.n() as nat)
    }

    /// The root's `size` field is the number of states in its block.
    pub open spec fn size_ok_at(self, r: int) -> bool {
        &&& self.class(r).finite()
        &&& self.blocks@[r].size == self.class(r).len()
    }

    /// Every root's `size` field is the number of states in its block.
    pub open spec fn sizes_ok(self) -> bool {
        forall|r: int| self.in_range(r) && self.is_root(r) ==> #[trigger] self.size_ok_at(r)
    }

    /// The state's distance to its root is below the size of its block.
    pub open spec fn depth_ok_at(self, s: int) -> bool {
        self.dist(s) < self.blocks@[self.rep(s)].size
    }

    /// Every state's distance to its root is below the size of its block.
    pub open spec fn depth_ok(self) -> bool {
        forall|s: int| self.in_range(s) ==> #[trigger] self.depth_ok_at(s)
    }

    /// The member after `s` on its block's circular `link` list.
    pub open spec fn succ(self, s: int) -> int {
        self.blocks@[s].link as int
    }

    /// Follows `link` pointers from `s` for exactly `k` steps.
    pub open spec fn lwalk(self, s: int, k: nat) -> int
        decreases k,
    {
        if k == 0 {
            s
        } else {
            self.lwalk(self.succ(s), (k - 1) as nat)
        }
    }

    /// The members seen in the first `j` steps of the `link` walk from `r`.
    pub open spec fn lwalk_image(self, r: int, j: int) -> Set<int> {
        Set::new(
            |m: int| exists|i: int| 0 <= i < j && (#[trigger] self.lwalk(r, i as nat)) == m,
        )
    }

    /// The `link` list of the root `r` is a cycle through its whole block:
    /// it returns to `r` after exactly `size` steps and passes every member
    /// on the way.
    pub open spec fn cycle_ok_at(self, r: int) -> bool {
        &&& self.lwalk(r, self.blocks@[r].size as nat) == r
        &&& forall|m: int|
            self.class(r).contains(m) ==> exists|i: int|
                0 <= i < self.blocks@[r].size && (#[trigger] self.lwalk(r, i as nat)) == m
    }

    /// Every `link` stays within its block, and every root's `link` list is
    /// a cycle through exactly its block.
    pub open spec fn cycles_ok(self) -> bool {
        &&& forall|s: int|
            self.in_range(s) ==> self.in_range(#[trigger] self.succ(s)) && self.rep(
                self.succ(s),
            ) == self.rep(s)
        &&& forall|r: int|
            self.in_range(r) && self.is_root(r) ==> #[trigger] self.cycle_ok_at(r)
    }

    /// The stored counters agree with the number of root blocks and the
    /// number of accepting and rejecting root blocks.
    pub open spec fn counts_ok(self) -> bool {
        &&& self.roots_set().finite()
        &&& self.blocks_count == self.roots_set().len()
        &&& self.labelled_roots(ACCEPTING).finite()
        &&& self.accepting_blocks_count == self.labelled_roots(ACCEPTING).len()
        &&& self.labelled_roots(REJECTING).finite()
        &&& self.rejecting_blocks_count == self.labelled_roots(REJECTING).len()
    }

    /// Every member's label is compatible with the label of its block's root:
    /// an accepting member sits in an accepting block and a rejecting member
    /// in a rejecting one.
    pub open spec fn labels_ok(self) -> bool {
        forall|s: int|
            self.in_range(s) ==> #[trigger] label_compat(
                self.blocks@[s].label,
                self.blocks@[self.rep(s)].label,
            )
    }

    /// The change log is exact. A partition that is not a copy has no change
    /// marks at all; a copy logs exactly the blocks whose changed flag is
    /// set, each within the pre-allocated log buffer.
    pub open spec fn log_ok(self) -> bool {
        if !self.is_copy {
            &&& self.changed_blocks_count == 0
            &&& forall|s: int| self.in_range(s) ==> !(#[trigger] self.blocks@[s].changed)
        } else {
            &&& self.changed_blocks@.len() == self.n()
            &&& 0 <= self.changed_blocks_count <= self.n()
            &&& forall|j: int|
                0 <= j < self.changed_blocks_count ==> 0 <= #[trigger] self.changed_blocks@[j]
                    < self.n()
            &&& forall|s: int|
                self.in_range(s) ==> ((#[trigger] self.blocks@[s].changed) <==> exists|j: int|
                    0 <= j < self.changed_blocks_count && self.changed_blocks@[j] == s)
            &&& self.changed_set().finite()
            &&& self.changed_blocks_count == self.changed_set().len()
        }
    }

    /// A labelled block holds a member that carries the block's label
    /// itself: block labels are always witnessed by a member state.
    pub open spec fn label_witnessed_at(self, r: int) -> bool {
        self.blocks@[r].label != UNLABELLED ==> exists|s: int|
            (#[trigger] self.class(r).contains(s)) && self.blocks@[s].label
                == self.blocks@[r].label
    }

    /// Every labelled root block's label is witnessed by a member.
    pub open spec fn labels_witnessed(self) -> bool {
        forall|r: int|
            self.in_range(r) && self.is_root(r) ==> #[trigger] self.label_witnessed_at(r)
    }

    /// Full well-formedness of a partition.
    pub open spec fn wf(self) -> bool {
        &&& self.dom_ok()
        &&& self.reaches_ok()
        &&& self.sizes_ok()
        &&& self.depth_ok()
        &&& self.counts_ok()
        &&& self.labels_ok()
        &&& self.log_ok()
        &&& self.cycles_ok()
        &&& self.labels_witnessed()
    }

    /// The snapshot `self` tracks the base `base`: same shape, and every
    /// block not marked changed still holds the base's data.
    pub open spec fn sync_with(self, base: StatePartition) -> bool {
        &&& self.is_copy
        &&& !base.is_copy
        &&& self.n() == base.n()
        &&& self.alphabet_size == base.alphabet_size
        &&& self.starting_state_id == base.starting_state_id
        &&& forall|s: int|
            self.in_range(s) && !(#[trigger] self.blocks@[s].changed) ==> block_eq(
                self.blocks@[s],
                base.blocks@[s],
            )
    }

    /// All blocks of the two partitions are equal, field by field.
    pub open spec fn blocks_eq(self, other: StatePartition) -> bool {
        &&& self.n() == other.n()
        &&& forall|s: int|
            self.in_range(s) ==> block_eq(#[trigger] self.blocks@[s], other.blocks@[s])
    }

    /// The three block counters of the two partitions are equal.
    pub open spec fn counts_eq(self, other: StatePartition) -> bool {
        &&& self.blocks_count == other.blocks_count
        &&& self.accepting_blocks_count == other.accepting_blocks_count
        &&& self.rejecting_blocks_count == other.rejecting_blocks_count
    }

    /// The fixed shape of a partition: number of blocks, alphabet, starting
    /// state, copy flag and log capacity. Mutating operations preserve it.
    pub open spec fn same_shape(self, other: StatePartition) -> bool {
        &&& self.n() == other.n()
        &&& self.alphabet_size == other.alphabet_size
        &&& self.starting_state_id == other.starting_state_id
        &&& self.is_copy == other.is_copy
        &&& self.changed_blocks@.len() == other.changed_blocks@.len()
    }

    /// Changed flags only ever get set by mutating operations on a copy.
    pub open spec fn flags_monotone(pre: StatePartition, post: StatePartition) -> bool {
        forall|s: int|
            pre.in_range(s) && (#[trigger] pre.blocks@[s].changed) ==> post.blocks@[s].changed
    }

    /// Blocks not marked changed afterwards were not touched (so a snapshot
    /// keeps tracking any base it tracked before).
    pub open spec fn frame_ok(pre: StatePartition, post: StatePartition) -> bool {
        forall|s: int|
            pre.in_range(s) && !(#[trigger] post.blocks@[s].changed) ==> block_eq(
                post.blocks@[s],
                pre.blocks@[s],
            )
    }

    /// The combined guarantee a mutating operation gives on a copy; together
    /// with `sync_with` before the call it yields `sync_with` after it.
    pub open spec fn copy_step(pre: StatePartition, post: StatePartition) -> bool {
        pre.is_copy ==> Self::flags_monotone(pre, post) && Self::frame_ok(pre, post)
    }
}

/// `copy_step` composes: two successive mutating operations together still
/// only set flags and only rewrite flagged blocks.
pub proof fn lemma_copy_step_trans(a: StatePartition, b: StatePartition, c: StatePartition)
    requires
        StatePartition::copy_step(a, b),
        StatePartition::copy_step(b, c),
        b.is_copy == a.is_copy,
        b.n() == a.n(),
    ensures
        StatePartition::copy_step(a, c),
{
    if a.is_copy {
        assert forall|s: int|
            a.in_range(s) && (#[trigger] a.blocks@[s].changed) implies c.blocks@[s].changed by {
            assert(b.blocks@[s].changed);
        }
        assert forall|s: int|
            a.in_range(s) && !(#[trigger] c.blocks@[s].changed) implies block_eq(
            c.blocks@[s],
            a.blocks@[s],
        ) by {
            assert(block_eq(c.blocks@[s], b.blocks@[s]));
            assert(!b.blocks@[s].changed);
            assert(block_eq(b.blocks@[s], a.blocks@[s]));
        }
    }
}

/// The abstract state of a partition, with the union-find structure
/// resolved away: the representative of every state, and each slot's size,
/// label, link and transition row as stored, together with the counters.
/// Path compression and change logging do not alter it; `union` transforms
/// it deterministically, which makes the recursive merge of two blocks a
/// mathematical function of this state.
#[verifier::ext_equal]
pub ghost struct PartitionModel {
    pub rep: Seq<int>,
    pub size: Seq<int>,
    pub label: Seq<StateLabel>,
    pub link: Seq<int>,
    pub transitions: Seq<Seq<i32>>,
    pub blocks_count: int,
    pub accepting_blocks_count: int,
    pub rejecting_blocks_count: int,
    pub alphabet_size: int,
}

impl PartitionModel {
    /// Number of states.
    pub open spec fn n(self) -> int {
        self.rep.len() as int
    }

    /// The set of root blocks of the model.
    pub open spec fn roots(self) -> Set<int> {
        Set::new(|s: int| 0 <= s < self.n() && self.rep[s] == s)
    }

    /// Well-formedness of a model: all per-state sequences have one entry
    /// per state, representatives are resolved representatives in range,
    /// transition rows have one in-range entry per symbol, labels are
    /// admitted values, and the block counter counts the roots.
    pub open spec fn inv(self) -> bool {
        &&& self.size.len() == self.n()
        &&& self.label.len() == self.n()
        &&& self.link.len() == self.n()
        &&& self.transitions.len() == self.n()
        &&& forall|s: int|
            0 <= s < self.n() ==> 0 <= #[trigger] self.rep[s] < self.n()
                && self.rep[self.rep[s]] == self.rep[s]
        &&& forall|s: int| 0 <= s < self.n() ==> label_wf(#[trigger] self.label[s])
        &&& forall|s: int|
            0 <= s < self.n() ==> (#[trigger] self.transitions[s]).len() == self.alphabet_size
        &&& forall|s: int, k: int|
            0 <= s < self.n() && 0 <= k < self.alphabet_size ==> -1
                <= #[trigger] self.transitions[s][k] < self.n()
        &&& self.roots().finite()
        &&& self.blocks_count == self.roots().len()
    }
}

/// The root blocks of a model below `k`, in increasing order.
pub open spec fn model_roots_upto(m: PartitionModel, k: int) -> Seq<int>
    decreases k,
{
    if k <= 0 {
        Seq::empty()
    } else if m.rep[k - 1] == k - 1 {
        model_roots_upto(m, k - 1).push(k - 1)
    } else {
        model_roots_upto(m, k - 1)
    }
}

/// All root blocks of a model, in increasing order.
pub open spec fn model_roots(m: PartitionModel) -> Seq<int> {
    model_roots_upto(m, m.n())
}

/// The model's root enumeration lists roots in range, strictly ascending.
pub proof fn lemma_model_roots_props(m: PartitionModel, k: int)
    ensures
        forall|j: int|
            0 <= j < model_roots_upto(m, k).len() ==> 0 <= #[trigger] model_roots_upto(m, k)[j]
                < k && m.rep[model_roots_upto(m, k)[j]] == model_roots_upto(m, k)[j],
        forall|j1: int, j2: int|
            0 <= j1 < j2 < model_roots_upto(m, k).len() ==> model_roots_upto(m, k)[j1]
                < model_roots_upto(m, k)[j2],
    decreases k,
{
    if k > 0 {
        lemma_model_roots_props(m, k - 1);
        let prev = model_roots_upto(m, k - 1);
        let cur = model_roots_upto(m, k);
        if m.rep[k - 1] == k - 1 {
            assert(cur == prev.push(k - 1));
            assert forall|j: int|
                0 <= j < cur.len() implies 0 <= #[trigger] cur[j] < k && m.rep[cur[j]]
                == cur[j] by {
                if j < prev.len() {
                    assert(cur[j] == prev[j]);
                }
            }
            assert forall|j1: int, j2: int|
                0 <= j1 < j2 < cur.len() implies cur[j1] < cur[j2] by {
                assert(cur[j1] == prev[j1]);
                if j2 < prev.len() {
                    assert(cur[j2] == prev[j2]);
                }
            }
        }
    }
}

/// A well-formed partition's model enumerates the same roots in the same
/// order as the partition itself.
pub proof fn lemma_model_roots_eq(p: StatePartition, k: int)
    requires
        p.wf(),
        k <= p.n(),
    ensures
        model_roots_upto(p.model(), k) == p.roots_upto(k),
    decreases k,
{
    if k > 0 {
        lemma_model_roots_eq(p, k - 1);
        if 0 <= k - 1 < p.n() {
            p.lemma_rep_char(k - 1);
            assert(p.model().rep[k - 1] == p.rep(k - 1));
            assert((p.rep(k - 1) == k - 1) <==> p.is_root(k - 1));
        }
    }
}

/// The abstract state of the singleton partition of a DFA: every state its
/// own block, labels and transitions as in the DFA, counters by label.
pub open spec fn fresh_model(d: DFA) -> PartitionModel {
    PartitionModel {
        rep: Seq::new(d.n_states() as nat, |s: int| s),
        size: Seq::new(d.n_states() as nat, |s: int| 1int),
        label: Seq::new(d.n_states() as nat, |s: int| d.states@[s].label),
        link: Seq::new(d.n_states() as nat, |s: int| s),
        transitions: Seq::new(d.n_states() as nat, |s: int| d.states@[s].transitions@),
        blocks_count: d.n_states(),
        accepting_blocks_count: Set::new(
            |s: int| 0 <= s < d.n_states() && d.states@[s].label == ACCEPTING,
        ).len() as int,
        rejecting_blocks_count: Set::new(
            |s: int| 0 <= s < d.n_states() && d.states@[s].label == REJECTING,
        ).len() as int,
        alphabet_size: d.alphabet_size(),
    }
}

/// The singleton partition of a DFA has exactly the fresh model.
pub proof fn lemma_fresh_model(p: StatePartition, d: DFA)
    requires
        p.wf(),
        p.singleton_partition_of(d),
    ensures
        p.model() == fresh_model(d),
{
    assert forall|s: int| 0 <= s < d.n_states() implies #[trigger] p.rep(s) == s by {
        assert(p.is_root(s));
        assert(p.walk(s, p.n() as nat) == s);
    }
    assert(p.model().rep =~= fresh_model(d).rep);
    assert(p.model().size =~= fresh_model(d).size);
    assert(p.model().label =~= fresh_model(d).label);
    assert(p.model().link =~= fresh_model(d).link);
    assert(p.model().transitions =~= fresh_model(d).transitions);
    assert(p.labelled_roots(ACCEPTING) =~= Set::new(
        |s: int| 0 <= s < d.n_states() && d.states@[s].label == ACCEPTING,
    ));
    assert(p.labelled_roots(REJECTING) =~= Set::new(
        |s: int| 0 <= s < d.n_states() && d.states@[s].label == REJECTING,
    ));
    assert(p.model() =~= fresh_model(d));
}

/// Whether two block labels conflict: one accepting and one rejecting.
pub open spec fn labels_conflict(a: StateLabel, b: StateLabel) -> bool {
    (a == ACCEPTING && b == REJECTING) || (a == REJECTING && b == ACCEPTING)
}

/// What a union does to the abstract state: of the two roots the larger
/// becomes the parent (the left argument on a tie); the child's states move
/// to the parent; sizes add; the two links swap; an unlabelled parent
/// adopts the child's label; for every symbol the parent keeps its own
/// transition and otherwise takes the child's, which the child loses; the
/// counters follow.
pub open spec fn model_union(m: PartitionModel, a: int, b: int) -> PartitionModel {
    let p = if m.size[a] < m.size[b] {
        b
    } else {
        a
    };
    let c = if m.size[a] < m.size[b] {
        a
    } else {
        b
    };
    let prow = m.transitions[p];
    let crow = m.transitions[c];
    PartitionModel {
        rep: Seq::new(
            m.rep.len(),
            |s: int|
                if m.rep[s] == c {
                    p
                } else {
                    m.rep[s]
                },
        ),
        size: m.size.update(p, m.size[p] + m.size[c]),
        label: m.label.update(p, merged_label(m.label[p], m.label[c])),
        link: m.link.update(p, m.link[c]).update(c, m.link[p]),
        transitions: m.transitions.update(
            p,
            Seq::new(
                prow.len(),
                |k: int|
                    if prow[k] == -1 {
                        crow[k]
                    } else {
                        prow[k]
                    },
            ),
        ).update(
            c,
            Seq::new(
                crow.len(),
                |k: int|
                    if prow[k] == -1 {
                        -1i32
                    } else {
                        crow[k]
                    },
            ),
        ),
        blocks_count: m.blocks_count - 1,
        accepting_blocks_count: m.accepting_blocks_count - (
        if m.label[p] == ACCEPTING && m.label[c] == ACCEPTING {
            1int
        } else {
            0int
        }),
        rejecting_blocks_count: m.rejecting_blocks_count - (
        if m.label[p] == REJECTING && m.label[c] == REJECTING {
            1int
        } else {
            0int
        }),
        alphabet_size: m.alphabet_size,
    }
}

/// The cascaded deterministic merge as a function of the abstract state:
/// resolve the two states; two states of one block merge trivially;
/// conflicting block labels refuse the merge; otherwise the blocks are
/// joined and, symbol by symbol, shared transitions force their targets to
/// merge in turn. The result is the final abstract state and the verdict.
/// `fuel` bounds the nesting of joins; any fuel of at least `blocks_count`
/// gives the same answer, since every join removes a block.
pub open spec fn model_merge(m: PartitionModel, s1: int, s2: int, fuel: nat) -> (
    PartitionModel,
    bool,
)
    decreases fuel, 0int,
{
    if fuel == 0 {
        (m, false)
    } else {
        let r1 = m.rep[s1];
        let r2 = m.rep[s2];
        if r1 == r2 {
            (m, true)
        } else if labels_conflict(m.label[r1], m.label[r2]) {
            (m, false)
        } else {
            model_cascade(
                model_union(m, r1, r2),
                r1,
                r2,
                0,
                m.alphabet_size,
                (fuel - 1) as nat,
            )
        }
    }
}

/// One pass of the cascade: for each symbol from `i` on, when both the
/// first and the second root still hold a transition, their targets merge
/// recursively; the first failure aborts.
pub open spec fn model_cascade(
    m: PartitionModel,
    r1: int,
    r2: int,
    i: int,
    asize: int,
    fuel: nat,
) -> (PartitionModel, bool)
    decreases fuel, asize - i,
{
    if i < 0 || i >= asize {
        (m, true)
    } else {
        let t1 = m.transitions[r1][i];
        let t2 = m.transitions[r2][i];
        if t1 == -1 || t2 == -1 {
            model_cascade(m, r1, r2, i + 1, asize, fuel)
        } else {
            let sub = model_merge(m, t1 as int, t2 as int, fuel);
            if !sub.1 {
                sub
            } else {
                model_cascade(sub.0, r1, r2, i + 1, asize, fuel)
            }
        }
    }
}

/// Joining two distinct roots keeps the model well formed and removes
/// exactly one root block.
pub proof fn lemma_model_union_inv(m: PartitionModel, a: int, b: int)
    requires
        m.inv(),
        0 <= a < m.n(),
        0 <= b < m.n(),
        a != b,
        m.rep[a] == a,
        m.rep[b] == b,
    ensures
        model_union(m, a, b).inv(),
        model_union(m, a, b).n() == m.n(),
        model_union(m, a, b).alphabet_size == m.alphabet_size,
        model_union(m, a, b).blocks_count == m.blocks_count - 1,
        m.blocks_count >= 2,
{
    broadcast use vstd::set::group_set_axioms;

    let m2 = model_union(m, a, b);
    let p = if m.size[a] < m.size[b] {
        b
    } else {
        a
    };
    let c = if m.size[a] < m.size[b] {
        a
    } else {
        b
    };
    assert forall|s: int|
        0 <= s < m2.n() implies 0 <= #[trigger] m2.rep[s] < m2.n() && m2.rep[m2.rep[s]]
        == m2.rep[s] by {
        if m.rep[s] == c {
            assert(m2.rep[s] == p);
            assert(m.rep[p] == p);
        }
    }
    assert(m2.roots() =~= m.roots().remove(c));
    assert(m.roots().contains(c));
    assert(m.roots().remove(c).contains(p));
}

/// The recursive merge keeps the model well formed, never grows the block
/// count, and leaves at least one block.
pub proof fn lemma_model_merge_bounds(m: PartitionModel, s1: int, s2: int, fuel: nat)
    requires
        m.inv(),
        0 <= s1 < m.n(),
        0 <= s2 < m.n(),
        fuel >= m.blocks_count,
    ensures
        model_merge(m, s1, s2, fuel).0.inv(),
        model_merge(m, s1, s2, fuel).0.n() == m.n(),
        model_merge(m, s1, s2, fuel).0.alphabet_size == m.alphabet_size,
        1 <= model_merge(m, s1, s2, fuel).0.blocks_count <= m.blocks_count,
    decreases fuel, 0int,
{
    broadcast use vstd::set::group_set_axioms;

    assert(m.roots().contains(m.rep[s1]));
    assert(m.blocks_count >= 1);
    let r1 = m.rep[s1];
    let r2 = m.rep[s2];
    if r1 == r2 || labels_conflict(m.label[r1], m.label[r2]) {
    } else {
        lemma_model_union_inv(m, r1, r2);
        lemma_model_cascade_bounds(
            model_union(m, r1, r2),
            r1,
            r2,
            0,
            m.alphabet_size,
            (fuel - 1) as nat,
        );
    }
}

/// The cascade keeps the model well formed, never grows the block count,
/// and leaves at least one block.
pub proof fn lemma_model_cascade_bounds(
    m: PartitionModel,
    r1: int,
    r2: int,
    i: int,
    asize: int,
    fuel: nat,
)
    requires
        m.inv(),
        0 <= r1 < m.n(),
        0 <= r2 < m.n(),
        asize == m.alphabet_size,
        fuel >= m.blocks_count,
    ensures
        model_cascade(m, r1, r2, i, asize, fuel).0.inv(),
        model_cascade(m, r1, r2, i, asize, fuel).0.n() == m.n(),
        model_cascade(m, r1, r2, i, asize, fuel).0.alphabet_size == m.alphabet_size,
        1 <= model_cascade(m, r1, r2, i, asize, fuel).0.blocks_count <= m.blocks_count,
    decreases fuel, asize - i,
{
    broadcast use vstd::set::group_set_axioms;

    if i < 0 || i >= asize {
        assert(m.roots().contains(m.rep[r1]));
    } else {
        let t1 = m.transitions[r1][i];
        let t2 = m.transitions[r2][i];
        if t1 == -1 || t2 == -1 {
            lemma_model_cascade_bounds(m, r1, r2, i + 1, asize, fuel);
        } else {
            lemma_model_merge_bounds(m, t1 as int, t2 as int, fuel);
            let sub = model_merge(m, t1 as int, t2 as int, fuel);
            if sub.1 {
                lemma_model_cascade_bounds(sub.0, r1, r2, i + 1, asize, fuel);
            }
        }
    }
}

/// A successful merge of two states in distinct blocks strictly shrinks the
/// model's block count.
pub proof fn lemma_model_merge_strict(m: PartitionModel, s1: int, s2: int, fuel: nat)
    requires
        m.inv(),
        0 <= s1 < m.n(),
        0 <= s2 < m.n(),
        fuel >= m.blocks_count,
        m.rep[s1] != m.rep[s2],
        model_merge(m, s1, s2, fuel).1,
    ensures
        model_merge(m, s1, s2, fuel).0.blocks_count < m.blocks_count,
{
    broadcast use vstd::set::group_set_axioms;

    assert(m.roots().contains(m.rep[s1]));
    assert(m.blocks_count >= 1);
    let r1 = m.rep[s1];
    let r2 = m.rep[s2];
    assert(!labels_conflict(m.label[r1], m.label[r2]));
    lemma_model_union_inv(m, r1, r2);
    lemma_model_cascade_bounds(
        model_union(m, r1, r2),
        r1,
        r2,
        0,
        m.alphabet_size,
        (fuel - 1) as nat,
    );
}

/// Any fuel of at least the block count gives the recursive merge the same
/// answer: fuel only bounds the nesting of joins, and every join removes a
/// block.
pub proof fn lemma_model_merge_fuel(m: PartitionModel, s1: int, s2: int, f1: nat, f2: nat)
    requires
        m.inv(),
        0 <= s1 < m.n(),
        0 <= s2 < m.n(),
        f1 >= m.blocks_count,
        f2 >= m.blocks_count,
    ensures
        model_merge(m, s1, s2, f1) == model_merge(m, s1, s2, f2),
    decreases f1, 0int,
{
    broadcast use vstd::set::group_set_axioms;

    assert(m.roots().contains(m.rep[s1]));
    assert(m.blocks_count >= 1);
    let r1 = m.rep[s1];
    let r2 = m.rep[s2];
    if r1 == r2 || labels_conflict(m.label[r1], m.label[r2]) {
    } else {
        lemma_model_union_inv(m, r1, r2);
        lemma_model_cascade_fuel(
            model_union(m, r1, r2),
            r1,
            r2,
            0,
            m.alphabet_size,
            (f1 - 1) as nat,
            (f2 - 1) as nat,
        );
    }
}

/// Fuel insensitivity of the cascade, for any fuel of at least the block
/// count.
pub proof fn lemma_model_cascade_fuel(
    m: PartitionModel,
    r1: int,
    r2: int,
    i: int,
    asize: int,
    f1: nat,
    f2: nat,
)
    requires
        m.inv(),
        0 <= r1 < m.n(),
        0 <= r2 < m.n(),
        asize == m.alphabet_size,
        f1 >= m.blocks_count,
        f2 >= m.blocks_count,
    ensures
        model_cascade(m, r1, r2, i, asize, f1) == model_cascade(m, r1, r2, i, asize, f2),
    decreases f1, asize - i,
{
    if i < 0 || i >= asize {
    } else {
        let t1 = m.transitions[r1][i];
        let t2 = m.transitions[r2][i];
        if t1 == -1 || t2 == -1 {
            lemma_model_cascade_fuel(m, r1, r2, i + 1, asize, f1, f2);
        } else {
            lemma_model_merge_fuel(m, t1 as int, t2 as int, f1, f2);
            lemma_model_merge_bounds(m, t1 as int, t2 as int, f1);
            let sub = model_merge(m, t1 as int, t2 as int, f1);
            if sub.1 {
                lemma_model_cascade_fuel(sub.0, r1, r2, i + 1, asize, f1, f2);
            }
        }
    }
}

/// A mutating operation that only sets changed flags and only rewrites
/// flagged blocks keeps a snapshot tracking its base.
pub proof fn lemma_sync_step(pre: StatePartition, post: StatePartition, base: StatePartition)
    requires
        pre.sync_with(base),
        StatePartition::copy_step(pre, post),
        post.same_shape(pre),
    ensures
        post.sync_with(base),
{
    assert forall|s: int|
        post.in_range(s) && !(#[trigger] post.blocks@[s].changed) implies block_eq(
        post.blocks@[s],
        base.blocks@[s],
    ) by {
        assert(!pre.blocks@[s].changed);
        assert(block_eq(post.blocks@[s], pre.blocks@[s]));
        assert(block_eq(pre.blocks@[s], base.blocks@[s]));
    }
}

impl StatePartition {
    /// Once a walk has reached a root, more fuel changes nothing: the walk
    /// result and the step count are stable, and the step count is minimal.
    pub proof fn lemma_walk_stable(self, s: int, k: nat, m: nat)
        requires
            self.rooted_in(s, k),
            k <= m,
        ensures
            self.walk(s, m) == self.walk(s, k),
            self.dist_to(s, m) == self.dist_to(s, k),
            self.dist_to(s, k) <= k,
            self.is_root(self.walk(s, self.dist_to(s, k))),
            self.walk(s, self.dist_to(s, k)) == self.walk(s, k),
        decreases k,
    {
        if self.is_root(s) {
        } else {
            // k > 0, otherwise walk(s, 0) == s would be a root
            let p = self.parent(s);
            assert(self.walk(s, k) == self.walk(p, (k - 1) as nat));
            self.lemma_walk_stable(p, (k - 1) as nat, (m - 1) as nat);
            assert(self.walk(s, m) == self.walk(p, (m - 1) as nat));
            assert(self.dist_to(s, m) == 1 + self.dist_to(p, (m - 1) as nat));
            assert(self.dist_to(s, k) == 1 + self.dist_to(p, (k - 1) as nat));
            let d = self.dist_to(p, (k - 1) as nat);
            assert(self.walk(s, (1 + d) as nat) == self.walk(p, d));
        }
    }

    /// A walk stays within range.
    pub proof fn lemma_walk_in_range(self, s: int, k: nat)
        requires
            self.dom_ok(),
            self.in_range(s),
        ensures
            self.in_range(self.walk(s, k)),
        decreases k,
    {
        if k == 0 || self.is_root(s) {
        } else {
            assert(self.block_dom_ok(s));
            self.lemma_walk_in_range(self.parent(s), (k - 1) as nat);
        }
    }

    /// What `rep` and `dist` mean on a state whose chain reaches a root:
    /// `rep` is a root reached in exactly `dist` steps, `dist` is below the
    /// fuel, and both satisfy the expected one-step equations.
    pub proof fn lemma_rep_char(self, s: int)
        requires
            self.dom_ok(),
            self.in_range(s),
            self.rooted_in(s, self.n() as nat),
        ensures
            self.in_range(self.rep(s)),
            self.is_root(self.rep(s)),
            self.rep(s) == self.walk(s, self.dist(s)),
            self.dist(s) <= self.n(),
            self.is_root(s) ==> self.rep(s) == s && self.dist(s) == 0,
            !self.is_root(s) ==> {
                &&& self.rooted_in(self.parent(s), self.n() as nat)
                &&& self.rep(s) == self.rep(self.parent(s))
                &&& self.dist(s) == 1 + self.dist(self.parent(s))
            },
    {
        let n = self.n() as nat;
        self.lemma_walk_stable(s, n, n);
        self.lemma_walk_in_range(s, n);
        if !self.is_root(s) {
            let p = self.parent(s);
            assert(self.block_dom_ok(s));
            assert(self.walk(s, n) == self.walk(p, (n - 1) as nat));
            self.lemma_walk_stable(p, (n - 1) as nat, n);
            assert(self.dist_to(s, n) == 1 + self.dist_to(p, (n - 1) as nat));
        }
    }

    /// The representative of a representative is itself.
    pub proof fn lemma_rep_idempotent(self, s: int)
        requires
            self.dom_ok(),
            self.reaches_ok(),
            self.in_range(s),
        ensures
            self.rep(self.rep(s)) == self.rep(s),
            self.in_range(self.rep(s)),
            self.is_root(self.rep(s)),
        decreases 0nat,
    {
        self.lemma_rep_char(s);
        self.lemma_rep_char(self.rep(s));
    }

    /// Walks and distances depend only on the `root` fields: two partitions
    /// with the same pointers walk the same way.
    pub proof fn lemma_walk_congruence(self, other: StatePartition, s: int, k: nat)
        requires
            self.dom_ok(),
            self.n() == other.n(),
            forall|t: int| self.in_range(t) ==> self.parent(t) == #[trigger] other.parent(t),
            self.in_range(s),
        ensures
            self.walk(s, k) == other.walk(s, k),
            self.dist_to(s, k) == other.dist_to(s, k),
        decreases k,
    {
        if k == 0 || self.is_root(s) {
        } else {
            assert(self.block_dom_ok(s));
            self.lemma_walk_congruence(other, self.parent(s), (k - 1) as nat);
        }
    }

    /// Representatives, distances, root status, classes and root sets depend
    /// only on the `root` fields.
    pub proof fn lemma_uf_congruence(self, other: StatePartition)
        requires
            self.dom_ok(),
            self.n() == other.n(),
            forall|t: int| self.in_range(t) ==> self.parent(t) == #[trigger] other.parent(t),
        ensures
            forall|s: int| self.in_range(s) ==> #[trigger] self.rep(s) == other.rep(s),
            forall|s: int| self.in_range(s) ==> #[trigger] self.dist(s) == other.dist(s),
            forall|s: int| self.in_range(s) ==> (self.is_root(s) <==> other.is_root(s)),
            self.reaches_ok() ==> other.reaches_ok(),
            self.roots_set() == other.roots_set(),
            forall|r: int| #[trigger] self.class(r) == other.class(r),
    {
        assert forall|s: int| self.in_range(s) implies #[trigger] self.rep(s) == other.rep(s) by {
            self.lemma_walk_congruence(other, s, self.n() as nat);
        }
        assert forall|s: int| self.in_range(s) implies #[trigger] self.dist(s) == other.dist(
            s,
        ) by {
            self.lemma_walk_congruence(other, s, self.n() as nat);
        }
        if self.reaches_ok() {
            assert forall|s: int| other.in_range(s) implies other.rooted_in(
                s,
                other.n() as nat,
            ) by {
                assert(self.in_range(s));
                self.lemma_walk_congruence(other, s, self.n() as nat);
                self.lemma_walk_in_range(s, self.n() as nat);
                assert(self.rooted_in(s, self.n() as nat));
                let w = self.walk(s, self.n() as nat);
                assert(self.is_root(w));
                assert(other.walk(s, other.n() as nat) == w);
                assert(other.parent(w) == self.parent(w));
                assert(other.is_root(w));
            }
        }
        assert(self.roots_set() =~= other.roots_set());
        assert forall|r: int| #[trigger] self.class(r) == other.class(r) by {
            assert forall|s: int| self.class(r).contains(s) <==> other.class(r).contains(
                s,
            ) by {
                if self.in_range(s) {
                    self.lemma_walk_congruence(other, s, self.n() as nat);
                }
            }
            assert(self.class(r) =~= other.class(r));
        }
    }

    /// A class is a finite subset of the state ids, so its size is at most
    /// the number of states.
    pub proof fn lemma_class_bound(self, r: int)
        ensures
            self.class(r).finite(),
            self.class(r).len() <= self.n(),
    {
        vstd::set_lib::lemma_int_range(0, self.n());
        assert(self.class(r).subset_of(vstd::set_lib::set_int_range(0, self.n())));
        vstd::set_lib::lemma_len_subset(
            self.class(r),
            vstd::set_lib::set_int_range(0, self.n()),
        );
    }

    /// Classes of distinct representatives are disjoint, so their sizes add
    /// to the size of their union.
    pub proof fn lemma_class_disjoint(self, r1: int, r2: int)
        requires
            r1 != r2,
        ensures
            self.class(r1).disjoint(self.class(r2)),
            self.class(r1).finite() && self.class(r2).finite()
                ==> self.class(r1).union(self.class(r2)).len() == self.class(r1).len()
                + self.class(r2).len(),
    {
        assert(self.class(r1).disjoint(self.class(r2)));
        if self.class(r1).finite() && self.class(r2).finite() {
            vstd::set_lib::lemma_set_disjoint_lens(self.class(r1), self.class(r2));
        }
    }

    /// A root belongs to its own class.
    pub proof fn lemma_root_in_class(self, r: int)
        requires
            self.dom_ok(),
            self.in_range(r),
            self.is_root(r),
        ensures
            self.rep(r) == r,
            self.class(r).contains(r),
            self.class(r).finite() ==> self.class(r).len() >= 1,
    {
        assert(self.walk(r, self.n() as nat) == r);
        if self.class(r).finite() {
            assert(self.class(r).remove(r).insert(r) =~= self.class(r));
        }
    }

    /// Splitting a `link` walk: walking `j + k` steps is walking `j` steps
    /// and then `k` more.
    pub proof fn lemma_lwalk_add(self, s: int, j: nat, k: nat)
        ensures
            self.lwalk(s, j + k) == self.lwalk(self.lwalk(s, j), k),
        decreases j,
    {
        if j > 0 {
            self.lemma_lwalk_add(self.succ(s), (j - 1) as nat, k);
        }
    }

    /// One `link` step.
    pub proof fn lemma_lwalk_one(self, s: int)
        ensures
            self.lwalk(s, 1) == self.succ(s),
    {
        assert(self.lwalk(s, 1) == self.lwalk(self.succ(s), 0));
    }

    /// Extending a `link` walk by one step.
    pub proof fn lemma_lwalk_step(self, s: int, k: nat)
        ensures
            self.lwalk(s, k + 1) == self.succ(self.lwalk(s, k)),
    {
        self.lemma_lwalk_add(s, k, 1);
        self.lemma_lwalk_one(self.lwalk(s, k));
    }

    /// `link` walks depend only on the `link` fields.
    pub proof fn lemma_lwalk_congruence(self, other: StatePartition, s: int, k: nat)
        requires
            self.n() == other.n(),
            forall|t: int| self.in_range(t) ==> self.in_range(#[trigger] self.succ(t)),
            forall|t: int| self.in_range(t) ==> #[trigger] other.succ(t) == self.succ(t),
            self.in_range(s),
        ensures
            other.lwalk(s, k) == self.lwalk(s, k),
            self.in_range(self.lwalk(s, k)),
        decreases k,
    {
        if k > 0 {
            self.lemma_lwalk_congruence(other, self.succ(s), (k - 1) as nat);
        }
    }

    /// A `link` walk stays within the block it started in.
    pub proof fn lemma_lwalk_in_class(self, s: int, k: nat)
        requires
            forall|t: int|
                self.in_range(t) ==> self.in_range(#[trigger] self.succ(t)) && self.rep(
                    self.succ(t),
                ) == self.rep(t),
            self.in_range(s),
        ensures
            self.in_range(self.lwalk(s, k)),
            self.rep(self.lwalk(s, k)) == self.rep(s),
        decreases k,
    {
        if k > 0 {
            self.lemma_lwalk_in_class(self.succ(s), (k - 1) as nat);
        }
    }

    /// A walk of `j` steps sees at most `j` distinct members.
    pub proof fn lemma_lwalk_image_card(self, r: int, j: int)
        requires
            j >= 0,
        ensures
            self.lwalk_image(r, j).finite(),
            self.lwalk_image(r, j).len() <= j,
        decreases j,
    {
        if j == 0 {
            assert(self.lwalk_image(r, 0) =~= Set::<int>::empty());
        } else {
            self.lemma_lwalk_image_card(r, j - 1);
            assert(self.lwalk_image(r, j) =~= self.lwalk_image(r, j - 1).insert(
                self.lwalk(r, (j - 1) as nat),
            )) by {
                assert forall|m: int|
                    self.lwalk_image(r, j).contains(m) <==> self.lwalk_image(r, j - 1).insert(
                        self.lwalk(r, (j - 1) as nat),
                    ).contains(m) by {
                    if self.lwalk_image(r, j).contains(m) {
                        let i = choose|i: int|
                            0 <= i < j && (#[trigger] self.lwalk(r, i as nat)) == m;
                        if i < j - 1 {
                            assert(self.lwalk_image(r, j - 1).contains(m));
                        }
                    }
                    if self.lwalk_image(r, j - 1).contains(m) {
                        let i = choose|i: int|
                            0 <= i < j - 1 && (#[trigger] self.lwalk(r, i as nat)) == m;
                        assert(0 <= i < j && self.lwalk(r, i as nat) == m);
                    }
                    if m == self.lwalk(r, (j - 1) as nat) {
                        assert(0 <= j - 1 < j && self.lwalk(r, (j - 1) as nat) == m);
                    }
                }
            }
        }
    }

    /// A walk that returns to its start after `j` steps repeats with period
    /// `j`: every later position equals one of the first `j`.
    pub proof fn lemma_lwalk_period(self, r: int, j: int, k: int)
        requires
            0 < j,
            0 <= k,
            self.lwalk(r, j as nat) == r,
        ensures
            exists|i: int|
                0 <= i < j && self.lwalk(r, k as nat) == (#[trigger] self.lwalk(r, i as nat)),
        decreases k,
    {
        if k < j {
            let i0: int = k;
            assert(self.lwalk(r, k as nat) == self.lwalk(r, i0 as nat));
            assert(exists|i: int|
                0 <= i < j && self.lwalk(r, k as nat) == (#[trigger] self.lwalk(
                    r,
                    i as nat,
                )));
        } else {
            self.lemma_lwalk_add(r, j as nat, (k - j) as nat);
            assert(self.lwalk(r, k as nat) == self.lwalk(r, (k - j) as nat));
            self.lemma_lwalk_period(r, j, k - j);
            let i = choose|i: int|
                0 <= i < j && self.lwalk(r, (k - j) as nat) == (#[trigger] self.lwalk(
                    r,
                    i as nat,
                ));
            assert(exists|i2: int|
                0 <= i2 < j && self.lwalk(r, k as nat) == (#[trigger] self.lwalk(
                    r,
                    i2 as nat,
                ))) by {
                assert(0 <= i < j && self.lwalk(r, k as nat) == self.lwalk(r, i as nat));
            }
        }
    }

    /// A cycle that covers a whole block of its own size cannot return to
    /// its root early: otherwise it would see too few members.
    pub proof fn lemma_no_early_return(self, r: int)
        requires
            self.dom_ok(),
            self.in_range(r),
            self.is_root(r),
            self.size_ok_at(r),
            self.cycle_ok_at(r),
        ensures
            forall|j: int|
                0 < j < self.blocks@[r].size ==> (#[trigger] self.lwalk(r, j as nat)) != r,
    {
        let size = self.blocks@[r].size as int;
        assert forall|j: int| 0 < j < size implies (#[trigger] self.lwalk(r, j as nat)) != r by {
            if self.lwalk(r, j as nat) == r {
                assert forall|m: int|
                    self.class(r).contains(m) implies self.lwalk_image(r, j).contains(m) by {
                    let i = choose|i: int|
                        0 <= i < size && (#[trigger] self.lwalk(r, i as nat)) == m;
                    self.lemma_lwalk_period(r, j, i);
                    let i2 = choose|i2: int|
                        0 <= i2 < j && self.lwalk(r, i as nat) == (#[trigger] self.lwalk(
                            r,
                            i2 as nat,
                        ));
                    assert(0 <= i2 < j && self.lwalk(r, i2 as nat) == m);
                }
                self.lemma_lwalk_image_card(r, j);
                vstd::set_lib::lemma_len_subset(self.class(r), self.lwalk_image(r, j));
                assert(self.class(r).len() <= j);
                assert(false);
            }
        }
    }

    /// The common hypotheses of the splice lemmas: the parent's and child's
    /// `link`s have been swapped and nothing else changed.
    pub open spec fn spliced(pre: StatePartition, post: StatePartition, p: int, c: int) -> bool {
        &&& pre.dom_ok()
        &&& pre.reaches_ok()
        &&& forall|t: int|
            pre.in_range(t) ==> pre.in_range(#[trigger] pre.succ(t)) && pre.rep(pre.succ(t))
                == pre.rep(t)
        &&& pre.in_range(p)
        &&& pre.in_range(c)
        &&& p != c
        &&& pre.is_root(p)
        &&& pre.is_root(c)
        &&& post.n() == pre.n()
        &&& post.succ(p) == pre.succ(c)
        &&& post.succ(c) == pre.succ(p)
        &&& forall|u: int|
            pre.in_range(u) && u != p && u != c ==> #[trigger] post.succ(u) == pre.succ(u)
    }

    /// After the splice, the walk from the parent first runs through the
    /// child's old cycle, step for step.
    proof fn lemma_splice_into_child(
        pre: StatePartition,
        post: StatePartition,
        p: int,
        c: int,
        k: int,
    )
        requires
            Self::spliced(pre, post, p, c),
            forall|j: int|
                0 < j < pre.blocks@[c].size ==> (#[trigger] pre.lwalk(c, j as nat)) != c,
            1 <= k <= pre.blocks@[c].size,
        ensures
            post.lwalk(p, k as nat) == pre.lwalk(c, k as nat),
        decreases k,
    {
        pre.lemma_rep_char(p);
        pre.lemma_rep_char(c);
        if k == 1 {
            post.lemma_lwalk_one(p);
            pre.lemma_lwalk_one(c);
        } else {
            Self::lemma_splice_into_child(pre, post, p, c, k - 1);
            let x = pre.lwalk(c, (k - 1) as nat);
            pre.lemma_lwalk_in_class(c, (k - 1) as nat);
            assert(pre.rep(x) == c);
            assert(x != p) by {
                pre.lemma_rep_char(p);
            }
            assert(x != c);
            post.lemma_lwalk_step(p, (k - 1) as nat);
            pre.lemma_lwalk_step(c, (k - 1) as nat);
            assert(post.lwalk(p, k as nat) == post.succ(x));
            assert(pre.lwalk(c, k as nat) == pre.succ(x));
            assert(post.succ(x) == pre.succ(x));
        }
    }

    /// After the splice and one pass through the child's old cycle, the walk
    /// continues through the parent's old cycle, step for step.
    proof fn lemma_splice_back_home(
        pre: StatePartition,
        post: StatePartition,
        p: int,
        c: int,
        k: int,
    )
        requires
            Self::spliced(pre, post, p, c),
            forall|j: int|
                0 < j < pre.blocks@[c].size ==> (#[trigger] pre.lwalk(c, j as nat)) != c,
            forall|j: int|
                0 < j < pre.blocks@[p].size ==> (#[trigger] pre.lwalk(p, j as nat)) != p,
            pre.blocks@[c].size >= 1,
            pre.lwalk(c, pre.blocks@[c].size as nat) == c,
            1 <= k <= pre.blocks@[p].size,
        ensures
            post.lwalk(p, (pre.blocks@[c].size + k) as nat) == pre.lwalk(p, k as nat),
        decreases k,
    {
        let sc = pre.blocks@[c].size as int;
        pre.lemma_rep_char(p);
        pre.lemma_rep_char(c);
        if k == 1 {
            Self::lemma_splice_into_child(pre, post, p, c, sc);
            assert(post.lwalk(p, sc as nat) == c);
            post.lemma_lwalk_step(p, sc as nat);
            assert(post.lwalk(p, (sc + 1) as nat) == post.succ(c));
            pre.lemma_lwalk_one(p);
        } else {
            Self::lemma_splice_back_home(pre, post, p, c, k - 1);
            let x = pre.lwalk(p, (k - 1) as nat);
            pre.lemma_lwalk_in_class(p, (k - 1) as nat);
            assert(pre.rep(x) == p);
            assert(x != c) by {
                pre.lemma_rep_char(c);
            }
            assert(x != p);
            post.lemma_lwalk_step(p, (sc + k - 1) as nat);
            pre.lemma_lwalk_step(p, (k - 1) as nat);
            assert(post.lwalk(p, (sc + k) as nat) == post.succ(x));
            assert(pre.lwalk(p, k as nat) == pre.succ(x));
            assert(post.succ(x) == pre.succ(x));
        }
    }

    /// Roots untouched by the splice keep their walks unchanged.
    proof fn lemma_splice_other(
        pre: StatePartition,
        post: StatePartition,
        p: int,
        c: int,
        r: int,
        k: nat,
    )
        requires
            Self::spliced(pre, post, p, c),
            pre.in_range(r),
            pre.is_root(r),
            r != p,
            r != c,
        ensures
            post.lwalk(r, k) == pre.lwalk(r, k),
        decreases k,
    {
        pre.lemma_rep_char(p);
        pre.lemma_rep_char(c);
        pre.lemma_rep_char(r);
        if k > 0 {
            Self::lemma_splice_other(pre, post, p, c, r, (k - 1) as nat);
            let x = pre.lwalk(r, (k - 1) as nat);
            pre.lemma_lwalk_in_class(r, (k - 1) as nat);
            assert(pre.rep(x) == r);
            assert(x != p && x != c);
            post.lemma_lwalk_step(r, (k - 1) as nat);
            pre.lemma_lwalk_step(r, (k - 1) as nat);
            assert(post.lwalk(r, k) == post.succ(x));
            assert(pre.lwalk(r, k) == pre.succ(x));
        }
    }

    /// Swapping the `link`s of two roots splices their two disjoint cycles
    /// into one cycle through the union of their blocks; all other cycles
    /// are untouched.
    proof fn lemma_union_cycles(pre: StatePartition, post: StatePartition, p: int, c: int)
        requires
            pre.wf(),
            pre.cycles_ok(),
            pre.in_range(p),
            pre.in_range(c),
            p != c,
            pre.is_root(p),
            pre.is_root(c),
            post.n() == pre.n(),
            post.succ(p) == pre.succ(c),
            post.succ(c) == pre.succ(p),
            forall|u: int|
                pre.in_range(u) && u != p && u != c ==> #[trigger] post.succ(u) == pre.succ(u),
            post.blocks@[p].size == pre.blocks@[p].size + pre.blocks@[c].size,
            forall|u: int|
                pre.in_range(u) && u != p && u != c ==> (#[trigger] post.blocks@[u]).size
                    == pre.blocks@[u].size,
            forall|t: int|
                pre.in_range(t) ==> #[trigger] post.rep(t) == (if pre.rep(t) == c {
                    p
                } else {
                    pre.rep(t)
                }),
            forall|t: int|
                pre.in_range(t) ==> (post.is_root(t) <==> (#[trigger] pre.is_root(t) && t
                    != c)),
        ensures
            post.cycles_ok(),
    {
        let sp = pre.blocks@[p].size as int;
        let sc = pre.blocks@[c].size as int;
        pre.lemma_rep_char(p);
        pre.lemma_rep_char(c);
        assert(pre.size_ok_at(p));
        assert(pre.size_ok_at(c));
        pre.lemma_root_in_class(p);
        pre.lemma_root_in_class(c);
        assert(sp >= 1 && sc >= 1);
        assert(pre.cycle_ok_at(p));
        assert(pre.cycle_ok_at(c));
        pre.lemma_no_early_return(p);
        pre.lemma_no_early_return(c);
        assert(Self::spliced(pre, post, p, c));
        // every link still points within its (possibly merged) block
        assert forall|s: int|
            post.in_range(s) implies post.in_range(#[trigger] post.succ(s)) && post.rep(
            post.succ(s),
        ) == post.rep(s) by {
            if s == p {
                assert(post.succ(p) == pre.succ(c));
                assert(pre.rep(pre.succ(c)) == c);
            } else if s == c {
                assert(post.succ(c) == pre.succ(p));
                assert(pre.rep(pre.succ(p)) == p);
            } else {
                assert(pre.rep(pre.succ(s)) == pre.rep(s));
            }
        }
        // the merged block's cycle returns to the parent after exactly the
        // merged size
        Self::lemma_splice_back_home(pre, post, p, c, sp);
        assert(post.lwalk(p, (sc + sp) as nat) == pre.lwalk(p, sp as nat));
        assert(post.lwalk(p, post.blocks@[p].size as nat) == p);
        // and covers every member of both old blocks
        assert(post.class(p) =~= pre.class(p).union(pre.class(c))) by {
            assert forall|m: int|
                post.class(p).contains(m) <==> pre.class(p).union(pre.class(c)).contains(
                    m,
                ) by {
                if pre.in_range(m) {
                    assert(post.rep(m) == (if pre.rep(m) == c {
                        p
                    } else {
                        pre.rep(m)
                    }));
                }
            }
        }
        assert forall|m: int| post.class(p).contains(m) implies exists|i: int|
            0 <= i < post.blocks@[p].size && (#[trigger] post.lwalk(p, i as nat)) == m by {
            if pre.class(c).contains(m) {
                let i = choose|i: int|
                    0 <= i < sc && (#[trigger] pre.lwalk(c, i as nat)) == m;
                if i == 0 {
                    Self::lemma_splice_into_child(pre, post, p, c, sc);
                    assert(post.lwalk(p, sc as nat) == pre.lwalk(c, sc as nat));
                    assert(post.lwalk(p, sc as nat) == m);
                    assert(0 <= sc < post.blocks@[p].size);
                } else {
                    Self::lemma_splice_into_child(pre, post, p, c, i);
                    assert(post.lwalk(p, i as nat) == m);
                    assert(0 <= i < post.blocks@[p].size);
                }
            } else {
                assert(pre.class(p).contains(m));
                let i = choose|i: int|
                    0 <= i < sp && (#[trigger] pre.lwalk(p, i as nat)) == m;
                if i == 0 {
                    assert(post.lwalk(p, 0) == p);
                    assert(m == p);
                    assert(0 <= 0 < post.blocks@[p].size);
                } else {
                    Self::lemma_splice_back_home(pre, post, p, c, i);
                    assert(post.lwalk(p, (sc + i) as nat) == m);
                    assert(0 <= sc + i < post.blocks@[p].size);
                }
            }
        }
        assert(post.cycle_ok_at(p));
        // all other roots keep their cycles
        assert forall|r: int|
            post.in_range(r) && post.is_root(r) implies #[trigger] post.cycle_ok_at(r) by {
            if r != p {
                assert(pre.is_root(r) && r != c);
                assert(pre.cycle_ok_at(r));
                assert(post.class(r) =~= pre.class(r)) by {
                    assert forall|m: int|
                        post.class(r).contains(m) <==> pre.class(r).contains(m) by {
                        if pre.in_range(m) {
                            assert(post.rep(m) == (if pre.rep(m) == c {
                                p
                            } else {
                                pre.rep(m)
                            }));
                        }
                    }
                }
                assert(post.blocks@[r].size == pre.blocks@[r].size);
                Self::lemma_splice_other(pre, post, p, c, r, pre.blocks@[r].size as nat);
                assert(post.lwalk(r, post.blocks@[r].size as nat) == r);
                assert forall|m: int| post.class(r).contains(m) implies exists|i: int|
                    0 <= i < post.blocks@[r].size && (#[trigger] post.lwalk(r, i as nat))
                        == m by {
                    let i = choose|i: int|
                        0 <= i < pre.blocks@[r].size && (#[trigger] pre.lwalk(r, i as nat))
                            == m;
                    Self::lemma_splice_other(pre, post, p, c, r, i as nat);
                    assert(post.lwalk(r, i as nat) == m);
                }
            }
        }
    }

    /// Label witnesses carry over to a partition with the same
    /// representatives, roots and labels.
    proof fn lemma_witness_transfer(a: StatePartition, b: StatePartition)
        requires
            a.labels_witnessed(),
            b.n() == a.n(),
            forall|t: int| a.in_range(t) ==> #[trigger] b.rep(t) == a.rep(t),
            forall|t: int| a.in_range(t) ==> (b.is_root(t) <==> #[trigger] a.is_root(t)),
            forall|t: int|
                a.in_range(t) ==> (#[trigger] b.blocks@[t]).label == a.blocks@[t].label,
        ensures
            b.labels_witnessed(),
    {
        assert forall|r: int|
            b.in_range(r) && b.is_root(r) implies #[trigger] b.label_witnessed_at(r) by {
            assert(a.is_root(r));
            assert(a.label_witnessed_at(r));
            if b.blocks@[r].label != UNLABELLED {
                let w = choose|w: int|
                    (#[trigger] a.class(r).contains(w)) && a.blocks@[w].label
                        == a.blocks@[r].label;
                assert(b.rep(w) == a.rep(w));
                assert(b.class(r).contains(w));
                assert(b.blocks@[w].label == a.blocks@[w].label);
            }
        }
    }

    /// Link cycles carry over to a partition with the same `link` fields,
    /// representatives, roots and root sizes.
    proof fn lemma_cycles_transfer(a: StatePartition, b: StatePartition)
        requires
            a.dom_ok(),
            a.cycles_ok(),
            b.n() == a.n(),
            forall|t: int| a.in_range(t) ==> #[trigger] b.succ(t) == a.succ(t),
            forall|t: int| a.in_range(t) ==> #[trigger] b.rep(t) == a.rep(t),
            forall|t: int| a.in_range(t) ==> (b.is_root(t) <==> #[trigger] a.is_root(t)),
            forall|r: int|
                a.in_range(r) && a.is_root(r) ==> (#[trigger] b.blocks@[r]).size
                    == a.blocks@[r].size,
        ensures
            b.cycles_ok(),
    {
        assert forall|s: int|
            b.in_range(s) implies b.in_range(#[trigger] b.succ(s)) && b.rep(b.succ(s))
            == b.rep(s) by {
            assert(a.in_range(a.succ(s)) && a.rep(a.succ(s)) == a.rep(s));
            assert(b.succ(s) == a.succ(s));
            assert(b.rep(a.succ(s)) == a.rep(a.succ(s)));
        }
        assert forall|r: int|
            b.in_range(r) && b.is_root(r) implies #[trigger] b.cycle_ok_at(r) by {
            assert(a.is_root(r));
            assert(a.cycle_ok_at(r));
            a.lemma_lwalk_congruence(b, r, a.blocks@[r].size as nat);
            assert(b.class(r) =~= a.class(r)) by {
                assert forall|m: int|
                    b.class(r).contains(m) <==> a.class(r).contains(m) by {
                    if a.in_range(m) {
                        assert(b.rep(m) == a.rep(m));
                    }
                }
            }
            assert forall|m: int| b.class(r).contains(m) implies exists|i: int|
                0 <= i < b.blocks@[r].size && (#[trigger] b.lwalk(r, i as nat)) == m by {
                let i = choose|i: int|
                    0 <= i < a.blocks@[r].size && (#[trigger] a.lwalk(r, i as nat)) == m;
                a.lemma_lwalk_congruence(b, r, i as nat);
                assert(b.lwalk(r, i as nat) == m);
            }
        }
    }
}

/// Copies a transition row.
fn copy_row(v: &Vec<i32>) -> (res: Vec<i32>)
    ensures
        res@ == v@,
{
    let mut res: Vec<i32> = Vec::new();
    let mut i: usize = 0;
    let n = v.len();
    while i < n
        invariant
            i <= n,
            n == v@.len(),
            res@ == v@.subrange(0, i as int),
        decreases n - i,
    {
        let x = v[i];
        res.push(x);
        proof {
            assert(res@ =~= v@.subrange(0, i + 1 as int));
        }
        i = i + 1;
    }
    proof {
        assert(res@ =~= v@);
    }
    res
}

/// The states of `states[0..i]` carrying the given label.
pub open spec fn label_set_upto(p: StatePartition, label: StateLabel, i: int) -> Set<int> {
    Set::new(|s: int| 0 <= s < i && p.blocks@[s].label == label)
}

impl StatePartition {
    /// Returns the partition of the DFA's states into singleton blocks: each
    /// state is its own root, with its label and a copy of its transitions.
    pub fn new(dfa: &DFA) -> (p: StatePartition)
        requires
            dfa.wf(),
        ensures
            p.wf(),
            !p.is_copy,
            p.n() == dfa.n_states(),
            p.alphabet_size == dfa.alphabet_size(),
            p.starting_state_id == dfa.starting_state_id,
            p.blocks_count == dfa.n_states(),
            p.changed_blocks_count == 0,
            forall|s: int|
                0 <= s < dfa.n_states() ==> {
                    &&& (#[trigger] p.blocks@[s]).root == s
                    &&& p.blocks@[s].size == 1
                    &&& p.blocks@[s].link == s
                    &&& p.blocks@[s].label == dfa.states@[s].label
                    &&& !p.blocks@[s].changed
                    &&& p.blocks@[s].transitions@ == dfa.states@[s].transitions@
                },
            p.accepting_blocks_count + p.rejecting_blocks_count == DFA::labelled_count_to(
                dfa.states@,
                dfa.n_states(),
            ),
            forall|s: int| 0 <= s < dfa.n_states() ==> #[trigger] p.rep(s) == s,
    {
        let n = dfa.states.len();
        let mut blocks: Vec<Block> = Vec::new();
        let mut accepting: i32 = 0;
        let mut rejecting: i32 = 0;
        let mut i: usize = 0;
        proof {
            assert(Set::new(|s: int| 0 <= s < 0 && dfa.states@[s].label == ACCEPTING)
                =~= Set::<int>::empty());
            assert(Set::new(|s: int| 0 <= s < 0 && dfa.states@[s].label == REJECTING)
                =~= Set::<int>::empty());
        }
        while i < n
            invariant
                i <= n,
                n == dfa.states@.len(),
                dfa.wf(),
                blocks@.len() == i,
                forall|s: int|
                    0 <= s < i ==> {
                        &&& (#[trigger] blocks@[s]).root == s
                        &&& blocks@[s].size == 1
                        &&& blocks@[s].link == s
                        &&& blocks@[s].label == dfa.states@[s].label
                        &&& !blocks@[s].changed
                        &&& blocks@[s].transitions@ == dfa.states@[s].transitions@
                    },
                0 <= accepting,
                0 <= rejecting,
                accepting + rejecting <= i,
                accepting + rejecting == DFA::labelled_count_to(dfa.states@, i as int),
                accepting == Set::new(
                    |s: int| 0 <= s < i && dfa.states@[s].label == ACCEPTING,
                ).len(),
                Set::new(|s: int| 0 <= s < i && dfa.states@[s].label == ACCEPTING).finite(),
                rejecting == Set::new(
                    |s: int| 0 <= s < i && dfa.states@[s].label == REJECTING,
                ).len(),
                Set::new(|s: int| 0 <= s < i && dfa.states@[s].label == REJECTING).finite(),
            decreases n - i,
        {
            let ghost acc_set = Set::new(
                |s: int| 0 <= s < i && dfa.states@[s].label == ACCEPTING,
            );
            let ghost rej_set = Set::new(
                |s: int| 0 <= s < i && dfa.states@[s].label == REJECTING,
            );
            let label = dfa.states[i].label;
            if label == ACCEPTING {
                accepting = accepting + 1;
            } else if label == REJECTING {
                rejecting = rejecting + 1;
            }
            let transitions = copy_row(&dfa.states[i].transitions);
            blocks.push(
                Block {
                    root: i as i32,
                    size: 1,
                    link: i as i32,
                    label,
                    changed: false,
                    transitions,
                },
            );
            i = i + 1;
            proof {
                let acc_set2 = Set::new(
                    |s: int| 0 <= s < i && dfa.states@[s].label == ACCEPTING,
                );
                let rej_set2 = Set::new(
                    |s: int| 0 <= s < i && dfa.states@[s].label == REJECTING,
                );
                if label == ACCEPTING {
                    assert(acc_set2 =~= acc_set.insert(i - 1));
                    assert(rej_set2 =~= rej_set);
                } else if label == REJECTING {
                    assert(acc_set2 =~= acc_set);
                    assert(rej_set2 =~= rej_set.insert(i - 1));
                } else {
                    assert(acc_set2 =~= acc_set);
                    assert(rej_set2 =~= rej_set);
                }
            }
        }
        let p = StatePartition {
            blocks,
            blocks_count: n as i32,
            accepting_blocks_count: accepting,
            rejecting_blocks_count: rejecting,
            alphabet_size: dfa.alphabet.len(),
            starting_state_id: dfa.starting_state_id,
            is_copy: false,
            changed_blocks: Vec::new(),
            changed_blocks_count: 0,
        };
        proof {
            let np = p.n();
            assert forall|s: int| p.in_range(s) implies #[trigger] p.rep(s) == s && p.dist(s)
                == 0 && p.rooted_in(s, np as nat) by {
                assert(p.is_root(s));
                assert(p.walk(s, np as nat) == s);
                assert(p.dist_to(s, np as nat) == 0);
            }
            assert forall|s: int| p.in_range(s) implies p.block_dom_ok(s) by {
                assert(dfa.states@[s].wf(dfa.n_states(), dfa.alphabet_size()));
            }
            assert forall|r: int| p.in_range(r) && p.is_root(r) implies #[trigger] p.size_ok_at(
                r,
            ) by {
                assert(p.class(r) =~= Set::empty().insert(r));
            }
            assert(p.roots_set() =~= vstd::set_lib::set_int_range(0, np));
            vstd::set_lib::lemma_int_range(0, np);
            assert(p.labelled_roots(ACCEPTING) =~= Set::new(
                |s: int| 0 <= s < np && dfa.states@[s].label == ACCEPTING,
            ));
            assert(p.labelled_roots(REJECTING) =~= Set::new(
                |s: int| 0 <= s < np && dfa.states@[s].label == REJECTING,
            ));
            assert forall|s: int| p.in_range(s) implies #[trigger] label_compat(
                p.blocks@[s].label,
                p.blocks@[p.rep(s)].label,
            ) by {
                assert(p.rep(s) == s);
            }
            assert forall|s: int|
                p.in_range(s) implies p.in_range(#[trigger] p.succ(s)) && p.rep(p.succ(s))
                == p.rep(s) by {
                assert(p.succ(s) == s);
            }
            assert forall|r: int|
                p.in_range(r) && p.is_root(r) implies #[trigger] p.label_witnessed_at(r) by {
                if p.blocks@[r].label != UNLABELLED {
                    assert(p.class(r).contains(r));
                    assert(p.class(r).contains(r) && p.blocks@[r].label == p.blocks@[r].label);
                }
            }
            assert forall|r: int|
                p.in_range(r) && p.is_root(r) implies #[trigger] p.cycle_ok_at(r) by {
                p.lemma_lwalk_one(r);
                assert(p.lwalk(r, 1) == r);
                assert(p.class(r) =~= Set::empty().insert(r));
                assert forall|m: int| p.class(r).contains(m) implies exists|i: int|
                    0 <= i < p.blocks@[r].size && (#[trigger] p.lwalk(r, i as nat)) == m by {
                    assert(m == r);
                    assert(p.lwalk(r, 0) == m);
                    assert(0 <= 0 < p.blocks@[r].size);
                }
            }
        }
        p
    }

    /// Returns the sum of the accepting and rejecting block counters: the
    /// number of labelled blocks of the partition.
    pub fn number_of_labelled_blocks(&self) -> (count: i32)
        requires
            self.wf(),
        ensures
            count == self.accepting_blocks_count + self.rejecting_blocks_count,
    {
        proof {
            vstd::set_lib::lemma_int_range(0, self.n());
            vstd::set_lib::lemma_set_disjoint_lens(
                self.labelled_roots(ACCEPTING),
                self.labelled_roots(REJECTING),
            );
            vstd::set_lib::lemma_len_subset(
                self.labelled_roots(ACCEPTING).union(self.labelled_roots(REJECTING)),
                vstd::set_lib::set_int_range(0, self.n()),
            );
        }
        self.accepting_blocks_count + self.rejecting_blocks_count
    }

    /// Logs the block as changed: on a copy whose block is not yet marked,
    /// appends the id to the change log and sets the flag; otherwise does
    /// nothing.
    pub fn changed_block(&mut self, block_id: i32)
        requires
            old(self).wf(),
            0 <= block_id < old(self).n(),
        ensures
            final(self).wf(),
            final(self).same_shape(*old(self)),
            final(self).counts_eq(*old(self)),
            StatePartition::copy_step(*old(self), *final(self)),
            final(self).blocks@[block_id as int].changed == (old(self).is_copy
                || old(self).blocks@[block_id as int].changed),
            forall|s: int|
                old(self).in_range(s) && s != block_id ==> (#[trigger] final(self).blocks@[s])
                    == old(self).blocks@[s],
            block_eq_mod_changed(
                final(self).blocks@[block_id as int],
                old(self).blocks@[block_id as int],
            ),
            forall|s: int| old(self).in_range(s) ==> #[trigger] final(self).parent(s)
                == old(self).parent(s),
            forall|s: int|
                old(self).in_range(s) ==> #[trigger] final(self).rep(s) == old(self).rep(s),
            forall|s: int|
                old(self).in_range(s) ==> #[trigger] final(self).dist(s) == old(self).dist(s),
            forall|s: int|
                old(self).in_range(s) ==> (final(self).is_root(s) <==> #[trigger] old(
                    self,
                ).is_root(s)),
            (old(self).is_copy && !old(self).blocks@[block_id as int].changed) ==> {
                &&& final(self).changed_blocks@ == old(self).changed_blocks@.update(
                    old(self).changed_blocks_count as int,
                    block_id,
                )
                &&& final(self).changed_blocks_count == old(self).changed_blocks_count + 1
            },
            !(old(self).is_copy && !old(self).blocks@[block_id as int].changed)
                ==> *final(self) == *old(self),
    {
        let b = block_id as usize;
        if self.is_copy && !self.blocks[b].changed {
            proof {
                // the unmarked block keeps the changed set strictly below the
                // log capacity
                vstd::set_lib::lemma_int_range(0, self.n());
                assert(self.changed_set().subset_of(
                    vstd::set_lib::set_int_range(0, self.n()).remove(block_id as int),
                ));
                assert(vstd::set_lib::set_int_range(0, self.n()).remove(block_id as int).len()
                    == self.n() - 1);
                vstd::set_lib::lemma_len_subset(
                    self.changed_set(),
                    vstd::set_lib::set_int_range(0, self.n()).remove(block_id as int),
                );
            }
            let ghost pre = *self;
            let idx = self.changed_blocks_count as usize;
            self.changed_blocks[idx] = block_id;
            self.changed_blocks_count = self.changed_blocks_count + 1;
            self.blocks[b].changed = true;
            proof {
                assert(self.changed_set() =~= pre.changed_set().insert(block_id as int));
                assert forall|s: int|
                    self.in_range(s) implies ((#[trigger] self.blocks@[s].changed) <==> exists|
                    j: int,
                |
                    0 <= j < self.changed_blocks_count && self.changed_blocks@[j] == s) by {
                    if self.blocks@[s].changed {
                        if s == block_id as int {
                            assert(self.changed_blocks@[self.changed_blocks_count - 1] == s);
                        } else {
                            let j = choose|j: int|
                                0 <= j < pre.changed_blocks_count && pre.changed_blocks@[j]
                                    == s;
                            assert(self.changed_blocks@[j] == s);
                        }
                    }
                }
                assert forall|t: int| pre.in_range(t) implies pre.parent(t)
                    == #[trigger] self.parent(t) by {}
                assert forall|s: int| self.in_range(s) implies self.block_dom_ok(s) by {
                    assert(pre.block_dom_ok(s));
                    assert(self.blocks@[s].transitions@ == pre.blocks@[s].transitions@);
                }
                pre.lemma_uf_congruence(*self);
                assert forall|r: int|
                    self.in_range(r) && self.is_root(r) implies #[trigger] self.size_ok_at(
                    r,
                ) by {
                    assert(pre.in_range(r) && pre.is_root(r));
                    assert(pre.size_ok_at(r));
                    assert(pre.class(r) == self.class(r));
                    assert(self.blocks@[r].size == pre.blocks@[r].size);
                }
                assert(self.labelled_roots(ACCEPTING) =~= pre.labelled_roots(ACCEPTING));
                assert(self.labelled_roots(REJECTING) =~= pre.labelled_roots(REJECTING));
                assert forall|s: int| self.in_range(s) implies #[trigger] label_compat(
                    self.blocks@[s].label,
                    self.blocks@[self.rep(s)].label,
                ) by {
                    assert(pre.in_range(s));
                    pre.lemma_rep_char(s);
                    assert(label_compat(pre.blocks@[s].label, pre.blocks@[pre.rep(s)].label));
                    assert(pre.rep(s) == self.rep(s));
                    assert(self.blocks@[s].label == pre.blocks@[s].label);
                    assert(self.blocks@[pre.rep(s)].label == pre.blocks@[pre.rep(s)].label);
                }
                assert forall|s: int| self.in_range(s) implies #[trigger] self.depth_ok_at(
                    s,
                ) by {
                    assert(pre.in_range(s));
                    assert(pre.depth_ok_at(s));
                    pre.lemma_rep_char(s);
                    assert(pre.dist(s) == self.dist(s) && pre.rep(s) == self.rep(s));
                    assert(self.blocks@[pre.rep(s)].size == pre.blocks@[pre.rep(s)].size);
                }
                assert forall|s: int| pre.in_range(s) implies #[trigger] self.rep(s) == pre.rep(
                    s,
                ) by {
                    assert(pre.rep(s) == self.rep(s));
                }
                assert forall|s: int| pre.in_range(s) implies #[trigger] self.dist(s)
                    == pre.dist(s) by {
                    assert(pre.dist(s) == self.dist(s));
                }
                assert forall|s: int|
                    pre.in_range(s) implies (self.is_root(s) <==> #[trigger] pre.is_root(
                    s,
                )) by {}
                assert forall|t: int| pre.in_range(t) implies #[trigger] self.succ(t)
                    == pre.succ(t) by {}
                StatePartition::lemma_cycles_transfer(pre, *self);
                StatePartition::lemma_witness_transfer(pre, *self);
            }
        }
    }
}

impl StatePartition {
    /// One-step reasoning: a non-root state whose parent reaches a root in
    /// fewer than `n` steps reaches the same root, one step later.
    proof fn lemma_step_up(self, s: int)
        requires
            self.in_range(s),
            !self.is_root(s),
            self.rooted_in(self.parent(s), self.n() as nat),
            self.dist_to(self.parent(s), self.n() as nat) <= self.n() - 1,
        ensures
            self.rooted_in(s, self.n() as nat),
            self.rep(s) == self.rep(self.parent(s)),
            self.dist(s) == 1 + self.dist(self.parent(s)),
    {
        let n = self.n() as nat;
        let p = self.parent(s);
        self.lemma_walk_stable(p, n, n);
        let d = self.dist_to(p, n);
        assert(self.is_root(self.walk(p, d)));
        self.lemma_walk_stable(p, d, (n - 1) as nat);
        self.lemma_walk_stable(p, d, n);
        assert(self.walk(s, n) == self.walk(p, (n - 1) as nat));
        assert(self.dist_to(s, n) == 1 + self.dist_to(p, (n - 1) as nat));
    }

    /// Redirecting one non-root state to its grandparent (path compression)
    /// keeps every state rooted, keeps every representative, and never
    /// lengthens a chain.
    proof fn lemma_compress_node(
        pre: StatePartition,
        post: StatePartition,
        x: int,
        g: int,
        t: int,
    )
        requires
            pre.dom_ok(),
            pre.reaches_ok(),
            pre.in_range(x),
            !pre.is_root(x),
            !pre.is_root(pre.parent(x)),
            g == pre.parent(pre.parent(x)),
            post.n() == pre.n(),
            forall|u: int| pre.in_range(u) && u != x ==> post.parent(u) == #[trigger] pre.parent(u),
            post.parent(x) == g,
            pre.in_range(t),
        ensures
            post.rooted_in(t, post.n() as nat),
            post.rep(t) == pre.rep(t),
            post.dist(t) <= pre.dist(t),
        decreases pre.dist(t),
    {
        let n = pre.n() as nat;
        let q = pre.parent(x);
        assert(pre.block_dom_ok(x));
        assert(pre.block_dom_ok(q));
        pre.lemma_rep_char(x);
        pre.lemma_rep_char(q);
        pre.lemma_rep_char(t);
        // x sits two steps below g, so g is a different state than x
        assert(pre.dist(x) == 2 + pre.dist(g));
        assert(g != x);
        if pre.is_root(t) {
            assert(post.parent(t) == pre.parent(t));
            assert(post.walk(t, n) == t);
            assert(post.dist_to(t, n) == 0);
        } else if t == x {
            Self::lemma_compress_node(pre, post, x, g, g);
            assert(!post.is_root(x));
            assert(post.dist(g) <= pre.dist(g));
            assert(pre.dist(g) == pre.dist(x) - 2);
            post.lemma_step_up(x);
            assert(post.rep(x) == post.rep(g));
            assert(pre.rep(x) == pre.rep(g));
        } else {
            let q2 = pre.parent(t);
            assert(pre.block_dom_ok(t));
            assert(pre.dist(q2) == pre.dist(t) - 1);
            Self::lemma_compress_node(pre, post, x, g, q2);
            assert(post.parent(t) == q2);
            assert(!post.is_root(t));
            post.lemma_step_up(t);
            assert(post.rep(t) == post.rep(q2));
            assert(pre.rep(t) == pre.rep(q2));
        }
    }

    /// Path compression at one state preserves the whole well-formed state of
    /// the partition: same representatives, same roots, same classes, same
    /// counters; only the compressed state's pointer differs.
    proof fn lemma_compress_wf(pre: StatePartition, post: StatePartition, x: int, g: int)
        requires
            pre.wf(),
            pre.in_range(x),
            !pre.is_root(x),
            !pre.is_root(pre.parent(x)),
            g == pre.parent(pre.parent(x)),
            post.n() == pre.n(),
            forall|u: int|
                pre.in_range(u) && u != x ==> (#[trigger] post.blocks@[u]) == pre.blocks@[u],
            post.parent(x) == g,
            block_eq_mod_uf(post.blocks@[x], pre.blocks@[x]),
            post.blocks@[x].changed == pre.blocks@[x].changed,
            post.blocks_count == pre.blocks_count,
            post.accepting_blocks_count == pre.accepting_blocks_count,
            post.rejecting_blocks_count == pre.rejecting_blocks_count,
            post.alphabet_size == pre.alphabet_size,
            post.is_copy == pre.is_copy,
            post.changed_blocks@ == pre.changed_blocks@,
            post.changed_blocks_count == pre.changed_blocks_count,
        ensures
            post.wf(),
            forall|t: int| pre.in_range(t) ==> #[trigger] post.rep(t) == pre.rep(t),
            forall|t: int| pre.in_range(t) ==> #[trigger] post.dist(t) <= pre.dist(t),
            forall|t: int| pre.in_range(t) ==> (post.is_root(t) <==> #[trigger] pre.is_root(t)),
            post.roots_set() == pre.roots_set(),
    {
        assert forall|u: int| pre.in_range(u) && u != x implies post.parent(u)
            == #[trigger] pre.parent(u) by {}
        assert forall|t: int| pre.in_range(t) implies #[trigger] post.rep(t) == pre.rep(t) by {
            Self::lemma_compress_node(pre, post, x, g, t);
        }
        assert forall|t: int| pre.in_range(t) implies #[trigger] post.dist(t) <= pre.dist(t) by {
            Self::lemma_compress_node(pre, post, x, g, t);
        }
        assert forall|t: int| post.in_range(t) implies #[trigger] post.rooted_in(
            t,
            post.n() as nat,
        ) by {
            Self::lemma_compress_node(pre, post, x, g, t);
        }
        assert(pre.block_dom_ok(pre.parent(x)));
        pre.lemma_rep_char(x);
        pre.lemma_rep_char(pre.parent(x));
        assert(pre.dist(x) == 2 + pre.dist(g));
        assert(g != x);
        assert forall|t: int|
            pre.in_range(t) implies (post.is_root(t) <==> #[trigger] pre.is_root(t)) by {
            if t != x {
                assert(post.parent(t) == pre.parent(t));
            }
        }
        assert forall|s: int| post.in_range(s) implies post.block_dom_ok(s) by {
            assert(pre.block_dom_ok(s));
            if s == x {
                assert(pre.block_dom_ok(pre.parent(x)));
                assert(post.blocks@[s].transitions@ == pre.blocks@[s].transitions@);
            } else {
                assert(post.blocks@[s] == pre.blocks@[s]);
            }
        }
        assert forall|r: int| #[trigger] post.class(r) == pre.class(r) by {
            assert forall|s: int| post.class(r).contains(s) <==> pre.class(r).contains(s) by {}
            assert(post.class(r) =~= pre.class(r));
        }
        assert(post.roots_set() =~= pre.roots_set());
        assert forall|r: int|
            post.in_range(r) && post.is_root(r) implies #[trigger] post.size_ok_at(r) by {
            assert(pre.size_ok_at(r));
            assert(post.class(r) == pre.class(r));
            assert(post.blocks@[r].size == pre.blocks@[r].size);
        }
        assert forall|s: int| post.in_range(s) implies #[trigger] post.depth_ok_at(s) by {
            assert(pre.depth_ok_at(s));
            pre.lemma_rep_char(s);
            assert(post.dist(s) <= pre.dist(s));
            assert(post.rep(s) == pre.rep(s));
            assert(post.blocks@[pre.rep(s)].size == pre.blocks@[pre.rep(s)].size);
        }
        assert forall|s: int|
            post.labelled_roots(ACCEPTING).contains(s) <==> pre.labelled_roots(
                ACCEPTING,
            ).contains(s) by {
            if pre.in_range(s) {
                assert(pre.is_root(s) <==> post.is_root(s));
                assert(post.blocks@[s].label == pre.blocks@[s].label);
            }
        }
        assert(post.labelled_roots(ACCEPTING) =~= pre.labelled_roots(ACCEPTING));
        assert forall|s: int|
            post.labelled_roots(REJECTING).contains(s) <==> pre.labelled_roots(
                REJECTING,
            ).contains(s) by {
            if pre.in_range(s) {
                assert(pre.is_root(s) <==> post.is_root(s));
                assert(post.blocks@[s].label == pre.blocks@[s].label);
            }
        }
        assert(post.labelled_roots(REJECTING) =~= pre.labelled_roots(REJECTING));
        assert forall|s: int| post.in_range(s) implies #[trigger] label_compat(
            post.blocks@[s].label,
            post.blocks@[post.rep(s)].label,
        ) by {
            pre.lemma_rep_char(s);
            assert(label_compat(pre.blocks@[s].label, pre.blocks@[pre.rep(s)].label));
            assert(post.blocks@[s].label == pre.blocks@[s].label);
            assert(post.blocks@[pre.rep(s)].label == pre.blocks@[pre.rep(s)].label);
        }
        if post.is_copy {
            assert(post.changed_set() =~= pre.changed_set());
            assert forall|s: int|
                post.in_range(s) implies ((#[trigger] post.blocks@[s].changed) <==> exists|
                j: int,
            |
                0 <= j < post.changed_blocks_count && post.changed_blocks@[j] == s) by {
                assert(post.blocks@[s].changed == pre.blocks@[s].changed);
            }
        } else {
            assert forall|s: int| post.in_range(s) implies !(
            #[trigger] post.blocks@[s].changed) by {
                assert(post.blocks@[s].changed == pre.blocks@[s].changed);
            }
        }
        assert forall|t: int| pre.in_range(t) implies #[trigger] post.succ(t)
            == pre.succ(t) by {
            if t == x {
                assert(block_eq_mod_uf(post.blocks@[x], pre.blocks@[x]));
            } else {
                assert(post.blocks@[t] == pre.blocks@[t]);
            }
        }
        assert forall|r: int|
            pre.in_range(r) && pre.is_root(r) implies (#[trigger] post.blocks@[r]).size
            == pre.blocks@[r].size by {
            if r == x {
                assert(block_eq_mod_uf(post.blocks@[x], pre.blocks@[x]));
            } else {
                assert(post.blocks@[r] == pre.blocks@[r]);
            }
        }
        StatePartition::lemma_cycles_transfer(pre, post);
        assert forall|t: int|
            pre.in_range(t) implies (#[trigger] post.blocks@[t]).label
            == pre.blocks@[t].label by {
            if t == x {
                assert(block_eq_mod_uf(post.blocks@[x], pre.blocks@[x]));
            } else {
                assert(post.blocks@[t] == pre.blocks@[t]);
            }
        }
        StatePartition::lemma_witness_transfer(pre, post);
    }

    /// The abstract state of this partition: representatives resolved, all
    /// per-block data and counters carried over.
    pub open spec fn model(self) -> PartitionModel {
        PartitionModel {
            rep: Seq::new(self.n() as nat, |s: int| self.rep(s)),
            size: Seq::new(self.n() as nat, |s: int| self.blocks@[s].size as int),
            label: Seq::new(self.n() as nat, |s: int| self.blocks@[s].label),
            link: Seq::new(self.n() as nat, |s: int| self.blocks@[s].link as int),
            transitions: Seq::new(self.n() as nat, |s: int| self.blocks@[s].transitions@),
            blocks_count: self.blocks_count as int,
            accepting_blocks_count: self.accepting_blocks_count as int,
            rejecting_blocks_count: self.rejecting_blocks_count as int,
            alphabet_size: self.alphabet_size as int,
        }
    }

    /// The model of a well-formed partition is well formed.
    pub proof fn lemma_model_inv(self)
        requires
            self.wf(),
        ensures
            self.model().inv(),
            self.model().n() == self.n(),
    {
        let m = self.model();
        assert forall|s: int|
            0 <= s < m.n() implies 0 <= #[trigger] m.rep[s] < m.n() && m.rep[m.rep[s]]
            == m.rep[s] by {
            self.lemma_rep_idempotent(s);
        }
        assert forall|s: int| 0 <= s < m.n() implies label_wf(#[trigger] m.label[s]) by {
            assert(self.block_dom_ok(s));
        }
        assert forall|s: int|
            0 <= s < m.n() implies (#[trigger] m.transitions[s]).len() == m.alphabet_size by {
            assert(self.block_dom_ok(s));
        }
        assert forall|s: int, k: int|
            0 <= s < m.n() && 0 <= k < m.alphabet_size implies -1
                <= #[trigger] m.transitions[s][k] < m.n() by {
            assert(self.block_dom_ok(s));
        }
        assert(m.roots() =~= self.roots_set()) by {
            assert forall|s: int| m.roots().contains(s) <==> self.roots_set().contains(s) by {
                if self.in_range(s) {
                    self.lemma_rep_char(s);
                    if self.rep(s) == s && !self.is_root(s) {
                        assert(self.is_root(self.rep(s)));
                    }
                }
            }
        }
    }

    /// Two partitions with the same representatives, counters, and block
    /// data (union-find pointers aside) have the same model.
    pub proof fn lemma_model_eq(a: StatePartition, b: StatePartition)
        requires
            a.n() == b.n(),
            a.counts_eq(b),
            a.alphabet_size == b.alphabet_size,
            forall|t: int| a.in_range(t) ==> #[trigger] a.rep(t) == b.rep(t),
            forall|t: int|
                a.in_range(t) ==> block_eq_mod_uf(#[trigger] a.blocks@[t], b.blocks@[t]),
        ensures
            a.model() == b.model(),
    {
        assert forall|t: int|
            a.in_range(t) implies a.blocks@[t].link == b.blocks@[t].link && a.blocks@[t].size
            == b.blocks@[t].size && a.blocks@[t].label == b.blocks@[t].label
            && a.blocks@[t].transitions@ == b.blocks@[t].transitions@ by {
            assert(block_eq_mod_uf(a.blocks@[t], b.blocks@[t]));
        }
        assert(a.model().rep =~= b.model().rep);
        assert(a.model().size =~= b.model().size);
        assert(a.model().label =~= b.model().label);
        assert(a.model().link =~= b.model().link);
        assert(a.model().transitions =~= b.model().transitions);
        assert(a.model() =~= b.model());
    }

    /// The root that becomes the parent when the two given roots are joined:
    /// the larger block wins, and the left argument wins a tie.
    pub open spec fn union_parent(self, a: int, b: int) -> int {
        if self.blocks@[a].size < self.blocks@[b].size {
            b
        } else {
            a
        }
    }

    /// The root that becomes the child when the two given roots are joined.
    pub open spec fn union_child(self, a: int, b: int) -> int {
        if self.blocks@[a].size < self.blocks@[b].size {
            a
        } else {
            b
        }
    }

    /// Pointing the root `c` at the other root `p` moves every state of `c`'s
    /// block to `p`'s block, one step further from its root, and leaves every
    /// other state untouched.
    proof fn lemma_union_node(pre: StatePartition, post: StatePartition, c: int, p: int, t: int)
        requires
            pre.dom_ok(),
            pre.reaches_ok(),
            pre.in_range(c),
            pre.in_range(p),
            c != p,
            pre.is_root(c),
            pre.is_root(p),
            post.n() == pre.n(),
            forall|u: int| pre.in_range(u) && u != c ==> post.parent(u) == #[trigger] pre.parent(u),
            post.parent(c) == p,
            forall|u: int|
                pre.in_range(u) && pre.rep(u) == c ==> #[trigger] pre.dist(u) <= pre.n() - 2,
            forall|u: int| pre.in_range(u) ==> #[trigger] pre.dist(u) <= pre.n() - 1,
            pre.in_range(t),
        ensures
            post.rooted_in(t, post.n() as nat),
            post.rep(t) == if pre.rep(t) == c {
                p
            } else {
                pre.rep(t)
            },
            post.dist(t) == pre.dist(t) + if pre.rep(t) == c {
                1nat
            } else {
                0nat
            },
        decreases pre.dist(t),
    {
        let n = pre.n() as nat;
        pre.lemma_rep_char(t);
        if pre.is_root(t) {
            if t == c {
                assert(post.parent(p) == pre.parent(p));
                assert(post.is_root(p));
                assert(!post.is_root(c));
                assert(post.walk(c, n) == post.walk(p, (n - 1) as nat));
                assert(post.walk(p, (n - 1) as nat) == p);
                assert(post.dist_to(c, n) == 1 + post.dist_to(p, (n - 1) as nat));
                assert(post.dist_to(p, (n - 1) as nat) == 0);
            } else {
                assert(post.parent(t) == pre.parent(t));
                assert(post.walk(t, n) == t);
                assert(post.dist_to(t, n) == 0);
            }
        } else {
            let q = pre.parent(t);
            assert(pre.block_dom_ok(t));
            assert(t != c);
            assert(pre.dist(q) == pre.dist(t) - 1);
            assert(pre.rep(q) == pre.rep(t));
            Self::lemma_union_node(pre, post, c, p, q);
            assert(post.parent(t) == q);
            assert(!post.is_root(t));
            assert(post.dist(q) <= post.n() - 1);
            post.lemma_step_up(t);
        }
    }

    /// Joining the root `c` under the root `p`, with the bookkeeping the
    /// union operation performs on sizes, links, labels, counters and
    /// transition rows, yields a well-formed partition whose blocks are those
    /// before the join except that `c`'s block has been absorbed into `p`'s.
    proof fn lemma_union_wf(pre: StatePartition, post: StatePartition, p: int, c: int)
        requires
            pre.wf(),
            pre.in_range(p),
            pre.in_range(c),
            p != c,
            pre.is_root(p),
            pre.is_root(c),
            !(pre.blocks@[p].label == ACCEPTING && pre.blocks@[c].label == REJECTING),
            !(pre.blocks@[p].label == REJECTING && pre.blocks@[c].label == ACCEPTING),
            post.n() == pre.n(),
            post.alphabet_size == pre.alphabet_size,
            post.starting_state_id == pre.starting_state_id,
            post.is_copy == pre.is_copy,
            post.changed_blocks@ == pre.changed_blocks@,
            post.changed_blocks_count == pre.changed_blocks_count,
            post.blocks_count == pre.blocks_count - 1,
            post.accepting_blocks_count == pre.accepting_blocks_count - (
            if pre.blocks@[p].label == ACCEPTING && pre.blocks@[c].label == ACCEPTING {
                1int
            } else {
                0int
            }),
            post.rejecting_blocks_count == pre.rejecting_blocks_count - (
            if pre.blocks@[p].label == REJECTING && pre.blocks@[c].label == REJECTING {
                1int
            } else {
                0int
            }),
            forall|u: int|
                pre.in_range(u) && u != p && u != c ==> (#[trigger] post.blocks@[u])
                    == pre.blocks@[u],
            post.parent(p) == p,
            post.blocks@[p].size == pre.blocks@[p].size + pre.blocks@[c].size,
            post.blocks@[p].link == pre.blocks@[c].link,
            post.blocks@[p].label == merged_label(pre.blocks@[p].label, pre.blocks@[c].label),
            post.blocks@[p].changed == pre.blocks@[p].changed,
            post.blocks@[p].transitions@.len() == pre.blocks@[p].transitions@.len(),
            forall|k: int|
                0 <= k < post.blocks@[p].transitions@.len()
                    ==> #[trigger] post.blocks@[p].transitions@[k] == (
                if pre.blocks@[p].transitions@[k] == -1 {
                    pre.blocks@[c].transitions@[k]
                } else {
                    pre.blocks@[p].transitions@[k]
                }),
            post.parent(c) == p,
            post.blocks@[c].size == pre.blocks@[c].size,
            post.blocks@[c].link == pre.blocks@[p].link,
            post.blocks@[c].label == pre.blocks@[c].label,
            post.blocks@[c].changed == pre.blocks@[c].changed,
            post.blocks@[c].transitions@.len() == pre.blocks@[c].transitions@.len(),
            forall|k: int|
                0 <= k < post.blocks@[c].transitions@.len()
                    ==> #[trigger] post.blocks@[c].transitions@[k] == (
                if pre.blocks@[p].transitions@[k] == -1 {
                    -1i32
                } else {
                    pre.blocks@[c].transitions@[k]
                }),
        ensures
            post.wf(),
            forall|t: int|
                pre.in_range(t) ==> #[trigger] post.rep(t) == (if pre.rep(t) == c {
                    p
                } else {
                    pre.rep(t)
                }),
            forall|t: int|
                pre.in_range(t) ==> (post.is_root(t) <==> (#[trigger] pre.is_root(t) && t != c)),
    {
        let n = pre.n();
        // distances stay within fuel: the absorbed block is not the whole
        // state space, since the parent block is disjoint from it
        pre.lemma_root_in_class(p);
        pre.lemma_root_in_class(c);
        pre.lemma_class_bound(p);
        pre.lemma_class_bound(c);
        pre.lemma_class_disjoint(p, c);
        assert(pre.size_ok_at(p));
        assert(pre.size_ok_at(c));
        vstd::set_lib::lemma_int_range(0, n);
        vstd::set_lib::lemma_len_subset(
            pre.class(p).union(pre.class(c)),
            vstd::set_lib::set_int_range(0, n),
        );
        assert(pre.blocks@[c].size + pre.blocks@[p].size <= n);
        assert forall|u: int|
            pre.in_range(u) && pre.rep(u) == c implies #[trigger] pre.dist(u) <= n - 2 by {
            assert(pre.depth_ok_at(u));
            assert(pre.class(c).contains(u));
        }
        assert forall|u: int| pre.in_range(u) implies #[trigger] pre.dist(u) <= n - 1 by {
            assert(pre.depth_ok_at(u));
            pre.lemma_rep_char(u);
            assert(pre.size_ok_at(pre.rep(u)));
            pre.lemma_class_bound(pre.rep(u));
        }
        assert forall|u: int| pre.in_range(u) && u != c implies post.parent(u)
            == #[trigger] pre.parent(u) by {}
        assert forall|t: int|
            pre.in_range(t) implies #[trigger] post.rep(t) == (if pre.rep(t) == c {
            p
        } else {
            pre.rep(t)
        }) by {
            Self::lemma_union_node(pre, post, c, p, t);
        }
        assert forall|t: int| post.in_range(t) implies #[trigger] post.rooted_in(
            t,
            post.n() as nat,
        ) by {
            Self::lemma_union_node(pre, post, c, p, t);
        }
        assert forall|t: int|
            pre.in_range(t) implies (post.is_root(t) <==> (#[trigger] pre.is_root(t) && t
            != c)) by {
            if t != c {
                assert(post.parent(t) == pre.parent(t));
            }
        }
        // domain conditions
        assert forall|s: int| post.in_range(s) implies post.block_dom_ok(s) by {
            assert(pre.block_dom_ok(s));
            if s == p || s == c {
                assert(pre.block_dom_ok(p));
                assert(pre.block_dom_ok(c));
            } else {
                assert(post.blocks@[s] == pre.blocks@[s]);
            }
        }
        // classes: the child's class joins the parent's, everything else stays
        assert forall|r: int|
            pre.in_range(r) && pre.is_root(r) && r != c && r != p implies #[trigger] post.class(
            r,
        ) == pre.class(r) by {
            assert forall|s: int| post.class(r).contains(s) <==> pre.class(r).contains(s) by {
                if pre.in_range(s) {
                    Self::lemma_union_node(pre, post, c, p, s);
                }
            }
            assert(post.class(r) =~= pre.class(r));
        }
        assert(post.class(p) =~= pre.class(p).union(pre.class(c))) by {
            assert forall|s: int|
                post.class(p).contains(s) <==> pre.class(p).union(pre.class(c)).contains(
                    s,
                ) by {
                if pre.in_range(s) {
                    Self::lemma_union_node(pre, post, c, p, s);
                }
            }
        }
        vstd::set_lib::lemma_set_disjoint_lens(pre.class(p), pre.class(c));
        assert forall|r: int|
            post.in_range(r) && post.is_root(r) implies #[trigger] post.size_ok_at(r) by {
            assert(pre.is_root(r) && r != c);
            if r == p {
                assert(post.class(p) == pre.class(p).union(pre.class(c)));
            } else {
                assert(pre.size_ok_at(r));
                assert(post.class(r) == pre.class(r));
                assert(post.blocks@[r].size == pre.blocks@[r].size);
            }
        }
        // depths grow by at most the one new link, staying under the sizes
        assert forall|s: int| post.in_range(s) implies #[trigger] post.depth_ok_at(s) by {
            assert(pre.depth_ok_at(s));
            pre.lemma_rep_char(s);
            Self::lemma_union_node(pre, post, c, p, s);
            if pre.rep(s) == c {
                assert(post.rep(s) == p);
                assert(pre.dist(s) < pre.blocks@[c].size);
            } else if pre.rep(s) == p {
                assert(post.rep(s) == p);
                assert(pre.dist(s) < pre.blocks@[p].size);
            } else {
                assert(post.blocks@[pre.rep(s)].size == pre.blocks@[pre.rep(s)].size);
            }
        }
        // counters: the child root leaves the root set
        assert(post.roots_set() =~= pre.roots_set().remove(c));
        assert(pre.roots_set().contains(c));
        let lp = pre.blocks@[p].label;
        let lc = pre.blocks@[c].label;
        assert forall|s: int|
            pre.in_range(s) && s != p && s != c implies ((#[trigger] post.labelled_roots(
            ACCEPTING,
        ).contains(s)) <==> pre.labelled_roots(ACCEPTING).contains(s)) by {
            assert(post.blocks@[s] == pre.blocks@[s]);
            assert(post.is_root(s) <==> (pre.is_root(s) && s != c));
        }
        assert forall|s: int|
            pre.in_range(s) && s != p && s != c implies ((#[trigger] post.labelled_roots(
            REJECTING,
        ).contains(s)) <==> pre.labelled_roots(REJECTING).contains(s)) by {
            assert(post.blocks@[s] == pre.blocks@[s]);
            assert(post.is_root(s) <==> (pre.is_root(s) && s != c));
        }
        assert(post.is_root(p));
        assert(!post.is_root(c));
        if lp == ACCEPTING && lc == ACCEPTING {
            assert(post.labelled_roots(ACCEPTING) =~= pre.labelled_roots(ACCEPTING).remove(c));
            assert(pre.labelled_roots(ACCEPTING).contains(c));
            assert(post.labelled_roots(REJECTING) =~= pre.labelled_roots(REJECTING));
        } else if lp == REJECTING && lc == REJECTING {
            assert(post.labelled_roots(REJECTING) =~= pre.labelled_roots(REJECTING).remove(c));
            assert(pre.labelled_roots(REJECTING).contains(c));
            assert(post.labelled_roots(ACCEPTING) =~= pre.labelled_roots(ACCEPTING));
        } else if lp == UNLABELLED && lc == ACCEPTING {
            assert(post.labelled_roots(ACCEPTING) =~= pre.labelled_roots(ACCEPTING).remove(
                c,
            ).insert(p));
            assert(pre.labelled_roots(ACCEPTING).contains(c));
            assert(!pre.labelled_roots(ACCEPTING).contains(p));
            assert(!pre.labelled_roots(ACCEPTING).remove(c).contains(p));
            assert(post.labelled_roots(REJECTING) =~= pre.labelled_roots(REJECTING));
        } else if lp == UNLABELLED && lc == REJECTING {
            assert(post.labelled_roots(REJECTING) =~= pre.labelled_roots(REJECTING).remove(
                c,
            ).insert(p));
            assert(pre.labelled_roots(REJECTING).contains(c));
            assert(!pre.labelled_roots(REJECTING).contains(p));
            assert(!pre.labelled_roots(REJECTING).remove(c).contains(p));
            assert(post.labelled_roots(ACCEPTING) =~= pre.labelled_roots(ACCEPTING));
        } else {
            assert(post.labelled_roots(ACCEPTING) =~= pre.labelled_roots(ACCEPTING).remove(c));
            assert(!pre.labelled_roots(ACCEPTING).contains(c));
            assert(post.labelled_roots(REJECTING) =~= pre.labelled_roots(REJECTING).remove(c));
            assert(!pre.labelled_roots(REJECTING).contains(c));
        }
        // member labels stay compatible with their (possibly new) block label
        assert forall|s: int| post.in_range(s) implies #[trigger] label_compat(
            post.blocks@[s].label,
            post.blocks@[post.rep(s)].label,
        ) by {
            assert(pre.block_dom_ok(s));
            pre.lemma_rep_char(s);
            Self::lemma_union_node(pre, post, c, p, s);
            assert(label_compat(pre.blocks@[s].label, pre.blocks@[pre.rep(s)].label));
            if s == p || s == c {
            } else {
                assert(post.blocks@[s] == pre.blocks@[s]);
            }
            if pre.rep(s) == c || pre.rep(s) == p {
                assert(post.rep(s) == p);
                assert(post.blocks@[p].label == merged_label(lp, lc));
            } else {
                assert(post.rep(s) == pre.rep(s));
                assert(post.blocks@[pre.rep(s)].label == pre.blocks@[pre.rep(s)].label);
            }
        }
        // the change log is untouched
        if post.is_copy {
            assert(post.changed_set() =~= pre.changed_set());
            assert forall|s: int|
                post.in_range(s) implies ((#[trigger] post.blocks@[s].changed) <==> exists|
                j: int,
            |
                0 <= j < post.changed_blocks_count && post.changed_blocks@[j] == s) by {
                assert(post.blocks@[s].changed == pre.blocks@[s].changed);
            }
        } else {
            assert forall|s: int| post.in_range(s) implies !(
            #[trigger] post.blocks@[s].changed) by {
                assert(post.blocks@[s].changed == pre.blocks@[s].changed);
            }
        }
        // the two link cycles are spliced into one
        assert forall|u: int|
            pre.in_range(u) && u != p && u != c implies #[trigger] post.succ(u)
            == pre.succ(u) by {
            assert(post.blocks@[u] == pre.blocks@[u]);
        }
        assert forall|u: int|
            pre.in_range(u) && u != p && u != c implies (#[trigger] post.blocks@[u]).size
            == pre.blocks@[u].size by {
            assert(post.blocks@[u] == pre.blocks@[u]);
        }
        StatePartition::lemma_union_cycles(pre, post, p, c);
        // every labelled block still has a member carrying its label: the
        // merged block inherits a witness from whichever side gave the label
        let lp = pre.blocks@[p].label;
        let lc = pre.blocks@[c].label;
        assert forall|r: int|
            post.in_range(r) && post.is_root(r) implies #[trigger] post.label_witnessed_at(
            r,
        ) by {
            if post.blocks@[r].label != UNLABELLED {
                if r == p {
                    if lp != UNLABELLED {
                        assert(pre.label_witnessed_at(p));
                        let w = choose|w: int|
                            (#[trigger] pre.class(p).contains(w)) && pre.blocks@[w].label
                                == pre.blocks@[p].label;
                        assert(post.class(p).contains(w));
                        assert(post.blocks@[w].label == lp) by {
                            if w != p && w != c {
                                assert(post.blocks@[w] == pre.blocks@[w]);
                            } else if w == c {
                                assert(pre.rep(c) == c);
                            }
                        }
                        assert(post.blocks@[p].label == lp);
                    } else {
                        assert(post.blocks@[p].label == lc);
                        assert(pre.label_witnessed_at(c));
                        let w = choose|w: int|
                            (#[trigger] pre.class(c).contains(w)) && pre.blocks@[w].label
                                == pre.blocks@[c].label;
                        assert(post.class(p).contains(w));
                        assert(post.blocks@[w].label == lc) by {
                            if w != p && w != c {
                                assert(post.blocks@[w] == pre.blocks@[w]);
                            } else if w == p {
                                assert(pre.rep(p) == p);
                            }
                        }
                    }
                } else {
                    assert(pre.is_root(r) && r != c && r != p);
                    assert(post.blocks@[r] == pre.blocks@[r]);
                    assert(pre.label_witnessed_at(r));
                    let w = choose|w: int|
                        (#[trigger] pre.class(r).contains(w)) && pre.blocks@[w].label
                            == pre.blocks@[r].label;
                    assert(post.class(r) == pre.class(r));
                    assert(post.class(r).contains(w));
                    assert(post.blocks@[w].label == pre.blocks@[w].label) by {
                        if w == p || w == c {
                            assert(pre.rep(w) == r);
                        } else {
                            assert(post.blocks@[w] == pre.blocks@[w]);
                        }
                    }
                }
            }
        }
    }

    /// Joins two distinct root blocks. The larger block becomes the parent
    /// (the first argument wins a tie); the two circular member lists are
    /// spliced by swapping links; the parent adopts the child's label when it
    /// was unlabelled, and the counters of root blocks and labelled root
    /// blocks are maintained; for every symbol the parent keeps its own
    /// transition and otherwise adopts the child's.
    pub fn union(&mut self, block_id_1: i32, block_id_2: i32)
        requires
            old(self).wf(),
            0 <= block_id_1 < old(self).n(),
            0 <= block_id_2 < old(self).n(),
            block_id_1 != block_id_2,
            old(self).is_root(block_id_1 as int),
            old(self).is_root(block_id_2 as int),
            !(old(self).blocks@[block_id_1 as int].label == ACCEPTING
                && old(self).blocks@[block_id_2 as int].label == REJECTING),
            !(old(self).blocks@[block_id_1 as int].label == REJECTING
                && old(self).blocks@[block_id_2 as int].label == ACCEPTING),
        ensures
            final(self).wf(),
            final(self).same_shape(*old(self)),
            StatePartition::copy_step(*old(self), *final(self)),
            final(self).blocks_count == old(self).blocks_count - 1,
            forall|s: int|
                old(self).in_range(s) && old(self).blocks@[s].label != UNLABELLED
                    ==> #[trigger] final(self).blocks@[s].label == old(self).blocks@[s].label,
            ({
                let p = old(self).union_parent(block_id_1 as int, block_id_2 as int);
                let c = old(self).union_child(block_id_1 as int, block_id_2 as int);
                let lp = old(self).blocks@[p].label;
                let lc = old(self).blocks@[c].label;
                &&& final(self).accepting_blocks_count == old(self).accepting_blocks_count - (
                if lp == ACCEPTING && lc == ACCEPTING {
                    1int
                } else {
                    0int
                })
                &&& final(self).rejecting_blocks_count == old(self).rejecting_blocks_count - (
                if lp == REJECTING && lc == REJECTING {
                    1int
                } else {
                    0int
                })
                &&& forall|t: int|
                    old(self).in_range(t) ==> #[trigger] final(self).rep(t) == (if old(self).rep(
                        t,
                    ) == block_id_1 as int || old(self).rep(t) == block_id_2 as int {
                        p
                    } else {
                        old(self).rep(t)
                    })
                &&& forall|t: int|
                    old(self).in_range(t) ==> (final(self).is_root(t) <==> (#[trigger] old(
                        self,
                    ).is_root(t) && t != c))
                &&& forall|t: int|
                    old(self).in_range(t) && t != p && t != c ==> block_eq_mod_changed(
                        #[trigger] final(self).blocks@[t],
                        old(self).blocks@[t],
                    )
                &&& final(self).blocks@[p].label == merged_label(lp, lc)
                &&& final(self).blocks@[c].label == lc
                &&& final(self).blocks@[p].link == old(self).blocks@[c].link
                &&& final(self).blocks@[c].link == old(self).blocks@[p].link
                &&& final(self).blocks@[p].size == old(self).blocks@[p].size + old(
                    self,
                ).blocks@[c].size
                &&& final(self).blocks@[c].size == old(self).blocks@[c].size
                &&& final(self).blocks@[p].transitions@.len() == old(self).alphabet_size
                &&& final(self).blocks@[c].transitions@.len() == old(self).alphabet_size
                &&& forall|k: int|
                    0 <= k < old(self).alphabet_size
                        ==> #[trigger] final(self).blocks@[p].transitions@[k] == (if old(
                        self,
                    ).blocks@[p].transitions@[k] == -1 {
                        old(self).blocks@[c].transitions@[k]
                    } else {
                        old(self).blocks@[p].transitions@[k]
                    })
                &&& forall|k: int|
                    0 <= k < old(self).alphabet_size
                        ==> #[trigger] final(self).blocks@[c].transitions@[k] == (if old(
                        self,
                    ).blocks@[p].transitions@[k] == -1 {
                        -1i32
                    } else {
                        old(self).blocks@[c].transitions@[k]
                    })
            }),
            final(self).model() == model_union(
                old(self).model(),
                block_id_1 as int,
                block_id_2 as int,
            ),
    {
        let mut id1 = block_id_1;
        let mut id2 = block_id_2;
        self.changed_block(id1);
        self.changed_block(id2);
        let ghost s2 = *self;
        proof {
            // at least two root blocks exist, so the counter stays positive
            assert(s2.roots_set().contains(id1 as int));
            assert(s2.roots_set().contains(id2 as int));
            assert(s2.roots_set().remove(id1 as int).contains(id2 as int));
            // class sizes are bounded by the number of states
            assert(s2.size_ok_at(id1 as int));
            assert(s2.size_ok_at(id2 as int));
            s2.lemma_class_disjoint(id1 as int, id2 as int);
            vstd::set_lib::lemma_int_range(0, s2.n());
            vstd::set_lib::lemma_len_subset(
                s2.class(id1 as int).union(s2.class(id2 as int)),
                vstd::set_lib::set_int_range(0, s2.n()),
            );
        }
        self.blocks_count = self.blocks_count - 1;
        if self.blocks[id1 as usize].size < self.blocks[id2 as usize].size {
            let temp_value = id1;
            id1 = id2;
            id2 = temp_value;
        }
        let ghost p: int = id1 as int;
        let ghost c: int = id2 as int;
        let p_us = id1 as usize;
        let c_us = id2 as usize;
        let temp_value = self.blocks[p_us].link;
        let child_link = self.blocks[c_us].link;
        self.blocks[p_us].link = child_link;
        self.blocks[c_us].link = temp_value;
        self.blocks[c_us].root = id1;
        let child_size = self.blocks[c_us].size;
        self.blocks[p_us].size = self.blocks[p_us].size + child_size;
        let lp = self.blocks[p_us].label;
        let lc = self.blocks[c_us].label;
        if lp == UNLABELLED && lc != UNLABELLED {
            self.blocks[p_us].label = lc;
        } else if lp == ACCEPTING && lc == ACCEPTING {
            proof {
                assert(s2.labelled_roots(ACCEPTING).contains(p));
                assert(s2.labelled_roots(ACCEPTING).remove(p).contains(c));
            }
            self.accepting_blocks_count = self.accepting_blocks_count - 1;
        } else if lp == REJECTING && lc == REJECTING {
            proof {
                assert(s2.labelled_roots(REJECTING).contains(p));
                assert(s2.labelled_roots(REJECTING).remove(p).contains(c));
            }
            self.rejecting_blocks_count = self.rejecting_blocks_count - 1;
        }
        let alphabet_size = self.alphabet_size;
        let mut k: usize = 0;
        proof {
            assert(s2.block_dom_ok(p));
            assert(s2.block_dom_ok(c));
        }
        while k < alphabet_size
            invariant
                k <= alphabet_size,
                0 <= p < s2.n(),
                0 <= c < s2.n(),
                p != c,
                p_us == p,
                c_us == c,
                self.n() == s2.n(),
                alphabet_size == s2.alphabet_size,
                self.alphabet_size == s2.alphabet_size,
                self.starting_state_id == s2.starting_state_id,
                self.is_copy == s2.is_copy,
                self.changed_blocks@ == s2.changed_blocks@,
                self.changed_blocks_count == s2.changed_blocks_count,
                self.blocks_count == s2.blocks_count - 1,
                self.accepting_blocks_count == s2.accepting_blocks_count - (
                if s2.blocks@[p].label == ACCEPTING && s2.blocks@[c].label == ACCEPTING {
                    1int
                } else {
                    0int
                }),
                self.rejecting_blocks_count == s2.rejecting_blocks_count - (
                if s2.blocks@[p].label == REJECTING && s2.blocks@[c].label == REJECTING {
                    1int
                } else {
                    0int
                }),
                forall|u: int|
                    s2.in_range(u) && u != p && u != c ==> (#[trigger] self.blocks@[u])
                        == s2.blocks@[u],
                self.parent(p) == p,
                self.blocks@[p].size == s2.blocks@[p].size + s2.blocks@[c].size,
                self.blocks@[p].link == s2.blocks@[c].link,
                self.blocks@[p].label == merged_label(s2.blocks@[p].label, s2.blocks@[c].label),
                self.blocks@[p].changed == s2.blocks@[p].changed,
                self.blocks@[p].transitions@.len() == s2.alphabet_size,
                self.parent(c) == p,
                self.blocks@[c].size == s2.blocks@[c].size,
                self.blocks@[c].link == s2.blocks@[p].link,
                self.blocks@[c].label == s2.blocks@[c].label,
                self.blocks@[c].changed == s2.blocks@[c].changed,
                self.blocks@[c].transitions@.len() == s2.alphabet_size,
                s2.blocks@[p].transitions@.len() == s2.alphabet_size,
                s2.blocks@[c].transitions@.len() == s2.alphabet_size,
                forall|j: int|
                    0 <= j < k ==> #[trigger] self.blocks@[p].transitions@[j] == (
                    if s2.blocks@[p].transitions@[j] == -1 {
                        s2.blocks@[c].transitions@[j]
                    } else {
                        s2.blocks@[p].transitions@[j]
                    }),
                forall|j: int|
                    0 <= j < k ==> #[trigger] self.blocks@[c].transitions@[j] == (
                    if s2.blocks@[p].transitions@[j] == -1 {
                        -1i32
                    } else {
                        s2.blocks@[c].transitions@[j]
                    }),
                forall|j: int|
                    k <= j < alphabet_size ==> (#[trigger] self.blocks@[p].transitions@[j])
                        == s2.blocks@[p].transitions@[j],
                forall|j: int|
                    k <= j < alphabet_size ==> (#[trigger] self.blocks@[c].transitions@[j])
                        == s2.blocks@[c].transitions@[j],
            decreases alphabet_size - k,
        {
            if self.blocks[p_us].transitions[k] == -1 {
                let t = self.blocks[c_us].transitions[k];
                self.blocks[p_us].transitions[k] = t;
                self.blocks[c_us].transitions[k] = -1;
            }
            k = k + 1;
        }
        proof {
            StatePartition::lemma_union_wf(s2, *self, p, c);
            assert forall|t: int|
                old(self).in_range(t) implies #[trigger] self.rep(t) == (if old(self).rep(t)
                == block_id_1 as int || old(self).rep(t) == block_id_2 as int {
                p
            } else {
                old(self).rep(t)
            }) by {
                assert(s2.rep(t) == old(self).rep(t));
                old(self).lemma_rep_char(t);
            }
            assert forall|t: int|
                old(self).in_range(t) implies (self.is_root(t) <==> (#[trigger] old(
                self,
            ).is_root(t) && t != c)) by {
                assert(s2.is_root(t) <==> old(self).is_root(t));
            }
            assert forall|t: int|
                old(self).in_range(t) && t != p && t != c implies block_eq_mod_changed(
                #[trigger] self.blocks@[t],
                old(self).blocks@[t],
            ) by {
                assert(self.blocks@[t] == s2.blocks@[t]);
            }
            assert(StatePartition::copy_step(*old(self), *self)) by {
                if old(self).is_copy {
                    assert forall|s: int|
                        old(self).in_range(s) && (#[trigger] old(
                            self,
                        ).blocks@[s].changed) implies self.blocks@[s].changed by {
                        assert(s2.blocks@[s].changed);
                        if s != p && s != c {
                            assert(self.blocks@[s] == s2.blocks@[s]);
                        }
                    }
                    assert forall|s: int|
                        old(self).in_range(s) && !(
                        #[trigger] self.blocks@[s].changed) implies block_eq(
                        self.blocks@[s],
                        old(self).blocks@[s],
                    ) by {
                        assert(s2.blocks@[s].changed == self.blocks@[s].changed || (s != p && s
                            != c));
                        assert(!s2.blocks@[s].changed);
                        assert(s != p && s != c);
                        assert(self.blocks@[s] == s2.blocks@[s]);
                        assert(block_eq(s2.blocks@[s], old(self).blocks@[s]));
                    }
                }
            }
            // the resulting abstract state is exactly the model-level union
            let m = old(self).model();
            let mu = model_union(m, block_id_1 as int, block_id_2 as int);
            let fin = *self;
            assert forall|t: int|
                old(self).in_range(t) && t != p && t != c implies block_eq_mod_changed(
                #[trigger] fin.blocks@[t],
                old(self).blocks@[t],
            ) by {
                assert(self.blocks@[t] == s2.blocks@[t]);
            }
            assert(m.size[block_id_1 as int] == old(self).blocks@[block_id_1 as int].size);
            assert(m.size[block_id_2 as int] == old(self).blocks@[block_id_2 as int].size);
            assert(fin.model().rep =~= mu.rep) by {
                assert forall|t: int| 0 <= t < fin.n() implies fin.model().rep[t]
                    == mu.rep[t] by {
                    assert(fin.rep(t) == (if old(self).rep(t) == block_id_1 as int || old(
                        self,
                    ).rep(t) == block_id_2 as int {
                        p
                    } else {
                        old(self).rep(t)
                    }));
                    old(self).lemma_rep_char(t);
                }
            }
            assert(fin.model().size =~= mu.size);
            assert(fin.model().label =~= mu.label);
            assert(fin.model().link =~= mu.link);
            assert(fin.model().transitions =~= mu.transitions) by {
                assert(fin.model().transitions[p] =~= mu.transitions[p]);
                assert(fin.model().transitions[c] =~= mu.transitions[c]);
                assert forall|t: int|
                    0 <= t < fin.n() implies fin.model().transitions[t]
                    == mu.transitions[t] by {
                    if t != p && t != c {
                        assert(block_eq_mod_changed(fin.blocks@[t], old(self).blocks@[t]));
                    }
                }
            }
            assert(fin.model() =~= mu);
        }
    }

    /// Resolves a state to the representative of its block, compressing the
    /// walked path one level at a time. The partition of states into blocks
    /// is unchanged: every state keeps its representative, and `find` of the
    /// result returns the result itself.
    pub fn find(&mut self, state: i32) -> (root: i32)
        requires
            old(self).wf(),
            0 <= state < old(self).n(),
        ensures
            final(self).wf(),
            final(self).same_shape(*old(self)),
            final(self).counts_eq(*old(self)),
            StatePartition::copy_step(*old(self), *final(self)),
            root == old(self).rep(state as int),
            0 <= root < old(self).n(),
            final(self).is_root(root as int),
            forall|t: int|
                old(self).in_range(t) ==> #[trigger] final(self).rep(t) == old(self).rep(t),
            forall|t: int|
                old(self).in_range(t) ==> (final(self).is_root(t) <==> #[trigger] old(
                    self,
                ).is_root(t)),
            forall|t: int|
                old(self).in_range(t) ==> block_eq_mod_uf(
                    #[trigger] final(self).blocks@[t],
                    old(self).blocks@[t],
                ),
            // compression is confined to the walked chain: a pointer changes
            // only on a non-root state of the resolved block, and moves to
            // that state's old grandparent
            forall|t: int|
                old(self).in_range(t) && (#[trigger] final(self).parent(t)) != old(self).parent(
                    t,
                ) ==> {
                    &&& !old(self).is_root(t)
                    &&& old(self).rep(t) == old(self).rep(state as int)
                    &&& final(self).parent(t) == old(self).parent(old(self).parent(t))
                },
            old(self).is_root(state as int) ==> *final(self) == *old(self),
    {
        let mut state_id = state;
        proof {
            old(self).lemma_rep_char(state as int);
        }
        while self.blocks[state_id as usize].root != state_id
            invariant
                self.wf(),
                0 <= state_id < self.n(),
                self.same_shape(*old(self)),
                self.counts_eq(*old(self)),
                StatePartition::copy_step(*old(self), *self),
                self.rep(state_id as int) == old(self).rep(state as int),
                forall|t: int|
                    old(self).in_range(t) ==> #[trigger] self.rep(t) == old(self).rep(t),
                forall|t: int|
                    old(self).in_range(t) ==> (self.is_root(t) <==> #[trigger] old(
                        self,
                    ).is_root(t)),
                forall|t: int|
                    old(self).in_range(t) ==> block_eq_mod_uf(
                        #[trigger] self.blocks@[t],
                        old(self).blocks@[t],
                    ),
                old(self).wf(),
                0 <= state < old(self).n(),
                old(self).rep(state_id as int) == old(self).rep(state as int),
                forall|t: int|
                    old(self).in_range(t) && (#[trigger] self.parent(t)) != old(self).parent(
                        t,
                    ) ==> {
                        &&& !old(self).is_root(t)
                        &&& old(self).rep(t) == old(self).rep(state as int)
                        &&& self.parent(t) == old(self).parent(old(self).parent(t))
                    },
                forall|t: int|
                    old(self).in_range(t) && old(self).dist(t) <= old(self).dist(
                        state_id as int,
                    ) ==> (#[trigger] self.parent(t)) == old(self).parent(t),
                old(self).is_root(state as int) ==> *self == *old(self) && state_id == state,
            decreases self.dist(state_id as int),
    {
            let ghost x: int = state_id as int;
            proof {
                assert(self.block_dom_ok(x));
                self.lemma_rep_char(x);
                // the current state and its ancestors still carry their
                // original pointers
                assert(self.parent(x) == old(self).parent(x));
                assert(!old(self).is_root(x));
                old(self).lemma_rep_char(x);
                assert(old(self).dist(old(self).parent(x)) == old(self).dist(x) - 1);
                assert(self.parent(old(self).parent(x)) == old(self).parent(
                    old(self).parent(x),
                ));
                assert(old(self).block_dom_ok(x));
            }
            let s_us = state_id as usize;
            let parent = self.blocks[s_us].root;
            let grand = self.blocks[parent as usize].root;
            if parent != grand {
                // the parent is not a root: compress one level
                let ghost before = *self;
                self.changed_block(state_id);
                let ghost mid = *self;
                proof {
                    before.lemma_uf_congruence(mid);
                    assert(mid.parent(x) == parent as int);
                    assert(mid.parent(parent as int) == grand as int);
                    assert(!mid.is_root(x));
                    assert(!mid.is_root(parent as int));
                    mid.lemma_rep_char(x);
                    mid.lemma_rep_char(parent as int);
                }
                self.blocks[s_us].root = grand;
                proof {
                    StatePartition::lemma_compress_wf(mid, *self, x, grand as int);
                    assert forall|t: int|
                        old(self).in_range(t) implies #[trigger] self.rep(t) == old(
                        self,
                    ).rep(t) by {
                        assert(before.rep(t) == old(self).rep(t));
                        assert(mid.rep(t) == before.rep(t));
                        assert(self.rep(t) == mid.rep(t));
                    }
                    assert forall|t: int|
                        old(self).in_range(t) implies (self.is_root(t) <==> #[trigger] old(
                        self,
                    ).is_root(t)) by {
                        assert(before.is_root(t) <==> old(self).is_root(t));
                        assert(mid.is_root(t) <==> before.is_root(t));
                        assert(self.is_root(t) <==> mid.is_root(t));
                    }
                    assert forall|t: int|
                        old(self).in_range(t) implies block_eq_mod_uf(
                        #[trigger] self.blocks@[t],
                        old(self).blocks@[t],
                    ) by {
                        assert(block_eq_mod_uf(before.blocks@[t], old(self).blocks@[t]));
                        if t != x {
                            assert(mid.blocks@[t] == before.blocks@[t]);
                            assert(self.blocks@[t] == mid.blocks@[t]);
                        } else {
                            assert(block_eq_mod_changed(mid.blocks@[t], before.blocks@[t]));
                            assert(block_eq_mod_uf(self.blocks@[t], mid.blocks@[t]));
                        }
                    }
                    assert(StatePartition::copy_step(*old(self), *self)) by {
                        if old(self).is_copy {
                            assert(StatePartition::flags_monotone(before, mid));
                            assert forall|s: int|
                                old(self).in_range(s) && (#[trigger] old(
                                    self,
                                ).blocks@[s].changed) implies self.blocks@[s].changed by {
                                assert(before.blocks@[s].changed);
                                assert(mid.blocks@[s].changed);
                                assert(self.blocks@[s].changed == mid.blocks@[s].changed);
                            }
                            assert forall|s: int|
                                old(self).in_range(s) && !(
                                #[trigger] self.blocks@[s].changed) implies block_eq(
                                self.blocks@[s],
                                old(self).blocks@[s],
                            ) by {
                                assert(s != x);
                                assert(self.blocks@[s] == mid.blocks@[s]);
                                assert(!mid.blocks@[s].changed);
                                assert(block_eq(mid.blocks@[s], before.blocks@[s]));
                                assert(block_eq(before.blocks@[s], old(self).blocks@[s]));
                            }
                        }
                    }
                    // the walk from the grandparent is at least two steps
                    // shorter than the walk from the compressed state was
                    assert(mid.block_dom_ok(parent as int));
                    assert(mid.in_range(grand as int));
                    assert(mid.dist(x) == 1 + mid.dist(parent as int));
                    assert(mid.dist(parent as int) == 1 + mid.dist(grand as int));
                    assert(mid.rep(x) == mid.rep(parent as int));
                    assert(mid.rep(parent as int) == mid.rep(grand as int));
                    assert(self.rep(grand as int) == mid.rep(grand as int));
                    assert(self.dist(grand as int) <= mid.dist(grand as int));
                    assert(mid.dist(x) == before.dist(x));
                    assert(mid.rep(x) == before.rep(x));
                    // in the input's coordinates the walk advanced two steps,
                    // and only the walked state's pointer moved
                    assert(parent as int == old(self).parent(x));
                    assert(!old(self).is_root(parent as int)) by {
                        assert(before.parent(parent as int) == old(self).parent(
                            parent as int,
                        ));
                    }
                    old(self).lemma_rep_char(parent as int);
                    assert(grand as int == old(self).parent(parent as int));
                    assert(old(self).dist(grand as int) == old(self).dist(x) - 2);
                    assert forall|t: int|
                        old(self).in_range(t) && old(self).dist(t) <= old(self).dist(
                            grand as int,
                        ) implies (#[trigger] self.parent(t)) == old(self).parent(t) by {
                        assert(t != x);
                        assert(self.blocks@[t] == mid.blocks@[t]);
                        assert(mid.parent(t) == before.parent(t));
                        assert(before.parent(t) == old(self).parent(t));
                    }
                }
                state_id = grand;
            } else {
                // the parent is already a root
                state_id = parent;
            }
        }
        state_id
    }
}

impl StatePartition {
    /// A partition whose blocks hold the same data as a well-formed one
    /// (changed flags aside) and whose counters and change log are in order
    /// is itself well formed, with the same representatives.
    proof fn lemma_same_blocks_wf(a: StatePartition, b: StatePartition)
        requires
            a.wf(),
            b.n() == a.n(),
            b.alphabet_size == a.alphabet_size,
            forall|s: int|
                a.in_range(s) ==> block_eq_mod_changed(#[trigger] b.blocks@[s], a.blocks@[s]),
            b.counts_eq(a),
            b.log_ok(),
        ensures
            b.wf(),
            forall|s: int| a.in_range(s) ==> #[trigger] b.rep(s) == a.rep(s),
            forall|s: int| a.in_range(s) ==> #[trigger] b.dist(s) == a.dist(s),
            forall|s: int| a.in_range(s) ==> (b.is_root(s) <==> #[trigger] a.is_root(s)),
    {
        assert forall|t: int| a.in_range(t) implies a.parent(t) == #[trigger] b.parent(t) by {
            assert(block_eq_mod_changed(b.blocks@[t], a.blocks@[t]));
        }
        a.lemma_uf_congruence(b);
        assert forall|s: int| a.in_range(s) implies #[trigger] b.rep(s) == a.rep(s) by {
            assert(a.rep(s) == b.rep(s));
        }
        assert forall|s: int| a.in_range(s) implies #[trigger] b.dist(s) == a.dist(s) by {
            assert(a.dist(s) == b.dist(s));
        }
        assert forall|s: int| b.in_range(s) implies b.block_dom_ok(s) by {
            assert(a.block_dom_ok(s));
            assert(block_eq_mod_changed(b.blocks@[s], a.blocks@[s]));
        }
        assert forall|r: int|
            b.in_range(r) && b.is_root(r) implies #[trigger] b.size_ok_at(r) by {
            assert(a.is_root(r));
            assert(a.size_ok_at(r));
            assert(a.class(r) == b.class(r));
            assert(block_eq_mod_changed(b.blocks@[r], a.blocks@[r]));
        }
        assert forall|s: int| b.in_range(s) implies #[trigger] b.depth_ok_at(s) by {
            assert(a.depth_ok_at(s));
            a.lemma_rep_char(s);
            assert(b.dist(s) == a.dist(s) && b.rep(s) == a.rep(s));
            assert(block_eq_mod_changed(b.blocks@[a.rep(s)], a.blocks@[a.rep(s)]));
        }
        assert(b.roots_set() == a.roots_set());
        assert forall|s: int|
            b.labelled_roots(ACCEPTING).contains(s) <==> a.labelled_roots(ACCEPTING).contains(
                s,
            ) by {
            if a.in_range(s) {
                assert(block_eq_mod_changed(b.blocks@[s], a.blocks@[s]));
                assert(b.is_root(s) <==> a.is_root(s));
            }
        }
        assert(b.labelled_roots(ACCEPTING) =~= a.labelled_roots(ACCEPTING));
        assert forall|s: int|
            b.labelled_roots(REJECTING).contains(s) <==> a.labelled_roots(REJECTING).contains(
                s,
            ) by {
            if a.in_range(s) {
                assert(block_eq_mod_changed(b.blocks@[s], a.blocks@[s]));
                assert(b.is_root(s) <==> a.is_root(s));
            }
        }
        assert(b.labelled_roots(REJECTING) =~= a.labelled_roots(REJECTING));
        assert forall|s: int| b.in_range(s) implies #[trigger] label_compat(
            b.blocks@[s].label,
            b.blocks@[b.rep(s)].label,
        ) by {
            a.lemma_rep_char(s);
            assert(label_compat(a.blocks@[s].label, a.blocks@[a.rep(s)].label));
            assert(block_eq_mod_changed(b.blocks@[s], a.blocks@[s]));
            assert(block_eq_mod_changed(b.blocks@[a.rep(s)], a.blocks@[a.rep(s)]));
        }
        assert forall|t: int| a.in_range(t) implies #[trigger] b.succ(t) == a.succ(t) by {
            assert(block_eq_mod_changed(b.blocks@[t], a.blocks@[t]));
        }
        assert forall|t: int|
            a.in_range(t) implies (b.is_root(t) <==> #[trigger] a.is_root(t)) by {
            assert(block_eq_mod_changed(b.blocks@[t], a.blocks@[t]));
        }
        assert forall|r: int|
            a.in_range(r) && a.is_root(r) implies (#[trigger] b.blocks@[r]).size
            == a.blocks@[r].size by {
            assert(block_eq_mod_changed(b.blocks@[r], a.blocks@[r]));
        }
        StatePartition::lemma_cycles_transfer(a, b);
        assert forall|t: int|
            a.in_range(t) implies (#[trigger] b.blocks@[t]).label == a.blocks@[t].label by {
            assert(block_eq_mod_changed(b.blocks@[t], a.blocks@[t]));
        }
        StatePartition::lemma_witness_transfer(a, b);
    }

    /// Returns a deep copy of the partition: same blocks, counters, flags and
    /// change log.
    pub fn clone(&self) -> (res: StatePartition)
        requires
            self.wf(),
        ensures
            res.wf(),
            res.blocks_eq(*self),
            res.counts_eq(*self),
            res.alphabet_size == self.alphabet_size,
            res.starting_state_id == self.starting_state_id,
            res.is_copy == self.is_copy,
            res.changed_blocks_count == self.changed_blocks_count,
            self.is_copy ==> res.changed_blocks@ == self.changed_blocks@,
            forall|s: int| self.in_range(s) ==> #[trigger] res.rep(s) == self.rep(s),
    {
        let n = self.blocks.len();
        let mut blocks: Vec<Block> = Vec::new();
        let mut i: usize = 0;
        while i < n
            invariant
                i <= n,
                n == self.blocks@.len(),
                self.wf(),
                blocks@.len() == i,
                forall|s: int|
                    0 <= s < i ==> block_eq(#[trigger] blocks@[s], self.blocks@[s]),
            decreases n - i,
        {
            proof {
                assert(self.block_dom_ok(i as int));
            }
            let b = &self.blocks[i];
            let transitions = copy_row(&b.transitions);
            blocks.push(
                Block {
                    root: b.root,
                    size: b.size,
                    link: b.link,
                    label: b.label,
                    changed: b.changed,
                    transitions,
                },
            );
            i = i + 1;
        }
        let changed_blocks = if self.is_copy {
            copy_row(&self.changed_blocks)
        } else {
            Vec::new()
        };
        let res = StatePartition {
            blocks,
            blocks_count: self.blocks_count,
            accepting_blocks_count: self.accepting_blocks_count,
            rejecting_blocks_count: self.rejecting_blocks_count,
            alphabet_size: self.alphabet_size,
            starting_state_id: self.starting_state_id,
            is_copy: self.is_copy,
            changed_blocks,
            changed_blocks_count: self.changed_blocks_count,
        };
        proof {
            if res.is_copy {
                assert(res.changed_set() =~= self.changed_set());
                assert forall|s: int|
                    res.in_range(s) implies ((#[trigger] res.blocks@[s].changed) <==> exists|
                    j: int,
                |
                    0 <= j < res.changed_blocks_count && res.changed_blocks@[j] == s) by {
                    assert(res.blocks@[s].changed == self.blocks@[s].changed);
                    if self.blocks@[s].changed {
                        let j = choose|j: int|
                            0 <= j < self.changed_blocks_count && self.changed_blocks@[j] == s;
                        assert(res.changed_blocks@[j] == s);
                    }
                    if exists|j: int|
                        0 <= j < res.changed_blocks_count && res.changed_blocks@[j] == s {
                        let j = choose|j: int|
                            0 <= j < res.changed_blocks_count && res.changed_blocks@[j] == s;
                        assert(self.changed_blocks@[j] == s);
                    }
                }
            } else {
                assert forall|s: int| res.in_range(s) implies !(
                #[trigger] res.blocks@[s].changed) by {
                    assert(res.blocks@[s].changed == self.blocks@[s].changed);
                }
            }
            StatePartition::lemma_same_blocks_wf(*self, res);
        }
        res
    }

    /// Returns a snapshot of the partition: a deep copy in copy mode with an
    /// empty change log whose buffer is pre-allocated to one slot per block,
    /// so that change logging never allocates. The partition must not itself
    /// be a copy.
    pub fn copy(&self) -> (res: StatePartition)
        requires
            self.wf(),
            !self.is_copy,
        ensures
            res.wf(),
            res.sync_with(*self),
            res.blocks_eq(*self),
            res.counts_eq(*self),
            res.changed_blocks_count == 0,
            res.is_copy,
            res.alphabet_size == self.alphabet_size,
            res.starting_state_id == self.starting_state_id,
            forall|s: int| self.in_range(s) ==> #[trigger] res.rep(s) == self.rep(s),
            forall|s: int| self.in_range(s) ==> (res.is_root(s) <==> #[trigger] self.is_root(s)),
    {
        let mut copied = self.clone();
        copied.is_copy = true;
        copied.changed_blocks_count = 0;
        let n = self.blocks.len();
        let mut log: Vec<i32> = Vec::new();
        let mut i: usize = 0;
        while i < n
            invariant
                i <= n,
                log@.len() == i,
            decreases n - i,
        {
            log.push(0);
            i = i + 1;
        }
        copied.changed_blocks = log;
        proof {
            let base = *self;
            assert forall|s: int| copied.in_range(s) implies !(
            #[trigger] copied.blocks@[s].changed) by {
                assert(block_eq(copied.blocks@[s], base.blocks@[s]));
            }
            assert(copied.changed_set() =~= Set::<int>::empty());
            assert forall|s: int|
                base.in_range(s) implies block_eq_mod_changed(
                #[trigger] copied.blocks@[s],
                base.blocks@[s],
            ) by {
                assert(block_eq(copied.blocks@[s], base.blocks@[s]));
            }
            StatePartition::lemma_same_blocks_wf(base, copied);
        }
        copied
    }

    /// Undoes every mutation made on this snapshot since it was aligned with
    /// the base: restores the counters and every logged block from the base
    /// and empties the log. Afterwards the snapshot equals the base block by
    /// block, every changed flag cleared. The cost is proportional to the
    /// number of changed blocks, not to the number of states.
    pub fn rollback_changes_from(&mut self, original_state_partition: &StatePartition)
        requires
            old(self).wf(),
            original_state_partition.wf(),
            old(self).sync_with(*original_state_partition),
        ensures
            final(self).wf(),
            final(self).blocks_eq(*original_state_partition),
            final(self).counts_eq(*original_state_partition),
            final(self).changed_blocks_count == 0,
            final(self).is_copy,
            final(self).sync_with(*original_state_partition),
            final(self).same_shape(*old(self)),
            forall|s: int|
                original_state_partition.in_range(s) ==> #[trigger] final(self).rep(s)
                    == original_state_partition.rep(s),
    {
        let base = original_state_partition;
        if self.is_copy {
            let ghost entry = *self;
            self.blocks_count = base.blocks_count;
            self.accepting_blocks_count = base.accepting_blocks_count;
            self.rejecting_blocks_count = base.rejecting_blocks_count;
            let count = self.changed_blocks_count as usize;
            let mut i: usize = 0;
            while i < count
                invariant
                    i <= count,
                    count == entry.changed_blocks_count,
                    entry.wf(),
                    base.wf(),
                    !base.is_copy,
                    entry.is_copy,
                    self.n() == entry.n(),
                    self.n() == base.n(),
                    self.alphabet_size == entry.alphabet_size,
                    self.starting_state_id == entry.starting_state_id,
                    self.is_copy == entry.is_copy,
                    self.changed_blocks@ == entry.changed_blocks@,
                    self.changed_blocks_count == entry.changed_blocks_count,
                    self.blocks_count == base.blocks_count,
                    self.accepting_blocks_count == base.accepting_blocks_count,
                    self.rejecting_blocks_count == base.rejecting_blocks_count,
                    forall|s: int|
                        entry.in_range(s) && (exists|j: int|
                            0 <= j < i && entry.changed_blocks@[j] == s) ==> block_eq(
                            #[trigger] self.blocks@[s],
                            base.blocks@[s],
                        ),
                    forall|s: int|
                        entry.in_range(s) && !(exists|j: int|
                            0 <= j < i && entry.changed_blocks@[j] == s)
                            ==> (#[trigger] self.blocks@[s]) == entry.blocks@[s],
                decreases count - i,
            {
                let ghost before = *self;
                let block_id = self.changed_blocks[i];
                proof {
                    assert(entry.changed_blocks@[i as int] == block_id);
                    assert(0 <= block_id < entry.n());
                    assert(base.in_range(block_id as int));
                    assert(base.block_dom_ok(block_id as int));
                }
                let b_us = block_id as usize;
                let source = &base.blocks[b_us];
                self.blocks[b_us].root = source.root;
                self.blocks[b_us].size = source.size;
                self.blocks[b_us].link = source.link;
                self.blocks[b_us].label = source.label;
                self.blocks[b_us].changed = false;
                let transitions = copy_row(&source.transitions);
                self.blocks[b_us].transitions = transitions;
                i = i + 1;
                proof {
                    assert(!base.blocks@[block_id as int].changed);
                    assert(block_eq(self.blocks@[block_id as int], base.blocks@[block_id as int]));
                    assert forall|s: int|
                        entry.in_range(s) && (exists|j: int|
                            0 <= j < i && entry.changed_blocks@[j] == s) implies block_eq(
                        #[trigger] self.blocks@[s],
                        base.blocks@[s],
                    ) by {
                        if s != block_id as int {
                            let j = choose|j: int|
                                0 <= j < i && entry.changed_blocks@[j] == s;
                            assert(j < i - 1);
                            assert(block_eq(before.blocks@[s], base.blocks@[s]));
                            assert(self.blocks@[s] == before.blocks@[s]);
                        }
                    }
                    assert forall|s: int|
                        entry.in_range(s) && !(exists|j: int|
                            0 <= j < i && entry.changed_blocks@[j] == s) implies (
                    #[trigger] self.blocks@[s]) == entry.blocks@[s] by {
                        assert(s != block_id as int);
                        assert(self.blocks@[s] == before.blocks@[s]);
                    }
                }
            }
            self.changed_blocks_count = 0;
            proof {
                let fin = *self;
                assert forall|s: int|
                    base.in_range(s) implies block_eq(
                    #[trigger] fin.blocks@[s],
                    base.blocks@[s],
                ) by {
                    if entry.blocks@[s].changed {
                        assert(exists|j: int|
                            0 <= j < entry.changed_blocks_count && entry.changed_blocks@[j]
                                == s);
                    } else {
                        assert(fin.blocks@[s] == entry.blocks@[s]);
                        assert(block_eq(entry.blocks@[s], base.blocks@[s]));
                    }
                }
                assert forall|s: int| fin.in_range(s) implies !(
                #[trigger] fin.blocks@[s].changed) by {
                    assert(block_eq(fin.blocks@[s], base.blocks@[s]));
                    assert(!base.blocks@[s].changed);
                }
                assert(fin.changed_set() =~= Set::<int>::empty());
                assert forall|s: int|
                    base.in_range(s) implies block_eq_mod_changed(
                    #[trigger] fin.blocks@[s],
                    base.blocks@[s],
                ) by {
                    assert(block_eq(fin.blocks@[s], base.blocks@[s]));
                }
                StatePartition::lemma_same_blocks_wf(*base, fin);
            }
        }
    }

    /// Commits a snapshot's speculative mutations into this base partition:
    /// copies the counters and every logged block from the snapshot, then
    /// clears the snapshot's flags and empties its log. Afterwards base and
    /// snapshot agree on every block and the snapshot is ready for the next
    /// attempt.
    pub fn copy_changes_from(&mut self, copied_state_partition: &mut StatePartition)
        requires
            old(self).wf(),
            old(copied_state_partition).wf(),
            old(copied_state_partition).sync_with(*old(self)),
        ensures
            final(self).wf(),
            !final(self).is_copy,
            final(self).same_shape(*old(self)),
            final(self).counts_eq(*old(copied_state_partition)),
            forall|s: int|
                old(self).in_range(s) ==> block_eq_mod_changed(
                    #[trigger] final(self).blocks@[s],
                    old(copied_state_partition).blocks@[s],
                ),
            final(copied_state_partition).wf(),
            final(copied_state_partition).sync_with(*final(self)),
            final(copied_state_partition).blocks_eq(*final(self)),
            final(copied_state_partition).counts_eq(*final(self)),
            final(copied_state_partition).changed_blocks_count == 0,
            final(copied_state_partition).same_shape(*old(copied_state_partition)),
            forall|s: int|
                old(self).in_range(s) ==> #[trigger] final(self).rep(s)
                    == old(copied_state_partition).rep(s),
            forall|s: int|
                old(self).in_range(s) ==> #[trigger] final(copied_state_partition).rep(s)
                    == old(copied_state_partition).rep(s),
    {
        let snap = copied_state_partition;
        if snap.is_copy {
            self.blocks_count = snap.blocks_count;
            self.accepting_blocks_count = snap.accepting_blocks_count;
            self.rejecting_blocks_count = snap.rejecting_blocks_count;
            let count = snap.changed_blocks_count as usize;
            let ghost entry_snap = *snap;
            let ghost entry_base = *self;
            let mut i: usize = 0;
            while i < count
                invariant
                    i <= count,
                    count == entry_snap.changed_blocks_count,
                    entry_snap.wf(),
                    entry_snap.is_copy,
                    entry_snap.sync_with(entry_base),
                    self.n() == entry_base.n(),
                    self.n() == entry_snap.n(),
                    snap.n() == entry_snap.n(),
                    self.alphabet_size == entry_base.alphabet_size,
                    self.starting_state_id == entry_base.starting_state_id,
                    self.is_copy == entry_base.is_copy,
                    self.changed_blocks@ == entry_base.changed_blocks@,
                    self.changed_blocks_count == entry_base.changed_blocks_count,
                    self.blocks_count == entry_snap.blocks_count,
                    self.accepting_blocks_count == entry_snap.accepting_blocks_count,
                    self.rejecting_blocks_count == entry_snap.rejecting_blocks_count,
                    snap.alphabet_size == entry_snap.alphabet_size,
                    snap.starting_state_id == entry_snap.starting_state_id,
                    snap.is_copy == entry_snap.is_copy,
                    snap.changed_blocks@ == entry_snap.changed_blocks@,
                    snap.changed_blocks_count == entry_snap.changed_blocks_count,
                    snap.blocks_count == entry_snap.blocks_count,
                    snap.accepting_blocks_count == entry_snap.accepting_blocks_count,
                    snap.rejecting_blocks_count == entry_snap.rejecting_blocks_count,
                    forall|s: int|
                        entry_snap.in_range(s) && (exists|j: int|
                            0 <= j < i && entry_snap.changed_blocks@[j] == s) ==> block_eq_mod_changed(
                            #[trigger] self.blocks@[s],
                            entry_snap.blocks@[s],
                        ) && !self.blocks@[s].changed,
                    forall|s: int|
                        entry_snap.in_range(s) && !(exists|j: int|
                            0 <= j < i && entry_snap.changed_blocks@[j] == s)
                            ==> (#[trigger] self.blocks@[s]) == entry_base.blocks@[s],
                    forall|s: int|
                        entry_snap.in_range(s) && (exists|j: int|
                            0 <= j < i && entry_snap.changed_blocks@[j] == s)
                            ==> !(#[trigger] snap.blocks@[s]).changed && block_eq_mod_changed(
                            snap.blocks@[s],
                            entry_snap.blocks@[s],
                        ),
                    forall|s: int|
                        entry_snap.in_range(s) && !(exists|j: int|
                            0 <= j < i && entry_snap.changed_blocks@[j] == s)
                            ==> (#[trigger] snap.blocks@[s]) == entry_snap.blocks@[s],
                decreases count - i,
            {
                let ghost before_base = *self;
                let ghost before_snap = *snap;
                let block_id = snap.changed_blocks[i];
                proof {
                    assert(entry_snap.changed_blocks@[i as int] == block_id);
                    assert(0 <= block_id < entry_snap.n());
                    assert(entry_snap.block_dom_ok(block_id as int));
                }
                let b_us = block_id as usize;
                let root = snap.blocks[b_us].root;
                let size = snap.blocks[b_us].size;
                let link = snap.blocks[b_us].link;
                let label = snap.blocks[b_us].label;
                let transitions = copy_row(&snap.blocks[b_us].transitions);
                self.blocks[b_us].root = root;
                self.blocks[b_us].size = size;
                self.blocks[b_us].link = link;
                self.blocks[b_us].label = label;
                self.blocks[b_us].changed = false;
                self.blocks[b_us].transitions = transitions;
                snap.blocks[b_us].changed = false;
                i = i + 1;
                proof {
                    assert(snap.blocks@[block_id as int].changed == false);
                    assert(block_eq_mod_changed(
                        snap.blocks@[block_id as int],
                        entry_snap.blocks@[block_id as int],
                    ));
                    assert(block_eq_mod_changed(
                        self.blocks@[block_id as int],
                        entry_snap.blocks@[block_id as int],
                    ));
                    assert forall|s: int|
                        entry_snap.in_range(s) && (exists|j: int|
                            0 <= j < i && entry_snap.changed_blocks@[j] == s) implies block_eq_mod_changed(
                        #[trigger] self.blocks@[s],
                        entry_snap.blocks@[s],
                    ) && !self.blocks@[s].changed by {
                        if s != block_id as int {
                            let j = choose|j: int|
                                0 <= j < i && entry_snap.changed_blocks@[j] == s;
                            assert(j < i - 1);
                            assert(self.blocks@[s] == before_base.blocks@[s]);
                        }
                    }
                    assert forall|s: int|
                        entry_snap.in_range(s) && !(exists|j: int|
                            0 <= j < i && entry_snap.changed_blocks@[j] == s) implies (
                    #[trigger] self.blocks@[s]) == entry_base.blocks@[s] by {
                        assert(s != block_id as int);
                        assert(self.blocks@[s] == before_base.blocks@[s]);
                    }
                    assert forall|s: int|
                        entry_snap.in_range(s) && (exists|j: int|
                            0 <= j < i && entry_snap.changed_blocks@[j] == s) implies !(
                    #[trigger] snap.blocks@[s]).changed && block_eq_mod_changed(
                        snap.blocks@[s],
                        entry_snap.blocks@[s],
                    ) by {
                        if s != block_id as int {
                            let j = choose|j: int|
                                0 <= j < i && entry_snap.changed_blocks@[j] == s;
                            assert(j < i - 1);
                            assert(snap.blocks@[s] == before_snap.blocks@[s]);
                        }
                    }
                    assert forall|s: int|
                        entry_snap.in_range(s) && !(exists|j: int|
                            0 <= j < i && entry_snap.changed_blocks@[j] == s) implies (
                    #[trigger] snap.blocks@[s]) == entry_snap.blocks@[s] by {
                        assert(s != block_id as int);
                        assert(snap.blocks@[s] == before_snap.blocks@[s]);
                    }
                }
            }
            snap.changed_blocks_count = 0;
            proof {
                let fin_base = *self;
                let fin_snap = *snap;
                // every block of the base now carries the snapshot's data
                assert forall|s: int|
                    entry_snap.in_range(s) implies block_eq_mod_changed(
                    #[trigger] fin_base.blocks@[s],
                    entry_snap.blocks@[s],
                ) && !fin_base.blocks@[s].changed by {
                    if entry_snap.blocks@[s].changed {
                        assert(exists|j: int|
                            0 <= j < entry_snap.changed_blocks_count
                                && entry_snap.changed_blocks@[j] == s);
                    } else {
                        assert(fin_base.blocks@[s] == entry_base.blocks@[s]);
                        assert(block_eq(entry_snap.blocks@[s], entry_base.blocks@[s]));
                        assert(!entry_base.blocks@[s].changed);
                    }
                }
                // and so does the snapshot itself, with all flags cleared
                assert forall|s: int|
                    entry_snap.in_range(s) implies block_eq_mod_changed(
                    #[trigger] fin_snap.blocks@[s],
                    entry_snap.blocks@[s],
                ) && !fin_snap.blocks@[s].changed by {
                    if entry_snap.blocks@[s].changed {
                        assert(exists|j: int|
                            0 <= j < entry_snap.changed_blocks_count
                                && entry_snap.changed_blocks@[j] == s);
                    } else {
                        assert(fin_snap.blocks@[s] == entry_snap.blocks@[s]);
                    }
                }
                assert(fin_base.changed_set() =~= Set::<int>::empty());
                assert(fin_snap.changed_set() =~= Set::<int>::empty());
                StatePartition::lemma_same_blocks_wf(entry_snap, fin_base);
                StatePartition::lemma_same_blocks_wf(entry_snap, fin_snap);
                assert forall|s: int|
                    fin_snap.in_range(s) implies block_eq(
                    #[trigger] fin_snap.blocks@[s],
                    fin_base.blocks@[s],
                ) by {
                    assert(block_eq_mod_changed(fin_snap.blocks@[s], entry_snap.blocks@[s]));
                    assert(block_eq_mod_changed(fin_base.blocks@[s], entry_snap.blocks@[s]));
                }
            }
        }
    }

    /// The root block ids below `m`, in increasing order.
    pub open spec fn roots_upto(self, m: int) -> Seq<int>
        decreases m,
    {
        if m <= 0 {
            Seq::empty()
        } else if self.is_root(m - 1) {
            self.roots_upto(m - 1).push(m - 1)
        } else {
            self.roots_upto(m - 1)
        }
    }

    /// All root block ids, in increasing order.
    pub open spec fn roots_seq(self) -> Seq<int> {
        self.roots_upto(self.n())
    }

    /// The position a root block takes in the ordered root enumeration: the
    /// number of roots below it.
    pub open spec fn root_index(self, r: int) -> int {
        self.roots_upto(r).len() as int
    }

    /// What the ordered root enumeration contains: exactly the roots below
    /// `m`, in increasing order, each at the position `root_index` gives,
    /// and as many as the root set below `m` holds.
    pub proof fn lemma_roots_upto(self, m: int)
        ensures
            forall|j: int|
                0 <= j < self.roots_upto(m).len() ==> 0 <= #[trigger] self.roots_upto(m)[j] < m
                    && self.is_root(self.roots_upto(m)[j]),
            forall|j1: int, j2: int|
                0 <= j1 < j2 < self.roots_upto(m).len() ==> self.roots_upto(m)[j1]
                    < self.roots_upto(m)[j2],
            forall|r: int|
                0 <= r < m && self.is_root(r) ==> exists|j: int|
                    0 <= j < self.roots_upto(m).len() && self.roots_upto(m)[j] == r,
            forall|j: int|
                0 <= j < self.roots_upto(m).len() ==> self.root_index(
                    #[trigger] self.roots_upto(m)[j],
                ) == j,
            Set::new(|s: int| 0 <= s < m && self.is_root(s)).finite(),
            self.roots_upto(m).len() == Set::new(|s: int| 0 <= s < m && self.is_root(s)).len(),
        decreases m,
    {
        if m <= 0 {
            assert(Set::new(|s: int| 0 <= s < m && self.is_root(s)) =~= Set::<int>::empty());
        } else {
            self.lemma_roots_upto(m - 1);
            let prev = self.roots_upto(m - 1);
            let prev_set = Set::new(|s: int| 0 <= s < m - 1 && self.is_root(s));
            let cur_set = Set::new(|s: int| 0 <= s < m && self.is_root(s));
            if self.is_root(m - 1) {
                assert(cur_set =~= prev_set.insert(m - 1));
                assert(!prev_set.contains(m - 1));
                let cur = self.roots_upto(m);
                assert(cur == prev.push(m - 1));
                assert forall|r: int|
                    0 <= r < m && self.is_root(r) implies exists|j: int|
                    0 <= j < cur.len() && cur[j] == r by {
                    if r < m - 1 {
                        let j = choose|j: int| 0 <= j < prev.len() && prev[j] == r;
                        assert(cur[j] == r);
                    } else {
                        assert(cur[cur.len() - 1] == r);
                    }
                }
                assert forall|j: int|
                    0 <= j < cur.len() implies self.root_index(#[trigger] cur[j]) == j by {
                    if j < prev.len() {
                        assert(cur[j] == prev[j]);
                    } else {
                        assert(cur[j] == m - 1);
                        assert(self.root_index(m - 1) == prev.len());
                    }
                }
            } else {
                assert(cur_set =~= prev_set);
                assert forall|r: int|
                    0 <= r < m && self.is_root(r) implies exists|j: int|
                    0 <= j < self.roots_upto(m).len() && self.roots_upto(m)[j] == r by {
                    let j = choose|j: int| 0 <= j < prev.len() && prev[j] == r;
                }
            }
        }
    }

    /// The ordered root enumeration lists exactly the root blocks, in
    /// increasing order; under `wf` its length is `blocks_count`.
    pub proof fn lemma_roots_seq(self)
        requires
            self.wf(),
        ensures
            self.roots_seq().len() == self.blocks_count,
            forall|j: int|
                0 <= j < self.roots_seq().len() ==> 0 <= #[trigger] self.roots_seq()[j]
                    < self.n() && self.is_root(self.roots_seq()[j]),
            forall|j1: int, j2: int|
                0 <= j1 < j2 < self.roots_seq().len() ==> self.roots_seq()[j1]
                    < self.roots_seq()[j2],
            forall|r: int|
                self.in_range(r) && self.is_root(r) ==> exists|j: int|
                    0 <= j < self.roots_seq().len() && self.roots_seq()[j] == r,
            forall|j: int|
                0 <= j < self.roots_seq().len() ==> self.root_index(
                    #[trigger] self.roots_seq()[j],
                ) == j,
    {
        self.lemma_roots_upto(self.n());
        assert(Set::new(|s: int| 0 <= s < self.n() && self.is_root(s)) =~= self.roots_set());
    }

    /// A root's position in the enumeration is consistent: the enumeration
    /// lists it there.
    pub proof fn lemma_root_index(self, r: int)
        requires
            self.wf(),
            self.in_range(r),
            self.is_root(r),
        ensures
            0 <= self.root_index(r) < self.roots_seq().len(),
            self.roots_seq()[self.root_index(r)] == r,
    {
        self.lemma_roots_seq();
        let j = choose|j: int|
            0 <= j < self.roots_seq().len() && self.roots_seq()[j] == r;
        assert(self.root_index(self.roots_seq()[j]) == j);
    }

    /// Returns the ids of the root blocks, in increasing order. Under the
    /// partition invariants the scan finds exactly `blocks_count` of them.
    pub fn root_blocks(&self) -> (res: Vec<i32>)
        requires
            self.wf(),
        ensures
            res@.len() == self.blocks_count,
            forall|j: int|
                0 <= j < res@.len() ==> #[trigger] res@[j] == self.roots_seq()[j],
    {
        let n = self.blocks.len();
        let mut res: Vec<i32> = Vec::new();
        let mut block_id: usize = 0;
        while block_id < n
            invariant
                block_id <= n,
                n == self.n(),
                self.wf(),
                res@.len() == self.roots_upto(block_id as int).len(),
                forall|j: int|
                    0 <= j < res@.len() ==> #[trigger] res@[j] == self.roots_upto(
                        block_id as int,
                    )[j],
            decreases n - block_id,
        {
            let ghost pre = res@;
            if self.blocks[block_id].root == block_id as i32 {
                res.push(block_id as i32);
            }
            block_id = block_id + 1;
            proof {
                assert forall|j: int|
                    0 <= j < res@.len() implies #[trigger] res@[j] == self.roots_upto(
                    block_id as int,
                )[j] by {
                    if j < pre.len() {
                        assert(res@[j] == pre[j]);
                        assert(self.roots_upto(block_id as int)[j] == self.roots_upto(
                            block_id - 1,
                        )[j]);
                    }
                }
            }
        }
        proof {
            self.lemma_roots_seq();
        }
        res
    }

    /// Returns the id of the block containing the starting state.
    pub fn starting_block(&mut self) -> (root: i32)
        requires
            old(self).wf(),
            0 <= old(self).starting_state_id < old(self).n(),
        ensures
            final(self).wf(),
            final(self).same_shape(*old(self)),
            final(self).counts_eq(*old(self)),
            StatePartition::copy_step(*old(self), *final(self)),
            root == old(self).rep(old(self).starting_state_id as int),
            final(self).is_root(root as int),
            0 <= root < old(self).n(),
            forall|t: int|
                old(self).in_range(t) ==> #[trigger] final(self).rep(t) == old(self).rep(t),
            forall|t: int|
                old(self).in_range(t) ==> (final(self).is_root(t) <==> #[trigger] old(
                    self,
                ).is_root(t)),
            forall|t: int|
                old(self).in_range(t) ==> block_eq_mod_uf(
                    #[trigger] final(self).blocks@[t],
                    old(self).blocks@[t],
                ),
    {
        let start = self.starting_state_id;
        self.find(start)
    }

    /// Returns the state ids found by following the `link` chain from the
    /// given state until it returns to it, the starting state first. From a
    /// root this walks the whole block cycle: the result has exactly the
    /// block's `size` entries, the members of the block in link order.
    pub fn return_set(&self, block: i32) -> (res: Vec<i32>)
        requires
            self.wf(),
            0 <= block < self.n(),
        ensures
            res@.len() >= 1,
            res@[0] == block,
            forall|k: int| 0 <= k < res@.len() ==> 0 <= #[trigger] res@[k] < self.n(),
            forall|k: int|
                0 <= k < res@.len() ==> #[trigger] res@[k] == self.lwalk(block as int, k as nat),
            self.is_root(block as int) ==> res@.len() == self.blocks@[block as int].size,
    {
        proof {
            if self.is_root(block as int) {
                assert(self.cycle_ok_at(block as int));
                assert(self.size_ok_at(block as int));
                self.lemma_root_in_class(block as int);
                self.lemma_no_early_return(block as int);
                self.lemma_class_bound(block as int);
            }
        }
        let n = self.blocks.len();
        let mut block_id = block;
        let mut block_elements: Vec<i32> = vec![block_id];
        let root = block_id;
        let mut steps: usize = 0;
        while self.blocks[block_id as usize].link != root && steps < n
            invariant
                self.wf(),
                0 <= root < self.n(),
                root == block,
                0 <= block_id < self.n(),
                n == self.n(),
                steps <= n,
                block_elements@.len() == steps + 1,
                block_elements@[0] == root,
                block_elements@[block_elements@.len() - 1] == block_id,
                block_id as int == self.lwalk(block as int, steps as nat),
                forall|k: int|
                    0 <= k < block_elements@.len() ==> 0 <= #[trigger] block_elements@[k]
                        < self.n(),
                forall|k: int|
                    0 <= k < block_elements@.len() ==> #[trigger] block_elements@[k]
                        == self.lwalk(block as int, k as nat),
                self.is_root(block as int) ==> steps + 1 <= self.blocks@[block as int].size,
            decreases n - steps,
        {
            proof {
                assert(self.block_dom_ok(block_id as int));
                self.lemma_lwalk_step(block as int, steps as nat);
                if self.is_root(block as int) {
                    // the cycle has not closed, so it is not yet complete
                    assert(self.cycle_ok_at(block as int));
                    assert(self.size_ok_at(block as int));
                    self.lemma_no_early_return(block as int);
                    assert(self.lwalk(block as int, (steps + 1) as nat)
                        == self.succ(block_id as int));
                    assert(self.succ(block_id as int) != block as int);
                    assert(self.lwalk(block as int, self.blocks@[block as int].size as nat)
                        == block as int);
                    assert(steps + 1 != self.blocks@[block as int].size);
                }
            }
            block_id = self.blocks[block_id as usize].link;
            block_elements.push(block_id);
            steps = steps + 1;
        }
        proof {
            if self.is_root(block as int) {
                let size = self.blocks@[block as int].size as int;
                assert(self.cycle_ok_at(block as int));
                assert(self.size_ok_at(block as int));
                self.lemma_no_early_return(block as int);
                self.lemma_lwalk_step(block as int, steps as nat);
                // the loop left because the cycle closed: the link of the
                // last member is the root again, which first happens after
                // exactly `size` steps
                assert(steps < n);
                assert(self.succ(block_id as int) == block as int);
                assert(self.lwalk(block as int, (steps + 1) as nat) == block as int);
                assert(steps + 1 == size);
            }
        }
        block_elements
    }

    /// How a quotient DFA relates to the partition it was built from: one
    /// DFA state per root block in increasing id order, carrying the block's
    /// label; a transition per symbol wherever the root block holds one,
    /// resolved to the target's block; the start state is the starting
    /// state's block.
    pub open spec fn quotient_rel(self, q: DFA) -> bool {
        &&& q.n_states() == self.blocks_count
        &&& q.alphabet_size() == self.alphabet_size
        &&& forall|i: int|
            0 <= i < q.n_states() ==> (#[trigger] q.states@[i]).label
                == self.blocks@[self.roots_seq()[i]].label
        &&& forall|i: int, k: int|
            0 <= i < q.n_states() && 0 <= k < q.alphabet_size()
                ==> (#[trigger] q.states@[i].transitions@[k]) == ({
                let t = self.blocks@[self.roots_seq()[i]].transitions@[k];
                if t == -1 {
                    -1i32
                } else {
                    self.root_index(self.rep(t as int)) as i32
                }
            })
        &&& q.starting_state_id == self.root_index(self.rep(self.starting_state_id as int)) as i32
    }

    /// Materialises the partition as a quotient DFA: one state per root
    /// block, enumerated in state-id order, which makes the output canonical
    /// for any partition. The result is deterministic by construction: every
    /// state carries exactly one transition slot per symbol.
    pub fn to_quotient_dfa(&mut self) -> (resultant_dfa: DFA)
        requires
            old(self).wf(),
            0 <= old(self).starting_state_id < old(self).n(),
        ensures
            final(self).wf(),
            final(self).same_shape(*old(self)),
            final(self).counts_eq(*old(self)),
            StatePartition::copy_step(*old(self), *final(self)),
            forall|t: int|
                old(self).in_range(t) ==> #[trigger] final(self).rep(t) == old(self).rep(t),
            resultant_dfa.wf(),
            old(self).quotient_rel(resultant_dfa),
    {
        proof {
            self.lemma_roots_seq();
        }
        let root_blocks = self.root_blocks();
        let mut resultant_dfa = new_dfa();
        let alphabet_size = self.alphabet_size;
        let mut k: usize = 0;
        while k < alphabet_size
            invariant
                k <= alphabet_size,
                alphabet_size <= i32::MAX,
                resultant_dfa.wf(),
                resultant_dfa.n_states() == 0,
                resultant_dfa.alphabet_size() == k,
                resultant_dfa.starting_state_id == -1,
            decreases alphabet_size - k,
        {
            resultant_dfa.add_symbol();
            k = k + 1;
        }
        let n = self.blocks.len();
        let mut state_map: Vec<i32> = Vec::new();
        let mut i: usize = 0;
        while i < n
            invariant
                i <= n,
                state_map@.len() == i,
                forall|j: int| 0 <= j < i ==> #[trigger] state_map@[j] == -1,
            decreases n - i,
        {
            state_map.push(-1);
            i = i + 1;
        }
        let ghost entry = *self;
        let count = root_blocks.len();
        let mut i: usize = 0;
        while i < count
            invariant
                i <= count,
                entry == *old(self),
                entry.wf(),
                count == entry.blocks_count,
                count == entry.roots_seq().len(),
                n == entry.n(),
                alphabet_size == entry.alphabet_size,
                root_blocks@.len() == count,
                forall|j: int|
                    0 <= j < count ==> #[trigger] root_blocks@[j] == entry.roots_seq()[j],
                resultant_dfa.wf(),
                resultant_dfa.n_states() == i,
                resultant_dfa.alphabet_size() == alphabet_size,
                resultant_dfa.starting_state_id == -1,
                forall|j: int|
                    0 <= j < i ==> (#[trigger] resultant_dfa.states@[j]).label
                        == entry.blocks@[entry.roots_seq()[j]].label,
                forall|j: int, kk: int|
                    0 <= j < i && 0 <= kk < alphabet_size
                        ==> #[trigger] resultant_dfa.states@[j].transitions@[kk] == -1,
                state_map@.len() == n,
                forall|r: int|
                    0 <= r < n && entry.is_root(r) && entry.root_index(r) < i
                        ==> #[trigger] state_map@[r] == entry.root_index(r),
                forall|r: int|
                    0 <= r < n && !(entry.is_root(r) && entry.root_index(r) < i)
                        ==> #[trigger] state_map@[r] == -1,
            decreases count - i,
        {
            let r = root_blocks[i];
            proof {
                entry.lemma_roots_seq();
                assert(entry.roots_seq()[i as int] == r);
                assert(entry.is_root(r as int));
                assert(0 <= r < entry.n());
                assert(entry.block_dom_ok(r as int));
                assert(entry.root_index(r as int) == i);
            }
            let label = self.blocks[r as usize].label;
            let id = resultant_dfa.add_state(label);
            state_map[r as usize] = id;
            i = i + 1;
            proof {
                assert forall|r2: int|
                    0 <= r2 < n && entry.is_root(r2) && entry.root_index(r2)
                        < i implies #[trigger] state_map@[r2] == entry.root_index(r2) by {
                    if r2 != r as int {
                        entry.lemma_root_index(r2);
                        assert(entry.root_index(r2) != i - 1);
                    }
                }
                assert forall|r2: int|
                    0 <= r2 < n && !(entry.is_root(r2) && entry.root_index(r2)
                        < i) implies #[trigger] state_map@[r2] == -1 by {
                    assert(r2 != r as int);
                }
            }
        }
        let mut i: usize = 0;
        while i < count
            invariant
                i <= count,
                entry == *old(self),
                entry.wf(),
                self.wf(),
                count == entry.blocks_count,
                count == entry.roots_seq().len(),
                n == entry.n(),
                alphabet_size == entry.alphabet_size,
                root_blocks@.len() == count,
                forall|j: int|
                    0 <= j < count ==> #[trigger] root_blocks@[j] == entry.roots_seq()[j],
                self.same_shape(entry),
                self.counts_eq(entry),
                StatePartition::copy_step(entry, *self),
                forall|t: int|
                    entry.in_range(t) ==> #[trigger] self.rep(t) == entry.rep(t),
                forall|t: int|
                    entry.in_range(t) ==> (self.is_root(t) <==> #[trigger] entry.is_root(t)),
                forall|t: int|
                    entry.in_range(t) ==> block_eq_mod_uf(
                        #[trigger] self.blocks@[t],
                        entry.blocks@[t],
                    ),
                state_map@.len() == n,
                forall|r: int|
                    0 <= r < n && entry.is_root(r) ==> #[trigger] state_map@[r]
                        == entry.root_index(r),
                resultant_dfa.wf(),
                resultant_dfa.n_states() == count,
                resultant_dfa.alphabet_size() == alphabet_size,
                resultant_dfa.starting_state_id == -1,
                forall|j: int|
                    0 <= j < count ==> (#[trigger] resultant_dfa.states@[j]).label
                        == entry.blocks@[entry.roots_seq()[j]].label,
                forall|j: int, kk: int|
                    0 <= j < count && 0 <= kk < alphabet_size && (j < i)
                        ==> (#[trigger] resultant_dfa.states@[j].transitions@[kk]) == ({
                        let t = entry.blocks@[entry.roots_seq()[j]].transitions@[kk];
                        if t == -1 {
                            -1i32
                        } else {
                            entry.root_index(entry.rep(t as int)) as i32
                        }
                    }),
                forall|j: int, kk: int|
                    0 <= j < count && 0 <= kk < alphabet_size && (j > i || (j == i))
                        && !(j < i) ==> (#[trigger] resultant_dfa.states@[j].transitions@[kk])
                        == -1,
            decreases count - i,
        {
            let r = root_blocks[i];
            proof {
                entry.lemma_roots_seq();
                assert(entry.roots_seq()[i as int] == r);
                assert(entry.is_root(r as int));
                assert(0 <= r < entry.n());
                assert(entry.block_dom_ok(r as int));
            }
            let mut symbol: usize = 0;
            while symbol < alphabet_size
                invariant
                    symbol <= alphabet_size,
                    i < count,
                    entry == *old(self),
                    entry.wf(),
                    self.wf(),
                    count == entry.blocks_count,
                    count == entry.roots_seq().len(),
                    n == entry.n(),
                    alphabet_size == entry.alphabet_size,
                    root_blocks@.len() == count,
                    forall|j: int|
                        0 <= j < count ==> #[trigger] root_blocks@[j] == entry.roots_seq()[j],
                    r == entry.roots_seq()[i as int],
                    entry.is_root(r as int),
                    0 <= r < entry.n(),
                    self.same_shape(entry),
                    self.counts_eq(entry),
                    StatePartition::copy_step(entry, *self),
                    forall|t: int|
                        entry.in_range(t) ==> #[trigger] self.rep(t) == entry.rep(t),
                    forall|t: int|
                        entry.in_range(t) ==> (self.is_root(t) <==> #[trigger] entry.is_root(
                            t,
                        )),
                    forall|t: int|
                        entry.in_range(t) ==> block_eq_mod_uf(
                            #[trigger] self.blocks@[t],
                            entry.blocks@[t],
                        ),
                    state_map@.len() == n,
                    forall|rr: int|
                        0 <= rr < n && entry.is_root(rr) ==> #[trigger] state_map@[rr]
                            == entry.root_index(rr),
                    resultant_dfa.wf(),
                    resultant_dfa.n_states() == count,
                    resultant_dfa.alphabet_size() == alphabet_size,
                    resultant_dfa.starting_state_id == -1,
                    forall|j: int|
                        0 <= j < count ==> (#[trigger] resultant_dfa.states@[j]).label
                            == entry.blocks@[entry.roots_seq()[j]].label,
                    forall|j: int, kk: int|
                        0 <= j < count && 0 <= kk < alphabet_size && (j < i || (j == i && kk
                            < symbol)) ==> (
                        #[trigger] resultant_dfa.states@[j].transitions@[kk]) == ({
                            let t = entry.blocks@[entry.roots_seq()[j]].transitions@[kk];
                            if t == -1 {
                                -1i32
                            } else {
                                entry.root_index(entry.rep(t as int)) as i32
                            }
                        }),
                    forall|j: int, kk: int|
                        0 <= j < count && 0 <= kk < alphabet_size && !(j < i || (j == i && kk
                            < symbol)) ==> (
                        #[trigger] resultant_dfa.states@[j].transitions@[kk]) == -1,
                decreases alphabet_size - symbol,
            {
                proof {
                    assert(block_eq_mod_uf(self.blocks@[r as int], entry.blocks@[r as int]));
                    assert(self.block_dom_ok(r as int));
                }
                let t = self.blocks[r as usize].transitions[symbol];
                if t > -1 {
                    let rb = self.find(t);
                    proof {
                        assert(self.rep(t as int) == entry.rep(t as int));
                        entry.lemma_rep_char(t as int);
                        assert(entry.is_root(rb as int));
                        entry.lemma_root_index(rb as int);
                    }
                    let target = state_map[rb as usize];
                    let src = state_map[r as usize];
                    proof {
                        entry.lemma_roots_seq();
                        entry.lemma_root_index(r as int);
                        assert(src == entry.root_index(r as int));
                        assert(entry.root_index(r as int) == i);
                    }
                    resultant_dfa.states[src as usize].transitions[symbol] = target;
                }
                symbol = symbol + 1;
            }
            i = i + 1;
        }
        let starting = self.starting_block();
        proof {
            assert(starting == entry.rep(entry.starting_state_id as int));
            entry.lemma_rep_char(entry.starting_state_id as int);
            assert(entry.is_root(starting as int));
            entry.lemma_root_index(starting as int);
        }
        resultant_dfa.starting_state_id = state_map[starting as usize];
        proof {
            lemma_copy_step_trans(entry, entry, *self);
        }
        resultant_dfa
    }

    /// Returns the ids of the root blocks in discovery order from the
    /// starting block, following block transitions and expanding the most
    /// recently discovered block first. The vector has
    /// one slot per root block; blocks not reachable from the starting block
    /// leave trailing `-1` entries. The listed blocks are distinct roots and
    /// the starting block comes first.
    pub fn ordered_blocks(&mut self) -> (res: Vec<i32>)
        requires
            old(self).wf(),
            0 <= old(self).starting_state_id < old(self).n(),
        ensures
            final(self).wf(),
            final(self).same_shape(*old(self)),
            final(self).counts_eq(*old(self)),
            StatePartition::copy_step(*old(self), *final(self)),
            forall|t: int|
                old(self).in_range(t) ==> #[trigger] final(self).rep(t) == old(self).rep(t),
            res@.len() == old(self).blocks_count,
            res@.len() >= 1 && res@[0] == old(self).rep(old(self).starting_state_id as int),
            forall|j: int|
                0 <= j < res@.len() ==> #[trigger] res@[j] == -1 || (0 <= res@[j] < old(
                    self,
                ).n() && old(self).is_root(res@[j] as int)),
            forall|j1: int, j2: int|
                0 <= j1 < j2 < res@.len() && res@[j1] != -1 ==> res@[j1] != res@[j2],
            // closure: the listed blocks are closed under block transitions,
            // so together with the starting block in front they are exactly
            // the blocks reachable from it
            forall|x: int, k: int|
                #![trigger old(self).blocks@[res@[x] as int].transitions@[k]]
                0 <= x < res@.len() && res@[x] != -1 && 0 <= k < old(self).alphabet_size
                    && old(self).blocks@[res@[x] as int].transitions@[k] >= 0 ==> res@.contains(
                    (old(self).rep(
                        old(self).blocks@[res@[x] as int].transitions@[k] as int,
                    ) as i32),
                ),
    {
        let ghost entry = *self;
        let n = self.blocks.len();
        let mut order_computed: Vec<bool> = Vec::new();
        let mut i: usize = 0;
        while i < n
            invariant
                i <= n,
                order_computed@.len() == i,
                forall|j: int| 0 <= j < i ==> !order_computed@[j],
            decreases n - i,
        {
            order_computed.push(false);
            i = i + 1;
        }
        let starting_block = self.starting_block();
        proof {
            assert(entry.roots_set().contains(starting_block as int));
            assert(entry.roots_set().remove(starting_block as int).insert(starting_block as int)
                =~= entry.roots_set());
            vstd::set_lib::lemma_int_range(0, n as int);
            vstd::set_lib::lemma_len_subset(
                entry.roots_set(),
                vstd::set_lib::set_int_range(0, n as int),
            );
        }
        let count = self.blocks_count as usize;
        let mut ordered_blocks_vec: Vec<i32> = Vec::new();
        let mut i: usize = 0;
        while i < count
            invariant
                i <= count,
                ordered_blocks_vec@.len() == i,
                forall|j: int| 0 <= j < i ==> #[trigger] ordered_blocks_vec@[j] == -1,
            decreases count - i,
        {
            ordered_blocks_vec.push(-1);
            i = i + 1;
        }
        let mut queue: Vec<i32> = vec![starting_block];
        ordered_blocks_vec[0] = starting_block;
        order_computed[starting_block as usize] = true;
        let mut index: usize = 1;
        proof {
            let computed = Set::new(
                |s: int| 0 <= s < n && order_computed@[s],
            );
            assert(computed =~= Set::empty().insert(starting_block as int));
        }
        while queue.len() > 0
            invariant
                entry.wf(),
                entry == *old(self),
                n == entry.n(),
                count == entry.blocks_count,
                0 <= entry.starting_state_id < entry.n(),
                self.wf(),
                self.same_shape(entry),
                self.counts_eq(entry),
                StatePartition::copy_step(entry, *self),
                forall|t: int| entry.in_range(t) ==> #[trigger] self.rep(t) == entry.rep(t),
                forall|t: int|
                    entry.in_range(t) ==> (self.is_root(t) <==> #[trigger] entry.is_root(t)),
                forall|t: int|
                    entry.in_range(t) ==> block_eq_mod_uf(
                        #[trigger] self.blocks@[t],
                        entry.blocks@[t],
                    ),
                order_computed@.len() == n,
                ordered_blocks_vec@.len() == count,
                count <= n,
                1 <= index <= count,
                ordered_blocks_vec@[0] == entry.rep(entry.starting_state_id as int),
                Set::new(|s: int| 0 <= s < n && order_computed@[s]).finite(),
                index == Set::new(|s: int| 0 <= s < n && order_computed@[s]).len(),
                forall|s: int|
                    0 <= s < n && #[trigger] order_computed@[s] ==> entry.is_root(s),
                forall|j: int|
                    0 <= j < queue@.len() ==> 0 <= #[trigger] queue@[j] < n
                        && order_computed@[queue@[j] as int],
                forall|j: int|
                    0 <= j < index ==> 0 <= #[trigger] ordered_blocks_vec@[j] < n
                        && order_computed@[ordered_blocks_vec@[j] as int],
                forall|j: int|
                    index <= j < count ==> #[trigger] ordered_blocks_vec@[j] == -1,
                forall|j1: int, j2: int|
                    0 <= j1 < j2 < index ==> ordered_blocks_vec@[j1] != ordered_blocks_vec@[j2],
                forall|b: int|
                    0 <= b < n && (#[trigger] order_computed@[b]) ==> ordered_blocks_vec@.contains(
                        b as i32,
                    ),
                forall|b: int, k: int|
                    #![trigger entry.blocks@[b].transitions@[k]]
                    0 <= b < n && order_computed@[b] && !queue@.contains(b as i32) && 0 <= k
                        < entry.alphabet_size && entry.blocks@[b].transitions@[k] >= 0
                        ==> order_computed@[entry.rep(
                        entry.blocks@[b].transitions@[k] as int,
                    )],
            decreases n - index, queue@.len(),
        {
            let ghost entry_index = index;
            let ghost pre_queue_len = queue@.len();
            let ghost pre_wl = queue@;
            let block_id = queue.pop().unwrap();
            proof {
                assert(block_id == pre_wl[pre_wl.len() - 1]);
                assert forall|b: int, k: int|
                    #![trigger entry.blocks@[b].transitions@[k]]
                    0 <= b < n && order_computed@[b] && b != block_id as int
                        && !queue@.contains(b as i32) && 0 <= k < entry.alphabet_size
                        && entry.blocks@[b].transitions@[k] >= 0 implies order_computed@[
                    entry.rep(entry.blocks@[b].transitions@[k] as int)] by {
                    if pre_wl.contains(b as i32) {
                        let jx = choose|jx: int|
                            0 <= jx < pre_wl.len() && pre_wl[jx] == b as i32;
                        assert(jx != pre_wl.len() - 1);
                        assert(queue@[jx] == b as i32);
                        assert(false);
                    }
                }
            }
            let alphabet_size = self.alphabet_size;
            let mut symbol: usize = 0;
            while symbol < alphabet_size
                invariant
                    symbol <= alphabet_size,
                    alphabet_size == entry.alphabet_size,
                    entry.wf(),
                    entry == *old(self),
                    n == entry.n(),
                    count == entry.blocks_count,
                    0 <= entry.starting_state_id < entry.n(),
                    0 <= block_id < n,
                    self.wf(),
                    self.same_shape(entry),
                    self.counts_eq(entry),
                    StatePartition::copy_step(entry, *self),
                    forall|t: int| entry.in_range(t) ==> #[trigger] self.rep(t) == entry.rep(t),
                    forall|t: int|
                        entry.in_range(t) ==> (self.is_root(t) <==> #[trigger] entry.is_root(
                            t,
                        )),
                    forall|t: int|
                        entry.in_range(t) ==> block_eq_mod_uf(
                            #[trigger] self.blocks@[t],
                            entry.blocks@[t],
                        ),
                    order_computed@.len() == n,
                    ordered_blocks_vec@.len() == count,
                    count <= n,
                    1 <= index <= count,
                    index >= entry_index,
                    ordered_blocks_vec@[0] == entry.rep(entry.starting_state_id as int),
                    Set::new(|s: int| 0 <= s < n && order_computed@[s]).finite(),
                    index == Set::new(|s: int| 0 <= s < n && order_computed@[s]).len(),
                    queue@.len() == pre_queue_len - 1 + (index - entry_index),
                    forall|s: int|
                        0 <= s < n && #[trigger] order_computed@[s] ==> entry.is_root(s),
                    forall|j: int|
                        0 <= j < queue@.len() ==> 0 <= #[trigger] queue@[j] < n
                            && order_computed@[queue@[j] as int],
                    forall|j: int|
                        0 <= j < index ==> 0 <= #[trigger] ordered_blocks_vec@[j] < n
                            && order_computed@[ordered_blocks_vec@[j] as int],
                    forall|j: int|
                        index <= j < count ==> #[trigger] ordered_blocks_vec@[j] == -1,
                    forall|j1: int, j2: int|
                        0 <= j1 < j2 < index ==> ordered_blocks_vec@[j1]
                            != ordered_blocks_vec@[j2],
                    forall|b: int|
                        0 <= b < n && (#[trigger] order_computed@[b])
                            ==> ordered_blocks_vec@.contains(b as i32),
                    forall|b: int, k: int|
                        #![trigger entry.blocks@[b].transitions@[k]]
                        0 <= b < n && order_computed@[b] && b != block_id as int
                            && !queue@.contains(b as i32) && 0 <= k < entry.alphabet_size
                            && entry.blocks@[b].transitions@[k] >= 0 ==> order_computed@[
                        entry.rep(entry.blocks@[b].transitions@[k] as int)],
                    forall|k: int|
                        0 <= k < symbol && (#[trigger] entry.blocks@[block_id as int].transitions@[k])
                            >= 0 ==> order_computed@[entry.rep(
                            entry.blocks@[block_id as int].transitions@[k] as int,
                        )],
                decreases alphabet_size - symbol,
            {
                proof {
                    assert(self.block_dom_ok(block_id as int));
                }
                let child_state_id = self.blocks[block_id as usize].transitions[symbol];
                proof {
                    assert(block_eq_mod_uf(
                        self.blocks@[block_id as int],
                        entry.blocks@[block_id as int],
                    ));
                    assert(entry.blocks@[block_id as int].transitions@[symbol as int]
                        == child_state_id);
                }
                if child_state_id >= 0 {
                    let child_block_id = self.find(child_state_id);
                    proof {
                        assert(self.rep(child_state_id as int) == entry.rep(
                            child_state_id as int,
                        ));
                        entry.lemma_rep_char(child_state_id as int);
                        assert(entry.is_root(child_block_id as int));
                        assert(child_block_id as int == entry.rep(child_state_id as int));
                    }
                    if !order_computed[child_block_id as usize] {
                        proof {
                            let computed = Set::new(
                                |s: int| 0 <= s < n && order_computed@[s],
                            );
                            assert(computed.insert(child_block_id as int).subset_of(
                                entry.roots_set(),
                            ));
                            vstd::set_lib::lemma_len_subset(
                                computed.insert(child_block_id as int),
                                entry.roots_set(),
                            );
                            assert(computed.insert(child_block_id as int).len() == index + 1);
                        }
                        let ghost pre_computed = order_computed@;
                        let ghost pre_ordered = ordered_blocks_vec@;
                        let ghost pre_q = queue@;
                        queue.push(child_block_id);
                        ordered_blocks_vec[index] = child_block_id;
                        order_computed[child_block_id as usize] = true;
                        index = index + 1;
                        proof {
                            assert(Set::new(|s: int| 0 <= s < n && order_computed@[s])
                                =~= Set::new(
                                |s: int| 0 <= s < n && pre_computed[s],
                            ).insert(child_block_id as int));
                            assert forall|j1: int, j2: int|
                                0 <= j1 < j2 < index implies ordered_blocks_vec@[j1]
                                != ordered_blocks_vec@[j2] by {
                                if j2 == index - 1 {
                                    assert(pre_ordered[j1] == ordered_blocks_vec@[j1]);
                                    assert(!pre_computed[child_block_id as int]);
                                    assert(pre_computed[pre_ordered[j1] as int]);
                                }
                            }
                            assert forall|b: int|
                                0 <= b < n && (#[trigger] order_computed@[b]) implies
                                ordered_blocks_vec@.contains(b as i32) by {
                                if b == child_block_id as int {
                                    assert(ordered_blocks_vec@[index - 1] == b as i32);
                                } else {
                                    assert(pre_computed[b]);
                                    let jx = choose|jx: int|
                                        0 <= jx < pre_ordered.len() && pre_ordered[jx]
                                            == b as i32;
                                    // the witness slot is an already filled one,
                                    // not the slot this iteration wrote
                                    assert(pre_ordered[jx] != -1);
                                    assert(jx != index - 1);
                                    assert(ordered_blocks_vec@[jx] == b as i32);
                                }
                            }
                            assert forall|b: int, k: int|
                                #![trigger entry.blocks@[b].transitions@[k]]
                                0 <= b < n && order_computed@[b] && b != block_id as int
                                    && !queue@.contains(b as i32) && 0 <= k
                                    < entry.alphabet_size && entry.blocks@[b].transitions@[k]
                                    >= 0 implies order_computed@[entry.rep(
                                entry.blocks@[b].transitions@[k] as int,
                            )] by {
                                assert(b != child_block_id as int) by {
                                    if b == child_block_id as int {
                                        assert(queue@[queue@.len() - 1] == b as i32);
                                    }
                                }
                                assert(!pre_q.contains(b as i32)) by {
                                    if pre_q.contains(b as i32) {
                                        let jx = choose|jx: int|
                                            0 <= jx < pre_q.len() && pre_q[jx] == b as i32;
                                        assert(queue@[jx] == b as i32);
                                    }
                                }
                                assert(pre_computed[b]);
                                assert(entry.block_dom_ok(b));
                                entry.lemma_rep_char(entry.blocks@[b].transitions@[k] as int);
                                assert(0 <= entry.rep(entry.blocks@[b].transitions@[k] as int)
                                    < n);
                                assert(pre_computed[entry.rep(
                                    entry.blocks@[b].transitions@[k] as int,
                                )]);
                            }
                        }
                    } else {
                        proof {
                            assert(order_computed@[child_block_id as int]);
                        }
                    }
                }
                proof {
                    assert forall|k: int|
                        0 <= k < symbol + 1 && (
                        #[trigger] entry.blocks@[block_id as int].transitions@[k])
                            >= 0 implies order_computed@[entry.rep(
                        entry.blocks@[block_id as int].transitions@[k] as int,
                    )] by {
                        assert(entry.block_dom_ok(block_id as int));
                        entry.lemma_rep_char(
                            entry.blocks@[block_id as int].transitions@[k] as int,
                        );
                        if k == symbol as int {
                            assert(entry.blocks@[block_id as int].transitions@[k]
                                == child_state_id);
                        }
                    }
                }
                symbol = symbol + 1;
            }
        }
        proof {
            assert forall|x: int, k: int|
                #![trigger entry.blocks@[ordered_blocks_vec@[x] as int].transitions@[k]]
                0 <= x < ordered_blocks_vec@.len() && ordered_blocks_vec@[x] != -1 && 0 <= k
                    < entry.alphabet_size
                    && entry.blocks@[ordered_blocks_vec@[x] as int].transitions@[k]
                    >= 0 implies ordered_blocks_vec@.contains(
                (entry.rep(
                    entry.blocks@[ordered_blocks_vec@[x] as int].transitions@[k] as int,
                ) as i32),
            ) by {
                let b = ordered_blocks_vec@[x] as int;
                assert(order_computed@[b]);
                assert(!queue@.contains(ordered_blocks_vec@[x]));
                assert(entry.block_dom_ok(b));
                entry.lemma_rep_char(entry.blocks@[b].transitions@[k] as int);
                assert(0 <= entry.rep(entry.blocks@[b].transitions@[k] as int) < n);
                assert(order_computed@[entry.rep(entry.blocks@[b].transitions@[k] as int)]);
            }
        }
        ordered_blocks_vec
    }

    /// Two states are in the same block exactly when they share a
    /// representative.
    pub fn within_same_block(&mut self, state_id_1: i32, state_id_2: i32) -> (res: bool)
        requires
            old(self).wf(),
            0 <= state_id_1 < old(self).n(),
            0 <= state_id_2 < old(self).n(),
        ensures
            final(self).wf(),
            final(self).same_shape(*old(self)),
            final(self).counts_eq(*old(self)),
            StatePartition::copy_step(*old(self), *final(self)),
            res == (old(self).rep(state_id_1 as int) == old(self).rep(state_id_2 as int)),
            forall|t: int|
                old(self).in_range(t) ==> #[trigger] final(self).rep(t) == old(self).rep(t),
    {
        let ghost entry = *self;
        let r1 = self.find(state_id_1);
        let ghost mid = *self;
        let r2 = self.find(state_id_2);
        proof {
            assert(mid.rep(state_id_2 as int) == entry.rep(state_id_2 as int));
            lemma_copy_step_trans(entry, mid, *self);
        }
        r1 == r2
    }

    /// Attempts to merge the blocks of the two given states, cascading
    /// through shared transitions to keep the partition deterministic.
    /// Returns `true` when every cascaded merge succeeded: the two states
    /// then share a block, and blocks only ever grow. Returns `false` on a
    /// label conflict, leaving a partially merged partition behind; a caller
    /// holding a snapshot rolls the attempt back. Two states already in the
    /// same block merge trivially; a label conflict between the two root
    /// blocks themselves is refused with the partition unchanged (up to path
    /// compression).
    pub fn merge_states(&mut self, state1: i32, state2: i32) -> (ok: bool)
        requires
            old(self).wf(),
            0 <= state1 < old(self).n(),
            0 <= state2 < old(self).n(),
        ensures
            final(self).wf(),
            final(self).same_shape(*old(self)),
            StatePartition::copy_step(*old(self), *final(self)),
            // a snapshot keeps tracking whatever base it tracked, so any
            // sequence of merges can be undone by one rollback
            forall|base: StatePartition|
                old(self).sync_with(base) ==> #[trigger] final(self).sync_with(base),
            final(self).blocks_count <= old(self).blocks_count,
            final(self).accepting_blocks_count <= old(self).accepting_blocks_count,
            final(self).rejecting_blocks_count <= old(self).rejecting_blocks_count,
            forall|s: int|
                old(self).in_range(s) && old(self).blocks@[s].label != UNLABELLED
                    ==> #[trigger] final(self).blocks@[s].label == old(self).blocks@[s].label,
            forall|a: int, b: int|
                #![trigger final(self).rep(a), final(self).rep(b)]
                old(self).in_range(a) && old(self).in_range(b)
                    && old(self).rep(a) == old(self).rep(b)
                    ==> final(self).rep(a) == final(self).rep(b),
            ok ==> final(self).rep(state1 as int) == final(self).rep(state2 as int),
            old(self).rep(state1 as int) == old(self).rep(state2 as int) ==> ok
                && final(self).counts_eq(*old(self)) && (forall|t: int|
                old(self).in_range(t) ==> #[trigger] final(self).rep(t) == old(self).rep(t)),
            ({
                let r1 = old(self).rep(state1 as int);
                let r2 = old(self).rep(state2 as int);
                (r1 != r2 && ((old(self).blocks@[r1].label == ACCEPTING
                    && old(self).blocks@[r2].label == REJECTING)
                    || (old(self).blocks@[r1].label == REJECTING
                        && old(self).blocks@[r2].label == ACCEPTING)))
                    ==> !ok && final(self).counts_eq(*old(self)) && (forall|t: int|
                    old(self).in_range(t) ==> #[trigger] final(self).rep(t) == old(self).rep(
                        t,
                    ))
            }),
            (ok && old(self).rep(state1 as int) != old(self).rep(state2 as int))
                ==> final(self).blocks_count < old(self).blocks_count,
            // the merge is the model-level cascaded merge: it succeeds
            // exactly when that merge meets no accepting/rejecting conflict,
            // and it leaves exactly the abstract state that merge computes
            ({
                let r = model_merge(
                    old(self).model(),
                    state1 as int,
                    state2 as int,
                    old(self).blocks_count as nat,
                );
                ok == r.1 && final(self).model() == r.0
            }),
        decreases old(self).blocks_count,
    {
        let ghost entry = *self;
        let ghost m0 = entry.model();
        let ghost fuel0 = entry.blocks_count as nat;
        proof {
            // at least one root exists, so the model merge has fuel to start
            entry.lemma_rep_char(state1 as int);
            assert(entry.roots_set().remove(entry.rep(state1 as int)).insert(
                entry.rep(state1 as int),
            ) =~= entry.roots_set());
            assert(entry.blocks_count >= 1);
        }
        let mut state1_id = state1;
        let mut state2_id = state2;
        proof {
            entry.lemma_rep_char(state1 as int);
            entry.lemma_rep_char(state2 as int);
        }
        // skip the walk when the argument is already a root
        if self.blocks[state1_id as usize].root != state1_id {
            state1_id = self.find(state1_id);
        } else {
            proof {
                assert(entry.rep(state1 as int) == state1 as int);
            }
        }
        let ghost mid1 = *self;
        if self.blocks[state2_id as usize].root != state2_id {
            state2_id = self.find(state2_id);
        } else {
            proof {
                assert(mid1.rep(state2 as int) == state2 as int);
            }
        }
        let ghost found = *self;
        proof {
            lemma_copy_step_trans(entry, mid1, found);
            assert(found.rep(state1_id as int) == entry.rep(state1 as int));
            assert(state1_id as int == entry.rep(state1 as int));
            assert(state2_id as int == entry.rep(state2 as int));
            assert(found.is_root(state1_id as int));
            assert(found.is_root(state2_id as int));
            found.lemma_rep_char(state1_id as int);
            found.lemma_rep_char(state2_id as int);
        }
        proof {
            assert(block_eq_mod_uf(
                found.blocks@[state1_id as int],
                entry.blocks@[state1_id as int],
            ));
            assert(block_eq_mod_uf(
                found.blocks@[state2_id as int],
                entry.blocks@[state2_id as int],
            ));
            assert forall|t: int|
                entry.in_range(t) implies #[trigger] found.rep(t) == entry.rep(t) by {
                assert(found.rep(t) == mid1.rep(t));
                assert(mid1.rep(t) == entry.rep(t));
            }
            assert forall|t: int|
                entry.in_range(t) implies block_eq_mod_uf(
                #[trigger] found.blocks@[t],
                entry.blocks@[t],
            ) by {
                assert(block_eq_mod_uf(mid1.blocks@[t], entry.blocks@[t]));
                assert(block_eq_mod_uf(found.blocks@[t], mid1.blocks@[t]));
            }
        }
        proof {
            assert(found.counts_eq(entry));
            StatePartition::lemma_model_eq(found, entry);
            assert(found.model() == m0);
            assert(m0.rep[state1 as int] == state1_id as int);
            assert(m0.rep[state2 as int] == state2_id as int);
        }
        if state1_id == state2_id {
            proof {
                assert forall|base: StatePartition|
                    old(self).sync_with(base) implies #[trigger] self.sync_with(base) by {
                    lemma_sync_step(*old(self), *self, base);
                }
                let r = model_merge(m0, state1 as int, state2 as int, fuel0);
                assert(r.0 == m0 && r.1 == true);
                assert(self.model() == m0);
            }
            return true;
        }
        let l1 = self.blocks[state1_id as usize].label;
        let l2 = self.blocks[state2_id as usize].label;
        if (l1 == ACCEPTING && l2 == REJECTING) || (l1 == REJECTING && l2 == ACCEPTING) {
            proof {
                assert(block_eq_mod_uf(
                    found.blocks@[state1_id as int],
                    entry.blocks@[state1_id as int],
                ));
                assert forall|base: StatePartition|
                    old(self).sync_with(base) implies #[trigger] self.sync_with(base) by {
                    lemma_sync_step(*old(self), *self, base);
                }
                assert(m0.label[state1_id as int] == l1);
                assert(m0.label[state2_id as int] == l2);
                let r = model_merge(m0, state1 as int, state2 as int, fuel0);
                assert(r.0 == m0 && r.1 == false);
                assert(self.model() == m0);
            }
            return false;
        }
        self.union(state1_id, state2_id);
        let ghost joined = *self;
        let ghost parent: int = found.union_parent(state1_id as int, state2_id as int);
        let ghost m1 = model_union(m0, state1_id as int, state2_id as int);
        let ghost asize = m0.alphabet_size;
        let ghost sub_fuel = (fuel0 - 1) as nat;
        proof {
            lemma_copy_step_trans(entry, found, joined);
            assert(joined.rep(state1 as int) == parent);
            assert(joined.rep(state2 as int) == parent);
            assert(joined.model() == model_union(found.model(), state1_id as int,
                state2_id as int));
            assert(joined.model() == m1);
            assert(!labels_conflict(m0.label[state1_id as int], m0.label[state2_id as int]));
            assert(model_merge(m0, state1 as int, state2 as int, fuel0) == model_cascade(
                m1,
                state1_id as int,
                state2_id as int,
                0,
                asize,
                sub_fuel,
            ));
        }
        let alphabet_size = self.alphabet_size;
        let mut i: usize = 0;
        while i < alphabet_size
            invariant
                self.wf(),
                alphabet_size == entry.alphabet_size,
                i <= alphabet_size,
                0 <= state1_id < entry.n(),
                0 <= state2_id < entry.n(),
                entry.wf(),
                entry == *old(self),
                state1_id == entry.rep(state1 as int),
                state2_id == entry.rep(state2 as int),
                state1_id != state2_id,
                !((entry.blocks@[state1_id as int].label == ACCEPTING
                    && entry.blocks@[state2_id as int].label == REJECTING) || (
                entry.blocks@[state1_id as int].label == REJECTING
                    && entry.blocks@[state2_id as int].label == ACCEPTING)),
                self.same_shape(entry),
                StatePartition::copy_step(entry, *self),
                self.blocks_count <= entry.blocks_count - 1,
                self.accepting_blocks_count <= entry.accepting_blocks_count,
                self.rejecting_blocks_count <= entry.rejecting_blocks_count,
                forall|s: int|
                    entry.in_range(s) && entry.blocks@[s].label != UNLABELLED
                        ==> #[trigger] self.blocks@[s].label == entry.blocks@[s].label,
                forall|a: int, b: int|
                    #![trigger self.rep(a), self.rep(b)]
                    entry.in_range(a) && entry.in_range(b) && entry.rep(a) == entry.rep(b)
                        ==> self.rep(a) == self.rep(b),
                self.rep(state1 as int) == self.rep(state2 as int),
                0 <= state1 < entry.n(),
                0 <= state2 < entry.n(),
                m0 == entry.model(),
                fuel0 == entry.blocks_count as nat,
                asize == m0.alphabet_size,
                sub_fuel == (fuel0 - 1) as nat,
                model_merge(m0, state1 as int, state2 as int, fuel0) == model_cascade(
                    self.model(),
                    state1_id as int,
                    state2_id as int,
                    i as int,
                    asize,
                    sub_fuel,
                ),
            decreases alphabet_size - i,
        {
            proof {
                assert(self.block_dom_ok(state1_id as int));
                assert(self.block_dom_ok(state2_id as int));
            }
            let t1 = self.blocks[state1_id as usize].transitions[i];
            let t2 = self.blocks[state2_id as usize].transitions[i];
            proof {
                assert(self.model().transitions[state1_id as int][i as int] == t1);
                assert(self.model().transitions[state2_id as int][i as int] == t2);
            }
            if t1 != -1 && t2 != -1 {
                let ghost before_rec = *self;
                proof {
                    before_rec.lemma_model_inv();
                    lemma_model_merge_fuel(
                        before_rec.model(),
                        t1 as int,
                        t2 as int,
                        sub_fuel,
                        before_rec.blocks_count as nat,
                    );
                }
                let ok = self.merge_states(t1, t2);
                proof {
                    lemma_copy_step_trans(entry, before_rec, *self);
                    // one cascade step of the model merge was taken
                    let sub = model_merge(
                        before_rec.model(),
                        t1 as int,
                        t2 as int,
                        before_rec.blocks_count as nat,
                    );
                    assert(ok == sub.1 && self.model() == sub.0);
                    assert(model_cascade(
                        before_rec.model(),
                        state1_id as int,
                        state2_id as int,
                        i as int,
                        asize,
                        sub_fuel,
                    ) == (if !sub.1 {
                        sub
                    } else {
                        model_cascade(
                            sub.0,
                            state1_id as int,
                            state2_id as int,
                            i + 1,
                            asize,
                            sub_fuel,
                        )
                    }));
                    assert forall|a: int, b: int|
                        #![trigger self.rep(a), self.rep(b)]
                        entry.in_range(a) && entry.in_range(b) && entry.rep(a) == entry.rep(
                            b,
                        ) implies self.rep(a) == self.rep(b) by {
                        assert(before_rec.rep(a) == before_rec.rep(b));
                    }
                    assert forall|s: int|
                        entry.in_range(s) && entry.blocks@[s].label
                            != UNLABELLED implies #[trigger] self.blocks@[s].label
                        == entry.blocks@[s].label by {
                        assert(before_rec.blocks@[s].label == entry.blocks@[s].label);
                    }
                }
                if !ok {
                    proof {
                        assert forall|base: StatePartition|
                            old(self).sync_with(base) implies #[trigger] self.sync_with(
                            base,
                        ) by {
                            lemma_sync_step(*old(self), *self, base);
                        }
                        assert(model_merge(m0, state1 as int, state2 as int, fuel0) == (
                            self.model(),
                            false,
                        ));
                    }
                    return false;
                }
            } else {
                proof {
                    assert(model_cascade(
                        self.model(),
                        state1_id as int,
                        state2_id as int,
                        i as int,
                        asize,
                        sub_fuel,
                    ) == model_cascade(
                        self.model(),
                        state1_id as int,
                        state2_id as int,
                        i + 1,
                        asize,
                        sub_fuel,
                    ));
                }
            }
            i = i + 1;
        }
        proof {
            assert forall|base: StatePartition|
                old(self).sync_with(base) implies #[trigger] self.sync_with(base) by {
                lemma_sync_step(*old(self), *self, base);
            }
            assert(model_cascade(
                self.model(),
                state1_id as int,
                state2_id as int,
                alphabet_size as int,
                asize,
                sub_fuel,
            ) == (self.model(), true));
            assert(model_merge(m0, state1 as int, state2 as int, fuel0) == (
                self.model(),
                true,
            ));
        }
        true
    }
}

impl StatePartition {
    /// The partition is the one `new` builds from the DFA: every state a
    /// singleton root block carrying its own label and transitions.
    pub open spec fn singleton_partition_of(self, d: DFA) -> bool {
        &&& self.n() == d.n_states()
        &&& self.alphabet_size == d.alphabet_size()
        &&& self.starting_state_id == d.starting_state_id
        &&& self.blocks_count == d.n_states()
        &&& !self.is_copy
        &&& forall|s: int|
            0 <= s < d.n_states() ==> {
                &&& (#[trigger] self.blocks@[s]).root == s
                &&& self.blocks@[s].size == 1
                &&& self.blocks@[s].link == s
                &&& self.blocks@[s].label == d.states@[s].label
                &&& self.blocks@[s].transitions@ == d.states@[s].transitions@
            }
    }
}

impl DFA {
    /// Converts the DFA to a state partition with every state in a singleton
    /// block of its own.
    pub fn to_state_partition(&self) -> (p: StatePartition)
        requires
            self.wf(),
        ensures
            p.wf(),
            p.singleton_partition_of(*self),
            p.changed_blocks_count == 0,
            p.accepting_blocks_count + p.rejecting_blocks_count == DFA::labelled_count_to(
                self.states@,
                self.n_states(),
            ),
            forall|s: int| 0 <= s < self.n_states() ==> #[trigger] p.rep(s) == s,
    {
        StatePartition::new(self)
    }
}

/// Union-find well-formedness: from any state the chain of `root` pointers
/// reaches a root within one step per state, and resolving a representative
/// again returns the same representative — `find` is idempotent.
pub proof fn lemma_find_idempotent(p: StatePartition, s: int)
    requires
        p.wf(),
        p.in_range(s),
    ensures
        p.rooted_in(s, p.n() as nat),
        p.in_range(p.rep(s)),
        p.is_root(p.rep(s)),
        p.rep(p.rep(s)) == p.rep(s),
{
    p.lemma_rep_idempotent(s);
}

/// Block size correctness: every root's `size` field is exactly the number
/// of states whose representative it is, and counts itself among them.
pub proof fn lemma_block_size(p: StatePartition, r: int)
    requires
        p.wf(),
        p.in_range(r),
        p.is_root(r),
    ensures
        p.class(r).finite(),
        p.blocks@[r].size == p.class(r).len(),
        p.class(r).contains(r),
        p.blocks@[r].size >= 1,
{
    assert(p.size_ok_at(r));
    p.lemma_root_in_class(r);
}

/// Link-cycle correctness: from any root, following `link` pointers returns
/// to the root after exactly `size` steps, and the members seen on the way
/// are exactly the states of that block.
pub proof fn lemma_link_cycle(p: StatePartition, r: int)
    requires
        p.wf(),
        p.in_range(r),
        p.is_root(r),
    ensures
        p.lwalk(r, p.blocks@[r].size as nat) == r,
        p.blocks@[r].size == p.class(r).len(),
        forall|m: int|
            p.class(r).contains(m) <==> exists|i: int|
                0 <= i < p.blocks@[r].size && (#[trigger] p.lwalk(r, i as nat)) == m,
{
    assert(p.cycle_ok_at(r));
    assert(p.size_ok_at(r));
    p.lemma_root_in_class(r);
    assert forall|m: int|
        p.class(r).contains(m) <==> exists|i: int|
            0 <= i < p.blocks@[r].size && (#[trigger] p.lwalk(r, i as nat)) == m by {
        if exists|i: int|
            0 <= i < p.blocks@[r].size && (#[trigger] p.lwalk(r, i as nat)) == m {
            let i = choose|i: int|
                0 <= i < p.blocks@[r].size && (#[trigger] p.lwalk(r, i as nat)) == m;
            p.lemma_lwalk_in_class(r, i as nat);
            assert(p.rep(m) == p.rep(r));
            assert(p.rep(r) == r);
        }
    }
}

/// Count consistency: `blocks_count` is the number of root blocks, and the
/// accepting and rejecting counters are the numbers of root blocks carrying
/// those labels.
pub proof fn lemma_count_consistency(p: StatePartition)
    requires
        p.wf(),
    ensures
        p.blocks_count == p.roots_set().len(),
        p.accepting_blocks_count == p.labelled_roots(ACCEPTING).len(),
        p.rejecting_blocks_count == p.labelled_roots(REJECTING).len(),
        p.accepting_blocks_count + p.rejecting_blocks_count <= p.blocks_count,
{
    vstd::set_lib::lemma_set_disjoint_lens(
        p.labelled_roots(ACCEPTING),
        p.labelled_roots(REJECTING),
    );
    vstd::set_lib::lemma_len_subset(
        p.labelled_roots(ACCEPTING).union(p.labelled_roots(REJECTING)),
        p.roots_set(),
    );
}

/// Label safety: an accepting and a rejecting state never share a block.
/// Since the partition operations never change the label of a labelled
/// state, this extends to the original labelling of the input DFA.
pub proof fn lemma_label_safety(p: StatePartition, s1: int, s2: int)
    requires
        p.wf(),
        p.in_range(s1),
        p.in_range(s2),
        p.blocks@[s1].label == ACCEPTING,
        p.blocks@[s2].label == REJECTING,
    ensures
        p.rep(s1) != p.rep(s2),
{
    assert(label_compat(p.blocks@[s1].label, p.blocks@[p.rep(s1)].label));
    assert(label_compat(p.blocks@[s2].label, p.blocks@[p.rep(s2)].label));
}

/// Label witnesses: a block labelled accepting or rejecting contains a
/// member state that itself carries that label. Since the partition
/// operations never change the label of a labelled state, an accepting block
/// always holds an originally accepting state, and likewise for rejecting.
pub proof fn lemma_label_witness(p: StatePartition, r: int)
    requires
        p.wf(),
        p.in_range(r),
        p.is_root(r),
        p.blocks@[r].label != UNLABELLED,
    ensures
        exists|s: int|
            (#[trigger] p.class(r).contains(s)) && p.blocks@[s].label == p.blocks@[r].label,
{
    assert(p.label_witnessed_at(r));
}

/// Round trip: the quotient DFA of an untouched singleton partition is the
/// input DFA itself — same states in the same order, same labels, same
/// transitions, same start state.
pub proof fn lemma_quotient_round_trip(d: DFA, p: StatePartition, q: DFA)
    requires
        d.wf(),
        p.wf(),
        q.wf(),
        p.singleton_partition_of(d),
        p.quotient_rel(q),
        0 <= d.starting_state_id < d.n_states(),
    ensures
        q.n_states() == d.n_states(),
        q.alphabet_size() == d.alphabet_size(),
        forall|i: int|
            0 <= i < d.n_states() ==> (#[trigger] q.states@[i]).label == d.states@[i].label,
        forall|i: int|
            0 <= i < d.n_states() ==> (#[trigger] q.states@[i]).transitions@
                =~= d.states@[i].transitions@,
        q.starting_state_id == d.starting_state_id,
{
    let n = p.n();
    assert forall|m: int| 0 <= m <= n implies #[trigger] p.roots_upto(m) =~= Seq::new(
        m as nat,
        |j: int| j,
    ) by {
        lemma_roots_upto_identity(p, m);
    }
    assert forall|s: int| p.in_range(s) implies #[trigger] p.rep(s) == s by {
        assert(p.is_root(s));
        assert(p.walk(s, p.n() as nat) == s);
    }
    assert forall|r: int| 0 <= r <= n implies #[trigger] p.roots_upto(r).len() == r by {
        lemma_roots_upto_identity(p, r);
    }
    assert forall|i: int|
        0 <= i < d.n_states() implies (#[trigger] q.states@[i]).transitions@
        =~= d.states@[i].transitions@ by {
        assert(p.roots_seq()[i] == i);
        assert(q.states@[i].wf(q.n_states(), q.alphabet_size()));
        assert(q.states@[i].transitions@.len() == q.alphabet_size());
        assert(d.states@[i].wf(d.n_states(), d.alphabet_size()));
        assert forall|k: int|
            0 <= k < q.alphabet_size() implies q.states@[i].transitions@[k]
            == d.states@[i].transitions@[k] by {
            let t = p.blocks@[i].transitions@[k];
            assert(t == d.states@[i].transitions@[k]);
            if t != -1 {
                assert(p.rep(t as int) == t as int);
                assert(p.root_index(t as int) == t as int);
            }
        }
    }
    assert forall|i: int|
        0 <= i < d.n_states() implies (#[trigger] q.states@[i]).label
        == d.states@[i].label by {
        assert(p.roots_seq()[i] == i);
    }
    assert(p.rep(p.starting_state_id as int) == p.starting_state_id as int);
    assert(p.root_index(p.starting_state_id as int) == p.starting_state_id as int);
}

/// In a partition where every state is a root, the ordered root enumeration
/// below `m` is the identity sequence.
proof fn lemma_roots_upto_identity(p: StatePartition, m: int)
    requires
        forall|s: int| 0 <= s < p.n() ==> (#[trigger] p.blocks@[s]).root == s,
        m <= p.n(),
    ensures
        p.roots_upto(m) =~= Seq::new(if m <= 0 {
            0nat
        } else {
            m as nat
        }, |j: int| j),
    decreases m,
{
    if m > 0 {
        lemma_roots_upto_identity(p, m - 1);
        assert(p.is_root(m - 1));
    }
}

} // verus!
