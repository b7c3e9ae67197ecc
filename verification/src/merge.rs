//! Search drivers over the state partition: the red-blue RPNI driver and the
//! exhaustive evidence-driven driver, together with their telemetry.

use vstd::prelude::*;
use crate::state_partition::{StatePartition, PartitionModel, lemma_copy_step_trans, lemma_sync_step, block_eq, block_eq_mod_uf, block_eq_mod_changed, model_merge, model_roots, lemma_model_roots_props, lemma_model_roots_eq, lemma_model_merge_strict};

verus! {

broadcast use vstd::set::group_set_axioms;

/// A state pair together with the score its merge obtained.
pub struct StatePairScore {
    pub state_1: i32,
    pub state_2: i32,
    pub score: i64,
}

/// Telemetry of one search: the committed merges with their scores, and the
/// counts of attempted and valid merges. The counts saturate instead of
/// wrapping.
pub struct MergeData {
    pub merges: Vec<StatePairScore>,
    pub attempted_merges_count: u64,
    pub valid_merges_count: u64,
}

/// The set of ids a vector of state ids holds.
pub open spec fn id_set(s: Seq<i32>) -> Set<int> {
    Set::new(|x: int| exists|j: int| 0 <= j < s.len() && s[j] == x)
}

/// An id vector over states of a partition covers a finite set of at most
/// one id per state.
proof fn lemma_id_set_bound(s: Seq<i32>, n: int)
    requires
        n >= 0,
        forall|j: int| 0 <= j < s.len() ==> 0 <= #[trigger] s[j] < n,
    ensures
        id_set(s).finite(),
        id_set(s).len() <= n,
        id_set(s).subset_of(vstd::set_lib::set_int_range(0, n)),
{
    vstd::set_lib::lemma_int_range(0, n);
    assert forall|x: int| id_set(s).contains(x) implies vstd::set_lib::set_int_range(
        0,
        n,
    ).contains(x) by {
        let j = choose|j: int| 0 <= j < s.len() && s[j] == x;
    }
    vstd::set_lib::lemma_len_subset(id_set(s), vstd::set_lib::set_int_range(0, n));
}

/// Appending a fresh id to an id vector grows its id set by exactly one.
proof fn lemma_id_set_push(s: Seq<i32>, x: i32)
    ensures
        id_set(s.push(x)) == id_set(s).insert(x as int),
{
    assert forall|y: int|
        id_set(s.push(x)).contains(y) <==> id_set(s).insert(x as int).contains(y) by {
        if id_set(s.push(x)).contains(y) {
            let j = choose|j: int| 0 <= j < s.push(x).len() && s.push(x)[j] == y;
            if j < s.len() {
                assert(s[j] == y);
            }
        }
        if id_set(s).contains(y) {
            let j = choose|j: int| 0 <= j < s.len() && s[j] == y;
            assert(s.push(x)[j] == y);
        }
        if y == x as int {
            assert(s.push(x)[s.len() as int] == x);
        }
    }
    assert(id_set(s.push(x)) =~= id_set(s).insert(x as int));
}

/// Whether the vector holds the given id.
fn contains_id(v: &Vec<i32>, x: i32) -> (res: bool)
    ensures
        res == v@.contains(x),
{
    let mut j: usize = 0;
    let n = v.len();
    while j < n
        invariant
            j <= n,
            n == v@.len(),
            forall|k: int| 0 <= k < j ==> v@[k] != x,
        decreases n - j,
    {
        if v[j] == x {
            return true;
        }
        j = j + 1;
    }
    false
}

/// Replaces every red entry with the representative of its block.
pub fn update_red_set(state_partition: &mut StatePartition, red_states: &mut Vec<i32>)
    requires
        old(state_partition).wf(),
        forall|j: int|
            0 <= j < old(red_states)@.len() ==> 0 <= #[trigger] old(red_states)@[j] < old(
                state_partition,
            ).n(),
    ensures
        final(state_partition).wf(),
        final(state_partition).same_shape(*old(state_partition)),
        final(state_partition).counts_eq(*old(state_partition)),
        StatePartition::copy_step(*old(state_partition), *final(state_partition)),
        forall|t: int|
            old(state_partition).in_range(t) ==> #[trigger] final(state_partition).rep(t)
                == old(state_partition).rep(t),
        forall|t: int|
            old(state_partition).in_range(t) ==> (final(state_partition).is_root(t)
                <==> #[trigger] old(state_partition).is_root(t)),
        forall|t: int|
            old(state_partition).in_range(t) ==> block_eq_mod_uf(
                #[trigger] final(state_partition).blocks@[t],
                old(state_partition).blocks@[t],
            ),
        final(red_states)@.len() == old(red_states)@.len(),
        forall|j: int|
            0 <= j < old(red_states)@.len() ==> #[trigger] final(red_states)@[j] == old(
                state_partition,
            ).rep(old(red_states)@[j] as int),
        forall|j: int|
            0 <= j < final(red_states)@.len() ==> 0 <= #[trigger] final(red_states)@[j] < old(
                state_partition,
            ).n() && final(state_partition).is_root(final(red_states)@[j] as int),
{
    let ghost entry = *state_partition;
    let n = red_states.len();
    let mut j: usize = 0;
    while j < n
        invariant
            j <= n,
            n == red_states@.len(),
            entry == *old(state_partition),
            entry.wf(),
            state_partition.wf(),
            state_partition.same_shape(entry),
            state_partition.counts_eq(entry),
            StatePartition::copy_step(entry, *state_partition),
            forall|t: int|
                entry.in_range(t) ==> #[trigger] state_partition.rep(t) == entry.rep(t),
            forall|t: int|
                entry.in_range(t) ==> (state_partition.is_root(t) <==> #[trigger] entry.is_root(
                    t,
                )),
            forall|t: int|
                entry.in_range(t) ==> block_eq_mod_uf(
                    #[trigger] state_partition.blocks@[t],
                    entry.blocks@[t],
                ),
            forall|k: int|
                j <= k < n ==> 0 <= #[trigger] red_states@[k] < entry.n(),
            forall|k: int|
                0 <= k < j ==> #[trigger] red_states@[k] == entry.rep(
                    old(red_states)@[k] as int,
                ),
            forall|k: int|
                0 <= k < j ==> 0 <= #[trigger] red_states@[k] < entry.n()
                    && state_partition.is_root(red_states@[k] as int),
            forall|k: int| j <= k < n ==> #[trigger] red_states@[k] == old(red_states)@[k],
        decreases n - j,
    {
        let ghost before = *state_partition;
        let red_state = red_states[j];
        let root = state_partition.find(red_state);
        red_states[j] = root;
        proof {
            lemma_copy_step_trans(entry, before, *state_partition);
            assert(before.rep(red_state as int) == entry.rep(red_state as int));
            entry.lemma_rep_char(red_state as int);
            assert forall|t: int|
                entry.in_range(t) implies block_eq_mod_uf(
                #[trigger] state_partition.blocks@[t],
                entry.blocks@[t],
            ) by {
                assert(block_eq_mod_uf(before.blocks@[t], entry.blocks@[t]));
                assert(block_eq_mod_uf(state_partition.blocks@[t], before.blocks@[t]));
            }
        }
        j = j + 1;
    }
}

/// `b` is the representative of some valid transition target of some red
/// block of the partition.
pub open spec fn frontier_member(p: StatePartition, red: Seq<i32>, b: i32) -> bool {
    exists|j: int, k: int|
        0 <= j < red.len() && 0 <= k < p.alphabet_size
            && (#[trigger] p.blocks@[red[j] as int].transitions@[k]) >= 0 && b == (p.rep(
            p.blocks@[red[j] as int].transitions@[k] as int,
        ) as i32)
}

/// Recomputes the blue frontier: the representatives reachable through one
/// valid transition out of a red block that are not themselves red, each
/// listed once.
pub fn update_blue_set(state_partition: &mut StatePartition, red_states: &Vec<i32>) -> (blue:
    Vec<i32>)
    requires
        old(state_partition).wf(),
        forall|j: int|
            0 <= j < red_states@.len() ==> 0 <= #[trigger] red_states@[j] < old(
                state_partition,
            ).n(),
    ensures
        final(state_partition).wf(),
        final(state_partition).same_shape(*old(state_partition)),
        final(state_partition).counts_eq(*old(state_partition)),
        StatePartition::copy_step(*old(state_partition), *final(state_partition)),
        forall|t: int|
            old(state_partition).in_range(t) ==> #[trigger] final(state_partition).rep(t)
                == old(state_partition).rep(t),
        forall|t: int|
            old(state_partition).in_range(t) ==> (final(state_partition).is_root(t)
                <==> #[trigger] old(state_partition).is_root(t)),
        forall|t: int|
            old(state_partition).in_range(t) ==> block_eq_mod_uf(
                #[trigger] final(state_partition).blocks@[t],
                old(state_partition).blocks@[t],
            ),
        forall|j: int|
            0 <= j < blue@.len() ==> 0 <= #[trigger] blue@[j] < old(state_partition).n()
                && final(state_partition).is_root(blue@[j] as int) && !red_states@.contains(
                blue@[j],
            ),
        // the frontier is a set: each block is listed at most once
        forall|x1: int, x2: int| 0 <= x1 < x2 < blue@.len() ==> blue@[x1] != blue@[x2],
        // soundness: every listed id really is the representative of some
        // valid transition target of some red block
        forall|x: int|
            #![trigger blue@[x]]
            0 <= x < blue@.len() ==> frontier_member(
                *old(state_partition),
                red_states@,
                blue@[x],
            ),
        // completeness: every representative one valid transition away from a
        // red block that is not itself red is in the frontier
        forall|j: int, k: int|
            #![trigger old(state_partition).blocks@[red_states@[j] as int].transitions@[k]]
            0 <= j < red_states@.len() && 0 <= k < old(state_partition).alphabet_size
                && old(state_partition).blocks@[red_states@[j] as int].transitions@[k] >= 0
                && !red_states@.contains(
                (old(state_partition).rep(
                    old(state_partition).blocks@[red_states@[j] as int].transitions@[k] as int,
                ) as i32),
            ) ==> blue@.contains(
                (old(state_partition).rep(
                    old(state_partition).blocks@[red_states@[j] as int].transitions@[k] as int,
                ) as i32),
            ),
{
    let ghost entry = *state_partition;
    let mut blue: Vec<i32> = Vec::new();
    let n_red = red_states.len();
    let alphabet_size = state_partition.alphabet_size;
    let mut j: usize = 0;
    while j < n_red
        invariant
            j <= n_red,
            n_red == red_states@.len(),
            alphabet_size == entry.alphabet_size,
            entry == *old(state_partition),
            entry.wf(),
            state_partition.wf(),
            state_partition.same_shape(entry),
            state_partition.counts_eq(entry),
            StatePartition::copy_step(entry, *state_partition),
            forall|t: int|
                entry.in_range(t) ==> #[trigger] state_partition.rep(t) == entry.rep(t),
            forall|t: int|
                entry.in_range(t) ==> (state_partition.is_root(t) <==> #[trigger] entry.is_root(
                    t,
                )),
            forall|t: int|
                entry.in_range(t) ==> block_eq_mod_uf(
                    #[trigger] state_partition.blocks@[t],
                    entry.blocks@[t],
                ),
            forall|k: int|
                0 <= k < red_states@.len() ==> 0 <= #[trigger] red_states@[k] < entry.n(),
            forall|k: int|
                0 <= k < blue@.len() ==> 0 <= #[trigger] blue@[k] < entry.n()
                    && state_partition.is_root(blue@[k] as int) && !red_states@.contains(
                    blue@[k],
                ),
            forall|x1: int, x2: int| 0 <= x1 < x2 < blue@.len() ==> blue@[x1] != blue@[x2],
            forall|x: int|
                #![trigger blue@[x]]
                0 <= x < blue@.len() ==> frontier_member(entry, red_states@, blue@[x]),
            forall|j2: int, k: int|
                #![trigger entry.blocks@[red_states@[j2] as int].transitions@[k]]
                0 <= j2 < j && 0 <= k < entry.alphabet_size
                    && entry.blocks@[red_states@[j2] as int].transitions@[k] >= 0
                    && !red_states@.contains(
                    (entry.rep(
                        entry.blocks@[red_states@[j2] as int].transitions@[k] as int,
                    ) as i32),
                ) ==> blue@.contains(
                    (entry.rep(
                        entry.blocks@[red_states@[j2] as int].transitions@[k] as int,
                    ) as i32),
                ),
        decreases n_red - j,
    {
        let red_state = red_states[j];
        let mut symbol: usize = 0;
        while symbol < alphabet_size
            invariant
                symbol <= alphabet_size,
                j < n_red,
                n_red == red_states@.len(),
                alphabet_size == entry.alphabet_size,
                entry == *old(state_partition),
                entry.wf(),
                state_partition.wf(),
                state_partition.same_shape(entry),
                state_partition.counts_eq(entry),
                StatePartition::copy_step(entry, *state_partition),
                0 <= red_state < entry.n(),
                forall|t: int|
                    entry.in_range(t) ==> #[trigger] state_partition.rep(t) == entry.rep(t),
                forall|t: int|
                    entry.in_range(t) ==> (state_partition.is_root(t)
                        <==> #[trigger] entry.is_root(t)),
                forall|t: int|
                    entry.in_range(t) ==> block_eq_mod_uf(
                        #[trigger] state_partition.blocks@[t],
                        entry.blocks@[t],
                    ),
                forall|k: int|
                    0 <= k < red_states@.len() ==> 0 <= #[trigger] red_states@[k] < entry.n(),
                forall|k: int|
                    0 <= k < blue@.len() ==> 0 <= #[trigger] blue@[k] < entry.n()
                        && state_partition.is_root(blue@[k] as int) && !red_states@.contains(
                        blue@[k],
                    ),
                forall|x1: int, x2: int|
                    0 <= x1 < x2 < blue@.len() ==> blue@[x1] != blue@[x2],
                forall|x: int|
                    #![trigger blue@[x]]
                    0 <= x < blue@.len() ==> frontier_member(entry, red_states@, blue@[x]),
                forall|j2: int, k: int|
                    #![trigger entry.blocks@[red_states@[j2] as int].transitions@[k]]
                    0 <= j2 < n_red && 0 <= k < entry.alphabet_size && (j2 < j || (j2 == j && k
                        < symbol)) && entry.blocks@[red_states@[j2] as int].transitions@[k]
                        >= 0 && !red_states@.contains(
                        (entry.rep(
                            entry.blocks@[red_states@[j2] as int].transitions@[k] as int,
                        ) as i32),
                    ) ==> blue@.contains(
                        (entry.rep(
                            entry.blocks@[red_states@[j2] as int].transitions@[k] as int,
                        ) as i32),
                    ),
                red_state == red_states@[j as int],
            decreases alphabet_size - symbol,
        {
            proof {
                assert(state_partition.block_dom_ok(red_state as int));
                assert(block_eq_mod_uf(
                    state_partition.blocks@[red_state as int],
                    entry.blocks@[red_state as int],
                ));
            }
            let resultant_state_id = state_partition.blocks[red_state as usize].transitions[
                symbol
            ];
            if resultant_state_id > -1 {
                let ghost before = *state_partition;
                let root = state_partition.find(resultant_state_id);
                proof {
                    lemma_copy_step_trans(entry, before, *state_partition);
                    assert(before.rep(resultant_state_id as int) == entry.rep(
                        resultant_state_id as int,
                    ));
                    entry.lemma_rep_char(resultant_state_id as int);
                    assert forall|t: int|
                        entry.in_range(t) implies block_eq_mod_uf(
                        #[trigger] state_partition.blocks@[t],
                        entry.blocks@[t],
                    ) by {
                        assert(block_eq_mod_uf(before.blocks@[t], entry.blocks@[t]));
                        assert(block_eq_mod_uf(
                            state_partition.blocks@[t],
                            before.blocks@[t],
                        ));
                    }
                }
                let ghost pre_blue = blue@;
                let not_red = !contains_id(red_states, root);
                let not_listed = !contains_id(&blue, root);
                if not_red && not_listed {
                    blue.push(root);
                }
                proof {
                    assert(root as int == entry.rep(resultant_state_id as int));
                    assert forall|x: i32| pre_blue.contains(x) implies blue@.contains(x) by {
                        let idx = choose|idx: int|
                            0 <= idx < pre_blue.len() && pre_blue[idx] == x;
                        assert(blue@[idx] == x);
                    }
                    if !red_states@.contains(root) {
                        // the frontier root is listed: just appended, or
                        // already present from an earlier red block or symbol
                        if not_listed {
                            assert(blue@[blue@.len() - 1] == root);
                            assert(blue@.contains(root));
                        } else {
                            assert(pre_blue.contains(root));
                            assert(blue@.contains(root));
                        }
                    }
                    assert forall|x1: int, x2: int|
                        0 <= x1 < x2 < blue@.len() implies blue@[x1] != blue@[x2] by {
                        if x2 == pre_blue.len() as int {
                            assert(blue@[x1] == pre_blue[x1]);
                            assert(blue@[x2] == root);
                            if pre_blue[x1] == root {
                                assert(pre_blue.contains(root));
                            }
                        } else {
                            assert(blue@[x1] == pre_blue[x1]);
                            assert(blue@[x2] == pre_blue[x2]);
                        }
                    }
                    assert forall|x: int|
                        #![trigger blue@[x]]
                        0 <= x < blue@.len() implies frontier_member(
                        entry,
                        red_states@,
                        blue@[x],
                    ) by {
                        if x < pre_blue.len() {
                            assert(blue@[x] == pre_blue[x]);
                        } else {
                            assert(blue@[x] == root);
                            assert(entry.blocks@[red_states@[j as int] as int].transitions@[
                                symbol as int
                            ] == resultant_state_id);
                            assert(frontier_member(entry, red_states@, root));
                        }
                    }
                }
            }
            symbol = symbol + 1;
        }
        j = j + 1;
    }
    blue
}

/// Every root one valid transition away from a red entry is red or blue:
/// the blue vector covers the red entries' frontier in the partition.
pub open spec fn frontier_covered(p: StatePartition, red: Seq<i32>, blue: Seq<i32>) -> bool {
    forall|j: int, k: int|
        #![trigger p.blocks@[red[j] as int].transitions@[k]]
        0 <= j < red.len() && 0 <= k < p.alphabet_size
            && p.blocks@[red[j] as int].transitions@[k] >= 0 && !red.contains(
            (p.rep(p.blocks@[red[j] as int].transitions@[k] as int) as i32),
        ) ==> blue.contains((p.rep(p.blocks@[red[j] as int].transitions@[k] as int) as i32))
}

/// No block one valid transition away from the starting state's block can
/// merge with it: every such merge meets a label conflict in its cascade.
/// This is what holds of the input when a red-blue search commits nothing.
pub open spec fn start_frontier_exhausted(osp: StatePartition) -> bool {
    forall|k: int|
        #![trigger osp.blocks@[osp.rep(osp.starting_state_id as int)].transitions@[k]]
        0 <= k < osp.alphabet_size && osp.blocks@[osp.rep(
            osp.starting_state_id as int,
        )].transitions@[k] >= 0 ==> {
            let r0 = osp.rep(osp.starting_state_id as int);
            let t = osp.blocks@[r0].transitions@[k] as int;
            osp.rep(t) == r0 || !model_merge(osp.model(), r0, t, osp.blocks_count as nat).1
        }
}

/// Moves the frontier-completeness guarantee of `update_blue_set`, stated
/// over the snapshot it ran on, to the base partition the snapshot tracks.
proof fn lemma_frontier_transfer(
    osp: StatePartition,
    base: StatePartition,
    pre_copied: StatePartition,
    red: Seq<i32>,
    blue: Seq<i32>,
)
    requires
        search_inv(osp, base, pre_copied),
        forall|j: int| 0 <= j < red.len() ==> 0 <= #[trigger] red[j] < osp.n(),
        forall|j: int, k: int|
            #![trigger pre_copied.blocks@[red[j] as int].transitions@[k]]
            0 <= j < red.len() && 0 <= k < pre_copied.alphabet_size
                && pre_copied.blocks@[red[j] as int].transitions@[k] >= 0 && !red.contains(
                (pre_copied.rep(pre_copied.blocks@[red[j] as int].transitions@[k] as int) as i32),
            ) ==> blue.contains(
                (pre_copied.rep(pre_copied.blocks@[red[j] as int].transitions@[k] as int) as i32),
            ),
    ensures
        frontier_covered(base, red, blue),
{
    assert forall|j: int, k: int|
        #![trigger base.blocks@[red[j] as int].transitions@[k]]
        0 <= j < red.len() && 0 <= k < base.alphabet_size
            && base.blocks@[red[j] as int].transitions@[k] >= 0 && !red.contains(
            (base.rep(base.blocks@[red[j] as int].transitions@[k] as int) as i32),
        ) implies blue.contains(
        (base.rep(base.blocks@[red[j] as int].transitions@[k] as int) as i32),
    ) by {
        assert(block_eq_mod_uf(pre_copied.blocks@[red[j] as int], base.blocks@[red[j] as int]));
        let t = base.blocks@[red[j] as int].transitions@[k];
        assert(pre_copied.blocks@[red[j] as int].transitions@[k] == t);
        assert(base.block_dom_ok(red[j] as int));
        assert(pre_copied.rep(t as int) == base.rep(t as int));
    }
}

/// `m2` arises from `m1` by one successful merge of two states.
pub open spec fn merge_chain_step(m1: PartitionModel, m2: PartitionModel) -> bool {
    exists|a: int, b: int|
        0 <= a < m1.n() && 0 <= b < m1.n() && (#[trigger] model_merge(
            m1,
            a,
            b,
            m1.blocks_count as nat,
        )) == (m2, true)
}

/// Every neighbouring pair of the sequence is one successful merge: the
/// sequence is a run of committed merges.
pub open spec fn merge_chain(ms: Seq<PartitionModel>) -> bool {
    forall|i: int| 0 <= i < ms.len() - 1 ==> #[trigger] merge_chain_step(ms[i], ms[i + 1])
}

/// The standing relation of a merge search: the working partition descends
/// from the input by committed merges, and the snapshot tracks the working
/// partition, carrying the same abstract state.
pub open spec fn search_inv(
    osp: StatePartition,
    base: StatePartition,
    copied: StatePartition,
) -> bool {
    &&& osp.wf()
    &&& !osp.is_copy
    &&& 0 <= osp.starting_state_id < osp.n()
    &&& base.wf()
    &&& !base.is_copy
    &&& base.n() == osp.n()
    &&& base.alphabet_size == osp.alphabet_size
    &&& base.starting_state_id == osp.starting_state_id
    &&& base.blocks_count <= osp.blocks_count
    &&& base.accepting_blocks_count <= osp.accepting_blocks_count
    &&& base.rejecting_blocks_count <= osp.rejecting_blocks_count
    &&& forall|s: int|
        0 <= s < osp.n() && osp.blocks@[s].label != crate::dfa_state::UNLABELLED
            ==> #[trigger] base.blocks@[s].label == osp.blocks@[s].label
    &&& copied.wf()
    &&& copied.sync_with(base)
    &&& copied.counts_eq(base)
    &&& forall|s: int|
        0 <= s < osp.n() && osp.blocks@[s].label != crate::dfa_state::UNLABELLED
            ==> #[trigger] copied.blocks@[s].label == osp.blocks@[s].label
    &&& forall|t: int| 0 <= t < osp.n() ==> #[trigger] copied.rep(t) == base.rep(t)
    &&& forall|t: int| 0 <= t < osp.n() ==> (copied.is_root(t) <==> #[trigger] base.is_root(t))
    &&& forall|t: int|
        0 <= t < osp.n() ==> block_eq_mod_uf(#[trigger] copied.blocks@[t], base.blocks@[t])
    &&& copied.model() == base.model()
}

/// A snapshot freshly aligned with the working partition (equal block by
/// block) satisfies the standing search relation.
proof fn lemma_aligned_inv(osp: StatePartition, base: StatePartition, copied: StatePartition)
    requires
        osp.wf(),
        !osp.is_copy,
        0 <= osp.starting_state_id < osp.n(),
        base.wf(),
        !base.is_copy,
        base.n() == osp.n(),
        base.alphabet_size == osp.alphabet_size,
        base.starting_state_id == osp.starting_state_id,
        base.blocks_count <= osp.blocks_count,
        base.accepting_blocks_count <= osp.accepting_blocks_count,
        base.rejecting_blocks_count <= osp.rejecting_blocks_count,
        forall|s: int|
            0 <= s < osp.n() && osp.blocks@[s].label != crate::dfa_state::UNLABELLED
                ==> #[trigger] base.blocks@[s].label == osp.blocks@[s].label,
        copied.wf(),
        copied.sync_with(base),
        copied.counts_eq(base),
        copied.blocks_eq(base),
        forall|t: int| 0 <= t < osp.n() ==> #[trigger] copied.rep(t) == base.rep(t),
    ensures
        search_inv(osp, base, copied),
{
    assert forall|s: int|
        0 <= s < osp.n() && osp.blocks@[s].label
            != crate::dfa_state::UNLABELLED implies #[trigger] copied.blocks@[s].label
        == osp.blocks@[s].label by {
        assert(block_eq(copied.blocks@[s], base.blocks@[s]));
    }
    assert forall|t: int|
        0 <= t < osp.n() implies (copied.is_root(t) <==> #[trigger] base.is_root(t)) by {
        assert(block_eq(copied.blocks@[t], base.blocks@[t]));
    }
    assert forall|t: int|
        0 <= t < osp.n() implies block_eq_mod_uf(
        #[trigger] copied.blocks@[t],
        base.blocks@[t],
    ) by {
        assert(block_eq(copied.blocks@[t], base.blocks@[t]));
    }
    StatePartition::lemma_model_eq(copied, base);
}

/// Walking representatives (path compression included) on the snapshot
/// keeps the standing search relation: representatives, roots, labels and
/// counters are untouched.
proof fn lemma_reframe(
    osp: StatePartition,
    base: StatePartition,
    pre: StatePartition,
    post: StatePartition,
)
    requires
        search_inv(osp, base, pre),
        post.wf(),
        post.sync_with(base),
        post.counts_eq(pre),
        post.n() == pre.n(),
        forall|t: int| 0 <= t < osp.n() ==> #[trigger] post.rep(t) == pre.rep(t),
        forall|t: int| 0 <= t < osp.n() ==> (post.is_root(t) <==> #[trigger] pre.is_root(t)),
        forall|t: int|
            0 <= t < osp.n() ==> block_eq_mod_uf(
                #[trigger] post.blocks@[t],
                pre.blocks@[t],
            ),
    ensures
        search_inv(osp, base, post),
{
    assert forall|s: int|
        0 <= s < osp.n() && osp.blocks@[s].label
            != crate::dfa_state::UNLABELLED implies #[trigger] post.blocks@[s].label
        == osp.blocks@[s].label by {
        assert(block_eq_mod_uf(post.blocks@[s], pre.blocks@[s]));
        assert(pre.blocks@[s].label == osp.blocks@[s].label);
    }
    assert forall|t: int|
        0 <= t < osp.n() implies block_eq_mod_uf(
        #[trigger] post.blocks@[t],
        base.blocks@[t],
    ) by {
        assert(block_eq_mod_uf(post.blocks@[t], pre.blocks@[t]));
        assert(block_eq_mod_uf(pre.blocks@[t], base.blocks@[t]));
    }
    StatePartition::lemma_model_eq(post, base);
}

/// The red-blue RPNI driver: repeatedly pops a blue (frontier) block and
/// merges it into the first red (kernel) block that accepts it, committing
/// the merge; a blue block no red block accepts becomes red itself. The
/// search ends when the frontier is empty. The result refines the input
/// partition: blocks only grew, labelled states keep their labels, and the
/// telemetry counts every attempted and every valid merge.
pub fn rpni_search(original_state_partition: StatePartition) -> (res: (StatePartition, MergeData))
    requires
        original_state_partition.wf(),
        !original_state_partition.is_copy,
        0 <= original_state_partition.starting_state_id < original_state_partition.n(),
    ensures
        res.0.wf(),
        !res.0.is_copy,
        res.0.n() == original_state_partition.n(),
        res.0.alphabet_size == original_state_partition.alphabet_size,
        res.0.starting_state_id == original_state_partition.starting_state_id,
        res.0.blocks_count <= original_state_partition.blocks_count,
        res.0.accepting_blocks_count <= original_state_partition.accepting_blocks_count,
        res.0.rejecting_blocks_count <= original_state_partition.rejecting_blocks_count,
        forall|s: int|
            0 <= s < original_state_partition.n() && original_state_partition.blocks@[s].label
                != crate::dfa_state::UNLABELLED ==> #[trigger] res.0.blocks@[s].label
                == original_state_partition.blocks@[s].label,
        res.1.attempted_merges_count >= res.1.valid_merges_count,
        res.1.merges@.len() == 0,
        // every committed merge removed at least one block
        res.0.blocks_count + res.1.valid_merges_count <= original_state_partition.blocks_count,
        (res.1.valid_merges_count == 0 <==> res.0.blocks_count
            == original_state_partition.blocks_count),
        // progress: the search commits nothing only when no block on the
        // starting block's frontier can merge with it
        res.1.valid_merges_count == 0 ==> start_frontier_exhausted(original_state_partition),
        // the result arises from the input by exactly the committed merges:
        // one successful model-level merge per valid merge counted
        exists|ms: Seq<PartitionModel>|
            (#[trigger] merge_chain(ms)) && ms.len() == res.1.valid_merges_count + 1 && ms[0]
                == original_state_partition.model() && ms[ms.len() - 1] == res.0.model(),
    {
    let ghost osp = original_state_partition;
    let mut state_partition = original_state_partition.clone();
    let mut copied_partition = state_partition.copy();
    let mut merge_data = MergeData {
        merges: Vec::new(),
        attempted_merges_count: 0,
        valid_merges_count: 0,
    };
    proof {
        assert forall|s: int|
            0 <= s < osp.n() && osp.blocks@[s].label
                != crate::dfa_state::UNLABELLED implies #[trigger] state_partition.blocks@[s].label
            == osp.blocks@[s].label by {
            assert(block_eq(
                state_partition.blocks@[s],
                osp.blocks@[s],
            ));
        }
        lemma_aligned_inv(osp, state_partition, copied_partition);
    }
    let ghost fresh_copied = copied_partition;
    let starting_block = copied_partition.starting_block();
    proof {
        assert(fresh_copied.rep(osp.starting_state_id as int) == state_partition.rep(
            osp.starting_state_id as int,
        ));
        assert(starting_block == state_partition.rep(osp.starting_state_id as int));
        state_partition.lemma_rep_char(osp.starting_state_id as int);
        lemma_sync_step(
            fresh_copied,
            copied_partition,
            state_partition,
        );
        lemma_reframe(osp, state_partition, fresh_copied, copied_partition);
    }
    let mut red_states: Vec<i32> = Vec::new();
    red_states.push(starting_block);
    let ghost r0: int = osp.rep(osp.starting_state_id as int);
    let ghost fuel_osp: nat = osp.blocks_count as nat;
    proof {
        osp.lemma_rep_char(osp.starting_state_id as int);
        assert(0 <= r0 < osp.n());
        assert(osp.rep(r0) == r0);
        assert(starting_block as int == r0) by {
            assert(state_partition.rep(osp.starting_state_id as int) == osp.rep(
                osp.starting_state_id as int,
            ));
        }
        StatePartition::lemma_model_eq(state_partition, osp);
    }
    let ghost mut chain: Seq<PartitionModel> = seq![osp.model()];
    proof {
        StatePartition::lemma_model_eq(state_partition, osp);
    }
    let ghost pre_first_blue = copied_partition;
    let mut blue_states = update_blue_set(&mut copied_partition, &red_states);
    proof {
        lemma_sync_step(
            pre_first_blue,
            copied_partition,
            state_partition,
        );
        lemma_reframe(osp, state_partition, pre_first_blue, copied_partition);
        lemma_frontier_transfer(
            osp,
            state_partition,
            pre_first_blue,
            red_states@,
            blue_states@,
        );
    }
    while blue_states.len() > 0
        invariant
            osp == original_state_partition,
            search_inv(osp, state_partition, copied_partition),
            forall|k: int|
                0 <= k < red_states@.len() ==> 0 <= #[trigger] red_states@[k] < osp.n()
                    && state_partition.is_root(red_states@[k] as int),
            forall|k: int|
                0 <= k < blue_states@.len() ==> 0 <= #[trigger] blue_states@[k] < osp.n()
                    && state_partition.is_root(blue_states@[k] as int)
                    && !red_states@.contains(blue_states@[k]),
            merge_data.attempted_merges_count >= merge_data.valid_merges_count,
            merge_data.merges@.len() == 0,
            r0 == osp.rep(osp.starting_state_id as int),
            0 <= r0 < osp.n(),
            fuel_osp == osp.blocks_count as nat,
            red_states@.len() >= 1,
            state_partition.blocks_count + merge_data.valid_merges_count
                <= osp.blocks_count,
            merge_data.valid_merges_count == 0 ==> state_partition.model() == osp.model(),
            merge_data.valid_merges_count == 0 ==> red_states@[0] == r0 as i32,
            merge_data.valid_merges_count == 0 ==> (forall|j: int|
                1 <= j < red_states@.len() ==> !model_merge(
                    osp.model(),
                    r0,
                    #[trigger] red_states@[j] as int,
                    fuel_osp,
                ).1),
            frontier_covered(state_partition, red_states@, blue_states@),
            merge_chain(chain),
            chain.len() == merge_data.valid_merges_count + 1,
            chain[0] == osp.model(),
            chain[chain.len() - 1] == state_partition.model(),
        decreases state_partition.blocks_count as int,
            osp.n() - id_set(red_states@).len(),
    {
        let ghost head_base = state_partition;
        let ghost head_red = red_states@;
        let blue_state = blue_states.pop().unwrap();
        let mut merged = false;
        let n_red = red_states.len();
        let mut idx: usize = 0;
        while idx < n_red && !merged
            invariant
                idx <= n_red,
                n_red == red_states@.len(),
                osp == original_state_partition,
                red_states@ == head_red,
                search_inv(osp, state_partition, copied_partition),
                forall|k: int|
                    0 <= k < red_states@.len() ==> 0 <= #[trigger] red_states@[k] < osp.n()
                        && head_base.is_root(red_states@[k] as int),
                0 <= blue_state < osp.n(),
                head_base.is_root(blue_state as int),
                !red_states@.contains(blue_state),
                !merged ==> state_partition == head_base,
                merged ==> state_partition.blocks_count < head_base.blocks_count,
                merge_data.attempted_merges_count >= merge_data.valid_merges_count,
                merge_data.merges@.len() == 0,
                r0 == osp.rep(osp.starting_state_id as int),
                0 <= r0 < osp.n(),
                fuel_osp == osp.blocks_count as nat,
                merged ==> merge_data.valid_merges_count >= 1,
                state_partition.blocks_count + merge_data.valid_merges_count
                    <= osp.blocks_count,
                merge_data.valid_merges_count == 0 ==> state_partition.model()
                    == osp.model(),
                merge_data.valid_merges_count == 0 ==> red_states@[0] == r0 as i32,
                merge_data.valid_merges_count == 0 ==> (forall|j: int|
                    1 <= j < red_states@.len() ==> !model_merge(
                        osp.model(),
                        r0,
                        #[trigger] red_states@[j] as int,
                        fuel_osp,
                    ).1),
                merge_data.valid_merges_count == 0 && idx > 0 ==> !model_merge(
                    osp.model(),
                    r0,
                    blue_state as int,
                    fuel_osp,
                ).1,
                merge_chain(chain),
                chain.len() == merge_data.valid_merges_count + 1,
                chain[0] == osp.model(),
                chain[chain.len() - 1] == state_partition.model(),
            decreases n_red - idx,
        {
            merge_data.attempted_merges_count =
                merge_data.attempted_merges_count.saturating_add(1);
            let red_state = red_states[idx];
            let ghost before_copied = copied_partition;
            let ghost before_base = state_partition;
            let ok = copied_partition.merge_states(red_state, blue_state);
            proof {
                lemma_sync_step(
                    before_copied,
                    copied_partition,
                    state_partition,
                );
            }
            if ok {
                proof {
                    // the committed-merge counter stays exact: it is bounded
                    // by the number of blocks ever removed
                    assert(merge_data.valid_merges_count < u64::MAX);
                }
                merge_data.valid_merges_count = merge_data.valid_merges_count.saturating_add(
                    1,
                );
                proof {
                    // the red and blue blocks were distinct roots of the
                    // snapshot, so the merge really joined two blocks
                    assert(before_copied.rep(red_state as int) == before_base.rep(
                        red_state as int,
                    ));
                    before_base.lemma_rep_char(red_state as int);
                    before_base.lemma_rep_char(blue_state as int);
                    assert(before_copied.rep(red_state as int) == red_state as int);
                    assert(before_copied.rep(blue_state as int) == blue_state as int);
                    assert(red_state != blue_state);
                    assert(copied_partition.blocks_count < before_copied.blocks_count);
                }
                let ghost merged_copied = copied_partition;
                state_partition.copy_changes_from(&mut copied_partition);
                merged = true;
                proof {
                    let new_base = state_partition;
                    let new_copied = copied_partition;
                    assert forall|t: int|
                        0 <= t < osp.n() implies #[trigger] new_copied.rep(t)
                        == new_base.rep(t) by {
                        assert(new_base.rep(t) == merged_copied.rep(t));
                        assert(new_copied.rep(t) == merged_copied.rep(t));
                    }
                    // one more committed merge joins the chain
                    assert forall|t: int|
                        0 <= t < osp.n() implies block_eq_mod_uf(
                        #[trigger] new_base.blocks@[t],
                        merged_copied.blocks@[t],
                    ) by {
                        assert(block_eq_mod_changed(
                            new_base.blocks@[t],
                            merged_copied.blocks@[t],
                        ));
                    }
                    StatePartition::lemma_model_eq(new_base, merged_copied);
                    assert(before_copied.model() == before_base.model());
                    assert(model_merge(
                        before_base.model(),
                        red_state as int,
                        blue_state as int,
                        before_base.model().blocks_count as nat,
                    ) == (new_base.model(), true)) by {
                        assert(before_copied.blocks_count as nat
                            == before_base.model().blocks_count as nat);
                        assert(merged_copied.model() == model_merge(
                            before_copied.model(),
                            red_state as int,
                            blue_state as int,
                            before_copied.blocks_count as nat,
                        ).0);
                    }
                    assert(merge_chain_step(before_base.model(), new_base.model()));
                    let ghost old_chain = chain;
                    chain = chain.push(new_base.model());
                    assert(chain[chain.len() - 1] == new_base.model());
                    assert(chain[0] == old_chain[0]);
                    assert forall|i2: int|
                        0 <= i2 < chain.len() - 1 implies #[trigger] merge_chain_step(
                        chain[i2],
                        chain[i2 + 1],
                    ) by {
                        if i2 < old_chain.len() - 1 {
                            assert(chain[i2] == old_chain[i2]);
                            assert(chain[i2 + 1] == old_chain[i2 + 1]);
                        } else {
                            assert(chain[i2] == old_chain[old_chain.len() - 1]);
                            assert(old_chain[old_chain.len() - 1] == before_base.model());
                        }
                    }
                    assert forall|t: int|
                        0 <= t < osp.n() implies (new_copied.is_root(t)
                        <==> #[trigger] new_base.is_root(t)) by {
                        assert(block_eq(
                            new_copied.blocks@[t],
                            new_base.blocks@[t],
                        ));
                    }
                    assert forall|s: int|
                        0 <= s < osp.n() && osp.blocks@[s].label
                            != crate::dfa_state::UNLABELLED implies #[trigger] new_base.blocks@[s].label
                        == osp.blocks@[s].label by {
                        assert(merged_copied.blocks@[s].label == osp.blocks@[s].label);
                        assert(block_eq_mod_changed(
                            new_base.blocks@[s],
                            merged_copied.blocks@[s],
                        ));
                    }
                    assert forall|s: int|
                        0 <= s < osp.n() && osp.blocks@[s].label
                            != crate::dfa_state::UNLABELLED implies #[trigger] new_copied.blocks@[s].label
                        == osp.blocks@[s].label by {
                        assert(block_eq(
                            new_copied.blocks@[s],
                            new_base.blocks@[s],
                        ));
                    }
                    assert forall|t: int|
                        0 <= t < osp.n() implies block_eq_mod_uf(
                        #[trigger] new_copied.blocks@[t],
                        new_base.blocks@[t],
                    ) by {
                        assert(block_eq(new_copied.blocks@[t], new_base.blocks@[t]));
                    }
                    StatePartition::lemma_model_eq(new_copied, new_base);
                    assert(search_inv(osp, state_partition, copied_partition));
                }
            } else {
                copied_partition.rollback_changes_from(&state_partition);
                proof {
                    lemma_aligned_inv(osp, state_partition, copied_partition);
                    if merge_data.valid_merges_count == 0 && idx == 0 {
                        // the very first attempt pairs the starting block
                        // with the popped frontier block; its failure is a
                        // failure of the model-level merge on the input
                        assert(red_state == red_states@[0]);
                        assert(red_state == r0 as i32);
                        assert(red_state as int == r0);
                        assert(before_copied.model() == before_base.model());
                        assert(before_base.model() == osp.model());
                        assert(before_copied.blocks_count == osp.model().blocks_count);
                        assert(!model_merge(
                            osp.model(),
                            r0,
                            blue_state as int,
                            fuel_osp,
                        ).1);
                    }
                }
            }
            idx = idx + 1;
        }
        if !merged {
            red_states.push(blue_state);
            proof {
                lemma_id_set_push(head_red, blue_state);
                assert(!id_set(head_red).contains(blue_state as int)) by {
                    if id_set(head_red).contains(blue_state as int) {
                        let j = choose|j: int|
                            0 <= j < head_red.len() && head_red[j] == blue_state as int;
                        assert(head_red[j] == blue_state);
                        assert(head_red.contains(blue_state));
                    }
                }
                lemma_id_set_bound(head_red, osp.n());
            }
        }
        let ghost pushed_red = red_states@;
        let ghost pre_red_refresh = copied_partition;
        update_red_set(&mut copied_partition, &mut red_states);
        proof {
            lemma_sync_step(
                pre_red_refresh,
                copied_partition,
                state_partition,
            );
            lemma_reframe(osp, state_partition, pre_red_refresh, copied_partition);
            assert forall|k: int|
                0 <= k < red_states@.len() implies 0 <= #[trigger] red_states@[k] < osp.n()
                && state_partition.is_root(red_states@[k] as int) by {
                assert(copied_partition.is_root(red_states@[k] as int));
            }
        }
        let ghost pre_blue_refresh = copied_partition;
        blue_states = update_blue_set(&mut copied_partition, &red_states);
        proof {
            lemma_sync_step(
                pre_blue_refresh,
                copied_partition,
                state_partition,
            );
            lemma_reframe(osp, state_partition, pre_blue_refresh, copied_partition);
            lemma_frontier_transfer(
                osp,
                state_partition,
                pre_blue_refresh,
                red_states@,
                blue_states@,
            );
            assert forall|k: int|
                0 <= k < blue_states@.len() implies 0 <= #[trigger] blue_states@[k] < osp.n()
                && state_partition.is_root(blue_states@[k] as int)
                && !red_states@.contains(blue_states@[k]) by {
                assert(copied_partition.is_root(blue_states@[k] as int));
            }
            if !merged {
                // refreshing red entries that already are roots leaves them
                // unchanged, so the red id set grew by exactly the new block
                assert forall|j: int|
                    0 <= j < red_states@.len() implies #[trigger] red_states@[j]
                    == pushed_red[j] by {
                    assert(pre_red_refresh.rep(pushed_red[j] as int) == state_partition.rep(
                        pushed_red[j] as int,
                    ));
                    state_partition.lemma_rep_char(pushed_red[j] as int);
                }
                assert(red_states@ =~= pushed_red);
            }
            lemma_id_set_bound(red_states@, osp.n());
        }
    }
    proof {
        assert(merge_chain(chain) && chain.len() == merge_data.valid_merges_count + 1
            && chain[0] == original_state_partition.model() && chain[chain.len() - 1]
            == state_partition.model());
        if merge_data.valid_merges_count == 0 {
            // nothing was committed, so the working partition still is the
            // input, the starting block heads the red set, and the empty
            // frontier says every one-step block was tried and refused
            let m = osp.model();
            osp.lemma_rep_char(osp.starting_state_id as int);
            assert(state_partition.model() == m);
            assert forall|k: int|
                0 <= k < osp.alphabet_size && #[trigger] osp.blocks@[r0].transitions@[k]
                    >= 0 implies ({
                let t = osp.blocks@[r0].transitions@[k] as int;
                osp.rep(t) == r0 || !model_merge(m, r0, t, osp.blocks_count as nat).1
            }) by {
                let t = osp.blocks@[r0].transitions@[k] as int;
                assert(osp.block_dom_ok(r0));
                assert(0 <= t < osp.n());
                assert(state_partition.model().transitions[r0] == m.transitions[r0]);
                assert(state_partition.blocks@[r0].transitions@[k]
                    == osp.blocks@[r0].transitions@[k]);
                assert(state_partition.model().rep[t] == m.rep[t]);
                assert(state_partition.rep(t) == osp.rep(t));
                osp.lemma_rep_char(t);
                if osp.rep(t) != r0 {
                    assert(red_states@[0] as int == r0);
                    assert(state_partition.blocks@[red_states@[0] as int].transitions@[k]
                        >= 0);
                    assert(!blue_states@.contains(
                        (state_partition.rep(
                            state_partition.blocks@[red_states@[0] as int].transitions@[k] as int,
                        ) as i32),
                    ));
                    assert(red_states@.contains((osp.rep(t) as i32)));
                    let j = choose|j: int|
                        0 <= j < red_states@.len() && red_states@[j] == (osp.rep(t) as i32);
                    assert(osp.rep(t) != r0);
                    assert(j != 0);
                    assert(!model_merge(m, r0, red_states@[j] as int, fuel_osp).1);
                    assert(red_states@[j] as int == osp.rep(t));
                    assert(m.rep[t] == osp.rep(t));
                    assert(m.rep[osp.rep(t)] == osp.rep(t));
                    assert(model_merge(m, r0, t, fuel_osp) == model_merge(
                        m,
                        r0,
                        osp.rep(t),
                        fuel_osp,
                    ));
                }
            }
            assert(start_frontier_exhausted(osp));
        }
    }
    (state_partition, merge_data)
}

/// The running state of one evidence-driven scan: the best pair seen so
/// far with its score (a negative score meaning none yet), and the
/// accumulated attempted and valid counters.
#[verifier::ext_equal]
pub ghost struct ScanState {
    pub best_1: int,
    pub best_2: int,
    pub best_score: int,
    pub attempted: int,
    pub valid: int,
}

/// One more on a saturating 64-bit counter.
pub open spec fn sat_inc(x: int) -> int {
    if x >= u64::MAX {
        u64::MAX as int
    } else {
        x + 1
    }
}

/// The evidence-driven score of merging `a` and `b` in the model `m`: the
/// reference labelled-state count minus the labelled blocks left after the
/// merge.
pub open spec fn edsm_score(m: PartitionModel, len_dataset: int, a: int, b: int) -> int {
    let after = model_merge(m, a, b, m.blocks_count as nat).0;
    len_dataset - (after.accepting_blocks_count + after.rejecting_blocks_count)
}

/// Scans the pairs `(i, j), (i, j+1), ...` of one row of a round: counts
/// every pair, counts and scores the ones that merge, and keeps the pair
/// with the strictly greatest score, first seen winning a tie.
pub open spec fn edsm_scan_cells(
    m: PartitionModel,
    roots: Seq<int>,
    len_dataset: int,
    i: int,
    j: int,
    st: ScanState,
) -> ScanState
    decreases roots.len() - i, roots.len() - j,
{
    if i < 0 || j < 0 || j >= roots.len() {
        st
    } else {
        let st1 = ScanState { attempted: sat_inc(st.attempted), ..st };
        let st2 = if model_merge(m, roots[i], roots[j], m.blocks_count as nat).1 {
            let sc = edsm_score(m, len_dataset, roots[i], roots[j]);
            let stv = ScanState { valid: sat_inc(st1.valid), ..st1 };
            if sc > stv.best_score {
                ScanState { best_1: roots[i], best_2: roots[j], best_score: sc, ..stv }
            } else {
                stv
            }
        } else {
            st1
        };
        edsm_scan_cells(m, roots, len_dataset, i, j + 1, st2)
    }
}

/// Scans all unordered root pairs of one round, rows in increasing order.
pub open spec fn edsm_scan_rows(
    m: PartitionModel,
    roots: Seq<int>,
    len_dataset: int,
    i: int,
    st: ScanState,
) -> ScanState
    decreases roots.len() - i, roots.len() + 1,
{
    if i < 0 || i >= roots.len() {
        st
    } else {
        edsm_scan_rows(
            m,
            roots,
            len_dataset,
            i + 1,
            edsm_scan_cells(m, roots, len_dataset, i, i + 1, st),
        )
    }
}

/// The scan state a round starts from: no pair chosen yet, counters carried
/// over.
pub open spec fn scan_init(attempted: int, valid: int) -> ScanState {
    ScanState { best_1: -1, best_2: -1, best_score: -1, attempted, valid }
}

/// When a scan has chosen a pair, the pair is two distinct root blocks whose
/// merge succeeds.
pub open spec fn scan_best_ok(m: PartitionModel, st: ScanState) -> bool {
    st.best_score >= 0 ==> {
        &&& 0 <= st.best_1 < m.n()
        &&& 0 <= st.best_2 < m.n()
        &&& m.rep[st.best_1] == st.best_1
        &&& m.rep[st.best_2] == st.best_2
        &&& st.best_1 != st.best_2
        &&& model_merge(m, st.best_1, st.best_2, m.blocks_count as nat).1
    }
}

/// A cell scan keeps its chosen pair a mergeable pair of distinct roots.
proof fn lemma_scan_cells_ok(
    m: PartitionModel,
    roots: Seq<int>,
    len_dataset: int,
    i: int,
    j: int,
    st: ScanState,
)
    requires
        forall|x: int|
            0 <= x < roots.len() ==> 0 <= #[trigger] roots[x] < m.n() && m.rep[roots[x]]
                == roots[x],
        forall|x1: int, x2: int| 0 <= x1 < x2 < roots.len() ==> roots[x1] < roots[x2],
        scan_best_ok(m, st),
        i < j,
    ensures
        scan_best_ok(m, edsm_scan_cells(m, roots, len_dataset, i, j, st)),
    decreases roots.len() - i, roots.len() - j,
{
    if i < 0 || j < 0 || j >= roots.len() {
    } else {
        let st1 = ScanState { attempted: sat_inc(st.attempted), ..st };
        let st2 = if model_merge(m, roots[i], roots[j], m.blocks_count as nat).1 {
            let sc = edsm_score(m, len_dataset, roots[i], roots[j]);
            let stv = ScanState { valid: sat_inc(st1.valid), ..st1 };
            if sc > stv.best_score {
                ScanState { best_1: roots[i], best_2: roots[j], best_score: sc, ..stv }
            } else {
                stv
            }
        } else {
            st1
        };
        assert(scan_best_ok(m, st2));
        lemma_scan_cells_ok(m, roots, len_dataset, i, j + 1, st2);
    }
}

/// A row scan keeps its chosen pair a mergeable pair of distinct roots.
proof fn lemma_scan_rows_ok(
    m: PartitionModel,
    roots: Seq<int>,
    len_dataset: int,
    i: int,
    st: ScanState,
)
    requires
        forall|x: int|
            0 <= x < roots.len() ==> 0 <= #[trigger] roots[x] < m.n() && m.rep[roots[x]]
                == roots[x],
        forall|x1: int, x2: int| 0 <= x1 < x2 < roots.len() ==> roots[x1] < roots[x2],
        scan_best_ok(m, st),
    ensures
        scan_best_ok(m, edsm_scan_rows(m, roots, len_dataset, i, st)),
    decreases roots.len() - i, roots.len() + 1,
{
    if i < 0 || i >= roots.len() {
    } else {
        lemma_scan_cells_ok(m, roots, len_dataset, i, i + 1, st);
        lemma_scan_rows_ok(
            m,
            roots,
            len_dataset,
            i + 1,
            edsm_scan_cells(m, roots, len_dataset, i, i + 1, st),
        );
    }
}

/// The outcome of an evidence-driven run: the final abstract partition, the
/// ordered log of committed merges with their scores, and the counters.
#[verifier::ext_equal]
pub ghost struct EdsmRun {
    pub state: PartitionModel,
    pub merges: Seq<(int, int, int)>,
    pub attempted: int,
    pub valid: int,
}

/// The whole evidence-driven search as a function of the abstract state:
/// scan all root pairs; if some pair merged with a score of at least zero,
/// commit the best-scoring pair (first seen on ties), log it, and run
/// another round; otherwise stop. Any fuel of at least `blocks_count` gives
/// the same run, since every committed round removes a block.
pub open spec fn edsm_rounds(
    m: PartitionModel,
    len_dataset: int,
    merges: Seq<(int, int, int)>,
    attempted: int,
    valid: int,
    fuel: nat,
) -> EdsmRun
    decreases fuel,
{
    let st = edsm_scan_rows(m, model_roots(m), len_dataset, 0, scan_init(attempted, valid));
    if st.best_score >= 0 && fuel > 0 {
        edsm_rounds(
            model_merge(m, st.best_1, st.best_2, m.blocks_count as nat).0,
            len_dataset,
            merges.push((st.best_1, st.best_2, st.best_score)),
            st.attempted,
            st.valid,
            (fuel - 1) as nat,
        )
    } else {
        EdsmRun { state: m, merges, attempted: st.attempted, valid: st.valid }
    }
}

/// Any fuel of at least the block count gives the evidence-driven run the
/// same answer.
proof fn lemma_edsm_rounds_fuel(
    m: PartitionModel,
    len_dataset: int,
    merges: Seq<(int, int, int)>,
    attempted: int,
    valid: int,
    f1: nat,
    f2: nat,
)
    requires
        m.inv(),
        f1 >= m.blocks_count,
        f2 >= m.blocks_count,
    ensures
        edsm_rounds(m, len_dataset, merges, attempted, valid, f1) == edsm_rounds(
            m,
            len_dataset,
            merges,
            attempted,
            valid,
            f2,
        ),
    decreases f1,
{
    broadcast use vstd::set::group_set_axioms;

    lemma_model_roots_props(m, m.n());
    let st = edsm_scan_rows(m, model_roots(m), len_dataset, 0, scan_init(attempted, valid));
    lemma_scan_rows_ok(m, model_roots(m), len_dataset, 0, scan_init(attempted, valid));
    if st.best_score >= 0 {
        // two distinct mergeable roots exist, so there is fuel to commit
        assert(m.roots().contains(st.best_1));
        assert(m.roots().remove(st.best_1).contains(st.best_2));
        assert(m.blocks_count >= 2);
        let m2 = model_merge(m, st.best_1, st.best_2, m.blocks_count as nat).0;
        crate::state_partition::lemma_model_merge_bounds(
            m,
            st.best_1,
            st.best_2,
            m.blocks_count as nat,
        );
        lemma_model_merge_strict(m, st.best_1, st.best_2, m.blocks_count as nat);
        lemma_edsm_rounds_fuel(
            m2,
            len_dataset,
            merges.push((st.best_1, st.best_2, st.best_score)),
            st.attempted,
            st.valid,
            (f1 - 1) as nat,
            (f2 - 1) as nat,
        );
    }
}

/// The committed merges as plain triples.
pub open spec fn merges_view(s: Seq<StatePairScore>) -> Seq<(int, int, int)> {
    Seq::new(s.len(), |x: int| (s[x].state_1 as int, s[x].state_2 as int, s[x].score as int))
}

/// The exhaustive evidence-driven driver. Each round tries every unordered
/// pair of root blocks on the snapshot, scores the successful merges with
/// the evidence-driven measure — the labelled-state count of the training
/// set minus the labelled-block count after the merge, rewarding large
/// reductions — and commits the highest-scoring merge, first seen winning a
/// tie. The search stops when no pair merges with a non-negative score.
/// Every committed round shrinks the number of blocks, so the result has at
/// most the input's blocks minus one per logged merge.
pub fn exhaustive_edsm_search(
    original_state_partition: StatePartition,
    length_of_dataset: i32,
) -> (res: (StatePartition, MergeData))
    requires
        original_state_partition.wf(),
        !original_state_partition.is_copy,
        0 <= original_state_partition.starting_state_id < original_state_partition.n(),
    ensures
        res.0.wf(),
        !res.0.is_copy,
        res.0.n() == original_state_partition.n(),
        res.0.alphabet_size == original_state_partition.alphabet_size,
        res.0.starting_state_id == original_state_partition.starting_state_id,
        res.0.blocks_count + res.1.merges@.len() <= original_state_partition.blocks_count,
        forall|i: int| 0 <= i < res.1.merges@.len() ==> (#[trigger] res.1.merges@[i]).score >= 0,
        res.0.accepting_blocks_count <= original_state_partition.accepting_blocks_count,
        res.0.rejecting_blocks_count <= original_state_partition.rejecting_blocks_count,
        forall|s: int|
            0 <= s < original_state_partition.n() && original_state_partition.blocks@[s].label
                != crate::dfa_state::UNLABELLED ==> #[trigger] res.0.blocks@[s].label
                == original_state_partition.blocks@[s].label,
        res.1.attempted_merges_count >= res.1.valid_merges_count,
        res.1.valid_merges_count >= res.1.merges@.len(),
        // the run is the evidence-driven search itself: the final abstract
        // partition, the ordered merge log with its scores (greatest score
        // committed each round, first seen winning a tie), and the exact
        // counters all equal the model-level replay of the rounds
        ({
            let r = edsm_rounds(
                original_state_partition.model(),
                length_of_dataset as int,
                Seq::empty(),
                0,
                0,
                original_state_partition.blocks_count as nat,
            );
            &&& res.0.model() == r.state
            &&& merges_view(res.1.merges@) == r.merges
            &&& res.1.attempted_merges_count as int == r.attempted
            &&& res.1.valid_merges_count as int == r.valid
        }),
        // maximality: whenever the reference count covers the labelled
        // blocks (as the evidence-driven caller arranges), the search only
        // stops when no two root blocks of the result can merge
        length_of_dataset >= original_state_partition.accepting_blocks_count
            + original_state_partition.rejecting_blocks_count ==> (forall|i2: int, j2: int|
            0 <= i2 < j2 < res.0.roots_seq().len() ==> !(#[trigger] model_merge(
                res.0.model(),
                res.0.roots_seq()[i2],
                res.0.roots_seq()[j2],
                res.0.blocks_count as nat,
            )).1),
{
    let ghost osp = original_state_partition;
    let ghost fits: bool = length_of_dataset >= osp.accepting_blocks_count
        + osp.rejecting_blocks_count;
    let ghost m0 = osp.model();
    let ghost ld0: int = length_of_dataset as int;
    let ghost fuel0: nat = osp.blocks_count as nat;
    let mut state_partition = original_state_partition.clone();
    let mut copied_partition = state_partition.copy();
    let mut merge_data = MergeData {
        merges: Vec::new(),
        attempted_merges_count: 0,
        valid_merges_count: 0,
    };
    proof {
        assert forall|s: int|
            0 <= s < osp.n() && osp.blocks@[s].label
                != crate::dfa_state::UNLABELLED implies #[trigger] state_partition.blocks@[s].label
            == osp.blocks@[s].label by {
            assert(block_eq(state_partition.blocks@[s], osp.blocks@[s]));
        }
        lemma_aligned_inv(osp, state_partition, copied_partition);
        StatePartition::lemma_model_eq(state_partition, osp);
        assert(merges_view(merge_data.merges@) =~= Seq::<(int, int, int)>::empty());
    }
    loop
        invariant_except_break
            osp == original_state_partition,
            search_inv(osp, state_partition, copied_partition),
            copied_partition.blocks_eq(state_partition),
            state_partition.blocks_count + merge_data.merges@.len() <= osp.blocks_count,
            merge_data.attempted_merges_count >= merge_data.valid_merges_count,
            forall|i: int|
                0 <= i < merge_data.merges@.len() ==> (#[trigger] merge_data.merges@[i]).score
                    >= 0,
            fits == (length_of_dataset >= osp.accepting_blocks_count
                + osp.rejecting_blocks_count),
            merge_data.valid_merges_count >= merge_data.merges@.len(),
            m0 == osp.model(),
            ld0 == length_of_dataset as int,
            edsm_rounds(m0, ld0, Seq::empty(), 0, 0, fuel0) == edsm_rounds(
                state_partition.model(),
                ld0,
                merges_view(merge_data.merges@),
                merge_data.attempted_merges_count as int,
                merge_data.valid_merges_count as int,
                state_partition.blocks_count as nat,
            ),
        ensures
            search_inv(osp, state_partition, copied_partition),
            state_partition.blocks_count + merge_data.merges@.len() <= osp.blocks_count,
            merge_data.attempted_merges_count >= merge_data.valid_merges_count,
            forall|i: int|
                0 <= i < merge_data.merges@.len() ==> (#[trigger] merge_data.merges@[i]).score
                    >= 0,
            merge_data.valid_merges_count >= merge_data.merges@.len(),
            fits ==> (forall|i2: int, j2: int|
                0 <= i2 < j2 < state_partition.roots_seq().len() ==> !(#[trigger] model_merge(
                    state_partition.model(),
                    state_partition.roots_seq()[i2],
                    state_partition.roots_seq()[j2],
                    state_partition.blocks_count as nat,
                )).1),
            edsm_rounds(m0, ld0, Seq::empty(), 0, 0, fuel0) == (EdsmRun {
                state: state_partition.model(),
                merges: merges_view(merge_data.merges@),
                attempted: merge_data.attempted_merges_count as int,
                valid: merge_data.valid_merges_count as int,
            }),
        decreases state_partition.blocks_count as int,
    {
        let ghost round_base = state_partition;
        let ghost round_fuel: nat = state_partition.blocks_count as nat;
        let ghost round_m = state_partition.model();
        let ghost roots_spec = model_roots(round_m);
        let ghost att0: int = merge_data.attempted_merges_count as int;
        let ghost val0: int = merge_data.valid_merges_count as int;
        let ghost mv0 = merges_view(merge_data.merges@);
        let blocks = state_partition.root_blocks();
        proof {
            state_partition.lemma_roots_seq();
            state_partition.lemma_model_inv();
            lemma_model_roots_eq(state_partition, state_partition.n());
            assert(roots_spec == state_partition.roots_seq());
        }
        let mut highest = StatePairScore { state_1: -1, state_2: -1, score: -1 };
        let count = blocks.len();
        let mut i: usize = 0;
        while i < count
            invariant
                i <= count,
                osp == original_state_partition,
                round_base == state_partition,
                search_inv(osp, state_partition, copied_partition),
                copied_partition.blocks_eq(state_partition),
                count == blocks@.len(),
                count == state_partition.blocks_count,
                forall|j: int|
                    0 <= j < count ==> #[trigger] blocks@[j]
                        == state_partition.roots_seq()[j],
                state_partition.blocks_count + merge_data.merges@.len() <= osp.blocks_count,
                merge_data.attempted_merges_count >= merge_data.valid_merges_count,
                forall|k2: int|
                    0 <= k2 < merge_data.merges@.len() ==> (
                    #[trigger] merge_data.merges@[k2]).score >= 0,
                highest.score >= 0 ==> 0 <= highest.state_1 < osp.n() && 0 <= highest.state_2
                    < osp.n() && state_partition.is_root(highest.state_1 as int)
                    && state_partition.is_root(highest.state_2 as int) && highest.state_1
                    != highest.state_2,
                fits == (length_of_dataset >= osp.accepting_blocks_count
                    + osp.rejecting_blocks_count),
                round_fuel == state_partition.blocks_count as nat,
                merge_data.valid_merges_count >= merge_data.merges@.len(),
                merge_data.merges@.len() < u64::MAX,
                highest.score >= 0 ==> model_merge(
                    state_partition.model(),
                    highest.state_1 as int,
                    highest.state_2 as int,
                    round_fuel,
                ).1,
                highest.score >= 0 ==> merge_data.valid_merges_count
                    >= merge_data.merges@.len() + 1,
                fits && highest.score < 0 ==> (forall|i2: int, j2: int|
                    0 <= i2 < j2 < count && i2 < i ==> !(#[trigger] model_merge(
                        state_partition.model(),
                        blocks@[i2] as int,
                        blocks@[j2] as int,
                        round_fuel,
                    )).1),
                round_m == state_partition.model(),
                roots_spec == model_roots(round_m),
                roots_spec == state_partition.roots_seq(),
                roots_spec.len() == count,
                ld0 == length_of_dataset as int,
                mv0 == merges_view(merge_data.merges@),
                edsm_scan_rows(round_m, roots_spec, ld0, 0, scan_init(att0, val0))
                    == edsm_scan_rows(
                    round_m,
                    roots_spec,
                    ld0,
                    i as int,
                    ScanState {
                        best_1: highest.state_1 as int,
                        best_2: highest.state_2 as int,
                        best_score: highest.score as int,
                        attempted: merge_data.attempted_merges_count as int,
                        valid: merge_data.valid_merges_count as int,
                    },
                ),
            decreases count - i,
        {
            let ghost row_entry_st = ScanState {
                best_1: highest.state_1 as int,
                best_2: highest.state_2 as int,
                best_score: highest.score as int,
                attempted: merge_data.attempted_merges_count as int,
                valid: merge_data.valid_merges_count as int,
            };
            proof {
                assert(edsm_scan_rows(round_m, roots_spec, ld0, i as int, row_entry_st)
                    == edsm_scan_rows(
                    round_m,
                    roots_spec,
                    ld0,
                    i + 1,
                    edsm_scan_cells(round_m, roots_spec, ld0, i as int, i + 1, row_entry_st),
                ));
            }
            let mut j: usize = i + 1;
            while j < count
                invariant
                    i < count,
                    i < j <= count,
                    osp == original_state_partition,
                    round_base == state_partition,
                    search_inv(osp, state_partition, copied_partition),
                    copied_partition.blocks_eq(state_partition),
                    count == blocks@.len(),
                    count == state_partition.blocks_count,
                    forall|k: int|
                        0 <= k < count ==> #[trigger] blocks@[k]
                            == state_partition.roots_seq()[k],
                    state_partition.blocks_count + merge_data.merges@.len()
                        <= osp.blocks_count,
                    merge_data.attempted_merges_count >= merge_data.valid_merges_count,
                    forall|k2: int|
                        0 <= k2 < merge_data.merges@.len() ==> (
                        #[trigger] merge_data.merges@[k2]).score >= 0,
                    highest.score >= 0 ==> 0 <= highest.state_1 < osp.n() && 0
                        <= highest.state_2 < osp.n() && state_partition.is_root(
                        highest.state_1 as int,
                    ) && state_partition.is_root(highest.state_2 as int) && highest.state_1
                        != highest.state_2,
                    fits == (length_of_dataset >= osp.accepting_blocks_count
                        + osp.rejecting_blocks_count),
                    round_fuel == state_partition.blocks_count as nat,
                    merge_data.valid_merges_count >= merge_data.merges@.len(),
                    merge_data.merges@.len() < u64::MAX,
                    highest.score >= 0 ==> model_merge(
                        state_partition.model(),
                        highest.state_1 as int,
                        highest.state_2 as int,
                        round_fuel,
                    ).1,
                    highest.score >= 0 ==> merge_data.valid_merges_count
                        >= merge_data.merges@.len() + 1,
                    fits && highest.score < 0 ==> (forall|i2: int, j2: int|
                        0 <= i2 < j2 < count && (i2 < i || (i2 == i && j2 < j)) ==> !(
                        #[trigger] model_merge(
                            state_partition.model(),
                            blocks@[i2] as int,
                            blocks@[j2] as int,
                            round_fuel,
                        )).1),
                    round_m == state_partition.model(),
                    roots_spec == model_roots(round_m),
                    roots_spec == state_partition.roots_seq(),
                    roots_spec.len() == count,
                    ld0 == length_of_dataset as int,
                    mv0 == merges_view(merge_data.merges@),
                    edsm_scan_rows(round_m, roots_spec, ld0, 0, scan_init(att0, val0))
                        == edsm_scan_rows(
                        round_m,
                        roots_spec,
                        ld0,
                        i + 1,
                        edsm_scan_cells(
                            round_m,
                            roots_spec,
                            ld0,
                            i as int,
                            j as int,
                            ScanState {
                                best_1: highest.state_1 as int,
                                best_2: highest.state_2 as int,
                                best_score: highest.score as int,
                                attempted: merge_data.attempted_merges_count as int,
                                valid: merge_data.valid_merges_count as int,
                            },
                        ),
                    ),
                decreases count - j,
            {
                proof {
                    state_partition.lemma_roots_seq();
                }
                let block_1 = blocks[i];
                let block_2 = blocks[j];
                let ghost pre_scan_st = ScanState {
                    best_1: highest.state_1 as int,
                    best_2: highest.state_2 as int,
                    best_score: highest.score as int,
                    attempted: merge_data.attempted_merges_count as int,
                    valid: merge_data.valid_merges_count as int,
                };
                merge_data.attempted_merges_count =
                    merge_data.attempted_merges_count.saturating_add(1);
                let ghost before_copied = copied_partition;
                let ok = copied_partition.merge_states(block_1, block_2);
                proof {
                    lemma_sync_step(before_copied, copied_partition, state_partition);
                    // the attempt on the aligned snapshot decides the
                    // model-level merge on the working partition
                    assert(before_copied.model() == state_partition.model());
                    assert(before_copied.blocks_count as nat == round_fuel);
                    assert(ok == model_merge(
                        state_partition.model(),
                        block_1 as int,
                        block_2 as int,
                        round_fuel,
                    ).1);
                    assert(roots_spec[i as int] == block_1 as int);
                    assert(roots_spec[j as int] == block_2 as int);
                    assert(round_fuel == round_m.blocks_count as nat);
                    assert(copied_partition.model() == model_merge(
                        round_m,
                        block_1 as int,
                        block_2 as int,
                        round_fuel,
                    ).0);
                }
                if ok {
                    merge_data.valid_merges_count =
                        merge_data.valid_merges_count.saturating_add(1);
                    let labelled = copied_partition.number_of_labelled_blocks();
                    let score = (length_of_dataset as i64) - (labelled as i64);
                    proof {
                        // the computed score is the model-level evidence score
                        assert(labelled == copied_partition.accepting_blocks_count
                            + copied_partition.rejecting_blocks_count);
                        assert(copied_partition.model().accepting_blocks_count
                            == copied_partition.accepting_blocks_count as int);
                        assert(score as int == edsm_score(
                            round_m,
                            ld0,
                            roots_spec[i as int],
                            roots_spec[j as int],
                        ));
                        if fits {
                            // a successful merge never grows the labelled
                            // counters, so its evidence score is non-negative
                            assert(copied_partition.accepting_blocks_count
                                <= before_copied.accepting_blocks_count);
                            assert(before_copied.accepting_blocks_count
                                == state_partition.accepting_blocks_count);
                            assert(score >= 0);
                        }
                    }
                    if score > highest.score {
                        highest = StatePairScore { state_1: block_1, state_2: block_2, score };
                        proof {
                            assert(state_partition.roots_seq()[i as int]
                                != state_partition.roots_seq()[j as int]);
                        }
                    }
                }
                copied_partition.rollback_changes_from(&state_partition);
                proof {
                    lemma_aligned_inv(osp, state_partition, copied_partition);
                    // one scan step of the model-level replay was taken
                    let post_scan_st = ScanState {
                        best_1: highest.state_1 as int,
                        best_2: highest.state_2 as int,
                        best_score: highest.score as int,
                        attempted: merge_data.attempted_merges_count as int,
                        valid: merge_data.valid_merges_count as int,
                    };
                    let st1 = ScanState { attempted: sat_inc(pre_scan_st.attempted), ..pre_scan_st };
                    let st2 = if model_merge(
                        round_m,
                        roots_spec[i as int],
                        roots_spec[j as int],
                        round_m.blocks_count as nat,
                    ).1 {
                        let sc = edsm_score(
                            round_m,
                            ld0,
                            roots_spec[i as int],
                            roots_spec[j as int],
                        );
                        let stv = ScanState { valid: sat_inc(st1.valid), ..st1 };
                        if sc > stv.best_score {
                            ScanState {
                                best_1: roots_spec[i as int],
                                best_2: roots_spec[j as int],
                                best_score: sc,
                                ..stv
                            }
                        } else {
                            stv
                        }
                    } else {
                        st1
                    };
                    assert(post_scan_st =~= st2);
                    assert(edsm_scan_cells(
                        round_m,
                        roots_spec,
                        ld0,
                        i as int,
                        j as int,
                        pre_scan_st,
                    ) == edsm_scan_cells(
                        round_m,
                        roots_spec,
                        ld0,
                        i as int,
                        j + 1,
                        post_scan_st,
                    ));
                }
                j = j + 1;
            }
            proof {
                // the finished row folds away, advancing the row scan
                let cur = ScanState {
                    best_1: highest.state_1 as int,
                    best_2: highest.state_2 as int,
                    best_score: highest.score as int,
                    attempted: merge_data.attempted_merges_count as int,
                    valid: merge_data.valid_merges_count as int,
                };
                assert(edsm_scan_cells(round_m, roots_spec, ld0, i as int, count as int, cur)
                    == cur);
                assert(edsm_scan_rows(round_m, roots_spec, ld0, i as int, row_entry_st)
                    == edsm_scan_rows(
                    round_m,
                    roots_spec,
                    ld0,
                    i + 1,
                    edsm_scan_cells(round_m, roots_spec, ld0, i as int, i + 1, row_entry_st),
                ));
            }
            i = i + 1;
        }
        let ghost st_final = ScanState {
            best_1: highest.state_1 as int,
            best_2: highest.state_2 as int,
            best_score: highest.score as int,
            attempted: merge_data.attempted_merges_count as int,
            valid: merge_data.valid_merges_count as int,
        };
        proof {
            // the scan is over: the replayed scan equals the computed state
            assert(edsm_scan_rows(round_m, roots_spec, ld0, count as int, st_final)
                == st_final);
            assert(edsm_scan_rows(round_m, roots_spec, ld0, 0, scan_init(att0, val0))
                == st_final);
        }
        if highest.score >= 0 {
            let ghost pre_commit_copied = copied_partition;
            let ok = copied_partition.merge_states(highest.state_1, highest.state_2);
            proof {
                lemma_sync_step(pre_commit_copied, copied_partition, state_partition);
                // the two blocks are distinct roots of an aligned snapshot,
                // so a successful merge strictly shrinks the partition
                state_partition.lemma_rep_char(highest.state_1 as int);
                state_partition.lemma_rep_char(highest.state_2 as int);
                assert forall|t: int|
                    0 <= t < osp.n() implies #[trigger] pre_commit_copied.rep(t)
                    == state_partition.rep(t) by {}
                assert(pre_commit_copied.rep(highest.state_1 as int)
                    == highest.state_1 as int);
                assert(pre_commit_copied.rep(highest.state_2 as int)
                    == highest.state_2 as int);
                // the chosen pair merged in the scan on an identical
                // snapshot, so re-merging it for the commit succeeds
                assert(pre_commit_copied.model() == state_partition.model());
                assert(pre_commit_copied.blocks_count as nat == round_fuel);
                assert(ok);
            }
            {
                let ghost merged_copied = copied_partition;
                state_partition.copy_changes_from(&mut copied_partition);
                merge_data.merges.push(highest);
                proof {
                    let new_base = state_partition;
                    let new_copied = copied_partition;
                    assert(new_base.blocks_count < round_base.blocks_count);
                    assert forall|t: int|
                        0 <= t < osp.n() implies #[trigger] new_copied.rep(t)
                        == new_base.rep(t) by {
                        assert(new_base.rep(t) == merged_copied.rep(t));
                        assert(new_copied.rep(t) == merged_copied.rep(t));
                    }
                    assert forall|t: int|
                        0 <= t < osp.n() implies (new_copied.is_root(t)
                        <==> #[trigger] new_base.is_root(t)) by {
                        assert(block_eq(new_copied.blocks@[t], new_base.blocks@[t]));
                    }
                    assert forall|s: int|
                        0 <= s < osp.n() && osp.blocks@[s].label
                            != crate::dfa_state::UNLABELLED implies #[trigger] new_base.blocks@[s].label
                        == osp.blocks@[s].label by {
                        assert(merged_copied.blocks@[s].label == osp.blocks@[s].label);
                        assert(block_eq_mod_changed(
                            new_base.blocks@[s],
                            merged_copied.blocks@[s],
                        ));
                    }
                    assert forall|s: int|
                        0 <= s < osp.n() && osp.blocks@[s].label
                            != crate::dfa_state::UNLABELLED implies #[trigger] new_copied.blocks@[s].label
                        == osp.blocks@[s].label by {
                        assert(block_eq(new_copied.blocks@[s], new_base.blocks@[s]));
                    }
                    assert forall|t: int|
                        0 <= t < osp.n() implies block_eq_mod_uf(
                        #[trigger] new_copied.blocks@[t],
                        new_base.blocks@[t],
                    ) by {
                        assert(block_eq(new_copied.blocks@[t], new_base.blocks@[t]));
                    }
                    StatePartition::lemma_model_eq(new_copied, new_base);
                    assert(search_inv(osp, state_partition, copied_partition));
                    // the committed round is one unfolding of the replay
                    let rc: nat = round_base.blocks_count as nat;
                    assert(round_base.roots_set().contains(st_final.best_1));
                    assert(round_base.roots_set().remove(st_final.best_1).contains(
                        st_final.best_2,
                    ));
                    assert(rc >= 2);
                    let m2spec = model_merge(
                        round_m,
                        st_final.best_1,
                        st_final.best_2,
                        rc,
                    ).0;
                    assert(merged_copied.model() == m2spec) by {
                        assert(pre_commit_copied.model() == round_m);
                        assert(pre_commit_copied.blocks_count as nat == rc);
                    }
                    assert forall|t: int|
                        0 <= t < osp.n() implies block_eq_mod_uf(
                        #[trigger] new_base.blocks@[t],
                        merged_copied.blocks@[t],
                    ) by {
                        assert(block_eq_mod_changed(
                            new_base.blocks@[t],
                            merged_copied.blocks@[t],
                        ));
                    }
                    StatePartition::lemma_model_eq(new_base, merged_copied);
                    assert(new_base.model() == m2spec);
                    assert(merges_view(merge_data.merges@) =~= mv0.push((
                        st_final.best_1,
                        st_final.best_2,
                        st_final.best_score,
                    )));
                    assert(edsm_rounds(round_m, ld0, mv0, att0, val0, rc) == edsm_rounds(
                        m2spec,
                        ld0,
                        mv0.push((st_final.best_1, st_final.best_2, st_final.best_score)),
                        st_final.attempted,
                        st_final.valid,
                        (rc - 1) as nat,
                    ));
                    new_base.lemma_model_inv();
                    lemma_edsm_rounds_fuel(
                        m2spec,
                        ld0,
                        mv0.push((st_final.best_1, st_final.best_2, st_final.best_score)),
                        st_final.attempted,
                        st_final.valid,
                        (rc - 1) as nat,
                        new_base.blocks_count as nat,
                    );
                }
            }
        } else {
            proof {
                if fits {
                    // a full scan found no merge at all: the working
                    // partition is maximal
                    state_partition.lemma_roots_seq();
                    assert forall|i2: int, j2: int|
                        0 <= i2 < j2 < state_partition.roots_seq().len() implies !(
                    #[trigger] model_merge(
                        state_partition.model(),
                        state_partition.roots_seq()[i2],
                        state_partition.roots_seq()[j2],
                        state_partition.blocks_count as nat,
                    )).1 by {
                        assert(blocks@[i2] == state_partition.roots_seq()[i2]);
                        assert(blocks@[j2] == state_partition.roots_seq()[j2]);
                        assert(!model_merge(
                            state_partition.model(),
                            blocks@[i2] as int,
                            blocks@[j2] as int,
                            round_fuel,
                        ).1);
                    }
                }
                // the replay stops exactly here
                assert(edsm_rounds(
                    round_m,
                    ld0,
                    mv0,
                    att0,
                    val0,
                    round_base.blocks_count as nat,
                ) == (EdsmRun {
                    state: round_m,
                    merges: mv0,
                    attempted: st_final.attempted,
                    valid: st_final.valid,
                }));
            }
            break;
        }
    }
    (state_partition, merge_data)
}

} // verus!
