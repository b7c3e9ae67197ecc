//! Regular positive and negative inference: the red-blue greedy merger over
//! an APTA, taking the first consistent merge.

use vstd::prelude::*;
use crate::dfa::DFA;
use crate::merge::{MergeData, rpni_search, start_frontier_exhausted, merge_chain};
use crate::state_partition::{StatePartition, PartitionModel, fresh_model, lemma_fresh_model};

verus! {

/// Runs the RPNI search on the given APTA and returns the inferred DFA
/// together with the merge telemetry. The result is the quotient of a
/// partition the search produced: one DFA state per committed block, at
/// least one state fewer per committed merge; the state count stays at the
/// input's exactly when no merge was committed, which happens only when no
/// block on the starting block's frontier can merge with it. Validation of
/// the result is left to the caller as an explicit step.
pub fn rpni(apta: DFA) -> (res: (DFA, MergeData))
    requires
        apta.wf(),
        0 <= apta.starting_state_id < apta.n_states(),
    ensures
        res.0.wf(),
        res.0.alphabet_size() == apta.alphabet_size(),
        res.0.n_states() <= apta.n_states(),
        res.1.attempted_merges_count >= res.1.valid_merges_count,
        res.1.merges@.len() == 0,
        res.0.n_states() + res.1.valid_merges_count <= apta.n_states(),
        (res.1.valid_merges_count == 0 <==> res.0.n_states() == apta.n_states()),
        // the result is the quotient of a partition that arises from the
        // APTA's singleton partition by exactly the committed merges
        exists|p: StatePartition|
            (#[trigger] p.quotient_rel(res.0)) && p.wf() && p.n() == apta.n_states()
                && p.blocks_count == res.0.n_states() && (exists|ms: Seq<PartitionModel>|
                (#[trigger] merge_chain(ms)) && ms.len() == res.1.valid_merges_count + 1
                    && ms[0] == fresh_model(apta) && ms[ms.len() - 1] == p.model()),
        res.1.valid_merges_count == 0 ==> (exists|p: StatePartition|
            (#[trigger] p.singleton_partition_of(apta)) && p.wf()
                && start_frontier_exhausted(p)),
{
    let state_partition = apta.to_state_partition();
    let ghost fresh = state_partition;
    let (mut resultant_partition, merge_data) = rpni_search(state_partition);
    let ghost searched = resultant_partition;
    let resultant_dfa = resultant_partition.to_quotient_dfa();
    proof {
        lemma_fresh_model(fresh, apta);
        let ms = choose|ms: Seq<PartitionModel>|
            (#[trigger] merge_chain(ms)) && ms.len() == merge_data.valid_merges_count + 1
                && ms[0] == fresh.model() && ms[ms.len() - 1] == searched.model();
        assert(merge_chain(ms) && ms.len() == merge_data.valid_merges_count + 1 && ms[0]
            == fresh_model(apta) && ms[ms.len() - 1] == searched.model());
        assert(searched.quotient_rel(resultant_dfa) && searched.wf() && searched.n()
            == apta.n_states() && searched.blocks_count == resultant_dfa.n_states());
        if merge_data.valid_merges_count == 0 {
            assert(fresh.singleton_partition_of(apta) && fresh.wf()
                && start_frontier_exhausted(fresh));
        }
    }
    (resultant_dfa, merge_data)
}

} // verus!
