//! Exhaustive evidence-driven state merging: the score-guided greedy merger
//! over an APTA.

use vstd::prelude::*;
use crate::dfa::DFA;
use crate::merge::{MergeData, exhaustive_edsm_search, edsm_rounds, merges_view};
use crate::state_partition::{StatePartition, model_merge, fresh_model, lemma_fresh_model};

verus! {

/// Runs the exhaustive evidence-driven search on the given APTA and returns
/// the inferred DFA together with the merge telemetry. The score of a merge
/// is the labelled-state count of the APTA minus the labelled-block count
/// after the merge; with that reference every successful merge scores at
/// least zero, so the search only stops at a maximal partition: the result
/// is the quotient of a partition no two of whose blocks can merge, with at
/// least one state fewer per logged merge.
pub fn exhaustive_edsm(apta: DFA) -> (res: (DFA, MergeData))
    requires
        apta.wf(),
        0 <= apta.starting_state_id < apta.n_states(),
    ensures
        res.0.wf(),
        res.0.alphabet_size() == apta.alphabet_size(),
        res.0.n_states() + res.1.merges@.len() <= apta.n_states(),
        res.1.attempted_merges_count >= res.1.valid_merges_count,
        res.1.valid_merges_count >= res.1.merges@.len(),
        // the whole search is the model-level replay of the evidence-driven
        // rounds on the APTA's singleton partition: merge log, counters and
        // the final abstract partition all equal the replay's
        ({
            let r = edsm_rounds(
                fresh_model(apta),
                DFA::labelled_count_to(apta.states@, apta.n_states()),
                Seq::empty(),
                0,
                0,
                apta.n_states() as nat,
            );
            &&& merges_view(res.1.merges@) == r.merges
            &&& res.1.attempted_merges_count as int == r.attempted
            &&& res.1.valid_merges_count as int == r.valid
            &&& exists|p: StatePartition|
                (#[trigger] p.quotient_rel(res.0)) && p.wf() && p.n() == apta.n_states()
                    && p.blocks_count == res.0.n_states() && p.model() == r.state && (forall|
                    i2: int,
                    j2: int,
                |
                    0 <= i2 < j2 < p.roots_seq().len() ==> !(#[trigger] model_merge(
                        p.model(),
                        p.roots_seq()[i2],
                        p.roots_seq()[j2],
                        p.blocks_count as nat,
                    )).1)
        }),
{
    let length_of_dataset = apta.labelled_state_count();
    let state_partition = apta.to_state_partition();
    let ghost fresh = state_partition;
    let (mut resultant_partition, merge_data) = exhaustive_edsm_search(
        state_partition,
        length_of_dataset,
    );
    let ghost searched = resultant_partition;
    let resultant_dfa = resultant_partition.to_quotient_dfa();
    proof {
        lemma_fresh_model(fresh, apta);
        assert(fresh.model() == fresh_model(apta));
        assert(fresh.blocks_count == apta.n_states());
        assert(length_of_dataset as int == DFA::labelled_count_to(
            apta.states@,
            apta.n_states(),
        ));
        let r = edsm_rounds(
            fresh_model(apta),
            DFA::labelled_count_to(apta.states@, apta.n_states()),
            Seq::empty(),
            0,
            0,
            apta.n_states() as nat,
        );
        assert(merges_view(merge_data.merges@) == r.merges && merge_data.attempted_merges_count
            as int == r.attempted && merge_data.valid_merges_count as int == r.valid
            && searched.model() == r.state);
        assert(searched.quotient_rel(resultant_dfa) && searched.wf() && searched.n()
            == apta.n_states() && searched.blocks_count == resultant_dfa.n_states() && (forall|
            i2: int,
            j2: int,
        |
            0 <= i2 < j2 < searched.roots_seq().len() ==> !(#[trigger] model_merge(
                searched.model(),
                searched.roots_seq()[i2],
                searched.roots_seq()[j2],
                searched.blocks_count as nat,
            )).1));
    }
    (resultant_dfa, merge_data)
}

} // verus!
