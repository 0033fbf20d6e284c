//! Counts of what a merge does.

use vstd::prelude::*;

verus! {

/// Statistics returned after a merge operation completes.
#[derive(Clone, Copy, PartialEq, Eq, Structural, Debug)]
pub struct MergeStats {
    pub tensors_copied: usize,
    pub tensors_merged: usize,
    pub tensors_replaced: usize,
    pub biases_merged: usize,
}

/// What is done with a tensor.
#[derive(Clone, Copy, PartialEq, Eq, Structural, Debug)]
pub enum TensorAction {
    Copied,
    Merged,
    Replaced,
    BiasMerged,
}

/// How often an action is among others.
pub open spec fn times(actions: Seq<TensorAction>, action: TensorAction) -> nat
    decreases actions.len(),
{
    if actions.len() == 0 {
        0
    } else {
        times(actions.drop_last(), action) + (if actions.last() == action {
            1nat
        } else {
            0nat
        })
    }
}

/// Whether statistics are those of some actions.
pub open spec fn tallies(stats: MergeStats, actions: Seq<TensorAction>) -> bool {
    &&& stats.tensors_copied == times(actions, TensorAction::Copied)
    &&& stats.tensors_merged == times(actions, TensorAction::Merged)
    &&& stats.tensors_replaced == times(actions, TensorAction::Replaced)
    &&& stats.biases_merged == times(actions, TensorAction::BiasMerged)
}

/// Every tensor is counted once: the counts add up to the number of tensors.
pub proof fn law_counts_add_up(actions: Seq<TensorAction>)
    ensures
        times(actions, TensorAction::Copied) + times(actions, TensorAction::Merged) + times(
            actions,
            TensorAction::Replaced,
        ) + times(actions, TensorAction::BiasMerged) == actions.len(),
    decreases actions.len(),
{
    if actions.len() > 0 {
        law_counts_add_up(actions.drop_last());
    }
}

impl MergeStats {
    /// The statistics of a merge that has done nothing yet.
    pub fn new() -> (r: MergeStats)
        ensures
            tallies(r, Seq::empty()),
    {
        MergeStats { tensors_copied: 0, tensors_merged: 0, tensors_replaced: 0, biases_merged: 0 }
    }
}

/// Counts one more action.
pub fn apply_action(stats: &mut MergeStats, action: TensorAction)
    requires
        match action {
            TensorAction::Copied => old(stats).tensors_copied < usize::MAX,
            TensorAction::Merged => old(stats).tensors_merged < usize::MAX,
            TensorAction::Replaced => old(stats).tensors_replaced < usize::MAX,
            TensorAction::BiasMerged => old(stats).biases_merged < usize::MAX,
        },
    ensures
        *final(stats) == (match action {
            TensorAction::Copied => MergeStats {
                tensors_copied: (old(stats).tensors_copied + 1) as usize,
                ..*old(stats)
            },
            TensorAction::Merged => MergeStats {
                tensors_merged: (old(stats).tensors_merged + 1) as usize,
                ..*old(stats)
            },
            TensorAction::Replaced => MergeStats {
                tensors_replaced: (old(stats).tensors_replaced + 1) as usize,
                ..*old(stats)
            },
            TensorAction::BiasMerged => MergeStats {
                biases_merged: (old(stats).biases_merged + 1) as usize,
                ..*old(stats)
            },
        }),
        forall|actions: Seq<TensorAction>| #[trigger]
            tallies(*old(stats), actions) ==> tallies(*final(stats), actions.push(action)),
{
    match action {
        TensorAction::Copied => {
            stats.tensors_copied = stats.tensors_copied + 1;
        },
        TensorAction::Merged => {
            stats.tensors_merged = stats.tensors_merged + 1;
        },
        TensorAction::Replaced => {
            stats.tensors_replaced = stats.tensors_replaced + 1;
        },
        TensorAction::BiasMerged => {
            stats.biases_merged = stats.biases_merged + 1;
        },
    }
    proof {
        assert forall|actions: Seq<TensorAction>| #[trigger]
            tallies(*old(stats), actions) implies tallies(*stats, actions.push(action)) by {
            assert(actions.push(action).drop_last() =~= actions);
        }
    }
}

} // verus!
