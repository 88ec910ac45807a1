//! Decisions of the training loop that prunes the search tree: which
//! nodes go, and the reward each removal earns.

use vstd::prelude::*;
use crate::tree::{Tree, TreeView, spec_del, children_of};

verus! {

/// The reward for removing a node: -1 when it lies on the frontier and +1
/// otherwise, plus +1 when it has exactly one child and -1 otherwise.
pub open spec fn prune_reward(on_frontier: bool, num_child: nat) -> int {
    (if on_frontier { -1int } else { 1int }) + (if num_child == 1 { 1int } else { -1int })
}

/// Every removal earns -2, 0 or 2.
pub proof fn lemma_prune_reward_values(on_frontier: bool, num_child: nat)
    ensures
        prune_reward(on_frontier, num_child) == -2 || prune_reward(on_frontier, num_child) == 0
            || prune_reward(on_frontier, num_child) == 2,
{
}

/// Lying on the frontier costs 2, and having exactly one child earns 2
/// over any other number of children (none, or two and more): a node off
/// the frontier with one child earns 2.
pub proof fn lemma_prune_reward_terms(on_frontier: bool, num_child: nat)
    ensures
        prune_reward(true, num_child) == prune_reward(false, num_child) - 2,
        num_child != 1 ==> prune_reward(on_frontier, num_child) == prune_reward(on_frontier, 1) - 2,
        prune_reward(false, 1) == 2,
{
}

/// The tree after removing, one after the other, the first `n` nodes of
/// `order`.
pub open spec fn pruned<P>(v: TreeView<P>, order: Seq<usize>, n: nat) -> TreeView<P>
    decreases n,
{
    if n == 0 {
        v
    } else {
        spec_del(pruned(v, order, (n - 1) as nat), order[n - 1])
    }
}

/// Removes the nodes of `order` one after the other (the root stays),
/// and returns the reward of each removal; `on_frontier[i]` says whether
/// `order[i]` lies on the frontier. Each node must still be in the tree
/// when its turn comes.
pub fn prune_nodes<P>(tree: &mut Tree<P>, order: &Vec<usize>, on_frontier: &Vec<bool>) -> (rewards: Vec<i32>)
    requires
        old(tree).wf(),
        order.len() == on_frontier.len(),
        forall|i: nat| i < order.len() ==> #[trigger] pruned(old(tree)@, order@, i).contains_key(order@[i as int]),
    ensures
        final(tree).wf(),
        final(tree).next_index() == old(tree).next_index(),
        final(tree)@ == pruned(old(tree)@, order@, order.len() as nat),
        rewards.len() == order.len(),
        forall|i: int| 0 <= i < order.len() ==> #[trigger] rewards@[i] == prune_reward(on_frontier@[i],
            children_of(pruned(old(tree)@, order@, i as nat), order@[i]).len()),
        forall|i: int|
            0 <= i < order.len() && children_of(pruned(old(tree)@, order@, i as nat), order@[i]).len() != 1
                ==> #[trigger] rewards@[i] <= 0,
        forall|i: int| 0 <= i < order.len() && on_frontier@[i] ==> #[trigger] rewards@[i] <= 0,
{
    let ghost v0 = tree@;
    let mut rewards: Vec<i32> = Vec::new();
    let mut i: usize = 0;
    while i < order.len()
        invariant
            i <= order.len(),
            order.len() == on_frontier.len(),
            tree.wf(),
            tree.next_index() == old(tree).next_index(),
            v0 == old(tree)@,
            tree@ == pruned(v0, order@, i as nat),
            forall|j: nat| j < order.len() ==> #[trigger] pruned(v0, order@, j).contains_key(order@[j as int]),
            rewards.len() == i,
            forall|j: int| 0 <= j < i ==> #[trigger] rewards@[j] == prune_reward(on_frontier@[j], children_of(
                pruned(v0, order@, j as nat), order@[j]).len()),
        decreases order.len() - i,
    {
        let idx = order[i];
        assert(pruned(v0, order@, i as nat).contains_key(order@[i as int]));
        let nc = tree.num_children(idx);
        let mut nr: i32 = 0;
        if on_frontier[i] {
            nr = nr - 1;
        } else {
            nr = nr + 1;
        }
        if nc == 1 {
            nr = nr + 1;
        } else {
            nr = nr - 1;
        }
        rewards.push(nr);
        tree.del(idx);
        i = i + 1;
        proof {
            assert(pruned(v0, order@, i as nat) == spec_del(pruned(v0, order@, (i - 1) as nat), order@[i - 1]));
        }
    }
    rewards
}

} // verus!
