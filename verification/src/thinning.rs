//! Removing the coalesces at the leaves of a lineage tree takes at least as
//! many coalesces out of the plan as the tree has leaves.

use crate::enforce::{first_slot, parallelized};
use crate::lineage::{
    coalesce_lineage_through, kept_coalesce_lineage, plans_of, untracked, with_coalesce_lineage,
    TrackedView, TreeView,
};
use crate::model::PlanView;
use crate::optimizer::{parallel_pass, parallel_pass_inputs};
use crate::ordering::{exact_requirements, SortRequirement};
use crate::surgery::{
    below_matching_repartitions, coalesce_patched_inputs, sort_above, sort_exprs_of,
    without_coalesce,
};
use vstd::prelude::*;

verus! {

/// The number of coalesces among the first `k` plans.
pub open spec fn coalesces_among(plans: Seq<PlanView>, k: nat) -> nat
    decreases k,
{
    if k == 0 || k > plans.len() {
        0
    } else {
        coalesces_among(plans, (k - 1) as nat) + coalesces(plans[k - 1])
    }
}

/// The number of coalesces below the first `k` inputs of the plan.
pub open spec fn coalesces_below(plan: PlanView, k: nat) -> nat
    decreases plan, k,
{
    if k == 0 || k > plan.children.len() {
        0
    } else {
        coalesces_below(plan, (k - 1) as nat) + coalesces(plan.children[k - 1])
    }
}

/// The number of coalesces in the plan.
pub open spec fn coalesces(plan: PlanView) -> nat
    decreases plan, plan.children.len() + 1,
{
    coalesces_below(plan, plan.children.len()) + if plan.is_coalesce_partitions() {
        1nat
    } else {
        0nat
    }
}

/// The number of leaves below the first `k` subtrees of the tree.
pub open spec fn leaves_below(tree: TreeView, k: nat) -> nat
    decreases tree, k,
{
    if k == 0 || k > tree.children.len() {
        0
    } else {
        leaves_below(tree, (k - 1) as nat) + leaves(tree.children[k - 1])
    }
}

/// The number of coalesces at the leaves of a lineage tree.
pub open spec fn leaves(tree: TreeView) -> nat
    decreases tree, tree.children.len() + 1,
{
    if tree.plan.is_coalesce_partitions() {
        1
    } else {
        leaves_below(tree, tree.children.len())
    }
}

/// Whether a lineage tree is rooted in its plan: each subtree stands at an
/// input of the plan of its parent, no two at the same input, and every
/// chain ends in a coalesce.
pub open spec fn rooted(tree: TreeView) -> bool
    decreases tree,
{
    &&& !tree.plan.is_coalesce_partitions() ==> tree.children.len() > 0
    &&& forall|k: int|
        0 <= k < tree.children.len() ==> {
            &&& rooted(#[trigger] tree.children[k])
            &&& 0 <= tree.children[k].idx < tree.plan.children.len()
            &&& tree.children[k].plan == tree.plan.children[tree.children[k].idx]
        }
    &&& forall|k: int, m: int|
        0 <= k < m < tree.children.len() ==> tree.children[k].idx != tree.children[m].idx
}

/// The coalesces below the inputs of a plan are those among its inputs.
pub proof fn lemma_coalesces_below(plan: PlanView, k: nat)
    ensures
        coalesces_below(plan, k) == coalesces_among(plan.children, k),
    decreases k,
{
    if k > 0 && k <= plan.children.len() {
        lemma_coalesces_below(plan, (k - 1) as nat);
    }
}

/// Each of the first `k` plans holds no more coalesces than all of them
/// together.
pub proof fn lemma_coalesces_among_bound(plans: Seq<PlanView>, k: nat, i: int)
    requires
        0 <= i < k <= plans.len(),
    ensures
        coalesces(plans[i]) <= coalesces_among(plans, k),
    decreases k,
{
    if i < k - 1 {
        lemma_coalesces_among_bound(plans, (k - 1) as nat, i);
    }
}

/// Putting another plan in the place of one changes the number of
/// coalesces by the difference between the two.
pub proof fn lemma_coalesces_among_update(plans: Seq<PlanView>, k: nat, i: int, p: PlanView)
    requires
        0 <= i < plans.len(),
        k <= plans.len(),
    ensures
        i < k ==> coalesces_among(plans.update(i, p), k) + coalesces(plans[i]) == coalesces_among(
            plans,
            k,
        ) + coalesces(p),
        i >= k ==> coalesces_among(plans.update(i, p), k) == coalesces_among(plans, k),
    decreases k,
{
    if k > 0 {
        lemma_coalesces_among_update(plans, (k - 1) as nat, i, p);
    }
}

/// There is a leaf in every rooted tree.
pub proof fn lemma_rooted_has_a_leaf(tree: TreeView)
    requires
        rooted(tree),
    ensures
        leaves(tree) >= 1,
    decreases tree,
{
    if !tree.plan.is_coalesce_partitions() {
        lemma_rooted_has_a_leaf(tree.children[0]);
        lemma_leaves_below_bound(tree, tree.children.len(), 0);
    }
}

/// Each of the first `k` subtrees has no more leaves than all of them
/// together.
pub proof fn lemma_leaves_below_bound(tree: TreeView, k: nat, i: int)
    requires
        0 <= i < k <= tree.children.len(),
    ensures
        leaves(tree.children[i]) <= leaves_below(tree, k),
    decreases k,
{
    if i < k - 1 {
        lemma_leaves_below_bound(tree, (k - 1) as nat, i);
    }
}

/// What lies below the repartitions at the top of a plan holds no more
/// coalesces than the plan.
pub proof fn lemma_below_matching_repartitions_thin(plan: PlanView, parent: PlanView)
    requires
        below_matching_repartitions(plan, parent) is Ok,
    ensures
        coalesces(below_matching_repartitions(plan, parent)->Ok_0) <= coalesces(plan),
    decreases plan,
{
    if below_matching_repartitions(plan, parent)->Ok_0 != plan {
        lemma_below_matching_repartitions_thin(plan.children[0], parent);
        lemma_coalesces_below(plan, plan.children.len());
        lemma_coalesces_among_bound(plan.children, plan.children.len(), 0);
    }
}

/// The repaired inputs of the root of a rooted tree hold, together, at
/// least as many coalesces less than the inputs as the repaired subtrees
/// have leaves.
pub proof fn lemma_coalesce_patched_inputs_thin(tree: TreeView, k: nat)
    requires
        rooted(tree),
        k <= tree.children.len(),
        coalesce_patched_inputs(tree, k) is Ok,
    ensures
        ({
            let inputs = coalesce_patched_inputs(tree, k)->Ok_0;
            &&& inputs.len() == tree.plan.children.len()
            &&& coalesces_among(inputs, inputs.len()) + leaves_below(tree, k) <= coalesces_among(
                tree.plan.children,
                tree.plan.children.len(),
            )
            &&& forall|m: int|
                k <= m < tree.children.len() ==> inputs[(#[trigger] tree.children[m]).idx]
                    == tree.plan.children[tree.children[m].idx]
        }),
    decreases tree, k,
{
    if k > 0 {
        lemma_coalesce_patched_inputs_thin(tree, (k - 1) as nat);
        let before = coalesce_patched_inputs(tree, (k - 1) as nat)->Ok_0;
        let item = tree.children[k - 1];
        assert(rooted(item));
        lemma_without_coalesce_thin(item, tree.plan);
        let repaired = without_coalesce(item, tree.plan)->Ok_0;
        let inputs = coalesce_patched_inputs(tree, k)->Ok_0;
        assert(inputs == before.update(item.idx, repaired));
        assert(before[item.idx] == item.plan);
        lemma_coalesces_among_update(before, before.len(), item.idx, repaired);
        assert forall|m: int| k <= m < tree.children.len() implies inputs[(
        #[trigger] tree.children[m]).idx] == tree.plan.children[tree.children[m].idx] by {
            assert(tree.children[m].idx != item.idx);
        }
    }
}

/// Removing the coalesces at the leaves of a rooted lineage tree takes at
/// least as many coalesces out of the plan as the tree has leaves.
pub proof fn lemma_without_coalesce_thin(tree: TreeView, parent: PlanView)
    requires
        rooted(tree),
        without_coalesce(tree, parent) is Ok,
    ensures
        coalesces(without_coalesce(tree, parent)->Ok_0) + leaves(tree) <= coalesces(tree.plan),
    decreases tree, tree.children.len() + 1,
{
    let plan = tree.plan;
    lemma_coalesces_below(plan, plan.children.len());
    if plan.is_coalesce_partitions() {
        lemma_below_matching_repartitions_thin(plan.children[0], parent);
        lemma_coalesces_among_bound(plan.children, plan.children.len(), 0);
    } else {
        lemma_coalesce_patched_inputs_thin(tree, tree.children.len());
        let inputs = coalesce_patched_inputs(tree, tree.children.len())->Ok_0;
        let rebuilt = plan.with_new_children(inputs)->0;
        lemma_coalesces_below(rebuilt, inputs.len());
    }
}

/// A sort placed above a plan adds no coalesce.
pub proof fn lemma_sort_above_thin(node: PlanView, reqs: Seq<SortRequirement>, fetch: Option<usize>)
    ensures
        coalesces(sort_above(node, reqs, fetch)) == coalesces(node),
{
    let sorted = sort_above(node, reqs, fetch);
    if sorted != node {
        assert(sorted.children[0] == node);
        assert(coalesces_below(sorted, 0) == 0);
        assert(coalesces_below(sorted, 1) == coalesces_below(sorted, 0) + coalesces(node));
    }
}

/// Sort parallelization at a node whose coalesce lineage is rooted at its
/// input leaves fewer coalesces in the plan: at least as many are gone as
/// the lineage tree has leaves, of which there is at least one.
pub proof fn theorem_parallelization_removes_tracked_coalesces(node: TrackedView)
    requires
        node.plan.children.len() > 0,
        first_slot(node.lineage) matches Some(tree) && rooted(tree) && tree.plan
            == node.plan.children[0],
        parallelized(node) is Ok,
        parallelized(node)->Ok_0 != node,
    ensures
        coalesces(parallelized(node)->Ok_0.plan) + leaves(first_slot(node.lineage)->0) <= coalesces(
            node.plan,
        ),
        coalesces(parallelized(node)->Ok_0.plan) < coalesces(node.plan),
{
    let plan = node.plan;
    let tree = first_slot(node.lineage)->0;
    let out = parallelized(node)->Ok_0.plan;
    lemma_rooted_has_a_leaf(tree);
    lemma_without_coalesce_thin(tree, plan);
    let below = without_coalesce(tree, plan)->Ok_0;
    lemma_coalesces_below(plan, plan.children.len());
    lemma_coalesces_among_bound(plan.children, plan.children.len(), 0);
    if (plan.is_sort() || plan.is_sort_preserving_merge()) && plan.partition_count() <= 1 {
        let sorted = out.children[0];
        let found = sort_exprs_of(plan)->Ok_0;
        lemma_sort_above_thin(below, exact_requirements(found.0), found.1);
        assert(coalesces_below(out, 0) == 0);
        assert(coalesces_below(out, 1) == coalesces_below(out, 0) + coalesces(sorted));
    } else {
        assert(out.children[0] == below);
        assert(coalesces_below(out, 0) == 0);
        assert(coalesces_below(out, 1) == coalesces_below(out, 0) + coalesces(below));
    }
}

/// Whether the coalesce lineage of a node is rooted in its plan: the
/// lineage tree of each slot is rooted and stands at the input of the
/// slot.
pub open spec fn item_rooted(node: TrackedView) -> bool {
    &&& node.lineage.len() == node.plan.children.len()
    &&& forall|i: int|
        0 <= i < node.lineage.len() ==> match #[trigger] node.lineage[i] {
            Some(t) => rooted(t) && t.idx == i && t.plan == node.plan.children[i],
            None => true,
        }
}

/// The lineage of the first `k` slots that continues through a node with
/// rooted lineage is rooted at the inputs of the node, slot after slot.
pub proof fn lemma_kept_coalesce_lineage_rooted(item: TrackedView, k: nat)
    requires
        item_rooted(item),
        k <= item.lineage.len(),
    ensures
        forall|m: int|
            0 <= m < kept_coalesce_lineage(item, k).len() ==> {
                let t = #[trigger] kept_coalesce_lineage(item, k)[m];
                &&& rooted(t)
                &&& 0 <= t.idx < k
                &&& t.plan == item.plan.children[t.idx]
            },
        forall|m: int, n: int|
            0 <= m < n < kept_coalesce_lineage(item, k).len() ==> kept_coalesce_lineage(
                item,
                k,
            )[m].idx < kept_coalesce_lineage(item, k)[n].idx,
    decreases k,
{
    if k > 0 {
        lemma_kept_coalesce_lineage_rooted(item, (k - 1) as nat);
        let front = kept_coalesce_lineage(item, (k - 1) as nat);
        let now = kept_coalesce_lineage(item, k);
        assert forall|m: int| 0 <= m < now.len() implies {
            let t = #[trigger] now[m];
            &&& rooted(t)
            &&& 0 <= t.idx < k
            &&& t.plan == item.plan.children[t.idx]
        } by {
            if m < front.len() {
                assert(now[m] == front[m]);
            } else {
                assert(now[m] == item.lineage[k - 1]->0);
            }
        }
        assert forall|m: int, n: int| 0 <= m < n < now.len() implies now[m].idx < now[n].idx by {
            assert(now[m] == front[m]);
            if n < front.len() {
                assert(now[n] == front[n]);
            } else {
                assert(now[n] == item.lineage[k - 1]->0);
            }
        }
    }
}

/// The coalesce lineage through a node with rooted lineage is rooted at
/// the node.
pub proof fn lemma_coalesce_lineage_through_rooted(item: TrackedView, idx: int)
    requires
        item_rooted(item),
    ensures
        coalesce_lineage_through(item, idx) matches Some(t) ==> rooted(t) && t.idx == idx && t.plan
            == item.plan,
{
    lemma_kept_coalesce_lineage_rooted(item, item.lineage.len());
}

/// A parent rebuilt over rewritten inputs with rooted lineage has rooted
/// lineage.
pub proof fn lemma_with_coalesce_lineage_rooted(children: Seq<TrackedView>, parent: PlanView)
    requires
        forall|i: int| 0 <= i < children.len() ==> item_rooted(#[trigger] children[i]),
        with_coalesce_lineage(children, parent) is Ok,
    ensures
        item_rooted(with_coalesce_lineage(children, parent)->Ok_0),
{
    let node = with_coalesce_lineage(children, parent)->Ok_0;
    assert(node.plan.children =~= plans_of(children));
    assert forall|i: int| 0 <= i < node.lineage.len() implies match #[trigger] node.lineage[i] {
        Some(t) => rooted(t) && t.idx == i && t.plan == node.plan.children[i],
        None => true,
    } by {
        assert(item_rooted(children[i]));
        lemma_coalesce_lineage_through_rooted(children[i], i);
    }
}

/// If each of the first `k` plans of one list holds no more coalesces than
/// the plan at its place in another, the first list holds no more.
pub proof fn lemma_coalesces_among_monotone(a: Seq<PlanView>, b: Seq<PlanView>, k: nat)
    requires
        a.len() == b.len(),
        k <= a.len(),
        forall|i: int| 0 <= i < k ==> coalesces(#[trigger] a[i]) <= coalesces(b[i]),
    ensures
        coalesces_among(a, k) <= coalesces_among(b, k),
    decreases k,
{
    if k > 0 {
        lemma_coalesces_among_monotone(a, b, (k - 1) as nat);
        assert(coalesces(a[k - 1]) <= coalesces(b[k - 1]));
    }
}

/// The rewritten inputs of a plan have rooted lineage and hold no more
/// coalesces than the inputs.
pub proof fn lemma_parallel_pass_inputs_thin(plan: PlanView, k: nat)
    requires
        k <= plan.children.len(),
        parallel_pass_inputs(plan, k) is Ok,
    ensures
        parallel_pass_inputs(plan, k)->Ok_0.len() == k,
        forall|i: int|
            0 <= i < k ==> item_rooted(#[trigger] parallel_pass_inputs(plan, k)->Ok_0[i])
                && coalesces(parallel_pass_inputs(plan, k)->Ok_0[i].plan) <= coalesces(
                plan.children[i],
            ),
    decreases plan, k,
{
    if k > 0 {
        lemma_parallel_pass_inputs_thin(plan, (k - 1) as nat);
        lemma_parallel_pass_thin(plan.children[k - 1]);
    }
}

/// Sort parallelization at a node with rooted lineage gives a node with
/// rooted lineage that holds no more coalesces.
pub proof fn lemma_parallelized_thin(node: TrackedView)
    requires
        item_rooted(node),
        parallelized(node) is Ok,
    ensures
        item_rooted(parallelized(node)->Ok_0),
        coalesces(parallelized(node)->Ok_0.plan) <= coalesces(node.plan),
{
    if parallelized(node)->Ok_0 != node {
        theorem_parallelization_removes_tracked_coalesces(node);
    }
}

/// The parallelization pass gives a node with rooted lineage that holds no
/// more coalesces than the plan.
pub proof fn lemma_parallel_pass_thin(plan: PlanView)
    requires
        parallel_pass(plan) is Ok,
    ensures
        item_rooted(parallel_pass(plan)->Ok_0),
        coalesces(parallel_pass(plan)->Ok_0.plan) <= coalesces(plan),
    decreases plan, plan.children.len() + 1,
{
    if plan.children.len() == 0 {
        lemma_parallelized_thin(untracked(plan));
    } else {
        lemma_parallel_pass_inputs_thin(plan, plan.children.len());
        let nodes = parallel_pass_inputs(plan, plan.children.len())->Ok_0;
        lemma_with_coalesce_lineage_rooted(nodes, plan);
        let node = with_coalesce_lineage(nodes, plan)->Ok_0;
        assert(node.plan.children =~= plans_of(nodes));
        lemma_coalesces_among_monotone(node.plan.children, plan.children, plan.children.len());
        lemma_coalesces_below(node.plan, plan.children.len());
        lemma_coalesces_below(plan, plan.children.len());
        lemma_parallelized_thin(node);
    }
}

/// Sort parallelization adds no coalesce to a plan.
pub proof fn theorem_parallelization_adds_no_coalesce(plan: PlanView)
    requires
        parallel_pass(plan) is Ok,
    ensures
        coalesces(parallel_pass(plan)->Ok_0.plan) <= coalesces(plan),
{
    lemma_parallel_pass_thin(plan);
}

} // verus!
