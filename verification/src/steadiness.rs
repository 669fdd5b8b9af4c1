//! Plans whose windows all take their partitions as sorted and whose
//! sources are all bounded stay such plans under the rewrite.

use crate::alignment::theorem_rewrite_meets_requirements;
use crate::asking::{searches_unsorted, sorted_windows};
use crate::enforce::{
    enforce_slot, enforce_slots, ensured, first_slot, immediate_sort_removal, parallelized,
    tracked_slots,
};
use crate::lineage::{
    first_through, kept_coalesce_lineage, kept_sort_lineage, lemma_first_through, lineage_below,
    plans_of, untracked, with_coalesce_lineage, with_sort_lineage, TrackedView, TreeView,
};
use crate::merging::ordering_follows_partitions;
use crate::model::{OperatorView, PlanView};
use crate::optimizer::{
    optimized, parallel_pass, parallel_pass_inputs, sort_pass, sort_pass_inputs,
};
use crate::ordering::SortRequirement;
use crate::partitions::yields_partitions;
use crate::surgery::{
    below_matching_repartitions, coalesce_patched_inputs, consolidated, sort_above,
    sort_patched_inputs, without_coalesce, without_sort,
};
use crate::validity::{orderings_met, theorem_sort_enforcement_meets_requirements};
use crate::window::{
    fitting_window, window_answer, window_over_sorted_input, window_without_sort,
};
use vstd::prelude::*;

verus! {

/// Whether the operator is no window that does not take its partitions as
/// sorted and no source of rows without end.
pub open spec fn steady_operator(op: OperatorView) -> bool {
    !searches_unsorted(op) && match op {
        OperatorView::Source { unbounded, .. } => !unbounded,
        _ => true,
    }
}

/// Whether every window in the plan takes its partitions as sorted and
/// every source in it is bounded.
pub open spec fn steady(plan: PlanView) -> bool
    decreases plan,
{
    &&& steady_operator(plan.op)
    &&& forall|i: int| 0 <= i < plan.children.len() ==> steady(#[trigger] plan.children[i])
}

/// Whether every plan of a lineage tree is steady.
pub open spec fn tree_steady(tree: TreeView) -> bool
    decreases tree,
{
    &&& steady(tree.plan)
    &&& forall|k: int| 0 <= k < tree.children.len() ==> tree_steady(#[trigger] tree.children[k])
}

/// Whether every lineage tree is steady.
pub open spec fn slots_steady(lineage: Seq<Option<TreeView>>) -> bool {
    forall|i: int|
        0 <= i < lineage.len() ==> ((#[trigger] lineage[i]) matches Some(tree) ==> tree_steady(
            tree,
        ))
}

/// Whether the plan and the lineage of a rewritten node are steady.
pub open spec fn item_steady(node: TrackedView) -> bool {
    steady(node.plan) && slots_steady(node.lineage)
}

/// A steady plan yields no rows without end, and its windows all take
/// their partitions as sorted.
pub proof fn lemma_steady_is_bounded(plan: PlanView)
    requires
        steady(plan),
    ensures
        !plan.unbounded_output(),
        sorted_windows(plan),
    decreases plan,
{
    assert forall|i: int| 0 <= i < plan.children.len() implies !(
    #[trigger] plan.children[i]).unbounded_output() && sorted_windows(plan.children[i]) by {
        lemma_steady_is_bounded(plan.children[i]);
    }
}

/// A steady operator over steady inputs is a steady plan.
pub proof fn lemma_steady_over(plan: PlanView)
    requires
        steady_operator(plan.op),
        forall|i: int| 0 <= i < plan.children.len() ==> steady(#[trigger] plan.children[i]),
    ensures
        steady(plan),
{
}

/// A sort placed above a steady plan gives a steady plan.
pub proof fn lemma_sort_above_steady(node: PlanView, reqs: Seq<SortRequirement>, fetch: Option<usize>)
    requires
        steady(node),
    ensures
        steady(sort_above(node, reqs, fetch)),
{
    let sorted = sort_above(node, reqs, fetch);
    if sorted != node {
        assert forall|i: int| 0 <= i < sorted.children.len() implies steady(
            #[trigger] sorted.children[i],
        ) by {
            assert(sorted.children[i] == node);
        }
    }
}

/// Bringing the partitions of a steady plan together gives a steady plan.
pub proof fn lemma_consolidated_steady(plan: PlanView)
    requires
        steady(plan),
    ensures
        steady(consolidated(plan)),
{
    let c = consolidated(plan);
    assert forall|i: int| 0 <= i < c.children.len() implies steady(#[trigger] c.children[i]) by {
        assert(c.children[i] == plan);
    }
}

/// The repaired inputs of the root of a steady tree are steady.
pub proof fn lemma_sort_patched_inputs_steady(tree: TreeView, k: nat)
    requires
        tree_steady(tree),
        k <= tree.children.len(),
        sort_patched_inputs(tree, k) is Ok,
    ensures
        sort_patched_inputs(tree, k)->Ok_0.len() == tree.plan.children.len(),
        forall|j: int|
            0 <= j < tree.plan.children.len() ==> steady(
                #[trigger] sort_patched_inputs(tree, k)->Ok_0[j],
            ),
    decreases tree, k,
{
    if k > 0 {
        lemma_sort_patched_inputs_steady(tree, (k - 1) as nat);
        let before = sort_patched_inputs(tree, (k - 1) as nat)->Ok_0;
        let item = tree.children[k - 1];
        assert(tree_steady(item));
        lemma_without_sort_steady(item, tree.plan.requires_single_partition(item.idx));
        let inputs = sort_patched_inputs(tree, k)->Ok_0;
        assert forall|j: int| 0 <= j < tree.plan.children.len() implies steady(
            #[trigger] inputs[j],
        ) by {
            if j != item.idx {
                assert(inputs[j] == before[j]);
            }
        }
    } else {
        assert forall|j: int| 0 <= j < tree.plan.children.len() implies steady(
            #[trigger] tree.plan.children[j],
        ) by {}
    }
}

/// Removing the sorts at the leaves of a steady lineage tree gives a
/// steady plan.
pub proof fn lemma_without_sort_steady(tree: TreeView, single: bool)
    requires
        tree_steady(tree),
        without_sort(tree, single) is Ok,
    ensures
        steady(without_sort(tree, single)->Ok_0),
    decreases tree, tree.children.len() + 1,
{
    let plan = tree.plan;
    let updated: PlanView = if plan.is_sort() {
        assert(steady(plan.children[0]));
        plan.children[0]
    } else {
        lemma_sort_patched_inputs_steady(tree, tree.children.len());
        let inputs = sort_patched_inputs(tree, tree.children.len())->Ok_0;
        if plan.is_sort_preserving_merge() {
            inputs[0]
        } else if plan.op is Repartition {
            let q = PlanView {
                op: OperatorView::Repartition {
                    partitioning: plan.op->partitioning,
                    preserve_order: false,
                },
                children: seq![inputs[0]],
            };
            assert forall|i: int| 0 <= i < q.children.len() implies steady(
                #[trigger] q.children[i],
            ) by {
                assert(q.children[i] == inputs[0]);
            }
            q
        } else {
            let q = plan.with_new_children(inputs)->0;
            assert forall|i: int| 0 <= i < q.children.len() implies steady(
                #[trigger] q.children[i],
            ) by {
                assert(q.children[i] == inputs[i]);
            }
            q
        }
    };
    assert(steady(updated));
    if single && updated.partition_count() > 1 {
        lemma_consolidated_steady(updated);
    }
}

/// The lineage read off a steady lineage tree is steady.
pub proof fn lemma_lineage_below_steady(tree: Option<TreeView>, n: nat)
    requires
        tree matches Some(t) ==> tree_steady(t),
    ensures
        slots_steady(lineage_below(tree, n)),
{
    let below = lineage_below(tree, n);
    assert forall|i: int| 0 <= i < below.len() implies ((#[trigger] below[i]) matches Some(t)
        ==> tree_steady(t)) by {
        match tree {
            Some(t) => {
                if first_through(t.children, i, t.children.len()) is Some {
                    lemma_first_through(t.children, i, t.children.len());
                    let m = choose|m: int|
                        0 <= m < t.children.len() && t.children[m] == first_through(
                            t.children,
                            i,
                            t.children.len(),
                        )->0;
                    assert(tree_steady(t.children[m]));
                }
            },
            None => {},
        }
    }
}

/// What replaces a removable sort in a steady node is steady.
pub proof fn lemma_immediate_removal_steady(node: TrackedView)
    requires
        item_steady(node),
        immediate_sort_removal(node.plan, node.lineage) is Some,
    ensures
        item_steady(immediate_sort_removal(node.plan, node.lineage)->0),
{
    let plan = node.plan;
    let out = immediate_sort_removal(plan, node.lineage)->0;
    let input = plan.children[0];
    assert(steady(input));
    match plan.op {
        OperatorView::Sort { expr, preserve_partitioning, .. } => {
            if !preserve_partitioning && input.partition_count() > 1 {
                let merge = out.plan;
                assert forall|i: int| 0 <= i < merge.children.len() implies steady(
                    #[trigger] merge.children[i],
                ) by {
                    assert(merge.children[i] == input);
                }
                assert(tree_steady(out.lineage[0]->0));
            } else {
                if node.lineage.len() > 0 {
                    assert(node.lineage[0] matches Some(t) ==> tree_steady(t));
                }
                lemma_lineage_below_steady(first_slot(node.lineage), input.children.len());
            }
        },
        _ => {},
    }
}

/// The state of the slots of a node during sort enforcement: every input
/// and every lineage tree is steady.
pub open spec fn slots_in_hand(
    plan: PlanView,
    inputs: Seq<PlanView>,
    lineage: Seq<Option<TreeView>>,
) -> bool {
    &&& inputs.len() == plan.children.len()
    &&& lineage.len() == plan.children.len()
    &&& forall|j: int| 0 <= j < inputs.len() ==> steady(#[trigger] inputs[j])
    &&& slots_steady(lineage)
}

/// Bringing one more slot in line keeps the inputs and the lineage steady.
pub proof fn lemma_enforce_slot_steady(
    plan: PlanView,
    inputs: Seq<PlanView>,
    lineage: Seq<Option<TreeView>>,
    idx: nat,
)
    requires
        slots_in_hand(plan, inputs, lineage),
        idx < inputs.len(),
        enforce_slot(plan, inputs, lineage, idx as int) is Ok,
    ensures
        slots_in_hand(
            plan,
            enforce_slot(plan, inputs, lineage, idx as int)->Ok_0.0,
            enforce_slot(plan, inputs, lineage, idx as int)->Ok_0.1,
        ),
{
    let child = inputs[idx as int];
    let out = enforce_slot(plan, inputs, lineage, idx as int)->Ok_0;
    let new_inputs = out.0;
    let new_lineage = out.1;
    assert(steady(child));
    let slot = lineage[idx as int];
    let single = plan.requires_single_partition(idx as int);
    match slot {
        Some(tree) => {
            assert(tree_steady(tree));
            if without_sort(tree, plan.requires_single_partition(tree.idx)) is Ok {
                lemma_without_sort_steady(tree, plan.requires_single_partition(tree.idx));
            }
        },
        None => {},
    }
    match (plan.required_input_ordering(idx as int), child.output_ordering()) {
        (Some(required), Some(_)) => {
            if !child.ordering_satisfy_requirement(required) {
                let stripped = crate::surgery::sort_stripped(child, slot, plan)->Ok_0;
                lemma_sort_above_steady(stripped, required, None);
            }
        },
        (Some(required), None) => {
            lemma_sort_above_steady(child, required, None);
        },
        _ => {},
    }
    assert forall|j: int| 0 <= j < new_inputs.len() implies steady(#[trigger] new_inputs[j]) by {
        if j != idx {
            assert(new_inputs[j] == inputs[j]);
        }
    }
    assert forall|i: int| 0 <= i < new_lineage.len() implies ((
    #[trigger] new_lineage[i]) matches Some(t) ==> tree_steady(t)) by {
        if i != idx {
            assert(new_lineage[i] == lineage[i]);
        }
    }
}

/// Bringing the first `k` slots in line keeps the inputs and the lineage
/// steady.
pub proof fn lemma_enforce_slots_steady(node: TrackedView, k: nat)
    requires
        item_steady(node),
        node.lineage.len() == node.plan.children.len(),
        k <= node.plan.children.len(),
        enforce_slots(node, k) is Ok,
    ensures
        slots_in_hand(node.plan, enforce_slots(node, k)->Ok_0.0, enforce_slots(node, k)->Ok_0.1),
    decreases k,
{
    if k > 0 {
        lemma_enforce_slots_steady(node, (k - 1) as nat);
        let before = enforce_slots(node, (k - 1) as nat)->Ok_0;
        lemma_enforce_slot_steady(node.plan, before.0, before.1, (k - 1) as nat);
    } else {
        assert forall|j: int| 0 <= j < node.plan.children.len() implies steady(
            #[trigger] node.plan.children[j],
        ) by {}
    }
}

/// The window that the analysis leaves over a steady input takes its
/// partitions as sorted: over bounded input no other evaluation is
/// picked.
pub proof fn lemma_window_without_sort_steady(tree: TreeView, window: PlanView)
    requires
        tree_steady(tree),
        window_without_sort(tree, window, window_answer(tree, window)) is Ok,
    ensures
        item_steady(window_without_sort(tree, window, window_answer(tree, window))->Ok_0),
{
    let single = window.requires_single_partition(tree.idx);
    lemma_without_sort_steady(tree, single);
    let child = without_sort(tree, single)->Ok_0;
    lemma_steady_is_bounded(child);
    let answer = window_answer(tree, window);
    match fitting_window(window.op->window_expr, child, window.op->partition_keys, answer) {
        Some(w) => {
            assert forall|i: int| 0 <= i < w.children.len() implies steady(
                #[trigger] w.children[i],
            ) by {
                assert(w.children[i] == child);
            }
        },
        None => {
            let w = window_over_sorted_input(window, child);
            let reqs = match window.required_input_ordering(0) {
                Some(r) => r,
                None => Seq::empty(),
            };
            lemma_sort_above_steady(child, reqs, None);
            assert forall|i: int| 0 <= i < w.children.len() implies steady(
                #[trigger] w.children[i],
            ) by {
                assert(w.children[i] == sort_above(child, reqs, None));
            }
        },
    }
}

/// Sort enforcement at a steady node gives a steady node.
pub proof fn lemma_ensured_steady(node: TrackedView)
    requires
        item_steady(node),
        node.lineage.len() == node.plan.children.len(),
        ensured(node) is Ok,
    ensures
        item_steady(ensured(node)->Ok_0),
{
    let plan = node.plan;
    if plan.children.len() == 0 {
    } else if immediate_sort_removal(plan, node.lineage) is Some {
        lemma_immediate_removal_steady(node);
    } else {
        assert(tracked_slots(node) == plan.children.len());
        lemma_enforce_slots_steady(node, plan.children.len());
        let state = enforce_slots(node, plan.children.len())->Ok_0;
        let inputs = state.0;
        let lineage = state.1;
        if plan.is_window() && first_slot(lineage) is Some {
            assert(lineage[0] matches Some(t) ==> tree_steady(t));
            lemma_window_without_sort_steady(first_slot(lineage)->0, plan);
        } else if !plan.is_window() && plan.is_sort_preserving_merge() && inputs[0].partition_count()
            <= 1 {
            if lineage.len() > 0 {
                assert(lineage[0] matches Some(t) ==> tree_steady(t));
            }
            lemma_lineage_below_steady(first_slot(lineage), inputs[0].children.len());
        } else {
            let q = plan.with_new_children(inputs)->0;
            assert forall|i: int| 0 <= i < q.children.len() implies steady(
                #[trigger] q.children[i],
            ) by {
                assert(q.children[i] == inputs[i]);
            }
        }
    }
}

/// The lineage of the first `k` slots that continues through a steady
/// node is steady.
pub proof fn lemma_kept_sort_lineage_steady(item: TrackedView, k: nat)
    requires
        item_steady(item),
    ensures
        forall|m: int|
            0 <= m < kept_sort_lineage(item, k).len() ==> tree_steady(
                #[trigger] kept_sort_lineage(item, k)[m],
            ),
    decreases k,
{
    if k > 0 {
        lemma_kept_sort_lineage_steady(item, (k - 1) as nat);
        let front = kept_sort_lineage(item, (k - 1) as nat);
        let now = kept_sort_lineage(item, k);
        assert forall|m: int| 0 <= m < now.len() implies tree_steady(#[trigger] now[m]) by {
            if m < front.len() {
                assert(now[m] == front[m]);
            } else {
                assert(now[m] == item.lineage[k - 1]->0);
            }
        }
    }
}

/// A steady parent rebuilt over steady rewritten inputs is steady.
pub proof fn lemma_with_sort_lineage_steady(children: Seq<TrackedView>, parent: PlanView)
    requires
        steady_operator(parent.op),
        forall|i: int| 0 <= i < children.len() ==> item_steady(#[trigger] children[i]),
        with_sort_lineage(children, parent) is Ok,
    ensures
        item_steady(with_sort_lineage(children, parent)->Ok_0),
        with_sort_lineage(children, parent)->Ok_0.lineage.len() == with_sort_lineage(
            children,
            parent,
        )->Ok_0.plan.children.len(),
{
    let node = with_sort_lineage(children, parent)->Ok_0;
    assert(node.plan.children =~= plans_of(children));
    assert forall|i: int| 0 <= i < node.plan.children.len() implies steady(
        #[trigger] node.plan.children[i],
    ) by {
        assert(item_steady(children[i]));
    }
    assert forall|i: int| 0 <= i < node.lineage.len() implies ((
    #[trigger] node.lineage[i]) matches Some(t) ==> tree_steady(t)) by {
        assert(item_steady(children[i]));
        lemma_kept_sort_lineage_steady(children[i], children[i].plan.children.len());
    }
}

/// The rewritten inputs of a steady plan are steady.
pub proof fn lemma_sort_pass_inputs_steady(plan: PlanView, k: nat)
    requires
        steady(plan),
        k <= plan.children.len(),
        sort_pass_inputs(plan, k) is Ok,
    ensures
        sort_pass_inputs(plan, k)->Ok_0.len() == k,
        forall|i: int| 0 <= i < k ==> item_steady(#[trigger] sort_pass_inputs(plan, k)->Ok_0[i]),
    decreases plan, k,
{
    if k > 0 {
        lemma_sort_pass_inputs_steady(plan, (k - 1) as nat);
        assert(steady(plan.children[k - 1]));
        lemma_sort_pass_steady(plan.children[k - 1]);
    }
}

/// The sort-enforcement pass over a steady plan gives a steady node.
pub proof fn lemma_sort_pass_steady(plan: PlanView)
    requires
        steady(plan),
        sort_pass(plan) is Ok,
    ensures
        item_steady(sort_pass(plan)->Ok_0),
    decreases plan, plan.children.len() + 1,
{
    if plan.children.len() == 0 {
        lemma_ensured_steady(untracked(plan));
    } else {
        lemma_sort_pass_inputs_steady(plan, plan.children.len());
        let nodes = sort_pass_inputs(plan, plan.children.len())->Ok_0;
        lemma_with_sort_lineage_steady(nodes, plan);
        lemma_ensured_steady(with_sort_lineage(nodes, plan)->Ok_0);
    }
}

/// After the sort-enforcement pass over a plan whose windows all take
/// their partitions as sorted and whose sources are all bounded, the
/// windows all take their partitions as sorted and the sources are all
/// bounded.
pub proof fn theorem_sort_enforcement_keeps_plans_steady(plan: PlanView)
    requires
        steady(plan),
        sort_pass(plan) is Ok,
    ensures
        steady(sort_pass(plan)->Ok_0.plan),
{
    lemma_sort_pass_steady(plan);
}

/// What lies below the repartitions at the top of a steady plan is
/// steady.
pub proof fn lemma_below_matching_repartitions_steady(plan: PlanView, parent: PlanView)
    requires
        steady(plan),
        below_matching_repartitions(plan, parent) is Ok,
    ensures
        steady(below_matching_repartitions(plan, parent)->Ok_0),
    decreases plan,
{
    if below_matching_repartitions(plan, parent)->Ok_0 != plan {
        assert(steady(plan.children[0]));
        lemma_below_matching_repartitions_steady(plan.children[0], parent);
    }
}

/// The inputs of the root of a steady tree, with the coalesces below the
/// first `k` tracked slots removed, are steady.
pub proof fn lemma_coalesce_patched_inputs_steady(tree: TreeView, k: nat)
    requires
        tree_steady(tree),
        k <= tree.children.len(),
        coalesce_patched_inputs(tree, k) is Ok,
    ensures
        coalesce_patched_inputs(tree, k)->Ok_0.len() == tree.plan.children.len(),
        forall|j: int|
            0 <= j < tree.plan.children.len() ==> steady(
                #[trigger] coalesce_patched_inputs(tree, k)->Ok_0[j],
            ),
    decreases tree, k,
{
    if k > 0 {
        lemma_coalesce_patched_inputs_steady(tree, (k - 1) as nat);
        let before = coalesce_patched_inputs(tree, (k - 1) as nat)->Ok_0;
        let item = tree.children[k - 1];
        assert(tree_steady(item));
        lemma_without_coalesce_steady(item, tree.plan);
        let inputs = coalesce_patched_inputs(tree, k)->Ok_0;
        assert forall|j: int| 0 <= j < tree.plan.children.len() implies steady(
            #[trigger] inputs[j],
        ) by {
            if j != item.idx {
                assert(inputs[j] == before[j]);
            }
        }
    } else {
        assert forall|j: int| 0 <= j < tree.plan.children.len() implies steady(
            #[trigger] tree.plan.children[j],
        ) by {}
    }
}

/// Removing the coalesces at the leaves of a steady lineage tree gives a
/// steady plan.
pub proof fn lemma_without_coalesce_steady(tree: TreeView, parent: PlanView)
    requires
        tree_steady(tree),
        without_coalesce(tree, parent) is Ok,
    ensures
        steady(without_coalesce(tree, parent)->Ok_0),
    decreases tree, tree.children.len() + 1,
{
    let plan = tree.plan;
    if plan.is_coalesce_partitions() {
        assert(steady(plan.children[0]));
        lemma_below_matching_repartitions_steady(plan.children[0], parent);
    } else {
        lemma_coalesce_patched_inputs_steady(tree, tree.children.len());
        let inputs = coalesce_patched_inputs(tree, tree.children.len())->Ok_0;
        let q = plan.with_new_children(inputs)->0;
        assert forall|i: int| 0 <= i < q.children.len() implies steady(#[trigger] q.children[i]) by {
            assert(q.children[i] == inputs[i]);
        }
    }
}

/// Sort parallelization at a steady node gives a steady node.
pub proof fn lemma_parallelized_steady(node: TrackedView)
    requires
        item_steady(node),
        parallelized(node) is Ok,
    ensures
        item_steady(parallelized(node)->Ok_0),
{
    let plan = node.plan;
    let out = parallelized(node)->Ok_0;
    if out != node {
        let tree = first_slot(node.lineage)->0;
        assert(node.lineage[0] matches Some(t) ==> tree_steady(t));
        lemma_without_coalesce_steady(tree, plan);
        let below = without_coalesce(tree, plan)->Ok_0;
        if (plan.is_sort() || plan.is_sort_preserving_merge()) && plan.partition_count() <= 1 {
            let found = crate::surgery::sort_exprs_of(plan)->Ok_0;
            lemma_sort_above_steady(below, crate::ordering::exact_requirements(found.0), found.1);
            assert forall|i: int| 0 <= i < out.plan.children.len() implies steady(
                #[trigger] out.plan.children[i],
            ) by {
                assert(out.plan.children[i] == sort_above(
                    below,
                    crate::ordering::exact_requirements(found.0),
                    found.1,
                ));
            }
        } else {
            assert forall|i: int| 0 <= i < out.plan.children.len() implies steady(
                #[trigger] out.plan.children[i],
            ) by {
                assert(out.plan.children[i] == below);
            }
        }
    }
}

/// The lineage of the first `k` slots that continues through a steady
/// node is steady.
pub proof fn lemma_kept_coalesce_lineage_steady(item: TrackedView, k: nat)
    requires
        item_steady(item),
    ensures
        forall|m: int|
            0 <= m < kept_coalesce_lineage(item, k).len() ==> tree_steady(
                #[trigger] kept_coalesce_lineage(item, k)[m],
            ),
    decreases k,
{
    if k > 0 && k <= item.lineage.len() {
        lemma_kept_coalesce_lineage_steady(item, (k - 1) as nat);
        let front = kept_coalesce_lineage(item, (k - 1) as nat);
        let now = kept_coalesce_lineage(item, k);
        assert forall|m: int| 0 <= m < now.len() implies tree_steady(#[trigger] now[m]) by {
            if m < front.len() {
                assert(now[m] == front[m]);
            } else {
                assert(now[m] == item.lineage[k - 1]->0);
            }
        }
    }
}

/// A steady parent rebuilt over steady rewritten inputs, with their
/// coalesce lineage, is steady.
pub proof fn lemma_with_coalesce_lineage_steady(children: Seq<TrackedView>, parent: PlanView)
    requires
        steady_operator(parent.op),
        forall|i: int| 0 <= i < children.len() ==> item_steady(#[trigger] children[i]),
        with_coalesce_lineage(children, parent) is Ok,
    ensures
        item_steady(with_coalesce_lineage(children, parent)->Ok_0),
{
    let node = with_coalesce_lineage(children, parent)->Ok_0;
    assert(node.plan.children =~= plans_of(children));
    assert forall|i: int| 0 <= i < node.plan.children.len() implies steady(
        #[trigger] node.plan.children[i],
    ) by {
        assert(item_steady(children[i]));
    }
    assert forall|i: int| 0 <= i < node.lineage.len() implies ((
    #[trigger] node.lineage[i]) matches Some(t) ==> tree_steady(t)) by {
        assert(item_steady(children[i]));
        lemma_kept_coalesce_lineage_steady(children[i], children[i].lineage.len());
    }
}

/// The inputs of a steady plan after the parallelization pass are steady.
pub proof fn lemma_parallel_pass_inputs_steady(plan: PlanView, k: nat)
    requires
        steady(plan),
        k <= plan.children.len(),
        parallel_pass_inputs(plan, k) is Ok,
    ensures
        parallel_pass_inputs(plan, k)->Ok_0.len() == k,
        forall|i: int|
            0 <= i < k ==> item_steady(#[trigger] parallel_pass_inputs(plan, k)->Ok_0[i]),
    decreases plan, k,
{
    if k > 0 {
        lemma_parallel_pass_inputs_steady(plan, (k - 1) as nat);
        assert(steady(plan.children[k - 1]));
        lemma_parallel_pass_steady(plan.children[k - 1]);
    }
}

/// The parallelization pass over a steady plan gives a steady node.
pub proof fn lemma_parallel_pass_steady(plan: PlanView)
    requires
        steady(plan),
        parallel_pass(plan) is Ok,
    ensures
        item_steady(parallel_pass(plan)->Ok_0),
    decreases plan, plan.children.len() + 1,
{
    if plan.children.len() == 0 {
        lemma_parallelized_steady(untracked(plan));
    } else {
        lemma_parallel_pass_inputs_steady(plan, plan.children.len());
        let nodes = parallel_pass_inputs(plan, plan.children.len())->Ok_0;
        lemma_with_coalesce_lineage_steady(nodes, plan);
        lemma_parallelized_steady(with_coalesce_lineage(nodes, plan)->Ok_0);
    }
}

/// After the rewrite of a plan whose windows all take their partitions as
/// sorted and whose sources are all bounded, with or without sort
/// parallelization, the windows all take their partitions as sorted and
/// the sources are all bounded.
pub proof fn theorem_rewrite_keeps_plans_steady(plan: PlanView, repartition_sorts: bool)
    requires
        steady(plan),
        optimized(plan, repartition_sorts) is Ok,
    ensures
        steady(optimized(plan, repartition_sorts)->Ok_0),
        sorted_windows(optimized(plan, repartition_sorts)->Ok_0),
{
    lemma_sort_pass_steady(plan);
    if repartition_sorts {
        lemma_parallel_pass_steady(sort_pass(plan)->Ok_0.plan);
    }
    lemma_steady_is_bounded(optimized(plan, repartition_sorts)->Ok_0);
}

/// Ordering correctness of sort enforcement: after the pass over a plan
/// whose windows all take their partitions as sorted and whose sources
/// are all bounded, every input meets the ordering that the node above it
/// asks, whether or not the requirements were met before.
pub proof fn theorem_sort_enforcement_orders_steady_plans(plan: PlanView)
    requires
        steady(plan),
        sort_pass(plan) is Ok,
    ensures
        orderings_met(sort_pass(plan)->Ok_0.plan),
{
    lemma_steady_is_bounded(plan);
    lemma_sort_pass_steady(plan);
    lemma_steady_is_bounded(sort_pass(plan)->Ok_0.plan);
    theorem_sort_enforcement_meets_requirements(plan);
}

/// Ordering correctness of the whole rewrite: after the rewrite of a
/// well-formed plan in which every node yields at least one partition,
/// orderings follow partitions, every window takes its partitions as
/// sorted and every source is bounded, every input meets the ordering
/// that the node above it asks, with or without sort parallelization.
pub proof fn theorem_rewrite_orders_steady_plans(plan: PlanView, repartition_sorts: bool)
    requires
        plan.well_formed(),
        yields_partitions(plan),
        ordering_follows_partitions(plan),
        steady(plan),
    ensures
        optimized(plan, repartition_sorts) is Ok,
        orderings_met(optimized(plan, repartition_sorts)->Ok_0),
{
    lemma_steady_is_bounded(plan);
    theorem_rewrite_meets_requirements(plan, repartition_sorts);
    theorem_rewrite_keeps_plans_steady(plan, repartition_sorts);
}

} // verus!
