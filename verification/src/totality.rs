//! When the rewrites succeed: on every well-formed plan.

use crate::enforce::{
    enforce_slot, enforce_slots, ensured, first_slot, immediate_sort_removal, parallelized,
    tracked_slots,
};
use crate::lineage::{
    coalesce_lineage_through, first_through, kept_coalesce_lineage, kept_sort_lineage,
    lemma_first_through, lineage_below, plans_of, sort_lineage_through, untracked,
    with_coalesce_lineage, with_sort_lineage, TrackedView, TreeView,
};
use crate::model::{OperatorView, PlanView, SearchModeView};
use crate::optimizer::{optimized, parallel_pass, parallel_pass_inputs, sort_pass, sort_pass_inputs};
use crate::ordering::SortRequirement;
use crate::surgery::{
    below_matching_repartitions, coalesce_patched_inputs, consolidated, sort_above,
    sort_patched_inputs, sort_stripped, without_coalesce, without_sort,
};
use crate::window::{fitting_window, window_answer, window_over_sorted_input, window_without_sort};
use vstd::prelude::*;

verus! {

/// Whether a lineage tree fits the plans it speaks of: each plan is
/// well-formed, and each subtree was reached through a slot that its
/// parent has.
pub open spec fn tree_fits(tree: TreeView) -> bool
    decreases tree,
{
    &&& tree.plan.well_formed()
    &&& forall|k: int|
        0 <= k < tree.children.len() ==> tree_fits(#[trigger] tree.children[k]) && 0
            <= tree.children[k].idx < tree.plan.children.len()
}

/// Whether each lineage tree fits and is recorded at the slot it was
/// reached through, which is one of the first `n` slots.
pub open spec fn slots_fit(lineage: Seq<Option<TreeView>>, n: nat) -> bool {
    forall|i: int|
        0 <= i < lineage.len() ==> match #[trigger] lineage[i] {
            Some(tree) => tree_fits(tree) && tree.idx == i && i < n,
            None => true,
        }
}

/// Whether a rewritten node fits: its plan is well-formed and its lineage
/// fits its slots.
pub open spec fn item_fits(node: TrackedView) -> bool {
    node.plan.well_formed() && slots_fit(node.lineage, node.plan.children.len())
}

/// Whether a node fits and has a lineage entry for each slot.
pub open spec fn node_fits(node: TrackedView) -> bool {
    item_fits(node) && node.lineage.len() == node.plan.children.len()
}

/// A node is well-formed if its operator accepts its inputs and they are
/// well-formed.
pub proof fn lemma_well_formed(op: OperatorView, children: Seq<PlanView>)
    requires
        op.accepts(children.len()),
        forall|i: int| 0 <= i < children.len() ==> (#[trigger] children[i]).well_formed(),
    ensures
        (PlanView { op, children }).well_formed(),
{
}

/// A node over a single well-formed input is well-formed if its operator
/// takes one input.
pub proof fn lemma_unary_well_formed(op: OperatorView, input: PlanView)
    requires
        op.accepts(1),
        input.well_formed(),
    ensures
        (PlanView { op, children: seq![input] }).well_formed(),
{
    lemma_well_formed(op, seq![input]);
}

/// A sort above a well-formed plan is well-formed.
pub proof fn lemma_sort_above_fits(node: PlanView, reqs: Seq<SortRequirement>, fetch: Option<usize>)
    requires
        node.well_formed(),
    ensures
        sort_above(node, reqs, fetch).well_formed(),
{
    let sorted = sort_above(node, reqs, fetch);
    if sorted != node {
        lemma_unary_well_formed(sorted.op, node);
    }
}

/// Bringing the partitions of a well-formed plan together gives a
/// well-formed plan.
pub proof fn lemma_consolidated_fits(plan: PlanView)
    requires
        plan.well_formed(),
    ensures
        consolidated(plan).well_formed(),
{
    lemma_unary_well_formed(consolidated(plan).op, plan);
}

/// The repair of the tracked slots of a fitting tree succeeds and gives
/// well-formed inputs.
pub proof fn lemma_sort_patched_inputs_fit(tree: TreeView, k: nat)
    requires
        tree_fits(tree),
        k <= tree.children.len(),
    ensures
        sort_patched_inputs(tree, k) is Ok,
        sort_patched_inputs(tree, k)->Ok_0.len() == tree.plan.children.len(),
        forall|j: int|
            0 <= j < tree.plan.children.len() ==> (#[trigger] sort_patched_inputs(
                tree,
                k,
            )->Ok_0[j]).well_formed(),
    decreases tree, k,
{
    if k > 0 {
        lemma_sort_patched_inputs_fit(tree, (k - 1) as nat);
        let before = sort_patched_inputs(tree, (k - 1) as nat)->Ok_0;
        let item = tree.children[k - 1];
        assert(tree_fits(item));
        let single = tree.plan.requires_single_partition(item.idx);
        lemma_without_sort_fits(item, single);
        let inputs = before.update(item.idx, without_sort(item, single)->Ok_0);
        assert(sort_patched_inputs(tree, k) == Ok::<Seq<PlanView>, crate::error::PlanError>(inputs));
        assert forall|j: int| 0 <= j < tree.plan.children.len() implies (#[trigger] inputs[j]).well_formed() by {
            if j != item.idx {
                assert(inputs[j] == before[j]);
            }
        }
    }
}

/// Removing the sorts at the leaves of a fitting lineage tree succeeds
/// and gives a well-formed plan.
pub proof fn lemma_without_sort_fits(tree: TreeView, single: bool)
    requires
        tree_fits(tree),
    ensures
        without_sort(tree, single) is Ok,
        without_sort(tree, single)->Ok_0.well_formed(),
    decreases tree, tree.children.len() + 1,
{
    let plan = tree.plan;
    let updated: PlanView = if plan.is_sort() {
        assert(plan.children[0].well_formed());
        plan.children[0]
    } else {
        lemma_sort_patched_inputs_fit(tree, tree.children.len());
        let inputs = sort_patched_inputs(tree, tree.children.len())->Ok_0;
        if plan.is_sort_preserving_merge() {
            inputs[0]
        } else if plan.op is Repartition {
            let q = PlanView {
                op: OperatorView::Repartition {
                    partitioning: plan.op->partitioning,
                    preserve_order: false,
                },
                children: seq![inputs[0]],
            };
            lemma_unary_well_formed(q.op, inputs[0]);
            q
        } else {
            lemma_well_formed(plan.op, inputs);
            plan.with_new_children(inputs)->0
        }
    };
    assert(updated.well_formed());
    if single && updated.partition_count() > 1 {
        lemma_consolidated_fits(updated);
    }
}

/// The lineage that a node carries, read off a fitting lineage tree
/// rooted at the node, fits.
pub proof fn lemma_lineage_below_fits(tree: Option<TreeView>, n: nat)
    requires
        tree matches Some(t) ==> tree_fits(t),
    ensures
        slots_fit(lineage_below(tree, n), n),
{
    let below = lineage_below(tree, n);
    assert forall|i: int| 0 <= i < below.len() implies match #[trigger] below[i] {
        Some(t) => tree_fits(t) && t.idx == i && i < n,
        None => true,
    } by {
        match tree {
            Some(t) => {
                if first_through(t.children, i, t.children.len()) is Some {
                    lemma_first_through(t.children, i, t.children.len());
                    let m = choose|m: int|
                        0 <= m < t.children.len() && t.children[m] == first_through(
                            t.children,
                            i,
                            t.children.len(),
                        )->0;
                    assert(tree_fits(t.children[m]));
                }
            },
            None => {},
        }
    }
}

/// What replaces a removable sort fits.
pub proof fn lemma_immediate_removal_fits(node: TrackedView)
    requires
        node_fits(node),
        immediate_sort_removal(node.plan, node.lineage) is Some,
    ensures
        item_fits(immediate_sort_removal(node.plan, node.lineage)->0),
{
    let plan = node.plan;
    let out = immediate_sort_removal(plan, node.lineage)->0;
    let input = plan.children[0];
    assert(input.well_formed());
    match plan.op {
        OperatorView::Sort { expr, preserve_partitioning, .. } => {
            if !preserve_partitioning && input.partition_count() > 1 {
                lemma_unary_well_formed(out.plan.op, input);
                assert(tree_fits(out.lineage[0]->0));
            } else {
                lemma_lineage_below_fits(first_slot(node.lineage), input.children.len());
            }
        },
        _ => {},
    }
}

/// The state of the slots of a node during sort enforcement: every input
/// is well-formed and the lineage fits.
pub open spec fn slots_state_fits(plan: PlanView, inputs: Seq<PlanView>, lineage: Seq<Option<TreeView>>) -> bool {
    &&& inputs.len() == plan.children.len()
    &&& lineage.len() == plan.children.len()
    &&& forall|j: int| 0 <= j < inputs.len() ==> (#[trigger] inputs[j]).well_formed()
    &&& slots_fit(lineage, plan.children.len())
}

/// Bringing one more slot in line succeeds and keeps the state of the
/// slots.
pub proof fn lemma_enforce_slot_fits(
    plan: PlanView,
    inputs: Seq<PlanView>,
    lineage: Seq<Option<TreeView>>,
    idx: nat,
)
    requires
        slots_state_fits(plan, inputs, lineage),
        idx < inputs.len(),
    ensures
        enforce_slot(plan, inputs, lineage, idx as int) is Ok,
        slots_state_fits(
            plan,
            enforce_slot(plan, inputs, lineage, idx as int)->Ok_0.0,
            enforce_slot(plan, inputs, lineage, idx as int)->Ok_0.1,
        ),
{
    let child = inputs[idx as int];
    assert(child.well_formed());
    let slot = lineage[idx as int];
    match slot {
        Some(tree) => {
            lemma_without_sort_fits(tree, plan.requires_single_partition(tree.idx));
        },
        None => {},
    }
    let stripped = sort_stripped(child, slot, plan)->Ok_0;
    match plan.required_input_ordering(idx as int) {
        Some(required) => {
            lemma_sort_above_fits(stripped, required, None);
            lemma_sort_above_fits(child, required, None);
        },
        None => {},
    }
    let out = enforce_slot(plan, inputs, lineage, idx as int)->Ok_0;
    let new_inputs = out.0;
    let new_lineage = out.1;
    assert forall|j: int| 0 <= j < new_inputs.len() implies (#[trigger] new_inputs[j]).well_formed() by {
        if j != idx {
            assert(new_inputs[j] == inputs[j]);
        }
    }
    assert forall|i: int| 0 <= i < new_lineage.len() implies match #[trigger] new_lineage[i] {
        Some(tree) => tree_fits(tree) && tree.idx == i && i < plan.children.len(),
        None => true,
    } by {
        if i != idx {
            assert(new_lineage[i] == lineage[i]);
        }
    }
}

/// Bringing the first `k` slots in line succeeds and keeps the state of
/// the slots.
pub proof fn lemma_enforce_slots_fit(node: TrackedView, k: nat)
    requires
        node_fits(node),
        k <= node.plan.children.len(),
    ensures
        enforce_slots(node, k) is Ok,
        slots_state_fits(node.plan, enforce_slots(node, k)->Ok_0.0, enforce_slots(node, k)->Ok_0.1),
    decreases k,
{
    if k > 0 {
        lemma_enforce_slots_fit(node, (k - 1) as nat);
        let before = enforce_slots(node, (k - 1) as nat)->Ok_0;
        lemma_enforce_slot_fits(node.plan, before.0, before.1, (k - 1) as nat);
    } else {
        assert forall|j: int| 0 <= j < node.plan.children.len() implies (#[trigger] node.plan.children[j]).well_formed() by {}
    }
}

/// Rewriting a well-formed window around a fitting lineage tree succeeds
/// and gives a node that fits, whatever the window analysis answered.
pub proof fn lemma_window_without_sort_fits(
    tree: TreeView,
    window: PlanView,
    answer: Option<(bool, SearchModeView)>,
)
    requires
        tree_fits(tree),
        window.well_formed(),
        window.is_window(),
    ensures
        window_without_sort(tree, window, answer) is Ok,
        item_fits(window_without_sort(tree, window, answer)->Ok_0),
{
    let single = window.requires_single_partition(tree.idx);
    lemma_without_sort_fits(tree, single);
    let child = without_sort(tree, single)->Ok_0;
    match fitting_window(window.op->window_expr, child, window.op->partition_keys, answer) {
        Some(w) => {
            lemma_unary_well_formed(w.op, child);
        },
        None => {
            let w = window_over_sorted_input(window, child);
            let reqs = match window.required_input_ordering(0) {
                Some(r) => r,
                None => Seq::empty(),
            };
            lemma_sort_above_fits(child, reqs, None);
            lemma_unary_well_formed(w.op, sort_above(child, reqs, None));
        },
    }
}

/// Sort enforcement at a node that fits succeeds and gives a node that
/// fits.
pub proof fn lemma_ensured_fits(node: TrackedView)
    requires
        node_fits(node),
    ensures
        ensured(node) is Ok,
        item_fits(ensured(node)->Ok_0),
{
    let plan = node.plan;
    if plan.children.len() == 0 {
    } else if immediate_sort_removal(plan, node.lineage) is Some {
        lemma_immediate_removal_fits(node);
    } else {
        assert(tracked_slots(node) == plan.children.len());
        lemma_enforce_slots_fit(node, plan.children.len());
        let state = enforce_slots(node, plan.children.len())->Ok_0;
        let inputs = state.0;
        let lineage = state.1;
        if plan.is_window() && first_slot(lineage) is Some {
            lemma_window_without_sort_fits(
                first_slot(lineage)->0,
                plan,
                window_answer(first_slot(lineage)->0, plan),
            );
        } else if !plan.is_window() && plan.is_sort_preserving_merge() && inputs[0].partition_count()
            <= 1 {
            assert(inputs[0].well_formed());
            lemma_lineage_below_fits(first_slot(lineage), inputs[0].children.len());
        } else {
            lemma_well_formed(plan.op, inputs);
        }
    }
}

/// The lineage of the first `k` slots that continues through a node
/// fits the node.
pub proof fn lemma_kept_sort_lineage_fits(item: TrackedView, k: nat)
    requires
        item_fits(item),
    ensures
        forall|m: int|
            0 <= m < kept_sort_lineage(item, k).len() ==> {
                &&& tree_fits(#[trigger] kept_sort_lineage(item, k)[m])
                &&& 0 <= kept_sort_lineage(item, k)[m].idx < item.plan.children.len()
            },
    decreases k,
{
    if k > 0 {
        lemma_kept_sort_lineage_fits(item, (k - 1) as nat);
    }
}

/// A well-formed parent rebuilt over as many rewritten inputs as it had,
/// each of which fits, fits.
pub proof fn lemma_with_sort_lineage_fits(children: Seq<TrackedView>, parent: PlanView)
    requires
        parent.well_formed(),
        children.len() == parent.children.len(),
        forall|i: int| 0 <= i < children.len() ==> item_fits(#[trigger] children[i]),
    ensures
        with_sort_lineage(children, parent) is Ok,
        node_fits(with_sort_lineage(children, parent)->Ok_0),
{
    assert forall|i: int| 0 <= i < plans_of(children).len() implies (#[trigger] plans_of(
        children,
    )[i]).well_formed() by {
        assert(item_fits(children[i]));
    }
    lemma_well_formed(parent.op, plans_of(children));
    let node = with_sort_lineage(children, parent)->Ok_0;
    assert forall|i: int| 0 <= i < node.lineage.len() implies match #[trigger] node.lineage[i] {
        Some(tree) => tree_fits(tree) && tree.idx == i && i < node.plan.children.len(),
        None => true,
    } by {
        let item = children[i];
        assert(item_fits(item));
        assert(node.lineage[i] == sort_lineage_through(item, i));
        lemma_kept_sort_lineage_fits(item, item.plan.children.len());
    }
}

/// The sort-enforcement pass succeeds on the inputs of a well-formed
/// plan.
pub proof fn lemma_sort_pass_inputs_fit(plan: PlanView, k: nat)
    requires
        plan.well_formed(),
        k <= plan.children.len(),
    ensures
        sort_pass_inputs(plan, k) is Ok,
        sort_pass_inputs(plan, k)->Ok_0.len() == k,
        forall|i: int| 0 <= i < k ==> item_fits(#[trigger] sort_pass_inputs(plan, k)->Ok_0[i]),
    decreases plan, k,
{
    if k > 0 {
        lemma_sort_pass_inputs_fit(plan, (k - 1) as nat);
        assert(plan.children[k - 1].well_formed());
        lemma_sort_pass_fits(plan.children[k - 1]);
    }
}

/// The sort-enforcement pass succeeds on every well-formed plan, and
/// gives a well-formed plan.
pub proof fn lemma_sort_pass_fits(plan: PlanView)
    requires
        plan.well_formed(),
    ensures
        sort_pass(plan) is Ok,
        item_fits(sort_pass(plan)->Ok_0),
    decreases plan, plan.children.len() + 1,
{
    if plan.children.len() == 0 {
        lemma_ensured_fits(untracked(plan));
    } else {
        lemma_sort_pass_inputs_fit(plan, plan.children.len());
        let nodes = sort_pass_inputs(plan, plan.children.len())->Ok_0;
        lemma_with_sort_lineage_fits(nodes, plan);
        lemma_ensured_fits(with_sort_lineage(nodes, plan)->Ok_0);
    }
}

/// What lies below the repartitions at the top of a well-formed plan is
/// well-formed.
pub proof fn lemma_below_matching_repartitions_fits(plan: PlanView, parent: PlanView)
    requires
        plan.well_formed(),
    ensures
        below_matching_repartitions(plan, parent) is Ok,
        below_matching_repartitions(plan, parent)->Ok_0.well_formed(),
    decreases plan,
{
    if plan.op is Repartition && parent.op is Repartition && (plan.op->partitioning).same_as(
        parent.op->partitioning,
    ) {
        assert(plan.children[0].well_formed());
        lemma_below_matching_repartitions_fits(plan.children[0], parent);
    }
}

/// The repair of the tracked slots of a fitting tree succeeds and gives
/// well-formed inputs.
pub proof fn lemma_coalesce_patched_inputs_fit(tree: TreeView, k: nat)
    requires
        tree_fits(tree),
        k <= tree.children.len(),
    ensures
        coalesce_patched_inputs(tree, k) is Ok,
        coalesce_patched_inputs(tree, k)->Ok_0.len() == tree.plan.children.len(),
        forall|j: int|
            0 <= j < tree.plan.children.len() ==> (#[trigger] coalesce_patched_inputs(
                tree,
                k,
            )->Ok_0[j]).well_formed(),
    decreases tree, k,
{
    if k > 0 {
        lemma_coalesce_patched_inputs_fit(tree, (k - 1) as nat);
        let before = coalesce_patched_inputs(tree, (k - 1) as nat)->Ok_0;
        let item = tree.children[k - 1];
        assert(tree_fits(item));
        lemma_without_coalesce_fits(item, tree.plan);
        let inputs = before.update(item.idx, without_coalesce(item, tree.plan)->Ok_0);
        assert(coalesce_patched_inputs(tree, k) == Ok::<Seq<PlanView>, crate::error::PlanError>(
            inputs,
        ));
        assert forall|j: int| 0 <= j < tree.plan.children.len() implies (#[trigger] inputs[j]).well_formed() by {
            if j != item.idx {
                assert(inputs[j] == before[j]);
            }
        }
    }
}

/// Removing the coalesces at the leaves of a fitting lineage tree
/// succeeds and gives a well-formed plan.
pub proof fn lemma_without_coalesce_fits(tree: TreeView, parent: PlanView)
    requires
        tree_fits(tree),
    ensures
        without_coalesce(tree, parent) is Ok,
        without_coalesce(tree, parent)->Ok_0.well_formed(),
    decreases tree, tree.children.len() + 1,
{
    let plan = tree.plan;
    if plan.is_coalesce_partitions() {
        assert(plan.children[0].well_formed());
        lemma_below_matching_repartitions_fits(plan.children[0], parent);
    } else {
        lemma_coalesce_patched_inputs_fit(tree, tree.children.len());
        let inputs = coalesce_patched_inputs(tree, tree.children.len())->Ok_0;
        lemma_well_formed(plan.op, inputs);
    }
}

/// Sort parallelization at a node that fits succeeds and gives a node
/// that fits.
pub proof fn lemma_parallelized_fits(node: TrackedView)
    requires
        node_fits(node),
    ensures
        parallelized(node) is Ok,
        item_fits(parallelized(node)->Ok_0),
{
    let plan = node.plan;
    if plan.children.len() == 0 || first_slot(node.lineage) is None {
    } else {
        let tree = first_slot(node.lineage)->0;
        assert(tree == node.lineage[0]->0);
        lemma_without_coalesce_fits(tree, plan);
        let below = without_coalesce(tree, plan)->Ok_0;
        if (plan.is_sort() || plan.is_sort_preserving_merge()) && plan.partition_count() <= 1 {
            let found = crate::surgery::sort_exprs_of(plan)->Ok_0;
            let sorted = sort_above(below, crate::ordering::exact_requirements(found.0), found.1);
            lemma_sort_above_fits(below, crate::ordering::exact_requirements(found.0), found.1);
            lemma_unary_well_formed(
                OperatorView::SortPreservingMerge { expr: found.0, fetch: found.1 },
                sorted,
            );
        } else if plan.is_coalesce_partitions() {
            lemma_unary_well_formed(plan.op, below);
        }
    }
}

/// The lineage of the first `k` slots that continues through a node
/// fits the node.
pub proof fn lemma_kept_coalesce_lineage_fits(item: TrackedView, k: nat)
    requires
        item_fits(item),
    ensures
        forall|m: int|
            0 <= m < kept_coalesce_lineage(item, k).len() ==> {
                &&& tree_fits(#[trigger] kept_coalesce_lineage(item, k)[m])
                &&& 0 <= kept_coalesce_lineage(item, k)[m].idx < item.plan.children.len()
            },
    decreases k,
{
    if k > 0 {
        lemma_kept_coalesce_lineage_fits(item, (k - 1) as nat);
    }
}

/// A well-formed parent rebuilt over as many rewritten inputs as it had,
/// each of which fits, fits.
pub proof fn lemma_with_coalesce_lineage_fits(children: Seq<TrackedView>, parent: PlanView)
    requires
        parent.well_formed(),
        children.len() == parent.children.len(),
        forall|i: int| 0 <= i < children.len() ==> item_fits(#[trigger] children[i]),
    ensures
        with_coalesce_lineage(children, parent) is Ok,
        node_fits(with_coalesce_lineage(children, parent)->Ok_0),
{
    assert forall|i: int| 0 <= i < plans_of(children).len() implies (#[trigger] plans_of(
        children,
    )[i]).well_formed() by {
        assert(item_fits(children[i]));
    }
    lemma_well_formed(parent.op, plans_of(children));
    let node = with_coalesce_lineage(children, parent)->Ok_0;
    assert forall|i: int| 0 <= i < node.lineage.len() implies match #[trigger] node.lineage[i] {
        Some(tree) => tree_fits(tree) && tree.idx == i && i < node.plan.children.len(),
        None => true,
    } by {
        let item = children[i];
        assert(item_fits(item));
        assert(node.lineage[i] == coalesce_lineage_through(item, i));
        lemma_kept_coalesce_lineage_fits(item, item.lineage.len());
    }
}

/// The parallelization pass succeeds on the inputs of a well-formed plan.
pub proof fn lemma_parallel_pass_inputs_fit(plan: PlanView, k: nat)
    requires
        plan.well_formed(),
        k <= plan.children.len(),
    ensures
        parallel_pass_inputs(plan, k) is Ok,
        parallel_pass_inputs(plan, k)->Ok_0.len() == k,
        forall|i: int| 0 <= i < k ==> item_fits(#[trigger] parallel_pass_inputs(plan, k)->Ok_0[i]),
    decreases plan, k,
{
    if k > 0 {
        lemma_parallel_pass_inputs_fit(plan, (k - 1) as nat);
        assert(plan.children[k - 1].well_formed());
        lemma_parallel_pass_fits(plan.children[k - 1]);
    }
}

/// The parallelization pass succeeds on every well-formed plan, and gives
/// a well-formed plan.
pub proof fn lemma_parallel_pass_fits(plan: PlanView)
    requires
        plan.well_formed(),
    ensures
        parallel_pass(plan) is Ok,
        item_fits(parallel_pass(plan)->Ok_0),
    decreases plan, plan.children.len() + 1,
{
    if plan.children.len() == 0 {
        lemma_parallelized_fits(untracked(plan));
    } else {
        lemma_parallel_pass_inputs_fit(plan, plan.children.len());
        let nodes = parallel_pass_inputs(plan, plan.children.len())->Ok_0;
        lemma_with_coalesce_lineage_fits(nodes, plan);
        lemma_parallelized_fits(with_coalesce_lineage(nodes, plan)->Ok_0);
    }
}

/// On every well-formed plan the rewrite succeeds, with or without sort
/// parallelization, and gives a well-formed plan.
pub proof fn theorem_rewrite_succeeds(plan: PlanView, repartition_sorts: bool)
    requires
        plan.well_formed(),
    ensures
        optimized(plan, repartition_sorts) is Ok,
        optimized(plan, repartition_sorts)->Ok_0.well_formed(),
{
    lemma_sort_pass_fits(plan);
    if repartition_sorts {
        lemma_parallel_pass_fits(sort_pass(plan)->Ok_0.plan);
    }
}

} // verus!
