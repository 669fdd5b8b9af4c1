//! What it means for a plan to have its single-partition requirements
//! met, and the proofs that sub-plan surgery and sort enforcement keep
//! them met.

use crate::enforce::{
    enforce_slot, enforce_slots, ensured, first_slot, immediate_sort_removal, parallelized,
    tracked_slots,
};
use crate::lineage::{
    coalesce_lineage_through, first_through, kept_coalesce_lineage, kept_sort_lineage,
    lemma_first_through, lineage_below, plans_of, sort_lineage_through, untracked,
    with_coalesce_lineage, with_sort_lineage, TrackedView, TreeView,
};
use crate::model::{OperatorView, PartitionSource, PlanView, SearchModeView};
use crate::optimizer::{parallel_pass, parallel_pass_inputs, sort_pass, sort_pass_inputs};
use crate::rerun::{lemma_tracks_is_own_lineage, tracks};
use crate::stability::{settled, theorem_settled_plan_is_left_alone, with_own_lineage};
use crate::ordering::{exact_requirements, SortRequirement};
use crate::surgery::{
    below_matching_repartitions, coalesce_patched_inputs, consolidated, sort_above, sort_exprs_of,
    sort_patched_inputs, sort_stripped, without_coalesce, without_sort,
};
use crate::window::{fitting_window, window_answer, window_over_sorted_input, window_without_sort};
use vstd::prelude::*;

verus! {

/// Whether input `i` of the node yields at most one partition if the node
/// asks for a single partition there.
pub open spec fn edge_partitioned(plan: PlanView, i: int) -> bool {
    plan.requires_single_partition(i) ==> plan.children[i].partition_count() <= 1
}

/// Whether throughout the tree every input of which a single partition is
/// asked yields at most one partition.
pub open spec fn distribution_met(plan: PlanView) -> bool
    decreases plan,
{
    forall|i: int|
        0 <= i < plan.children.len() ==> edge_partitioned(plan, i) && distribution_met(
            #[trigger] plan.children[i],
        )
}

/// Whether every plan of a lineage tree has its single-partition
/// requirements met.
pub open spec fn tree_partitioned(tree: TreeView) -> bool
    decreases tree,
{
    &&& distribution_met(tree.plan)
    &&& forall|k: int| 0 <= k < tree.children.len() ==> tree_partitioned(#[trigger] tree.children[k])
}

/// Whether each lineage tree has its single-partition requirements met
/// and is recorded at the slot it was reached through.
pub open spec fn slots_partitioned(lineage: Seq<Option<TreeView>>) -> bool {
    forall|i: int|
        0 <= i < lineage.len() ==> match #[trigger] lineage[i] {
            Some(tree) => tree_partitioned(tree) && tree.idx == i,
            None => true,
        }
}

/// Whether a rewritten node has its single-partition requirements met,
/// in its plan and in its lineage.
pub open spec fn item_partitioned(node: TrackedView) -> bool {
    distribution_met(node.plan) && slots_partitioned(node.lineage)
}

/// Whether a node has its single-partition requirements met and a lineage
/// entry for each slot.
pub open spec fn node_partitioned(node: TrackedView) -> bool {
    item_partitioned(node) && node.lineage.len() == node.plan.children.len()
}

/// Whether the partition keys of a window operator are its partition
/// columns, or none.
pub open spec fn window_keyed(plan: PlanView) -> bool {
    match plan.op {
        OperatorView::Window { window_expr, partition_keys, .. } => window_expr.len() > 0 && (
        partition_keys.len() == 0 || window_expr[0].partition_by.len() > 0),
        _ => true,
    }
}

/// Whether an operator yields at most one partition whatever its inputs
/// are.
pub open spec fn yields_single_partition(op: OperatorView) -> bool {
    match op {
        OperatorView::Source { partitions, .. } => partitions <= 1,
        OperatorView::Sort { preserve_partitioning, .. } => !preserve_partitioning,
        OperatorView::SortPreservingMerge { .. } => true,
        OperatorView::CoalescePartitions => true,
        OperatorView::Repartition { partitioning, .. } => partitioning.count() <= 1,
        OperatorView::GlobalLimit { .. } => true,
        OperatorView::Other { partitions, .. } => match partitions {
            PartitionSource::Fixed(n) => n <= 1,
            PartitionSource::Input(_) => false,
        },
        _ => false,
    }
}

/// The input from which an operator takes its partition count while it
/// leaves that input alone: a limit of each partition takes it from its
/// only input, and an operator without a kind of its own from the input
/// that it names, if it asks no ordering of that input and keeps the order
/// of its rows.
pub open spec fn passes_partitions_of(op: OperatorView) -> Option<int> {
    match op {
        OperatorView::LocalLimit { .. } => Some(0),
        OperatorView::Other { inputs, partitions, .. } => match partitions {
            PartitionSource::Input(j) => if j < inputs.len() && inputs[j as int].required_ordering
                is None && inputs[j as int].maintains_order {
                Some(j as int)
            } else {
                None
            },
            PartitionSource::Fixed(_) => None,
        },
        _ => None,
    }
}

/// The input whose partition count is the partition count of the
/// operator: the only input of a sort that sorts each partition on its
/// own, of a limit of each partition and of a window, and the input that
/// an operator without a kind of its own names.
pub open spec fn counts_from(op: OperatorView) -> Option<int> {
    match op {
        OperatorView::Sort { preserve_partitioning, .. } => if preserve_partitioning {
            Some(0)
        } else {
            None
        },
        OperatorView::LocalLimit { .. } | OperatorView::Window { .. } => Some(0),
        OperatorView::Other { partitions, .. } => match partitions {
            PartitionSource::Input(j) => Some(j as int),
            PartitionSource::Fixed(_) => None,
        },
        _ => None,
    }
}

/// Whether the operator is a window that is not partitioned by any key, so
/// that it asks for a single partition and yields as many as its input.
pub open spec fn unkeyed_window(op: OperatorView) -> bool {
    match op {
        OperatorView::Window { partition_keys, .. } => partition_keys.len() == 0,
        _ => false,
    }
}

/// Whether sort enforcement leaves the plan alone and tracks no sort
/// through it, and the plan yields at most one partition.
pub open spec fn still(plan: PlanView) -> bool {
    plan.well_formed() && settled(plan) && !tracks(plan) && plan.partition_count() <= 1
}

/// Whether a plan keeps yielding a single partition under sort
/// enforcement: its operator yields one whatever its inputs are; or it is
/// a window that asks for a single partition itself; or it takes its
/// partition count from an input that it leaves alone and that keeps
/// yielding a single partition; or it takes its partition count from an
/// input that is still.
pub open spec fn keeps_single_partition(plan: PlanView) -> bool
    decreases plan,
{
    ||| yields_single_partition(plan.op)
    ||| unkeyed_window(plan.op) && plan.children.len() == 1
    ||| match passes_partitions_of(plan.op) {
        Some(j) => 0 <= j < plan.children.len() && keeps_single_partition(plan.children[j]),
        None => false,
    }
    ||| match counts_from(plan.op) {
        Some(j) => 0 <= j < plan.children.len() && still(plan.children[j]),
        None => false,
    }
}

/// Whether throughout the tree every input of which a single partition is
/// asked keeps yielding a single partition, and every window is keyed by
/// its partition columns.
pub open spec fn single_partitions_guarded(plan: PlanView) -> bool
    decreases plan,
{
    &&& window_keyed(plan)
    &&& forall|i: int|
        0 <= i < plan.children.len() ==> {
            &&& single_partitions_guarded(#[trigger] plan.children[i])
            &&& (plan.requires_single_partition(i) ==> keeps_single_partition(plan.children[i]))
        }
}

/// A sort placed above a plan keeps the single-partition requirements
/// met, and yields one partition if the plan yields at most one.
pub proof fn lemma_sort_above_partitioned(
    node: PlanView,
    reqs: Seq<SortRequirement>,
    fetch: Option<usize>,
)
    requires
        distribution_met(node),
    ensures
        distribution_met(sort_above(node, reqs, fetch)),
        node.partition_count() <= 1 ==> sort_above(node, reqs, fetch).partition_count() <= 1,
{
    let sorted = sort_above(node, reqs, fetch);
    if !node.ordering_satisfy_requirement(reqs) {
        assert(sorted.children[0] == node);
        assert forall|i: int| 0 <= i < sorted.children.len() implies edge_partitioned(sorted, i)
            && distribution_met(#[trigger] sorted.children[i]) by {
            assert(sorted.children[i] == node);
        }
        assert(sorted.input_partitions(0) == node.partition_count());
    }
}

/// Bringing the partitions of a plan together keeps the single-partition
/// requirements met and yields one partition.
pub proof fn lemma_consolidated_partitioned(plan: PlanView)
    requires
        distribution_met(plan),
    ensures
        distribution_met(consolidated(plan)),
        consolidated(plan).partition_count() == 1,
{
    let c = consolidated(plan);
    assert forall|i: int| 0 <= i < c.children.len() implies edge_partitioned(c, i)
        && distribution_met(#[trigger] c.children[i]) by {
        assert(c.children[i] == plan);
    }
}

/// The repaired inputs of a chain node have their single-partition
/// requirements met, and a replaced input yields at most one partition
/// where the node asks for one.
pub proof fn lemma_sort_patched_inputs_partitioned(tree: TreeView, k: nat)
    requires
        tree_partitioned(tree),
        k <= tree.children.len(),
        sort_patched_inputs(tree, k) is Ok,
    ensures
        ({
            let inputs = sort_patched_inputs(tree, k)->Ok_0;
            &&& inputs.len() == tree.plan.children.len()
            &&& forall|j: int| 0 <= j < inputs.len() ==> distribution_met(#[trigger] inputs[j])
            &&& forall|j: int|
                0 <= j < inputs.len() ==> (#[trigger] inputs[j]) == tree.plan.children[j] || (
                tree.plan.requires_single_partition(j) ==> inputs[j].partition_count() <= 1)
        }),
    decreases tree, k,
{
    if k > 0 {
        lemma_sort_patched_inputs_partitioned(tree, (k - 1) as nat);
        let before = sort_patched_inputs(tree, (k - 1) as nat)->Ok_0;
        let item = tree.children[k - 1];
        let single = tree.plan.requires_single_partition(item.idx);
        assert(tree_partitioned(item));
        lemma_without_sort_partitioned(item, single);
        let inputs = sort_patched_inputs(tree, k)->Ok_0;
        assert(inputs == before.update(item.idx, without_sort(item, single)->Ok_0));
        assert forall|j: int| 0 <= j < inputs.len() implies distribution_met(#[trigger] inputs[j]) by {
            if j != item.idx {
                assert(inputs[j] == before[j]);
            }
        }
        assert forall|j: int| 0 <= j < inputs.len() implies (#[trigger] inputs[j])
            == tree.plan.children[j] || (tree.plan.requires_single_partition(j)
            ==> inputs[j].partition_count() <= 1) by {
            if j != item.idx {
                assert(inputs[j] == before[j]);
            }
        }
    }
}

/// Removing the sorts at the leaves of a lineage tree keeps every
/// single-partition requirement met, and the result yields at most one
/// partition where the caller asks for one.
pub proof fn lemma_without_sort_partitioned(tree: TreeView, single: bool)
    requires
        tree_partitioned(tree),
        without_sort(tree, single) is Ok,
    ensures
        distribution_met(without_sort(tree, single)->Ok_0),
        single ==> without_sort(tree, single)->Ok_0.partition_count() <= 1,
    decreases tree, tree.children.len() + 1,
{
    let plan = tree.plan;
    let updated: PlanView = if plan.is_sort() {
        plan.children[0]
    } else {
        lemma_sort_patched_inputs_partitioned(tree, tree.children.len());
        let inputs = sort_patched_inputs(tree, tree.children.len())->Ok_0;
        if plan.is_sort_preserving_merge() {
            inputs[0]
        } else if plan.op is Repartition {
            let q = PlanView {
                op: OperatorView::Repartition {
                    partitioning: plan.op->partitioning,
                    preserve_order: false,
                },
                children: seq![inputs[0]],
            };
            assert forall|i: int| 0 <= i < q.children.len() implies edge_partitioned(q, i)
                && distribution_met(#[trigger] q.children[i]) by {
                assert(q.children[i] == inputs[0]);
            }
            q
        } else {
            let q = plan.with_new_children(inputs)->0;
            assert forall|i: int| 0 <= i < q.children.len() implies edge_partitioned(q, i)
                && distribution_met(#[trigger] q.children[i]) by {
                assert(distribution_met(inputs[i]));
                if inputs[i] == plan.children[i] {
                    assert(edge_partitioned(plan, i));
                }
            }
            q
        }
    };
    assert(distribution_met(updated));
    if single && updated.partition_count() > 1 {
        lemma_consolidated_partitioned(updated);
    }
}

/// The lineage that a node carries, read off a lineage tree rooted at the
/// node, has its single-partition requirements met.
pub proof fn lemma_lineage_below_partitioned(tree: Option<TreeView>, n: nat)
    requires
        tree matches Some(t) ==> tree_partitioned(t),
    ensures
        slots_partitioned(lineage_below(tree, n)),
{
    let below = lineage_below(tree, n);
    assert forall|i: int| 0 <= i < below.len() implies match #[trigger] below[i] {
        Some(t) => tree_partitioned(t) && t.idx == i,
        None => true,
    } by {
        match tree {
            Some(t) => {
                if first_through(t.children, i, t.children.len()) is Some {
                    lemma_first_through(t.children, i, t.children.len());
                    let m = choose|m: int|
                        0 <= m < t.children.len() && t.children[m] == first_through(
                            t.children,
                            i,
                            t.children.len(),
                        )->0;
                    assert(tree_partitioned(t.children[m]));
                }
            },
            None => {},
        }
    }
}

/// An operator that yields a single partition whatever its inputs are
/// does so over any inputs.
pub proof fn lemma_yields_single_partition(op: OperatorView, children: Seq<PlanView>)
    requires
        yields_single_partition(op),
    ensures
        (PlanView { op, children }).partition_count() <= 1,
{
}

/// What replaces a removable sort has its single-partition requirements
/// met, and yields at most one partition if the sort did.
pub proof fn lemma_immediate_removal_partitioned(node: TrackedView)
    requires
        node_partitioned(node),
        immediate_sort_removal(node.plan, node.lineage) is Some,
    ensures
        item_partitioned(immediate_sort_removal(node.plan, node.lineage)->0),
        yields_single_partition(node.plan.op) ==> immediate_sort_removal(
            node.plan,
            node.lineage,
        )->0.plan.partition_count() <= 1,
{
    let plan = node.plan;
    let out = immediate_sort_removal(plan, node.lineage)->0;
    let input = plan.children[0];
    assert(distribution_met(input));
    match plan.op {
        OperatorView::Sort { expr, preserve_partitioning, .. } => {
            if !preserve_partitioning && input.partition_count() > 1 {
                let merge = out.plan;
                assert forall|i: int| 0 <= i < merge.children.len() implies edge_partitioned(
                    merge,
                    i,
                ) && distribution_met(#[trigger] merge.children[i]) by {
                    assert(merge.children[i] == input);
                }
                assert(tree_partitioned(out.lineage[0]->0));
            } else {
                lemma_lineage_below_partitioned(first_slot(node.lineage), input.children.len());
            }
        },
        _ => {},
    }
}

/// The state of the slots of a node during sort enforcement: every input
/// has its single-partition requirements met and yields at most one
/// partition where the node asks for one, and so has the lineage.
pub open spec fn slots_state_partitioned(
    plan: PlanView,
    inputs: Seq<PlanView>,
    lineage: Seq<Option<TreeView>>,
) -> bool {
    &&& inputs.len() == plan.children.len()
    &&& lineage.len() == plan.children.len()
    &&& forall|j: int| 0 <= j < inputs.len() ==> distribution_met(#[trigger] inputs[j])
    &&& forall|j: int|
        0 <= j < inputs.len() ==> (plan.requires_single_partition(j) ==> (
        #[trigger] inputs[j]).partition_count() <= 1)
    &&& (passes_partitions_of(plan.op) matches Some(j) ==> j < inputs.len() ==> inputs[j]
        == plan.children[j])
    &&& slots_partitioned(lineage)
}

/// Bringing one more slot in line keeps the single-partition requirements
/// met.
pub proof fn lemma_enforce_slot_partitioned(
    plan: PlanView,
    inputs: Seq<PlanView>,
    lineage: Seq<Option<TreeView>>,
    idx: nat,
)
    requires
        slots_state_partitioned(plan, inputs, lineage),
        idx < inputs.len(),
        enforce_slot(plan, inputs, lineage, idx as int) is Ok,
    ensures
        slots_state_partitioned(
            plan,
            enforce_slot(plan, inputs, lineage, idx as int)->Ok_0.0,
            enforce_slot(plan, inputs, lineage, idx as int)->Ok_0.1,
        ),
{
    let child = inputs[idx as int];
    let out = enforce_slot(plan, inputs, lineage, idx as int)->Ok_0;
    let new_inputs = out.0;
    let new_lineage = out.1;
    assert(distribution_met(child));
    let slot = lineage[idx as int];
    match (plan.required_input_ordering(idx as int), child.output_ordering()) {
        (Some(required), Some(_)) => {
            if !child.ordering_satisfy_requirement(required) {
                let stripped = sort_stripped(child, slot, plan)->Ok_0;
                match slot {
                    Some(tree) => {
                        lemma_without_sort_partitioned(
                            tree,
                            plan.requires_single_partition(tree.idx),
                        );
                    },
                    None => {},
                }
                lemma_sort_above_partitioned(stripped, required, None);
            }
        },
        (Some(required), None) => {
            lemma_sort_above_partitioned(child, required, None);
        },
        (None, Some(_)) => {
            if !plan.maintains_input_order(idx as int) || plan.is_union() {
                match slot {
                    Some(tree) => {
                        lemma_without_sort_partitioned(
                            tree,
                            plan.requires_single_partition(tree.idx),
                        );
                    },
                    None => {},
                }
            }
        },
        (None, None) => {},
    }
    assert forall|j: int| 0 <= j < new_inputs.len() implies distribution_met(
        #[trigger] new_inputs[j],
    ) by {
        if j != idx {
            assert(new_inputs[j] == inputs[j]);
        }
    }
    assert forall|j: int| 0 <= j < new_inputs.len() implies (plan.requires_single_partition(j) ==> (
    #[trigger] new_inputs[j]).partition_count() <= 1) by {
        if j != idx {
            assert(new_inputs[j] == inputs[j]);
        }
    }
    assert forall|i: int| 0 <= i < new_lineage.len() implies match #[trigger] new_lineage[i] {
        Some(tree) => tree_partitioned(tree) && tree.idx == i,
        None => true,
    } by {
        if i != idx {
            assert(new_lineage[i] == lineage[i]);
        }
    }
}

/// Bringing the first `k` slots in line keeps the single-partition
/// requirements met.
pub proof fn lemma_enforce_slots_partitioned(node: TrackedView, k: nat)
    requires
        node_partitioned(node),
        k <= node.plan.children.len(),
        enforce_slots(node, k) is Ok,
    ensures
        slots_state_partitioned(
            node.plan,
            enforce_slots(node, k)->Ok_0.0,
            enforce_slots(node, k)->Ok_0.1,
        ),
    decreases k,
{
    if k > 0 {
        lemma_enforce_slots_partitioned(node, (k - 1) as nat);
        let before = enforce_slots(node, (k - 1) as nat)->Ok_0;
        lemma_enforce_slot_partitioned(node.plan, before.0, before.1, (k - 1) as nat);
    } else {
        assert forall|j: int| 0 <= j < node.plan.children.len() implies distribution_met(
            #[trigger] node.plan.children[j],
        ) && (node.plan.requires_single_partition(j) ==> node.plan.children[j].partition_count()
            <= 1) by {
            assert(edge_partitioned(node.plan, j));
        }
    }
}

/// A window rewritten around its tracked sort has its single-partition
/// requirements met, whatever the window analysis answered.
pub proof fn lemma_window_without_sort_partitioned(
    tree: TreeView,
    window: PlanView,
    answer: Option<(bool, SearchModeView)>,
)
    requires
        tree_partitioned(tree),
        window_keyed(window),
        window_without_sort(tree, window, answer) is Ok,
    ensures
        item_partitioned(window_without_sort(tree, window, answer)->Ok_0),
{
    let single = window.requires_single_partition(tree.idx);
    lemma_without_sort_partitioned(tree, single);
    let child = without_sort(tree, single)->Ok_0;
    match fitting_window(window.op->window_expr, child, window.op->partition_keys, answer) {
        Some(w) => {
            assert forall|i: int| 0 <= i < w.children.len() implies edge_partitioned(w, i)
                && distribution_met(#[trigger] w.children[i]) by {
                assert(w.children[i] == child);
            }
        },
        None => {
            let w = window_over_sorted_input(window, child);
            let reqs = match window.required_input_ordering(0) {
                Some(r) => r,
                None => Seq::empty(),
            };
            lemma_sort_above_partitioned(child, reqs, None);
            assert forall|i: int| 0 <= i < w.children.len() implies edge_partitioned(w, i)
                && distribution_met(#[trigger] w.children[i]) by {
                assert(w.children[i] == sort_above(child, reqs, None));
            }
        },
    }
}

/// A slot without lineage whose input yields at most one partition still
/// holds an input that yields at most one partition after the first `k`
/// slots are brought in line.
pub proof fn lemma_still_slot(node: TrackedView, k: nat, j: int)
    requires
        0 <= j < node.plan.children.len(),
        node.lineage.len() == node.plan.children.len(),
        node.lineage[j] is None,
        node.plan.children[j].partition_count() <= 1,
        k <= node.plan.children.len(),
        enforce_slots(node, k) is Ok,
    ensures
        ({
            let state = enforce_slots(node, k)->Ok_0;
            &&& state.0.len() == node.plan.children.len()
            &&& state.1.len() == node.plan.children.len()
            &&& state.0[j].partition_count() <= 1
            &&& k <= j ==> state.0[j] == node.plan.children[j] && state.1[j] is None
            &&& state.1[j] matches Some(tree) ==> tree == crate::enforce::leaf(state.0[j], j)
                && state.0[j].is_sort() && state.0[j].children.len() == 1 && state.0[j].children[0]
                == node.plan.children[j]
        }),
    decreases k,
{
    if k > 0 {
        lemma_still_slot(node, (k - 1) as nat, j);
        let before = enforce_slots(node, (k - 1) as nat)->Ok_0;
        let idx = k - 1;
        if idx == j {
            let child = before.0[j];
            assert(sort_stripped(child, before.1[j], node.plan) == Ok::<
                PlanView,
                crate::error::PlanError,
            >(child));
            match node.plan.required_input_ordering(j) {
                Some(required) => {
                    let sorted = sort_above(child, required, None);
                    assert(sorted.partition_count() <= 1);
                },
                None => {},
            }
        }
    }
}

/// Sort enforcement at a node whose single-partition requirements are met
/// keeps them met, and a node that yields a single partition whatever its
/// inputs are is replaced by one that yields at most one partition.
pub proof fn lemma_ensured_partitioned(node: TrackedView)
    requires
        node_partitioned(node),
        window_keyed(node.plan),
        ensured(node) is Ok,
    ensures
        item_partitioned(ensured(node)->Ok_0),
        yields_single_partition(node.plan.op) ==> ensured(node)->Ok_0.plan.partition_count() <= 1,
        passes_partitions_of(node.plan.op) matches Some(j) ==> 0 <= j < node.plan.children.len()
            ==> ensured(node)->Ok_0.plan.partition_count() == node.plan.children[j].partition_count(),
        counts_from(node.plan.op) matches Some(j) ==> 0 <= j < node.plan.children.len()
            && node.lineage[j] is None && node.plan.children[j].partition_count() <= 1
            ==> ensured(node)->Ok_0.plan.partition_count() <= 1,
        unkeyed_window(node.plan.op) && node.plan.children.len() == 1 ==> ensured(
            node,
        )->Ok_0.plan.partition_count() <= 1,
{
    let plan = node.plan;
    if plan.children.len() == 0 {
        if yields_single_partition(plan.op) {
            lemma_yields_single_partition(plan.op, plan.children);
        }
    } else if immediate_sort_removal(plan, node.lineage) is Some {
        lemma_immediate_removal_partitioned(node);
    } else {
        assert(tracked_slots(node) == plan.children.len());
        lemma_enforce_slots_partitioned(node, plan.children.len());
        let state = enforce_slots(node, plan.children.len())->Ok_0;
        let inputs = state.0;
        let lineage = state.1;
        if plan.is_window() && first_slot(lineage) is Some {
            let tree = first_slot(lineage)->0;
            lemma_window_without_sort_partitioned(tree, plan, window_answer(tree, plan));
            if node.lineage[0] is None && plan.children[0].partition_count() <= 1 {
                lemma_still_slot(node, plan.children.len(), 0);
                let child = plan.children[0];
                assert(without_sort(tree, plan.requires_single_partition(tree.idx)) == Ok::<
                    PlanView,
                    crate::error::PlanError,
                >(child));
                let out = ensured(node)->Ok_0.plan;
                assert(out.children.len() == 1);
                assert(out.children[0].partition_count() <= 1);
                assert(out.input_partitions(0) == out.children[0].partition_count());
            }
        } else if !plan.is_window() && plan.is_sort_preserving_merge() && inputs[0].partition_count()
            <= 1 {
            lemma_lineage_below_partitioned(first_slot(lineage), inputs[0].children.len());
        } else {
            let q = plan.with_new_children(inputs)->0;
            assert forall|i: int| 0 <= i < q.children.len() implies edge_partitioned(q, i)
                && distribution_met(#[trigger] q.children[i]) by {
                assert(distribution_met(inputs[i]));
            }
            if yields_single_partition(plan.op) {
                lemma_yields_single_partition(plan.op, inputs);
            }
            match counts_from(plan.op) {
                Some(j) => {
                    if 0 <= j < plan.children.len() && node.lineage[j] is None
                        && plan.children[j].partition_count() <= 1 {
                        lemma_still_slot(node, plan.children.len(), j);
                        assert(q.children[j] == inputs[j]);
                        assert(q.input_partitions(j) == inputs[j].partition_count());
                    }
                },
                None => {},
            }
            match passes_partitions_of(plan.op) {
                Some(j) => {
                    if 0 <= j < plan.children.len() {
                        assert(q.children[j] == plan.children[j]);
                        assert(q.input_partitions(j) == plan.children[j].partition_count());
                        assert(plan.input_partitions(j) == plan.children[j].partition_count());
                    }
                },
                None => {},
            }
        }
    }
}

/// The lineage of the first `k` slots that continues through a node has
/// its single-partition requirements met.
pub proof fn lemma_kept_sort_lineage_partitioned(item: TrackedView, k: nat)
    requires
        item_partitioned(item),
    ensures
        forall|m: int|
            0 <= m < kept_sort_lineage(item, k).len() ==> tree_partitioned(
                #[trigger] kept_sort_lineage(item, k)[m],
            ),
    decreases k,
{
    if k > 0 {
        lemma_kept_sort_lineage_partitioned(item, (k - 1) as nat);
        let front = kept_sort_lineage(item, (k - 1) as nat);
        assert forall|m: int| 0 <= m < kept_sort_lineage(item, k).len() implies tree_partitioned(
            #[trigger] kept_sort_lineage(item, k)[m],
        ) by {
            if m < front.len() {
                assert(kept_sort_lineage(item, k)[m] == front[m]);
            } else {
                assert(kept_sort_lineage(item, k)[m] == item.lineage[k - 1]->0);
            }
        }
    }
}

/// A parent rebuilt over rewritten inputs has its single-partition
/// requirements met if the inputs have and yield at most one partition
/// where the parent asks for one.
pub proof fn lemma_with_sort_lineage_partitioned(children: Seq<TrackedView>, parent: PlanView)
    requires
        forall|i: int| 0 <= i < children.len() ==> item_partitioned(#[trigger] children[i]),
        forall|i: int|
            0 <= i < children.len() ==> (parent.requires_single_partition(i) ==> (
            #[trigger] children[i]).plan.partition_count() <= 1),
        with_sort_lineage(children, parent) is Ok,
    ensures
        node_partitioned(with_sort_lineage(children, parent)->Ok_0),
{
    let node = with_sort_lineage(children, parent)->Ok_0;
    assert(node.plan.children =~= plans_of(children));
    assert forall|i: int| 0 <= i < node.plan.children.len() implies edge_partitioned(node.plan, i)
        && distribution_met(#[trigger] node.plan.children[i]) by {
        assert(item_partitioned(children[i]));
    }
    assert forall|i: int| 0 <= i < node.lineage.len() implies match #[trigger] node.lineage[i] {
        Some(tree) => tree_partitioned(tree) && tree.idx == i,
        None => true,
    } by {
        let item = children[i];
        assert(item_partitioned(item));
        assert(node.lineage[i] == sort_lineage_through(item, i));
        lemma_kept_sort_lineage_partitioned(item, item.plan.children.len());
    }
}

/// The rewritten inputs of a guarded plan have their single-partition
/// requirements met.
pub proof fn lemma_sort_pass_inputs_partitioned(plan: PlanView, k: nat)
    requires
        single_partitions_guarded(plan),
        k <= plan.children.len(),
        sort_pass_inputs(plan, k) is Ok,
    ensures
        sort_pass_inputs(plan, k)->Ok_0.len() == k,
        forall|i: int|
            0 <= i < k ==> item_partitioned(#[trigger] sort_pass_inputs(plan, k)->Ok_0[i]),
        forall|i: int|
            0 <= i < k ==> (plan.requires_single_partition(i) ==> (#[trigger] sort_pass_inputs(
                plan,
                k,
            )->Ok_0[i]).plan.partition_count() <= 1),
        forall|i: int|
            0 <= i < k ==> (keeps_single_partition(plan.children[i]) ==> (
            #[trigger] sort_pass_inputs(plan, k)->Ok_0[i]).plan.partition_count() <= 1),
        forall|i: int|
            0 <= i < k ==> sort_pass(plan.children[i]) == Ok::<TrackedView, crate::error::PlanError>(
                #[trigger] sort_pass_inputs(plan, k)->Ok_0[i],
            ),
    decreases plan, k,
{
    if k > 0 {
        lemma_sort_pass_inputs_partitioned(plan, (k - 1) as nat);
        assert(single_partitions_guarded(plan.children[k - 1]));
        lemma_sort_pass_partitioned(plan.children[k - 1]);
    }
}

/// The sort-enforcement pass over a guarded plan gives a node whose
/// single-partition requirements are met.
pub proof fn lemma_sort_pass_partitioned(plan: PlanView)
    requires
        single_partitions_guarded(plan),
        sort_pass(plan) is Ok,
    ensures
        item_partitioned(sort_pass(plan)->Ok_0),
        keeps_single_partition(plan) ==> sort_pass(plan)->Ok_0.plan.partition_count() <= 1,
    decreases plan, plan.children.len() + 1,
{
    if plan.children.len() == 0 {
        lemma_ensured_partitioned(untracked(plan));
    } else {
        lemma_sort_pass_inputs_partitioned(plan, plan.children.len());
        let nodes = sort_pass_inputs(plan, plan.children.len())->Ok_0;
        lemma_with_sort_lineage_partitioned(nodes, plan);
        let node = with_sort_lineage(nodes, plan)->Ok_0;
        lemma_ensured_partitioned(node);
        assert(node.plan.children =~= plans_of(nodes));
        if keeps_single_partition(plan) && !yields_single_partition(plan.op) && !(unkeyed_window(
            plan.op,
        ) && plan.children.len() == 1) {
            if passes_partitions_of(plan.op) is Some && 0 <= passes_partitions_of(plan.op)->0
                < plan.children.len() && keeps_single_partition(
                plan.children[passes_partitions_of(plan.op)->0],
            ) {
                let j = passes_partitions_of(plan.op)->0;
                assert(node.plan.children[j] == nodes[j].plan);
            } else {
                let j = counts_from(plan.op)->0;
                let child = plan.children[j];
                assert(still(child));
                theorem_settled_plan_is_left_alone(child);
                lemma_tracks_is_own_lineage(child, j);
                assert(nodes[j].plan == child);
                assert(sort_lineage_through(nodes[j], j) == sort_lineage_through(
                    with_own_lineage(child),
                    j,
                ));
                assert(node.plan.children[j] == child);
                assert(node.lineage[j] is None);
            }
        }
    }
}

/// After the sort-enforcement pass over a plan in which every input of
/// which a single partition is asked keeps yielding a single partition,
/// throughout the plan every input of which a single partition is asked
/// yields at most one partition.
pub proof fn theorem_sort_enforcement_keeps_single_partitions(plan: PlanView)
    requires
        single_partitions_guarded(plan),
        sort_pass(plan) is Ok,
    ensures
        distribution_met(sort_pass(plan)->Ok_0.plan),
{
    lemma_sort_pass_partitioned(plan);
}

/// Whether every node of the tree yields at least one partition.
pub open spec fn yields_partitions(plan: PlanView) -> bool
    decreases plan,
{
    &&& plan.partition_count() >= 1
    &&& forall|i: int| 0 <= i < plan.children.len() ==> yields_partitions(#[trigger] plan.children[i])
}

/// Whether the coalesces at the leaves of a lineage tree can be removed
/// without breaking a single-partition requirement: every plan of the
/// tree has its requirements met, and no node on a chain asks a single
/// partition of the slot through which the chain goes on.
pub open spec fn coalesce_tree_sound(tree: TreeView) -> bool
    decreases tree,
{
    &&& distribution_met(tree.plan)
    &&& forall|k: int|
        0 <= k < tree.children.len() ==> {
            &&& coalesce_tree_sound(#[trigger] tree.children[k])
            &&& !tree.plan.requires_single_partition(tree.children[k].idx)
        }
}

/// Whether each lineage tree of a node is sound for the removal of
/// coalesces.
pub open spec fn coalesce_slots_sound(lineage: Seq<Option<TreeView>>) -> bool {
    forall|i: int|
        0 <= i < lineage.len() ==> match #[trigger] lineage[i] {
            Some(tree) => coalesce_tree_sound(tree),
            None => true,
        }
}

/// What lies below the repartitions at the top of a plan has its
/// single-partition requirements met if the plan has.
pub proof fn lemma_below_matching_repartitions_partitioned(plan: PlanView, parent: PlanView)
    requires
        distribution_met(plan),
        below_matching_repartitions(plan, parent) is Ok,
    ensures
        distribution_met(below_matching_repartitions(plan, parent)->Ok_0),
    decreases plan,
{
    if plan.op is Repartition && parent.op is Repartition && (plan.op->partitioning).same_as(
        parent.op->partitioning,
    ) {
        assert(distribution_met(plan.children[0]));
        lemma_below_matching_repartitions_partitioned(plan.children[0], parent);
    }
}

/// The repaired inputs of a sound chain node have their single-partition
/// requirements met, and an input is only replaced where the node asks no
/// single partition of it.
pub proof fn lemma_coalesce_patched_inputs_partitioned(tree: TreeView, k: nat)
    requires
        coalesce_tree_sound(tree),
        k <= tree.children.len(),
        coalesce_patched_inputs(tree, k) is Ok,
    ensures
        ({
            let inputs = coalesce_patched_inputs(tree, k)->Ok_0;
            &&& inputs.len() == tree.plan.children.len()
            &&& forall|j: int| 0 <= j < inputs.len() ==> distribution_met(#[trigger] inputs[j])
            &&& forall|j: int|
                0 <= j < inputs.len() ==> (#[trigger] inputs[j]) == tree.plan.children[j]
                    || !tree.plan.requires_single_partition(j)
        }),
    decreases tree, k,
{
    if k > 0 {
        lemma_coalesce_patched_inputs_partitioned(tree, (k - 1) as nat);
        let before = coalesce_patched_inputs(tree, (k - 1) as nat)->Ok_0;
        let item = tree.children[k - 1];
        assert(coalesce_tree_sound(item));
        lemma_without_coalesce_partitioned(item, tree.plan);
        let inputs = coalesce_patched_inputs(tree, k)->Ok_0;
        assert(inputs == before.update(item.idx, without_coalesce(item, tree.plan)->Ok_0));
        assert forall|j: int| 0 <= j < inputs.len() implies distribution_met(#[trigger] inputs[j]) by {
            if j != item.idx {
                assert(inputs[j] == before[j]);
            }
        }
        assert forall|j: int| 0 <= j < inputs.len() implies (#[trigger] inputs[j])
            == tree.plan.children[j] || !tree.plan.requires_single_partition(j) by {
            if j != item.idx {
                assert(inputs[j] == before[j]);
            }
        }
    }
}

/// Removing the coalesces at the leaves of a sound lineage tree keeps
/// every single-partition requirement met.
pub proof fn lemma_without_coalesce_partitioned(tree: TreeView, parent: PlanView)
    requires
        coalesce_tree_sound(tree),
        without_coalesce(tree, parent) is Ok,
    ensures
        distribution_met(without_coalesce(tree, parent)->Ok_0),
    decreases tree, tree.children.len() + 1,
{
    let plan = tree.plan;
    if plan.is_coalesce_partitions() {
        assert(distribution_met(plan.children[0]));
        lemma_below_matching_repartitions_partitioned(plan.children[0], parent);
    } else {
        lemma_coalesce_patched_inputs_partitioned(tree, tree.children.len());
        let inputs = coalesce_patched_inputs(tree, tree.children.len())->Ok_0;
        let q = plan.with_new_children(inputs)->0;
        assert forall|i: int| 0 <= i < q.children.len() implies edge_partitioned(q, i)
            && distribution_met(#[trigger] q.children[i]) by {
            assert(distribution_met(inputs[i]));
            if inputs[i] == plan.children[i] {
                assert(edge_partitioned(plan, i));
            }
        }
    }
}

/// Sort parallelization at a node whose single-partition requirements
/// are met keeps them met, and does not change the number of partitions
/// of a node that yields at least one.
pub proof fn lemma_parallelized_partitioned(node: TrackedView)
    requires
        distribution_met(node.plan),
        coalesce_slots_sound(node.lineage),
        parallelized(node) is Ok,
    ensures
        distribution_met(parallelized(node)->Ok_0.plan),
        coalesce_slots_sound(parallelized(node)->Ok_0.lineage),
        node.plan.partition_count() >= 1 ==> parallelized(node)->Ok_0.plan.partition_count()
            == node.plan.partition_count(),
{
    let plan = node.plan;
    let out = parallelized(node)->Ok_0;
    if plan.children.len() == 0 || first_slot(node.lineage) is None {
    } else {
        let tree = first_slot(node.lineage)->0;
        assert(tree == node.lineage[0]->0);
        assert(coalesce_tree_sound(tree));
        let below = without_coalesce(tree, plan)->Ok_0;
        if (plan.is_sort() || plan.is_sort_preserving_merge()) && plan.partition_count() <= 1 {
            lemma_without_coalesce_partitioned(tree, plan);
            let found = sort_exprs_of(plan)->Ok_0;
            let sorted = sort_above(below, exact_requirements(found.0), found.1);
            lemma_sort_above_partitioned(below, exact_requirements(found.0), found.1);
            assert forall|i: int| 0 <= i < out.plan.children.len() implies edge_partitioned(
                out.plan,
                i,
            ) && distribution_met(#[trigger] out.plan.children[i]) by {
                assert(out.plan.children[i] == sorted);
            }
        } else if plan.is_coalesce_partitions() {
            lemma_without_coalesce_partitioned(tree, plan);
            assert forall|i: int| 0 <= i < out.plan.children.len() implies edge_partitioned(
                out.plan,
                i,
            ) && distribution_met(#[trigger] out.plan.children[i]) by {
                assert(out.plan.children[i] == below);
            }
        }
    }
}

/// The partition count of the first `k` inputs together depends only on
/// the partition counts of the inputs.
pub proof fn lemma_partitions_of_inputs_congruent(a: PlanView, b: PlanView, k: nat)
    requires
        a.children.len() == b.children.len(),
        forall|i: int|
            0 <= i < a.children.len() ==> (#[trigger] a.children[i]).partition_count()
                == b.children[i].partition_count(),
    ensures
        a.partitions_of_inputs(k) == b.partitions_of_inputs(k),
    decreases k,
{
    if k > 0 && k <= a.children.len() {
        lemma_partitions_of_inputs_congruent(a, b, (k - 1) as nat);
        assert(a.children[k - 1].partition_count() == b.children[k - 1].partition_count());
    }
}

/// The partition count of a node depends only on its operator and the
/// partition counts of its inputs.
pub proof fn lemma_partition_count_congruent(a: PlanView, b: PlanView)
    requires
        a.op == b.op,
        a.children.len() == b.children.len(),
        forall|i: int|
            0 <= i < a.children.len() ==> (#[trigger] a.children[i]).partition_count()
                == b.children[i].partition_count(),
    ensures
        a.partition_count() == b.partition_count(),
{
    lemma_partitions_of_inputs_congruent(a, b, a.children.len());
    if a.children.len() > 0 {
        assert(a.children[0].partition_count() == b.children[0].partition_count());
    }
    match a.op {
        OperatorView::Other { partitions, .. } => match partitions {
            PartitionSource::Input(i) => {
                if i < a.children.len() {
                    assert(a.children[i as int].partition_count() == b.children[i as int].partition_count());
                }
            },
            _ => {},
        },
        _ => {},
    }
}

/// The lineage of the first `k` slots that continues through a node is
/// sound for the removal of coalesces, and goes through slots of which
/// the node asks no single partition.
pub proof fn lemma_kept_coalesce_lineage_sound(item: TrackedView, k: nat)
    requires
        coalesce_slots_sound(item.lineage),
    ensures
        forall|m: int|
            0 <= m < kept_coalesce_lineage(item, k).len() ==> {
                &&& coalesce_tree_sound(#[trigger] kept_coalesce_lineage(item, k)[m])
                &&& !item.plan.requires_single_partition(kept_coalesce_lineage(item, k)[m].idx)
            },
    decreases k,
{
    if k > 0 && k <= item.lineage.len() {
        lemma_kept_coalesce_lineage_sound(item, (k - 1) as nat);
        let front = kept_coalesce_lineage(item, (k - 1) as nat);
        assert forall|m: int| 0 <= m < kept_coalesce_lineage(item, k).len() implies {
            &&& coalesce_tree_sound(#[trigger] kept_coalesce_lineage(item, k)[m])
            &&& !item.plan.requires_single_partition(kept_coalesce_lineage(item, k)[m].idx)
        } by {
            if m < front.len() {
                assert(kept_coalesce_lineage(item, k)[m] == front[m]);
            } else {
                assert(kept_coalesce_lineage(item, k)[m] == item.lineage[k - 1]->0);
            }
        }
    }
}

/// What the parallelization pass keeps of the inputs of a plan.
pub open spec fn inputs_kept(plan: PlanView, nodes: Seq<TrackedView>, k: nat) -> bool {
    &&& nodes.len() == k
    &&& forall|i: int|
        0 <= i < k ==> {
            &&& distribution_met((#[trigger] nodes[i]).plan)
            &&& coalesce_slots_sound(nodes[i].lineage)
            &&& nodes[i].plan.partition_count() == plan.children[i].partition_count()
        }
}

/// The parallelization pass keeps the single-partition requirements and
/// the partition counts of the inputs of a plan.
pub proof fn lemma_parallel_pass_inputs_partitioned(plan: PlanView, k: nat)
    requires
        distribution_met(plan),
        yields_partitions(plan),
        k <= plan.children.len(),
        parallel_pass_inputs(plan, k) is Ok,
    ensures
        inputs_kept(plan, parallel_pass_inputs(plan, k)->Ok_0, k),
    decreases plan, k,
{
    if k > 0 {
        lemma_parallel_pass_inputs_partitioned(plan, (k - 1) as nat);
        assert(distribution_met(plan.children[k - 1]));
        assert(yields_partitions(plan.children[k - 1]));
        lemma_parallel_pass_partitioned(plan.children[k - 1]);
    }
}

/// The parallelization pass keeps the single-partition requirements of a
/// plan met and does not change the number of partitions it yields.
pub proof fn lemma_parallel_pass_partitioned(plan: PlanView)
    requires
        distribution_met(plan),
        yields_partitions(plan),
        parallel_pass(plan) is Ok,
    ensures
        distribution_met(parallel_pass(plan)->Ok_0.plan),
        coalesce_slots_sound(parallel_pass(plan)->Ok_0.lineage),
        parallel_pass(plan)->Ok_0.plan.partition_count() == plan.partition_count(),
    decreases plan, plan.children.len() + 1,
{
    if plan.children.len() == 0 {
        lemma_parallelized_partitioned(untracked(plan));
    } else {
        lemma_parallel_pass_inputs_partitioned(plan, plan.children.len());
        let nodes = parallel_pass_inputs(plan, plan.children.len())->Ok_0;
        let node = with_coalesce_lineage(nodes, plan)->Ok_0;
        assert(node.plan.children =~= plans_of(nodes));
        assert forall|i: int| 0 <= i < node.plan.children.len() implies (
        #[trigger] node.plan.children[i]).partition_count() == plan.children[i].partition_count() by {
            assert(nodes[i].plan.partition_count() == plan.children[i].partition_count());
        }
        lemma_partition_count_congruent(node.plan, plan);
        assert forall|i: int| 0 <= i < node.plan.children.len() implies edge_partitioned(node.plan, i)
            && distribution_met(#[trigger] node.plan.children[i]) by {
            assert(distribution_met(nodes[i].plan));
            assert(edge_partitioned(plan, i));
        }
        assert forall|i: int| 0 <= i < node.lineage.len() implies match #[trigger] node.lineage[i] {
            Some(tree) => coalesce_tree_sound(tree),
            None => true,
        } by {
            let item = nodes[i];
            assert(coalesce_slots_sound(item.lineage));
            assert(node.lineage[i] == coalesce_lineage_through(item, i));
            lemma_kept_coalesce_lineage_sound(item, item.lineage.len());
        }
        lemma_parallelized_partitioned(node);
    }
}

/// The parallelization pass keeps partition integrity: if throughout the
/// plan every input of which a single partition is asked yields at most
/// one, and every node yields at least one partition, the same holds of
/// the rewritten plan, which yields as many partitions as before.
pub proof fn theorem_parallelization_keeps_single_partitions(plan: PlanView)
    requires
        distribution_met(plan),
        yields_partitions(plan),
        parallel_pass(plan) is Ok,
    ensures
        distribution_met(parallel_pass(plan)->Ok_0.plan),
        parallel_pass(plan)->Ok_0.plan.partition_count() == plan.partition_count(),
{
    lemma_parallel_pass_partitioned(plan);
}

} // verus!
