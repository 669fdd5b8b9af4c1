//! Plans in which every node yields at least one partition stay so under
//! sort enforcement; with that, partition integrity holds of the whole
//! rewrite.

use crate::enforce::{
    enforce_slot, enforce_slots, ensured, first_slot, immediate_sort_removal, tracked_slots,
};
use crate::lineage::{
    first_through, kept_sort_lineage, lemma_first_through, lineage_below, plans_of,
    sort_lineage_through, untracked, with_sort_lineage, TrackedView, TreeView,
};
use crate::model::{OperatorView, PartitionSource, PlanView};
use crate::optimizer::{optimized, sort_pass, sort_pass_inputs};
use crate::ordering::SortRequirement;
use crate::partitions::{
    distribution_met, single_partitions_guarded, theorem_parallelization_keeps_single_partitions,
    theorem_sort_enforcement_keeps_single_partitions, yields_partitions,
};
use crate::surgery::{consolidated, sort_above, sort_patched_inputs, sort_stripped, without_sort};
use crate::window::{fitting_window, window_answer, window_over_sorted_input};
use vstd::prelude::*;

verus! {

/// Whether every plan of a lineage tree yields partitions throughout.
pub open spec fn tree_yields_partitions(tree: TreeView) -> bool
    decreases tree,
{
    &&& yields_partitions(tree.plan)
    &&& forall|k: int|
        0 <= k < tree.children.len() ==> tree_yields_partitions(#[trigger] tree.children[k])
}

/// Whether every lineage tree of a node yields partitions throughout.
pub open spec fn slots_yield_partitions(lineage: Seq<Option<TreeView>>) -> bool {
    forall|i: int|
        0 <= i < lineage.len() ==> match #[trigger] lineage[i] {
            Some(tree) => tree_yields_partitions(tree),
            None => true,
        }
}

/// Whether a rewritten node yields partitions throughout, in its plan and
/// in its lineage.
pub open spec fn item_yields_partitions(node: TrackedView) -> bool {
    yields_partitions(node.plan) && slots_yield_partitions(node.lineage)
}

/// The first `k` inputs together yield at least one partition if there is
/// one and each yields at least one.
pub proof fn lemma_inputs_yield_partitions(plan: PlanView, k: nat)
    requires
        1 <= k <= plan.children.len(),
        forall|i: int| 0 <= i < plan.children.len() ==> (#[trigger] plan.children[i]).partition_count() >= 1,
    ensures
        plan.partitions_of_inputs(k) >= 1,
    decreases k,
{
    assert(plan.children[k - 1].partition_count() >= 1);
    if k > 1 {
        lemma_inputs_yield_partitions(plan, (k - 1) as nat);
    }
}

/// A node rebuilt over as many inputs as it had yields partitions
/// throughout if it yielded at least one partition before and its new
/// inputs yield partitions throughout.
pub proof fn lemma_rebuilt_yields_partitions(plan: PlanView, inputs: Seq<PlanView>)
    requires
        plan.partition_count() >= 1,
        inputs.len() == plan.children.len(),
        forall|i: int| 0 <= i < inputs.len() ==> yields_partitions(#[trigger] inputs[i]),
    ensures
        yields_partitions(PlanView { op: plan.op, children: inputs }),
{
    let q = PlanView { op: plan.op, children: inputs };
    assert forall|i: int| 0 <= i < q.children.len() implies (#[trigger] q.children[i]).partition_count()
        >= 1 by {
        assert(yields_partitions(inputs[i]));
    }
    match plan.op {
        OperatorView::Union => {
            if plan.children.len() >= 1 {
                lemma_inputs_yield_partitions(q, q.children.len());
            }
        },
        OperatorView::Other { partitions, .. } => match partitions {
            PartitionSource::Input(i) => {
                if i < inputs.len() {
                    assert(q.children[i as int].partition_count() >= 1);
                }
            },
            _ => {},
        },
        _ => {
            if inputs.len() > 0 {
                assert(q.children[0].partition_count() >= 1);
            }
        },
    }
}

/// A node over a single input that yields partitions throughout does so
/// too, if its operator is a sort, a merge, a coalesce or a window.
pub proof fn lemma_unary_yields_partitions(op: OperatorView, input: PlanView)
    requires
        yields_partitions(input),
        op is Sort || op is SortPreservingMerge || op is CoalescePartitions || op is Window,
    ensures
        yields_partitions(PlanView { op, children: seq![input] }),
{
    let q = PlanView { op, children: seq![input] };
    assert(q.children[0] == input);
    assert(q.input_partitions(0) == input.partition_count());
    assert forall|i: int| 0 <= i < q.children.len() implies yields_partitions(#[trigger] q.children[i]) by {
        assert(q.children[i] == input);
    }
}

/// A sort above a plan that yields partitions throughout does so too.
pub proof fn lemma_sort_above_yields_partitions(
    node: PlanView,
    reqs: Seq<SortRequirement>,
    fetch: Option<usize>,
)
    requires
        yields_partitions(node),
    ensures
        yields_partitions(sort_above(node, reqs, fetch)),
{
    let sorted = sort_above(node, reqs, fetch);
    if sorted != node {
        lemma_unary_yields_partitions(sorted.op, node);
    }
}

/// The repaired inputs of a chain node yield partitions throughout.
pub proof fn lemma_sort_patched_inputs_yield_partitions(tree: TreeView, k: nat)
    requires
        tree_yields_partitions(tree),
        k <= tree.children.len(),
        sort_patched_inputs(tree, k) is Ok,
    ensures
        sort_patched_inputs(tree, k)->Ok_0.len() == tree.plan.children.len(),
        forall|j: int|
            0 <= j < tree.plan.children.len() ==> yields_partitions(
                #[trigger] sort_patched_inputs(tree, k)->Ok_0[j],
            ),
    decreases tree, k,
{
    if k > 0 {
        lemma_sort_patched_inputs_yield_partitions(tree, (k - 1) as nat);
        let before = sort_patched_inputs(tree, (k - 1) as nat)->Ok_0;
        let item = tree.children[k - 1];
        let single = tree.plan.requires_single_partition(item.idx);
        assert(tree_yields_partitions(item));
        lemma_without_sort_yields_partitions(item, single);
        let inputs = sort_patched_inputs(tree, k)->Ok_0;
        assert(inputs == before.update(item.idx, without_sort(item, single)->Ok_0));
        assert forall|j: int| 0 <= j < tree.plan.children.len() implies yields_partitions(
            #[trigger] inputs[j],
        ) by {
            if j != item.idx {
                assert(inputs[j] == before[j]);
            }
        }
    } else {
        assert forall|j: int| 0 <= j < tree.plan.children.len() implies yields_partitions(
            #[trigger] tree.plan.children[j],
        ) by {}
    }
}

/// Removing the sorts at the leaves of a lineage tree gives a plan that
/// yields partitions throughout.
pub proof fn lemma_without_sort_yields_partitions(tree: TreeView, single: bool)
    requires
        tree_yields_partitions(tree),
        without_sort(tree, single) is Ok,
    ensures
        yields_partitions(without_sort(tree, single)->Ok_0),
    decreases tree, tree.children.len() + 1,
{
    let plan = tree.plan;
    let updated: PlanView = if plan.is_sort() {
        assert(yields_partitions(plan.children[0]));
        plan.children[0]
    } else {
        lemma_sort_patched_inputs_yield_partitions(tree, tree.children.len());
        let inputs = sort_patched_inputs(tree, tree.children.len())->Ok_0;
        if plan.is_sort_preserving_merge() {
            inputs[0]
        } else if plan.op is Repartition {
            let q = PlanView {
                op: OperatorView::Repartition {
                    partitioning: plan.op->partitioning,
                    preserve_order: false,
                },
                children: seq![inputs[0]],
            };
            assert forall|i: int| 0 <= i < q.children.len() implies yields_partitions(
                #[trigger] q.children[i],
            ) by {
                assert(q.children[i] == inputs[0]);
            }
            q
        } else {
            lemma_rebuilt_yields_partitions(plan, inputs);
            plan.with_new_children(inputs)->0
        }
    };
    assert(yields_partitions(updated));
    if single && updated.partition_count() > 1 {
        lemma_unary_yields_partitions(consolidated(updated).op, updated);
    }
}

/// The lineage that a node carries, read off a lineage tree rooted at the
/// node, yields partitions throughout.
pub proof fn lemma_lineage_below_yields_partitions(tree: Option<TreeView>, n: nat)
    requires
        tree matches Some(t) ==> tree_yields_partitions(t),
    ensures
        slots_yield_partitions(lineage_below(tree, n)),
{
    let below = lineage_below(tree, n);
    assert forall|i: int| 0 <= i < below.len() implies match #[trigger] below[i] {
        Some(t) => tree_yields_partitions(t),
        None => true,
    } by {
        match tree {
            Some(t) => {
                if first_through(t.children, i, t.children.len()) is Some {
                    lemma_first_through(t.children, i, t.children.len());
                    let m = choose|m: int|
                        0 <= m < t.children.len() && t.children[m] == first_through(
                            t.children,
                            i,
                            t.children.len(),
                        )->0;
                    assert(tree_yields_partitions(t.children[m]));
                }
            },
            None => {},
        }
    }
}

/// The state of the slots of a node during sort enforcement: every input
/// and every lineage tree yields partitions throughout.
pub open spec fn slots_state_yields_partitions(
    plan: PlanView,
    inputs: Seq<PlanView>,
    lineage: Seq<Option<TreeView>>,
) -> bool {
    &&& inputs.len() == plan.children.len()
    &&& lineage.len() == plan.children.len()
    &&& forall|j: int| 0 <= j < inputs.len() ==> yields_partitions(#[trigger] inputs[j])
    &&& slots_yield_partitions(lineage)
}

/// Bringing one more slot in line keeps the state of the slots.
pub proof fn lemma_enforce_slot_yields_partitions(
    plan: PlanView,
    inputs: Seq<PlanView>,
    lineage: Seq<Option<TreeView>>,
    idx: nat,
)
    requires
        slots_state_yields_partitions(plan, inputs, lineage),
        idx < inputs.len(),
        enforce_slot(plan, inputs, lineage, idx as int) is Ok,
    ensures
        slots_state_yields_partitions(
            plan,
            enforce_slot(plan, inputs, lineage, idx as int)->Ok_0.0,
            enforce_slot(plan, inputs, lineage, idx as int)->Ok_0.1,
        ),
{
    let child = inputs[idx as int];
    let out = enforce_slot(plan, inputs, lineage, idx as int)->Ok_0;
    let new_inputs = out.0;
    let new_lineage = out.1;
    assert(yields_partitions(child));
    let slot = lineage[idx as int];
    match (plan.required_input_ordering(idx as int), child.output_ordering()) {
        (Some(required), Some(_)) => {
            if !child.ordering_satisfy_requirement(required) {
                let stripped = sort_stripped(child, slot, plan)->Ok_0;
                match slot {
                    Some(tree) => {
                        lemma_without_sort_yields_partitions(
                            tree,
                            plan.requires_single_partition(tree.idx),
                        );
                    },
                    None => {},
                }
                lemma_sort_above_yields_partitions(stripped, required, None);
            }
        },
        (Some(required), None) => {
            lemma_sort_above_yields_partitions(child, required, None);
        },
        (None, Some(_)) => {
            if !plan.maintains_input_order(idx as int) || plan.is_union() {
                match slot {
                    Some(tree) => {
                        lemma_without_sort_yields_partitions(
                            tree,
                            plan.requires_single_partition(tree.idx),
                        );
                    },
                    None => {},
                }
            }
        },
        (None, None) => {},
    }
    assert forall|j: int| 0 <= j < new_inputs.len() implies yields_partitions(
        #[trigger] new_inputs[j],
    ) by {
        if j != idx {
            assert(new_inputs[j] == inputs[j]);
        }
    }
    assert forall|i: int| 0 <= i < new_lineage.len() implies match #[trigger] new_lineage[i] {
        Some(tree) => tree_yields_partitions(tree),
        None => true,
    } by {
        if i != idx {
            assert(new_lineage[i] == lineage[i]);
        }
    }
}

/// Bringing the first `k` slots in line keeps the state of the slots.
pub proof fn lemma_enforce_slots_yield_partitions(node: TrackedView, k: nat)
    requires
        item_yields_partitions(node),
        node.lineage.len() == node.plan.children.len(),
        k <= node.plan.children.len(),
        enforce_slots(node, k) is Ok,
    ensures
        slots_state_yields_partitions(
            node.plan,
            enforce_slots(node, k)->Ok_0.0,
            enforce_slots(node, k)->Ok_0.1,
        ),
    decreases k,
{
    if k > 0 {
        lemma_enforce_slots_yield_partitions(node, (k - 1) as nat);
        let before = enforce_slots(node, (k - 1) as nat)->Ok_0;
        lemma_enforce_slot_yields_partitions(node.plan, before.0, before.1, (k - 1) as nat);
    } else {
        assert forall|j: int| 0 <= j < node.plan.children.len() implies yields_partitions(
            #[trigger] node.plan.children[j],
        ) by {}
    }
}

/// Sort enforcement at a node that yields partitions throughout gives a
/// node that does so too.
pub proof fn lemma_ensured_yields_partitions(node: TrackedView)
    requires
        item_yields_partitions(node),
        node.lineage.len() == node.plan.children.len(),
        ensured(node) is Ok,
    ensures
        item_yields_partitions(ensured(node)->Ok_0),
{
    let plan = node.plan;
    let out = ensured(node)->Ok_0;
    if plan.children.len() == 0 {
    } else if immediate_sort_removal(plan, node.lineage) is Some {
        let input = plan.children[0];
        assert(yields_partitions(input));
        match plan.op {
            OperatorView::Sort { expr, preserve_partitioning, .. } => {
                if !preserve_partitioning && input.partition_count() > 1 {
                    lemma_unary_yields_partitions(out.plan.op, input);
                    assert(tree_yields_partitions(out.lineage[0]->0));
                } else {
                    lemma_lineage_below_yields_partitions(
                        first_slot(node.lineage),
                        input.children.len(),
                    );
                }
            },
            _ => {},
        }
    } else {
        assert(tracked_slots(node) == plan.children.len());
        lemma_enforce_slots_yield_partitions(node, plan.children.len());
        let state = enforce_slots(node, plan.children.len())->Ok_0;
        let inputs = state.0;
        let lineage = state.1;
        if plan.is_window() && first_slot(lineage) is Some {
            let tree = first_slot(lineage)->0;
            let answer = window_answer(tree, plan);
            let single = plan.requires_single_partition(tree.idx);
            lemma_without_sort_yields_partitions(tree, single);
            let child = without_sort(tree, single)->Ok_0;
            match fitting_window(plan.op->window_expr, child, plan.op->partition_keys, answer) {
                Some(w) => {
                    lemma_unary_yields_partitions(w.op, child);
                },
                None => {
                    let w = window_over_sorted_input(plan, child);
                    let reqs = match plan.required_input_ordering(0) {
                        Some(r) => r,
                        None => Seq::empty(),
                    };
                    lemma_sort_above_yields_partitions(child, reqs, None);
                    lemma_unary_yields_partitions(w.op, sort_above(child, reqs, None));
                },
            }
        } else if !plan.is_window() && plan.is_sort_preserving_merge() && inputs[0].partition_count()
            <= 1 {
            assert(yields_partitions(inputs[0]));
            lemma_lineage_below_yields_partitions(first_slot(lineage), inputs[0].children.len());
        } else {
            lemma_rebuilt_yields_partitions(plan, inputs);
        }
    }
}

/// The lineage of the first `k` slots that continues through a node
/// yields partitions throughout.
pub proof fn lemma_kept_sort_lineage_yields_partitions(item: TrackedView, k: nat)
    requires
        item_yields_partitions(item),
    ensures
        forall|m: int|
            0 <= m < kept_sort_lineage(item, k).len() ==> tree_yields_partitions(
                #[trigger] kept_sort_lineage(item, k)[m],
            ),
    decreases k,
{
    if k > 0 {
        lemma_kept_sort_lineage_yields_partitions(item, (k - 1) as nat);
        let front = kept_sort_lineage(item, (k - 1) as nat);
        assert forall|m: int| 0 <= m < kept_sort_lineage(item, k).len() implies tree_yields_partitions(
            #[trigger] kept_sort_lineage(item, k)[m],
        ) by {
            if m < front.len() {
                assert(kept_sort_lineage(item, k)[m] == front[m]);
            } else {
                assert(kept_sort_lineage(item, k)[m] == item.lineage[k - 1]->0);
            }
        }
    }
}

/// The rewritten inputs of a plan that yields partitions throughout do so
/// too.
pub proof fn lemma_sort_pass_inputs_yield_partitions(plan: PlanView, k: nat)
    requires
        yields_partitions(plan),
        k <= plan.children.len(),
        sort_pass_inputs(plan, k) is Ok,
    ensures
        sort_pass_inputs(plan, k)->Ok_0.len() == k,
        forall|i: int|
            0 <= i < k ==> item_yields_partitions(#[trigger] sort_pass_inputs(plan, k)->Ok_0[i]),
    decreases plan, k,
{
    if k > 0 {
        lemma_sort_pass_inputs_yield_partitions(plan, (k - 1) as nat);
        assert(yields_partitions(plan.children[k - 1]));
        lemma_sort_pass_yields_partitions(plan.children[k - 1]);
    }
}

/// The sort-enforcement pass over a plan that yields partitions
/// throughout gives a plan that does so too.
pub proof fn lemma_sort_pass_yields_partitions(plan: PlanView)
    requires
        yields_partitions(plan),
        sort_pass(plan) is Ok,
    ensures
        item_yields_partitions(sort_pass(plan)->Ok_0),
    decreases plan, plan.children.len() + 1,
{
    if plan.children.len() == 0 {
        lemma_ensured_yields_partitions(untracked(plan));
    } else {
        lemma_sort_pass_inputs_yield_partitions(plan, plan.children.len());
        let nodes = sort_pass_inputs(plan, plan.children.len())->Ok_0;
        let node = with_sort_lineage(nodes, plan)->Ok_0;
        assert(node.plan.children =~= plans_of(nodes));
        assert forall|i: int| 0 <= i < plans_of(nodes).len() implies yields_partitions(
            #[trigger] plans_of(nodes)[i],
        ) by {
            assert(item_yields_partitions(nodes[i]));
        }
        lemma_rebuilt_yields_partitions(plan, plans_of(nodes));
        assert forall|i: int| 0 <= i < node.lineage.len() implies match #[trigger] node.lineage[i] {
            Some(tree) => tree_yields_partitions(tree),
            None => true,
        } by {
            let item = nodes[i];
            assert(item_yields_partitions(item));
            assert(node.lineage[i] == sort_lineage_through(item, i));
            lemma_kept_sort_lineage_yields_partitions(item, item.plan.children.len());
        }
        lemma_ensured_yields_partitions(node);
    }
}

/// Partition integrity of the whole rewrite: if every node of the plan
/// yields at least one partition, and every input of which a single
/// partition is asked keeps yielding a single partition, then in the
/// rewritten plan every input of which a single partition is asked yields
/// at most one, with or without sort parallelization.
pub proof fn theorem_rewrite_keeps_single_partitions(plan: PlanView, repartition_sorts: bool)
    requires
        single_partitions_guarded(plan),
        yields_partitions(plan),
        optimized(plan, repartition_sorts) is Ok,
    ensures
        distribution_met(optimized(plan, repartition_sorts)->Ok_0),
{
    theorem_sort_enforcement_keeps_single_partitions(plan);
    if repartition_sorts {
        lemma_sort_pass_yields_partitions(plan);
        theorem_parallelization_keeps_single_partitions(sort_pass(plan)->Ok_0.plan);
    }
}

} // verus!
