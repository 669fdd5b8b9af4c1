//! What it means for a plan to have its ordering requirements met, and
//! the proof that sort enforcement establishes it.

use crate::enforce::{
    enforce_slot, enforce_slots, ensured, first_slot, immediate_sort_removal, tracked_slots,
};
use crate::asking::{
    lemma_asks_nothing_of_any_input, lemma_asks_the_same_of_input_that_meets,
    lemma_served_sorted_window_is_met, lemma_sorted_windows_ask_alike, searches_unsorted,
    sorted_windows,
};
use crate::lineage::{
    first_through, kept_sort_lineage, lemma_first_through, lineage_below, plans_of,
    sort_lineage_through, untracked, with_sort_lineage, TrackedView, TreeView,
};
use crate::model::{OperatorView, PlanView, SearchModeView};
use crate::optimizer::{sort_pass, sort_pass_inputs};
use crate::engine::search_mode;
use crate::ordering::{lemma_enforcing_keys_meet, lemma_ordering_meets_itself, SortRequirement};
use crate::surgery::{consolidated, sort_above, sort_patched_inputs, sort_stripped, without_sort};
use crate::window::{
    fitting_window, reversed_function, window_answer, window_over_sorted_input,
    window_without_sort,
};
use vstd::prelude::*;

verus! {

/// Whether input `i` of the node meets the ordering that the node asks of
/// it.
pub open spec fn edge_met(plan: PlanView, i: int) -> bool {
    match plan.required_input_ordering(i) {
        Some(required) => plan.children[i].ordering_satisfy_requirement(required),
        None => true,
    }
}

/// Whether throughout the tree every input meets the ordering that the
/// node above it asks of it.
pub open spec fn orderings_met(plan: PlanView) -> bool
    decreases plan,
{
    forall|i: int|
        0 <= i < plan.children.len() ==> edge_met(plan, i) && orderings_met(
            #[trigger] plan.children[i],
        )
}

/// Whether input `i` of the node meets the ordering asked of it, or the
/// node is a window that does not take its partitions as sorted.
pub open spec fn edge_ordered(plan: PlanView, i: int) -> bool {
    edge_met(plan, i) || searches_unsorted(plan.op)
}

/// Whether throughout the tree every input meets the ordering asked of
/// it, but perhaps the inputs of windows that do not take their
/// partitions as sorted.
pub open spec fn orderings_upheld(plan: PlanView) -> bool
    decreases plan,
{
    forall|i: int|
        0 <= i < plan.children.len() ==> edge_ordered(plan, i) && orderings_upheld(
            #[trigger] plan.children[i],
        )
}

/// Where every window takes its partitions as sorted, every input meets
/// the ordering asked of it if the orderings are upheld.
pub proof fn lemma_upheld_orderings_are_met(plan: PlanView)
    requires
        orderings_upheld(plan),
        sorted_windows(plan),
    ensures
        orderings_met(plan),
    decreases plan,
{
    assert forall|i: int| 0 <= i < plan.children.len() implies edge_met(plan, i) && orderings_met(
        #[trigger] plan.children[i],
    ) by {
        assert(edge_ordered(plan, i));
        lemma_upheld_orderings_are_met(plan.children[i]);
    }
}

/// Whether the sorts at the leaves of a lineage tree can be removed
/// without breaking an ordering requirement: the plan at the root has its
/// requirements met, and no node on a chain asks an ordering of the slot
/// through which the chain goes on, unless it is a merge, which is
/// removed along with the sort.
pub open spec fn sort_tree_sound(tree: TreeView) -> bool
    decreases tree,
{
    &&& orderings_upheld(tree.plan)
    &&& forall|k: int|
        0 <= k < tree.children.len() ==> {
            &&& sort_tree_sound(#[trigger] tree.children[k])
            &&& (tree.plan.is_sort() || tree.plan.is_sort_preserving_merge()
                || tree.plan.required_input_ordering(tree.children[k].idx) is None)
        }
}

/// Whether each lineage tree is sound and recorded at the slot it was
/// reached through.
pub open spec fn slots_sound(lineage: Seq<Option<TreeView>>) -> bool {
    forall|i: int|
        0 <= i < lineage.len() ==> match #[trigger] lineage[i] {
            Some(tree) => sort_tree_sound(tree) && tree.idx == i,
            None => true,
        }
}

/// Whether a rewritten node can be handed to its parent: its requirements
/// are met throughout and its lineage is sound.
pub open spec fn item_sound(node: TrackedView) -> bool {
    orderings_upheld(node.plan) && slots_sound(node.lineage)
}

/// Whether a node is ready for sort enforcement: the requirements are met
/// within each of its inputs, and each slot has a sound lineage entry.
pub open spec fn node_ready(node: TrackedView) -> bool {
    &&& forall|i: int| 0 <= i < node.plan.children.len() ==> orderings_upheld(#[trigger] node.plan.children[i])
    &&& node.lineage.len() == node.plan.children.len()
    &&& slots_sound(node.lineage)
}

/// A sort placed above a valid plan gives a valid plan that meets the
/// requirement.
pub proof fn lemma_sort_above_valid(node: PlanView, reqs: Seq<SortRequirement>, fetch: Option<usize>)
    requires
        orderings_upheld(node),
    ensures
        orderings_upheld(sort_above(node, reqs, fetch)),
        sort_above(node, reqs, fetch).ordering_satisfy_requirement(reqs),
{
    let sorted = sort_above(node, reqs, fetch);
    if !node.ordering_satisfy_requirement(reqs) {
        lemma_enforcing_keys_meet(reqs);
        assert(sorted.children[0] == node);
        assert forall|i: int| 0 <= i < sorted.children.len() implies edge_ordered(sorted, i)
            && orderings_upheld(#[trigger] sorted.children[i]) by {
            assert(sorted.children[i] == node);
        }
    }
}

/// Bringing the partitions of a valid plan together gives a valid plan.
pub proof fn lemma_consolidated_valid(plan: PlanView)
    requires
        orderings_upheld(plan),
    ensures
        orderings_upheld(consolidated(plan)),
{
    let c = consolidated(plan);
    match plan.output_ordering() {
        Some(ordering) => {
            lemma_ordering_meets_itself(ordering);
        },
        None => {},
    }
    assert forall|i: int| 0 <= i < c.children.len() implies edge_ordered(c, i) && orderings_upheld(
        #[trigger] c.children[i],
    ) by {
        assert(c.children[i] == plan);
    }
}

/// The repaired inputs of a sound chain node are valid, and an input is
/// only replaced where the node asks no ordering of it.
pub proof fn lemma_sort_patched_inputs_valid(tree: TreeView, k: nat)
    requires
        sort_tree_sound(tree),
        k <= tree.children.len(),
        sort_patched_inputs(tree, k) is Ok,
    ensures
        ({
            let inputs = sort_patched_inputs(tree, k)->Ok_0;
            &&& inputs.len() == tree.plan.children.len()
            &&& forall|j: int| 0 <= j < inputs.len() ==> orderings_upheld(#[trigger] inputs[j])
            &&& forall|j: int|
                0 <= j < inputs.len() ==> (#[trigger] inputs[j]) == tree.plan.children[j]
                    || tree.plan.is_sort() || tree.plan.is_sort_preserving_merge()
                    || tree.plan.required_input_ordering(j) is None
        }),
    decreases tree, k,
{
    if k > 0 {
        lemma_sort_patched_inputs_valid(tree, (k - 1) as nat);
        let before = sort_patched_inputs(tree, (k - 1) as nat)->Ok_0;
        let item = tree.children[k - 1];
        let single = tree.plan.requires_single_partition(item.idx);
        assert(sort_tree_sound(item));
        lemma_without_sort_valid(item, single);
        let inputs = sort_patched_inputs(tree, k)->Ok_0;
        assert(inputs == before.update(item.idx, without_sort(item, single)->Ok_0));
        assert forall|j: int| 0 <= j < inputs.len() implies orderings_upheld(#[trigger] inputs[j]) by {
            if j != item.idx {
                assert(inputs[j] == before[j]);
            }
        }
        assert forall|j: int| 0 <= j < inputs.len() implies (#[trigger] inputs[j])
            == tree.plan.children[j] || tree.plan.is_sort() || tree.plan.is_sort_preserving_merge()
            || tree.plan.required_input_ordering(j) is None by {
            if j != item.idx {
                assert(inputs[j] == before[j]);
            }
        }
    }
}

/// Removing the sorts at the leaves of a sound lineage tree gives a plan
/// whose ordering requirements are met.
pub proof fn lemma_without_sort_valid(tree: TreeView, single: bool)
    requires
        sort_tree_sound(tree),
        without_sort(tree, single) is Ok,
    ensures
        orderings_upheld(without_sort(tree, single)->Ok_0),
    decreases tree, tree.children.len() + 1,
{
    let plan = tree.plan;
    let updated: PlanView = if plan.is_sort() {
        plan.children[0]
    } else {
        lemma_sort_patched_inputs_valid(tree, tree.children.len());
        let inputs = sort_patched_inputs(tree, tree.children.len())->Ok_0;
        if plan.is_sort_preserving_merge() {
            inputs[0]
        } else if plan.op is Repartition {
            let q = PlanView {
                op: OperatorView::Repartition {
                    partitioning: plan.op->partitioning,
                    preserve_order: false,
                },
                children: seq![inputs[0]],
            };
            assert forall|i: int| 0 <= i < q.children.len() implies edge_ordered(q, i)
                && orderings_upheld(#[trigger] q.children[i]) by {
                assert(q.children[i] == inputs[0]);
            }
            q
        } else {
            let q = plan.with_new_children(inputs)->0;
            lemma_asks_nothing_of_any_input(
                plan.op,
                plan.window_input_ordering(),
                q.window_input_ordering(),
            );
            assert forall|i: int| 0 <= i < q.children.len() implies edge_ordered(q, i)
                && orderings_upheld(#[trigger] q.children[i]) by {
                assert(orderings_upheld(inputs[i]));
                if plan.op is Window && inputs[0] != plan.children[0] {
                    assert(plan.required_input_ordering(0) is None);
                } else if !(inputs[i] == plan.children[i]) {
                    assert(plan.required_input_ordering(i) is None);
                } else {
                    assert(edge_ordered(plan, i));
                }
            }
            q
        }
    };
    assert(orderings_upheld(updated));
    if single && updated.partition_count() > 1 {
        lemma_consolidated_valid(updated);
    }
}

/// The lineage that a node carries, read off a sound lineage tree rooted
/// at the node, is sound.
pub proof fn lemma_lineage_below_sound(tree: Option<TreeView>, n: nat)
    requires
        tree matches Some(t) ==> sort_tree_sound(t),
    ensures
        slots_sound(lineage_below(tree, n)),
{
    let below = lineage_below(tree, n);
    assert forall|i: int| 0 <= i < below.len() implies match #[trigger] below[i] {
        Some(t) => sort_tree_sound(t) && t.idx == i,
        None => true,
    } by {
        match tree {
            Some(t) => {
                if first_through(t.children, i, t.children.len()) is Some {
                    lemma_first_through(t.children, i, t.children.len());
                    let m = choose|m: int|
                        0 <= m < t.children.len() && t.children[m] == first_through(
                            t.children,
                            i,
                            t.children.len(),
                        )->0;
                    assert(sort_tree_sound(t.children[m]));
                }
            },
            None => {},
        }
    }
}

/// What replaces a removable sort can be handed to the parent.
pub proof fn lemma_immediate_removal_sound(node: TrackedView)
    requires
        node_ready(node),
        immediate_sort_removal(node.plan, node.lineage) is Some,
    ensures
        item_sound(immediate_sort_removal(node.plan, node.lineage)->0),
{
    let plan = node.plan;
    let out = immediate_sort_removal(plan, node.lineage)->0;
    let input = plan.children[0];
    assert(orderings_upheld(input));
    match plan.op {
        OperatorView::Sort { expr, preserve_partitioning, .. } => {
            if !preserve_partitioning && input.partition_count() > 1 {
                let merge = out.plan;
                assert forall|i: int| 0 <= i < merge.children.len() implies edge_ordered(merge, i)
                    && orderings_upheld(#[trigger] merge.children[i]) by {
                    assert(merge.children[i] == input);
                }
                let t = out.lineage[0]->0;
                assert(sort_tree_sound(t));
            } else {
                lemma_lineage_below_sound(first_slot(node.lineage), input.children.len());
            }
        },
        _ => {},
    }
}

/// The state of the slots of a node during sort enforcement: every input
/// is valid, the lineage is sound, and the slots handled so far are
/// ordered as the node asks.
pub open spec fn slots_in_line(
    plan: PlanView,
    inputs: Seq<PlanView>,
    lineage: Seq<Option<TreeView>>,
    k: nat,
) -> bool {
    &&& inputs.len() == plan.children.len()
    &&& lineage.len() == plan.children.len()
    &&& forall|j: int| 0 <= j < inputs.len() ==> orderings_upheld(#[trigger] inputs[j])
    &&& slots_sound(lineage)
    &&& forall|j: int|
        0 <= j < k ==> match plan.required_input_ordering(j) {
            Some(required) => (#[trigger] inputs[j]).ordering_satisfy_requirement(required),
            None => true,
        }
}

/// Bringing one more slot in line keeps the state of the slots.
pub proof fn lemma_enforce_slot_sound(
    plan: PlanView,
    inputs: Seq<PlanView>,
    lineage: Seq<Option<TreeView>>,
    idx: nat,
)
    requires
        slots_in_line(plan, inputs, lineage, idx),
        idx < inputs.len(),
        enforce_slot(plan, inputs, lineage, idx as int) is Ok,
    ensures
        slots_in_line(
            plan,
            enforce_slot(plan, inputs, lineage, idx as int)->Ok_0.0,
            enforce_slot(plan, inputs, lineage, idx as int)->Ok_0.1,
            idx + 1,
        ),
{
    let child = inputs[idx as int];
    let out = enforce_slot(plan, inputs, lineage, idx as int)->Ok_0;
    let new_inputs = out.0;
    let new_lineage = out.1;
    assert(orderings_upheld(child));
    let slot = lineage[idx as int];
    match (plan.required_input_ordering(idx as int), child.output_ordering()) {
        (Some(required), Some(_)) => {
            if !child.ordering_satisfy_requirement(required) {
                let stripped = sort_stripped(child, slot, plan)->Ok_0;
                match slot {
                    Some(tree) => {
                        lemma_without_sort_valid(
                            tree,
                            plan.requires_single_partition(tree.idx),
                        );
                    },
                    None => {},
                }
                lemma_sort_above_valid(stripped, required, None);
            }
        },
        (Some(required), None) => {
            lemma_sort_above_valid(child, required, None);
        },
        (None, Some(_)) => {
            if !plan.maintains_input_order(idx as int) || plan.is_union() {
                match slot {
                    Some(tree) => {
                        lemma_without_sort_valid(
                            tree,
                            plan.requires_single_partition(tree.idx),
                        );
                    },
                    None => {},
                }
            }
        },
        (None, None) => {},
    }
    assert forall|j: int| 0 <= j < new_inputs.len() implies orderings_upheld(
        #[trigger] new_inputs[j],
    ) by {
        if j != idx {
            assert(new_inputs[j] == inputs[j]);
        }
    }
    assert forall|i: int| 0 <= i < new_lineage.len() implies match #[trigger] new_lineage[i] {
        Some(tree) => sort_tree_sound(tree) && tree.idx == i,
        None => true,
    } by {
        if i != idx {
            assert(new_lineage[i] == lineage[i]);
        }
    }
    assert forall|j: int| 0 <= j < idx + 1 implies match plan.required_input_ordering(j) {
        Some(required) => (#[trigger] new_inputs[j]).ordering_satisfy_requirement(required),
        None => true,
    } by {
        if j != idx {
            assert(new_inputs[j] == inputs[j]);
        }
    }
}

/// Bringing the first `k` slots in line establishes the state of the
/// slots.
pub proof fn lemma_enforce_slots_sound(node: TrackedView, k: nat)
    requires
        node_ready(node),
        k <= node.plan.children.len(),
        enforce_slots(node, k) is Ok,
    ensures
        slots_in_line(node.plan, enforce_slots(node, k)->Ok_0.0, enforce_slots(node, k)->Ok_0.1, k),
    decreases k,
{
    if k > 0 {
        lemma_enforce_slots_sound(node, (k - 1) as nat);
        let before = enforce_slots(node, (k - 1) as nat)->Ok_0;
        lemma_enforce_slot_sound(node.plan, before.0, before.1, (k - 1) as nat);
    }
}

/// A window rewritten around its tracked sort, as the window analysis
/// answers, can be handed to the parent.
pub proof fn lemma_window_without_sort_sound(
    tree: TreeView,
    window: PlanView,
    answer: Option<(bool, SearchModeView)>,
)
    requires
        sort_tree_sound(tree),
        !searches_unsorted(window.op),
        answer == window_answer(tree, window),
        window_without_sort(tree, window, answer) is Ok,
    ensures
        item_sound(window_without_sort(tree, window, answer)->Ok_0),
{
    let single = window.requires_single_partition(tree.idx);
    lemma_without_sort_valid(tree, single);
    let child = without_sort(tree, single)->Ok_0;
    let out = window_without_sort(tree, window, answer)->Ok_0;
    let first = window.op->window_expr[0];
    match fitting_window(window.op->window_expr, child, window.op->partition_keys, answer) {
        Some(w) => {
            assert(w.children[0] == child);
            assert(w.window_input_ordering() == child.guaranteed_ordering());
            if !searches_unsorted(w.op) {
                let (reverse, mode) = answer->0;
                assert(mode == search_mode(first.partition_by, child.guaranteed_ordering()));
                assert(mode is Sorted);
                if reverse {
                    assert(w.op->window_expr[0] == reversed_function(first));
                }
                lemma_served_sorted_window_is_met(w.op, child.guaranteed_ordering());
            }
            assert forall|i: int| 0 <= i < w.children.len() implies edge_ordered(w, i)
                && orderings_upheld(#[trigger] w.children[i]) by {
                assert(w.children[i] == child);
            }
        },
        None => {
            let w = window_over_sorted_input(window, child);
            let reqs = match window.required_input_ordering(0) {
                Some(r) => r,
                None => Seq::empty(),
            };
            let sorted = sort_above(child, reqs, None);
            lemma_sort_above_valid(child, reqs, None);
            assert(w.children[0] == sorted);
            assert(w.window_input_ordering() == sorted.guaranteed_ordering());
            lemma_sorted_windows_ask_alike(window.op, w.op, sorted.guaranteed_ordering());
            match window.required_input_ordering(0) {
                Some(r) => {
                    lemma_asks_the_same_of_input_that_meets(
                        window.op,
                        window.window_input_ordering(),
                        sorted.guaranteed_ordering(),
                    );
                },
                None => {
                    lemma_asks_nothing_of_any_input(
                        window.op,
                        window.window_input_ordering(),
                        sorted.guaranteed_ordering(),
                    );
                },
            }
            assert(edge_met(w, 0));
            assert forall|i: int| 0 <= i < w.children.len() implies edge_ordered(w, i)
                && orderings_upheld(#[trigger] w.children[i]) by {
                assert(w.children[i] == sorted);
            }
        },
    }
}

/// Sort enforcement at a node that is ready gives a node that can be
/// handed to the parent: every ordering requirement in it is met.
pub proof fn lemma_ensured_sound(node: TrackedView)
    requires
        node_ready(node),
        !searches_unsorted(node.plan.op),
        ensured(node) is Ok,
    ensures
        item_sound(ensured(node)->Ok_0),
{
    let plan = node.plan;
    if plan.children.len() == 0 {
    } else if immediate_sort_removal(plan, node.lineage) is Some {
        lemma_immediate_removal_sound(node);
    } else {
        assert(tracked_slots(node) == plan.children.len());
        lemma_enforce_slots_sound(node, plan.children.len());
        let state = enforce_slots(node, plan.children.len())->Ok_0;
        let inputs = state.0;
        let lineage = state.1;
        if plan.is_window() && first_slot(lineage) is Some {
            lemma_window_without_sort_sound(
                first_slot(lineage)->0,
                plan,
                window_answer(first_slot(lineage)->0, plan),
            );
        } else if !plan.is_window() && plan.is_sort_preserving_merge() && inputs[0].partition_count()
            <= 1 {
            lemma_lineage_below_sound(first_slot(lineage), inputs[0].children.len());
        } else {
            let q = plan.with_new_children(inputs)->0;
            if plan.op is Window {
                match plan.required_input_ordering(0) {
                    Some(required) => {
                        assert(inputs[0].ordering_satisfy_requirement(required));
                        lemma_asks_the_same_of_input_that_meets(
                            plan.op,
                            plan.window_input_ordering(),
                            q.window_input_ordering(),
                        );
                    },
                    None => {
                        lemma_asks_nothing_of_any_input(
                            plan.op,
                            plan.window_input_ordering(),
                            q.window_input_ordering(),
                        );
                    },
                }
            }
            assert forall|i: int| 0 <= i < q.children.len() implies edge_ordered(q, i)
                && orderings_upheld(#[trigger] q.children[i]) by {
                assert(orderings_upheld(inputs[i]));
            }
        }
    }
}

/// The lineage of the first `k` slots that continues through a node is
/// sound, and goes through slots of which the node asks no ordering.
pub proof fn lemma_kept_sort_lineage_sound(item: TrackedView, k: nat)
    requires
        item_sound(item),
    ensures
        forall|m: int|
            0 <= m < kept_sort_lineage(item, k).len() ==> {
                &&& sort_tree_sound(#[trigger] kept_sort_lineage(item, k)[m])
                &&& (item.plan.is_sort_preserving_merge() || item.plan.required_input_ordering(
                    kept_sort_lineage(item, k)[m].idx,
                ) is None)
            },
    decreases k,
{
    if k > 0 {
        lemma_kept_sort_lineage_sound(item, (k - 1) as nat);
    }
}

/// A parent rebuilt over rewritten inputs that can be handed to it is
/// ready for sort enforcement.
pub proof fn lemma_with_sort_lineage_ready(children: Seq<TrackedView>, parent: PlanView)
    requires
        forall|i: int| 0 <= i < children.len() ==> item_sound(#[trigger] children[i]),
        with_sort_lineage(children, parent) is Ok,
    ensures
        node_ready(with_sort_lineage(children, parent)->Ok_0),
{
    let node = with_sort_lineage(children, parent)->Ok_0;
    assert(node.plan.children =~= plans_of(children));
    assert forall|i: int| 0 <= i < node.plan.children.len() implies orderings_upheld(
        #[trigger] node.plan.children[i],
    ) by {
        assert(item_sound(children[i]));
    }
    assert forall|i: int| 0 <= i < node.lineage.len() implies match #[trigger] node.lineage[i] {
        Some(tree) => sort_tree_sound(tree) && tree.idx == i,
        None => true,
    } by {
        let item = children[i];
        assert(item_sound(item));
        assert(node.lineage[i] == sort_lineage_through(item, i));
        lemma_kept_sort_lineage_sound(item, item.plan.children.len());
    }
}

/// The rewritten inputs of a plan can be handed to it.
pub proof fn lemma_sort_pass_inputs_sound(plan: PlanView, k: nat)
    requires
        sorted_windows(plan),
        k <= plan.children.len(),
        sort_pass_inputs(plan, k) is Ok,
    ensures
        sort_pass_inputs(plan, k)->Ok_0.len() == k,
        forall|i: int| 0 <= i < k ==> item_sound(#[trigger] sort_pass_inputs(plan, k)->Ok_0[i]),
    decreases plan, k,
{
    if k > 0 {
        lemma_sort_pass_inputs_sound(plan, (k - 1) as nat);
        assert(sorted_windows(plan.children[k - 1]));
        lemma_sort_pass_sound(plan.children[k - 1]);
    }
}

/// The sort-enforcement pass gives a node that can be handed on.
pub proof fn lemma_sort_pass_sound(plan: PlanView)
    requires
        sorted_windows(plan),
        sort_pass(plan) is Ok,
    ensures
        item_sound(sort_pass(plan)->Ok_0),
    decreases plan, plan.children.len() + 1,
{
    if plan.children.len() == 0 {
        lemma_ensured_sound(untracked(plan));
    } else {
        lemma_sort_pass_inputs_sound(plan, plan.children.len());
        let nodes = sort_pass_inputs(plan, plan.children.len())->Ok_0;
        lemma_with_sort_lineage_ready(nodes, plan);
        lemma_ensured_sound(with_sort_lineage(nodes, plan)->Ok_0);
    }
}

/// After the sort-enforcement pass over a plan whose windows all take
/// their partitions as sorted, every input meets the ordering that the
/// node above it asks, but perhaps the input of a window for which the
/// pass has picked an evaluation that does not take the partitions as
/// sorted. This holds whether or not the requirements were met before.
pub proof fn theorem_sort_enforcement_upholds_orderings(plan: PlanView)
    requires
        sorted_windows(plan),
        sort_pass(plan) is Ok,
    ensures
        orderings_upheld(sort_pass(plan)->Ok_0.plan),
{
    lemma_sort_pass_sound(plan);
}

/// After the sort-enforcement pass over a plan whose windows all take
/// their partitions as sorted, every input meets the ordering that the
/// node above it asks, if the windows of the rewritten plan all take
/// their partitions as sorted too.
pub proof fn theorem_sort_enforcement_meets_requirements(plan: PlanView)
    requires
        sorted_windows(plan),
        sort_pass(plan) is Ok,
        sorted_windows(sort_pass(plan)->Ok_0.plan),
    ensures
        orderings_met(sort_pass(plan)->Ok_0.plan),
{
    lemma_sort_pass_sound(plan);
    lemma_upheld_orderings_are_met(sort_pass(plan)->Ok_0.plan);
}

} // verus!
