//! Sort enforcement keeps a plan aligned: a plan is aligned if throughout
//! it orderings follow partitions. With that, the whole rewrite leaves
//! every ordering requirement met.

use crate::asking::sorted_windows;
use crate::enforce::{
    enforce_slot, enforce_slots, ensured, first_slot, immediate_sort_removal, tracked_slots,
};
use crate::lineage::{
    first_through, kept_sort_lineage, lemma_first_through, lineage_below, plans_of,
    sort_lineage_through, untracked, with_sort_lineage, TrackedView, TreeView,
};
use crate::merging::{
    in_order, ordering_follows_partitions, theorem_parallelization_keeps_requirements_met,
};
use crate::model::{OperatorView, PlanView};
use crate::optimizer::{optimized, sort_pass, sort_pass_inputs};
use crate::ordering::SortRequirement;
use crate::partitions::yields_partitions;
use crate::positivity::lemma_sort_pass_yields_partitions;
use crate::surgery::{consolidated, sort_above, sort_patched_inputs, sort_stripped, without_sort};
use crate::totality::lemma_sort_pass_fits;
use crate::validity::{
    lemma_upheld_orderings_are_met, orderings_met, orderings_upheld,
    theorem_sort_enforcement_upholds_orderings,
};
use crate::window::{fitting_window, window_answer, window_over_sorted_input};
use vstd::prelude::*;

verus! {

/// Whether every plan of a lineage tree is aligned.
pub open spec fn tree_aligned(tree: TreeView) -> bool
    decreases tree,
{
    &&& ordering_follows_partitions(tree.plan)
    &&& forall|k: int|
        0 <= k < tree.children.len() ==> tree_aligned(#[trigger] tree.children[k])
}

/// Whether every lineage tree of a node is aligned.
pub open spec fn slots_aligned(lineage: Seq<Option<TreeView>>) -> bool {
    forall|i: int|
        0 <= i < lineage.len() ==> match #[trigger] lineage[i] {
            Some(tree) => tree_aligned(tree),
            None => true,
        }
}

/// Whether a rewritten node is aligned, in its plan and in its lineage.
pub open spec fn item_aligned(node: TrackedView) -> bool {
    ordering_follows_partitions(node.plan) && slots_aligned(node.lineage)
}

/// An aligned node rebuilt over aligned inputs is aligned.
pub proof fn lemma_rebuilt_aligned(plan: PlanView, inputs: Seq<PlanView>)
    requires
        ordering_follows_partitions(plan),
        forall|i: int| 0 <= i < inputs.len() ==> ordering_follows_partitions(#[trigger] inputs[i]),
    ensures
        ordering_follows_partitions(PlanView { op: plan.op, children: inputs }),
{
}

/// A node of a kind of its own over a single aligned input is aligned.
pub proof fn lemma_unary_aligned(op: OperatorView, input: PlanView)
    requires
        ordering_follows_partitions(input),
        !(op is Other),
    ensures
        ordering_follows_partitions(PlanView { op, children: seq![input] }),
{
    let q = PlanView { op, children: seq![input] };
    assert forall|i: int| 0 <= i < q.children.len() implies ordering_follows_partitions(
        #[trigger] q.children[i],
    ) by {
        assert(q.children[i] == input);
    }
}

/// A sort above an aligned plan is aligned.
pub proof fn lemma_sort_above_aligned(
    node: PlanView,
    reqs: Seq<SortRequirement>,
    fetch: Option<usize>,
)
    requires
        ordering_follows_partitions(node),
    ensures
        ordering_follows_partitions(sort_above(node, reqs, fetch)),
{
    let sorted = sort_above(node, reqs, fetch);
    if sorted != node {
        lemma_unary_aligned(sorted.op, node);
    }
}

/// The repaired inputs of a chain node are aligned.
pub proof fn lemma_sort_patched_inputs_aligned(tree: TreeView, k: nat)
    requires
        tree_aligned(tree),
        k <= tree.children.len(),
        sort_patched_inputs(tree, k) is Ok,
    ensures
        sort_patched_inputs(tree, k)->Ok_0.len() == tree.plan.children.len(),
        forall|j: int|
            0 <= j < tree.plan.children.len() ==> ordering_follows_partitions(
                #[trigger] sort_patched_inputs(tree, k)->Ok_0[j],
            ),
    decreases tree, k,
{
    if k > 0 {
        lemma_sort_patched_inputs_aligned(tree, (k - 1) as nat);
        let before = sort_patched_inputs(tree, (k - 1) as nat)->Ok_0;
        let item = tree.children[k - 1];
        let single = tree.plan.requires_single_partition(item.idx);
        assert(tree_aligned(item));
        lemma_without_sort_aligned(item, single);
        let inputs = sort_patched_inputs(tree, k)->Ok_0;
        assert(inputs == before.update(item.idx, without_sort(item, single)->Ok_0));
        assert forall|j: int| 0 <= j < tree.plan.children.len() implies ordering_follows_partitions(
            #[trigger] inputs[j],
        ) by {
            if j != item.idx {
                assert(inputs[j] == before[j]);
            }
        }
    } else {
        assert forall|j: int| 0 <= j < tree.plan.children.len() implies ordering_follows_partitions(
            #[trigger] tree.plan.children[j],
        ) by {}
    }
}

/// Removing the sorts at the leaves of an aligned lineage tree gives an
/// aligned plan.
pub proof fn lemma_without_sort_aligned(tree: TreeView, single: bool)
    requires
        tree_aligned(tree),
        without_sort(tree, single) is Ok,
    ensures
        ordering_follows_partitions(without_sort(tree, single)->Ok_0),
    decreases tree, tree.children.len() + 1,
{
    let plan = tree.plan;
    let updated: PlanView = if plan.is_sort() {
        assert(ordering_follows_partitions(plan.children[0]));
        plan.children[0]
    } else {
        lemma_sort_patched_inputs_aligned(tree, tree.children.len());
        let inputs = sort_patched_inputs(tree, tree.children.len())->Ok_0;
        if plan.is_sort_preserving_merge() {
            inputs[0]
        } else if plan.op is Repartition {
            let q = PlanView {
                op: OperatorView::Repartition {
                    partitioning: plan.op->partitioning,
                    preserve_order: false,
                },
                children: seq![inputs[0]],
            };
            assert forall|i: int| 0 <= i < q.children.len() implies ordering_follows_partitions(
                #[trigger] q.children[i],
            ) by {
                assert(q.children[i] == inputs[0]);
            }
            q
        } else {
            lemma_rebuilt_aligned(plan, inputs);
            plan.with_new_children(inputs)->0
        }
    };
    assert(ordering_follows_partitions(updated));
    if single && updated.partition_count() > 1 {
        lemma_unary_aligned(consolidated(updated).op, updated);
    }
}

/// The lineage that a node carries, read off a lineage tree rooted at the
/// node, is aligned.
pub proof fn lemma_lineage_below_aligned(tree: Option<TreeView>, n: nat)
    requires
        tree matches Some(t) ==> tree_aligned(t),
    ensures
        slots_aligned(lineage_below(tree, n)),
{
    let below = lineage_below(tree, n);
    assert forall|i: int| 0 <= i < below.len() implies match #[trigger] below[i] {
        Some(t) => tree_aligned(t),
        None => true,
    } by {
        match tree {
            Some(t) => {
                if first_through(t.children, i, t.children.len()) is Some {
                    lemma_first_through(t.children, i, t.children.len());
                    let m = choose|m: int|
                        0 <= m < t.children.len() && t.children[m] == first_through(
                            t.children,
                            i,
                            t.children.len(),
                        )->0;
                    assert(tree_aligned(t.children[m]));
                }
            },
            None => {},
        }
    }
}

/// The state of the slots of a node during sort enforcement: every input
/// and every lineage tree is aligned.
pub open spec fn slots_state_aligned(
    plan: PlanView,
    inputs: Seq<PlanView>,
    lineage: Seq<Option<TreeView>>,
) -> bool {
    &&& inputs.len() == plan.children.len()
    &&& lineage.len() == plan.children.len()
    &&& forall|j: int| 0 <= j < inputs.len() ==> ordering_follows_partitions(#[trigger] inputs[j])
    &&& slots_aligned(lineage)
}

/// Bringing one more slot in line keeps the state of the slots.
pub proof fn lemma_enforce_slot_aligned(
    plan: PlanView,
    inputs: Seq<PlanView>,
    lineage: Seq<Option<TreeView>>,
    idx: nat,
)
    requires
        slots_state_aligned(plan, inputs, lineage),
        idx < inputs.len(),
        enforce_slot(plan, inputs, lineage, idx as int) is Ok,
    ensures
        slots_state_aligned(
            plan,
            enforce_slot(plan, inputs, lineage, idx as int)->Ok_0.0,
            enforce_slot(plan, inputs, lineage, idx as int)->Ok_0.1,
        ),
{
    let child = inputs[idx as int];
    let out = enforce_slot(plan, inputs, lineage, idx as int)->Ok_0;
    let new_inputs = out.0;
    let new_lineage = out.1;
    assert(ordering_follows_partitions(child));
    let slot = lineage[idx as int];
    match (plan.required_input_ordering(idx as int), child.output_ordering()) {
        (Some(required), Some(_)) => {
            if !child.ordering_satisfy_requirement(required) {
                let stripped = sort_stripped(child, slot, plan)->Ok_0;
                match slot {
                    Some(tree) => {
                        lemma_without_sort_aligned(
                            tree,
                            plan.requires_single_partition(tree.idx),
                        );
                    },
                    None => {},
                }
                lemma_sort_above_aligned(stripped, required, None);
            }
        },
        (Some(required), None) => {
            lemma_sort_above_aligned(child, required, None);
        },
        (None, Some(_)) => {
            if !plan.maintains_input_order(idx as int) || plan.is_union() {
                match slot {
                    Some(tree) => {
                        lemma_without_sort_aligned(
                            tree,
                            plan.requires_single_partition(tree.idx),
                        );
                    },
                    None => {},
                }
            }
        },
        (None, None) => {},
    }
    assert forall|j: int| 0 <= j < new_inputs.len() implies ordering_follows_partitions(
        #[trigger] new_inputs[j],
    ) by {
        if j != idx {
            assert(new_inputs[j] == inputs[j]);
        }
    }
    assert forall|i: int| 0 <= i < new_lineage.len() implies match #[trigger] new_lineage[i] {
        Some(tree) => tree_aligned(tree),
        None => true,
    } by {
        if i != idx {
            assert(new_lineage[i] == lineage[i]);
        }
    }
}

/// Bringing the first `k` slots in line keeps the state of the slots.
pub proof fn lemma_enforce_slots_aligned(node: TrackedView, k: nat)
    requires
        item_aligned(node),
        node.lineage.len() == node.plan.children.len(),
        k <= node.plan.children.len(),
        enforce_slots(node, k) is Ok,
    ensures
        slots_state_aligned(
            node.plan,
            enforce_slots(node, k)->Ok_0.0,
            enforce_slots(node, k)->Ok_0.1,
        ),
    decreases k,
{
    if k > 0 {
        lemma_enforce_slots_aligned(node, (k - 1) as nat);
        let before = enforce_slots(node, (k - 1) as nat)->Ok_0;
        lemma_enforce_slot_aligned(node.plan, before.0, before.1, (k - 1) as nat);
    } else {
        assert forall|j: int| 0 <= j < node.plan.children.len() implies ordering_follows_partitions(
            #[trigger] node.plan.children[j],
        ) by {}
    }
}

/// Sort enforcement at an aligned node gives an aligned node.
pub proof fn lemma_ensured_aligned(node: TrackedView)
    requires
        item_aligned(node),
        node.lineage.len() == node.plan.children.len(),
        ensured(node) is Ok,
    ensures
        item_aligned(ensured(node)->Ok_0),
{
    let plan = node.plan;
    let out = ensured(node)->Ok_0;
    if plan.children.len() == 0 {
    } else if immediate_sort_removal(plan, node.lineage) is Some {
        let input = plan.children[0];
        assert(ordering_follows_partitions(input));
        match plan.op {
            OperatorView::Sort { expr, preserve_partitioning, .. } => {
                if !preserve_partitioning && input.partition_count() > 1 {
                    lemma_unary_aligned(out.plan.op, input);
                    assert(tree_aligned(out.lineage[0]->0));
                } else {
                    lemma_lineage_below_aligned(
                        first_slot(node.lineage),
                        input.children.len(),
                    );
                }
            },
            _ => {},
        }
    } else {
        assert(tracked_slots(node) == plan.children.len());
        lemma_enforce_slots_aligned(node, plan.children.len());
        let state = enforce_slots(node, plan.children.len())->Ok_0;
        let inputs = state.0;
        let lineage = state.1;
        if plan.is_window() && first_slot(lineage) is Some {
            let tree = first_slot(lineage)->0;
            let answer = window_answer(tree, plan);
            let single = plan.requires_single_partition(tree.idx);
            lemma_without_sort_aligned(tree, single);
            let child = without_sort(tree, single)->Ok_0;
            match fitting_window(plan.op->window_expr, child, plan.op->partition_keys, answer) {
                Some(w) => {
                    lemma_unary_aligned(w.op, child);
                },
                None => {
                    let w = window_over_sorted_input(plan, child);
                    let reqs = match plan.required_input_ordering(0) {
                        Some(r) => r,
                        None => Seq::empty(),
                    };
                    lemma_sort_above_aligned(child, reqs, None);
                    lemma_unary_aligned(w.op, sort_above(child, reqs, None));
                },
            }
        } else if !plan.is_window() && plan.is_sort_preserving_merge() && inputs[0].partition_count()
            <= 1 {
            assert(ordering_follows_partitions(inputs[0]));
            lemma_lineage_below_aligned(first_slot(lineage), inputs[0].children.len());
        } else {
            lemma_rebuilt_aligned(plan, inputs);
        }
    }
}

/// The lineage of the first `k` slots that continues through an aligned
/// node is aligned.
pub proof fn lemma_kept_sort_lineage_aligned(item: TrackedView, k: nat)
    requires
        item_aligned(item),
    ensures
        forall|m: int|
            0 <= m < kept_sort_lineage(item, k).len() ==> tree_aligned(
                #[trigger] kept_sort_lineage(item, k)[m],
            ),
    decreases k,
{
    if k > 0 {
        lemma_kept_sort_lineage_aligned(item, (k - 1) as nat);
        let front = kept_sort_lineage(item, (k - 1) as nat);
        assert forall|m: int| 0 <= m < kept_sort_lineage(item, k).len() implies tree_aligned(
            #[trigger] kept_sort_lineage(item, k)[m],
        ) by {
            if m < front.len() {
                assert(kept_sort_lineage(item, k)[m] == front[m]);
            } else {
                assert(kept_sort_lineage(item, k)[m] == item.lineage[k - 1]->0);
            }
        }
    }
}

/// The rewritten inputs of an aligned plan are aligned.
pub proof fn lemma_sort_pass_inputs_aligned(plan: PlanView, k: nat)
    requires
        ordering_follows_partitions(plan),
        k <= plan.children.len(),
        sort_pass_inputs(plan, k) is Ok,
    ensures
        sort_pass_inputs(plan, k)->Ok_0.len() == k,
        forall|i: int|
            0 <= i < k ==> item_aligned(#[trigger] sort_pass_inputs(plan, k)->Ok_0[i]),
    decreases plan, k,
{
    if k > 0 {
        lemma_sort_pass_inputs_aligned(plan, (k - 1) as nat);
        assert(ordering_follows_partitions(plan.children[k - 1]));
        lemma_sort_pass_aligned(plan.children[k - 1]);
    }
}

/// The sort-enforcement pass over an aligned plan gives an aligned plan.
pub proof fn lemma_sort_pass_aligned(plan: PlanView)
    requires
        ordering_follows_partitions(plan),
        sort_pass(plan) is Ok,
    ensures
        item_aligned(sort_pass(plan)->Ok_0),
    decreases plan, plan.children.len() + 1,
{
    if plan.children.len() == 0 {
        lemma_ensured_aligned(untracked(plan));
    } else {
        lemma_sort_pass_inputs_aligned(plan, plan.children.len());
        let nodes = sort_pass_inputs(plan, plan.children.len())->Ok_0;
        let node = with_sort_lineage(nodes, plan)->Ok_0;
        assert(node.plan.children =~= plans_of(nodes));
        assert forall|i: int| 0 <= i < plans_of(nodes).len() implies ordering_follows_partitions(
            #[trigger] plans_of(nodes)[i],
        ) by {
            assert(item_aligned(nodes[i]));
        }
        lemma_rebuilt_aligned(plan, plans_of(nodes));
        assert forall|i: int| 0 <= i < node.lineage.len() implies match #[trigger] node.lineage[i] {
            Some(tree) => tree_aligned(tree),
            None => true,
        } by {
            let item = nodes[i];
            assert(item_aligned(item));
            assert(node.lineage[i] == sort_lineage_through(item, i));
            lemma_kept_sort_lineage_aligned(item, item.plan.children.len());
        }
        lemma_ensured_aligned(node);
    }
}

/// Ordering correctness of the whole rewrite: after the rewrite of a
/// well-formed plan in which every node yields at least one partition,
/// orderings follow partitions and every window takes its partitions as
/// sorted, every input meets the ordering that the node above it asks,
/// with or without sort parallelization, but perhaps the input of a
/// window for which the rewrite has picked an evaluation that does not
/// take the partitions as sorted. Where the rewritten plan holds no such
/// window, every input meets what is asked of it.
pub proof fn theorem_rewrite_meets_requirements(plan: PlanView, repartition_sorts: bool)
    requires
        plan.well_formed(),
        yields_partitions(plan),
        ordering_follows_partitions(plan),
        sorted_windows(plan),
    ensures
        optimized(plan, repartition_sorts) is Ok,
        orderings_upheld(optimized(plan, repartition_sorts)->Ok_0),
        sorted_windows(optimized(plan, repartition_sorts)->Ok_0) ==> orderings_met(
            optimized(plan, repartition_sorts)->Ok_0,
        ),
{
    lemma_sort_pass_fits(plan);
    theorem_sort_enforcement_upholds_orderings(plan);
    if repartition_sorts {
        lemma_sort_pass_yields_partitions(plan);
        lemma_sort_pass_aligned(plan);
        let adjusted = sort_pass(plan)->Ok_0.plan;
        assert(in_order(adjusted));
        crate::totality::lemma_parallel_pass_fits(adjusted);
        theorem_parallelization_keeps_requirements_met(adjusted);
    }
    if sorted_windows(optimized(plan, repartition_sorts)->Ok_0) {
        lemma_upheld_orderings_are_met(optimized(plan, repartition_sorts)->Ok_0);
    }
}

} // verus!
