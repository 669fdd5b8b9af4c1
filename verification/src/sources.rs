//! The rewrite reads the sources that the plan read, each once and in the
//! same order: no part of a plan is lost or repeated.

use crate::enforce::{
    enforce_slot, enforce_slots, ensured, first_slot, immediate_sort_removal, parallelized,
    tracked_slots,
};
use crate::lineage::{
    coalesce_lineage_through, first_through, kept_coalesce_lineage, kept_sort_lineage,
    lemma_first_through, lineage_below, plans_of, sort_lineage_through, untracked,
    with_coalesce_lineage, with_sort_lineage, TrackedView, TreeView,
};
use crate::model::{OperatorView, PlanView};
use crate::optimizer::{optimized, parallel_pass, parallel_pass_inputs, sort_pass, sort_pass_inputs};
use crate::ordering::{exact_requirements, SortRequirement};
use crate::surgery::{
    below_matching_repartitions, coalesce_patched_inputs, consolidated, sort_above, sort_exprs_of,
    sort_patched_inputs, sort_stripped, without_coalesce, without_sort,
};
use crate::totality::{lemma_unary_well_formed, lemma_well_formed};
use crate::window::{fitting_window, window_answer, window_over_sorted_input};
use vstd::prelude::*;

verus! {

/// The labels of the sources that the first `k` inputs read, in order.
pub open spec fn sources_of_inputs(plan: PlanView, k: nat) -> Seq<usize>
    decreases plan, k,
{
    if k == 0 || k > plan.children.len() {
        Seq::empty()
    } else {
        sources_of_inputs(plan, (k - 1) as nat).add(sources(plan.children[k - 1]))
    }
}

/// The labels of the sources that the plan reads, in order.
pub open spec fn sources(plan: PlanView) -> Seq<usize>
    decreases plan, plan.children.len() + 1,
{
    match plan.op {
        OperatorView::Source { label, .. } => seq![label],
        _ => sources_of_inputs(plan, plan.children.len()),
    }
}

/// Whether `after` is well-formed and reads the sources that `before`
/// reads.
pub open spec fn same_sources(before: PlanView, after: PlanView) -> bool {
    after.well_formed() && sources(after) == sources(before)
}

/// Whether a lineage tree speaks of the plans it belongs to: each subtree
/// is rooted at the input through which it was reached, or, below a
/// merge, at the merge itself.
pub open spec fn tree_rooted(tree: TreeView) -> bool
    decreases tree,
{
    &&& tree.plan.well_formed()
    &&& forall|k: int|
        0 <= k < tree.children.len() ==> {
            &&& tree_rooted(#[trigger] tree.children[k])
            &&& 0 <= tree.children[k].idx < tree.plan.children.len()
            &&& (tree.children[k].plan == tree.plan.children[tree.children[k].idx] || (
            tree.plan.is_sort_preserving_merge() && tree.children[k].plan == tree.plan))
        }
}

/// Whether each lineage tree of a node is rooted at the input of its
/// slot.
pub open spec fn node_rooted(node: TrackedView) -> bool {
    &&& node.plan.well_formed()
    &&& node.lineage.len() == node.plan.children.len()
    &&& forall|i: int|
        0 <= i < node.lineage.len() ==> match #[trigger] node.lineage[i] {
            Some(tree) => tree_rooted(tree) && tree.idx == i && tree.plan == node.plan.children[i],
            None => true,
        }
}

/// Whether each lineage tree of a rewritten node is rooted at the input of
/// its slot or, if the node is a merge, at the node itself.
pub open spec fn item_rooted(node: TrackedView) -> bool {
    &&& node.plan.well_formed()
    &&& forall|i: int|
        0 <= i < node.lineage.len() ==> match #[trigger] node.lineage[i] {
            Some(tree) => tree_rooted(tree) && tree.idx == i && i < node.plan.children.len() && (
            tree.plan == node.plan.children[i] || (node.plan.is_sort_preserving_merge()
                && tree.plan == node.plan)),
            None => true,
        }
}

/// The sources of the first `k` inputs depend only on the sources of the
/// inputs.
pub proof fn lemma_sources_of_inputs_congruent(a: PlanView, b: PlanView, k: nat)
    requires
        a.children.len() == b.children.len(),
        forall|i: int|
            0 <= i < a.children.len() ==> sources(#[trigger] a.children[i]) == sources(
                b.children[i],
            ),
    ensures
        sources_of_inputs(a, k) == sources_of_inputs(b, k),
    decreases k,
{
    if k > 0 && k <= a.children.len() {
        lemma_sources_of_inputs_congruent(a, b, (k - 1) as nat);
        assert(sources(a.children[k - 1]) == sources(b.children[k - 1]));
    }
}

/// A node that is no source and has inputs reads what its inputs read,
/// whatever its operator.
pub proof fn lemma_sources_congruent(a: PlanView, b: PlanView)
    requires
        !(a.op is Source),
        !(b.op is Source),
        a.children.len() == b.children.len(),
        forall|i: int|
            0 <= i < a.children.len() ==> sources(#[trigger] a.children[i]) == sources(
                b.children[i],
            ),
    ensures
        sources(a) == sources(b),
{
    lemma_sources_of_inputs_congruent(a, b, a.children.len());
}

/// A node over a single input reads what the input reads.
pub proof fn lemma_unary_sources(plan: PlanView)
    requires
        !(plan.op is Source),
        plan.children.len() == 1,
    ensures
        sources(plan) == sources(plan.children[0]),
{
    assert(sources_of_inputs(plan, 0) =~= Seq::<usize>::empty());
    assert(sources_of_inputs(plan, 1) =~= sources(plan.children[0]));
}

/// A node of a kind of its own over a single well-formed input is
/// well-formed and reads what the input reads.
pub proof fn lemma_wrapped_same_sources(op: OperatorView, input: PlanView)
    requires
        input.well_formed(),
        op.accepts(1),
        !(op is Source),
    ensures
        same_sources(input, PlanView { op, children: seq![input] }),
{
    lemma_unary_well_formed(op, input);
    lemma_unary_sources(PlanView { op, children: seq![input] });
}

/// A sort above a plan reads what the plan reads.
pub proof fn lemma_sort_above_same_sources(
    node: PlanView,
    reqs: Seq<SortRequirement>,
    fetch: Option<usize>,
)
    requires
        node.well_formed(),
    ensures
        same_sources(node, sort_above(node, reqs, fetch)),
{
    let sorted = sort_above(node, reqs, fetch);
    if sorted != node {
        lemma_wrapped_same_sources(sorted.op, node);
    }
}

/// A well-formed node rebuilt over inputs that read what its inputs read
/// reads what it read.
pub proof fn lemma_rebuilt_same_sources(plan: PlanView, inputs: Seq<PlanView>)
    requires
        plan.well_formed(),
        inputs.len() == plan.children.len(),
        forall|i: int|
            0 <= i < inputs.len() ==> same_sources(plan.children[i], #[trigger] inputs[i]),
    ensures
        same_sources(plan, PlanView { op: plan.op, children: inputs }),
{
    let after = PlanView { op: plan.op, children: inputs };
    assert forall|i: int| 0 <= i < inputs.len() implies (#[trigger] inputs[i]).well_formed() by {
        assert(same_sources(plan.children[i], inputs[i]));
    }
    lemma_well_formed(plan.op, inputs);
    if !(plan.op is Source) {
        assert forall|i: int| 0 <= i < plan.children.len() implies sources(
            #[trigger] plan.children[i],
        ) == sources(after.children[i]) by {
            assert(same_sources(plan.children[i], inputs[i]));
        }
        lemma_sources_congruent(plan, after);
    }
}

/// The repaired inputs of a rooted chain node read what its inputs read.
pub proof fn lemma_sort_patched_inputs_same_sources(tree: TreeView, k: nat)
    requires
        tree_rooted(tree),
        k <= tree.children.len(),
        sort_patched_inputs(tree, k) is Ok,
    ensures
        sort_patched_inputs(tree, k)->Ok_0.len() == tree.plan.children.len(),
        forall|j: int|
            0 <= j < tree.plan.children.len() ==> same_sources(
                tree.plan.children[j],
                #[trigger] sort_patched_inputs(tree, k)->Ok_0[j],
            ),
    decreases tree, k,
{
    if k > 0 {
        lemma_sort_patched_inputs_same_sources(tree, (k - 1) as nat);
        let before = sort_patched_inputs(tree, (k - 1) as nat)->Ok_0;
        let item = tree.children[k - 1];
        let single = tree.plan.requires_single_partition(item.idx);
        assert(tree_rooted(item));
        lemma_without_sort_same_sources(item, single);
        let inputs = sort_patched_inputs(tree, k)->Ok_0;
        assert(inputs == before.update(item.idx, without_sort(item, single)->Ok_0));
        if item.plan != tree.plan.children[item.idx] {
            lemma_unary_sources(tree.plan);
        }
        assert forall|j: int| 0 <= j < tree.plan.children.len() implies same_sources(
            tree.plan.children[j],
            #[trigger] inputs[j],
        ) by {
            if j != item.idx {
                assert(inputs[j] == before[j]);
            }
        }
    } else {
        assert forall|j: int| 0 <= j < tree.plan.children.len() implies same_sources(
            tree.plan.children[j],
            #[trigger] tree.plan.children[j],
        ) by {}
    }
}

/// Removing the sorts at the leaves of a rooted lineage tree gives a plan
/// that reads what the plan at the root reads.
pub proof fn lemma_without_sort_same_sources(tree: TreeView, single: bool)
    requires
        tree_rooted(tree),
        without_sort(tree, single) is Ok,
    ensures
        same_sources(tree.plan, without_sort(tree, single)->Ok_0),
    decreases tree, tree.children.len() + 1,
{
    let plan = tree.plan;
    let updated: PlanView = if plan.is_sort() {
        lemma_unary_sources(plan);
        assert(plan.children[0].well_formed());
        plan.children[0]
    } else {
        lemma_sort_patched_inputs_same_sources(tree, tree.children.len());
        let inputs = sort_patched_inputs(tree, tree.children.len())->Ok_0;
        if plan.is_sort_preserving_merge() {
            lemma_unary_sources(plan);
            assert(same_sources(plan.children[0], inputs[0]));
            inputs[0]
        } else if plan.op is Repartition {
            let q = PlanView {
                op: OperatorView::Repartition {
                    partitioning: plan.op->partitioning,
                    preserve_order: false,
                },
                children: seq![inputs[0]],
            };
            lemma_unary_sources(plan);
            assert(same_sources(plan.children[0], inputs[0]));
            lemma_wrapped_same_sources(q.op, inputs[0]);
            q
        } else {
            lemma_rebuilt_same_sources(plan, inputs);
            plan.with_new_children(inputs)->0
        }
    };
    assert(same_sources(plan, updated));
    if single && updated.partition_count() > 1 {
        lemma_wrapped_same_sources(consolidated(updated).op, updated);
    }
}

/// The lineage that a node carries, read off a rooted lineage tree rooted
/// at the node, is rooted as the lineage of a rewritten node is.
pub proof fn lemma_lineage_below_rooted(tree: Option<TreeView>, plan: PlanView)
    requires
        plan.well_formed(),
        tree matches Some(t) ==> tree_rooted(t) && t.plan == plan,
    ensures
        item_rooted(TrackedView { plan, lineage: lineage_below(tree, plan.children.len()) }),
{
    let below = lineage_below(tree, plan.children.len());
    assert forall|i: int| 0 <= i < below.len() implies match #[trigger] below[i] {
        Some(t) => tree_rooted(t) && t.idx == i && i < plan.children.len() && (t.plan
            == plan.children[i] || (plan.is_sort_preserving_merge() && t.plan == plan)),
        None => true,
    } by {
        match tree {
            Some(t) => {
                if first_through(t.children, i, t.children.len()) is Some {
                    lemma_first_through(t.children, i, t.children.len());
                    let m = choose|m: int|
                        0 <= m < t.children.len() && t.children[m] == first_through(
                            t.children,
                            i,
                            t.children.len(),
                        )->0;
                    assert(tree_rooted(t.children[m]));
                }
            },
            None => {},
        }
    }
}

/// The state of the slots of a node during sort enforcement: every input
/// reads what the input of the node read, and every lineage tree is rooted
/// at the input of its slot.
pub open spec fn slots_state_rooted(
    plan: PlanView,
    inputs: Seq<PlanView>,
    lineage: Seq<Option<TreeView>>,
) -> bool {
    &&& inputs.len() == plan.children.len()
    &&& forall|j: int| 0 <= j < inputs.len() ==> same_sources(plan.children[j], #[trigger] inputs[j])
    &&& node_rooted(TrackedView { plan: PlanView { op: plan.op, children: inputs }, lineage })
}

/// Bringing one more slot in line keeps the state of the slots.
pub proof fn lemma_enforce_slot_rooted(
    plan: PlanView,
    inputs: Seq<PlanView>,
    lineage: Seq<Option<TreeView>>,
    idx: nat,
)
    requires
        plan.well_formed(),
        slots_state_rooted(plan, inputs, lineage),
        idx < inputs.len(),
        enforce_slot(plan, inputs, lineage, idx as int) is Ok,
    ensures
        slots_state_rooted(
            plan,
            enforce_slot(plan, inputs, lineage, idx as int)->Ok_0.0,
            enforce_slot(plan, inputs, lineage, idx as int)->Ok_0.1,
        ),
{
    let child = inputs[idx as int];
    let out = enforce_slot(plan, inputs, lineage, idx as int)->Ok_0;
    let new_inputs = out.0;
    let new_lineage = out.1;
    assert(same_sources(plan.children[idx as int], child));
    let slot = lineage[idx as int];
    let old_node = PlanView { op: plan.op, children: inputs };
    assert(old_node.children[idx as int] == child);
    match slot {
        Some(tree) => {
            assert(tree.plan == child);
            if without_sort(tree, plan.requires_single_partition(tree.idx)) is Ok {
                lemma_without_sort_same_sources(tree, plan.requires_single_partition(tree.idx));
            }
        },
        None => {},
    }
    match (plan.required_input_ordering(idx as int), child.output_ordering()) {
        (Some(required), Some(_)) => {
            if !child.ordering_satisfy_requirement(required) {
                let stripped = sort_stripped(child, slot, plan)->Ok_0;
                lemma_sort_above_same_sources(stripped, required, None);
            }
        },
        (Some(required), None) => {
            lemma_sort_above_same_sources(child, required, None);
        },
        _ => {},
    }
    assert forall|j: int| 0 <= j < new_inputs.len() implies same_sources(
        plan.children[j],
        #[trigger] new_inputs[j],
    ) by {
        if j != idx {
            assert(new_inputs[j] == inputs[j]);
        }
    }
    let new_node = PlanView { op: plan.op, children: new_inputs };
    assert forall|j: int| 0 <= j < new_inputs.len() implies (#[trigger] new_inputs[j]).well_formed() by {
        assert(same_sources(plan.children[j], new_inputs[j]));
    }
    lemma_well_formed(plan.op, new_inputs);
    assert forall|i: int| 0 <= i < new_lineage.len() implies match #[trigger] new_lineage[i] {
        Some(tree) => tree_rooted(tree) && tree.idx == i && tree.plan == new_node.children[i],
        None => true,
    } by {
        if i != idx {
            assert(new_lineage[i] == lineage[i]);
            assert(new_node.children[i] == old_node.children[i]);
        }
    }
}

/// Bringing the first `k` slots in line keeps the state of the slots.
pub proof fn lemma_enforce_slots_rooted(node: TrackedView, k: nat)
    requires
        node_rooted(node),
        k <= node.plan.children.len(),
        enforce_slots(node, k) is Ok,
    ensures
        slots_state_rooted(node.plan, enforce_slots(node, k)->Ok_0.0, enforce_slots(node, k)->Ok_0.1),
    decreases k,
{
    if k > 0 {
        lemma_enforce_slots_rooted(node, (k - 1) as nat);
        let before = enforce_slots(node, (k - 1) as nat)->Ok_0;
        lemma_enforce_slot_rooted(node.plan, before.0, before.1, (k - 1) as nat);
    } else {
        assert forall|j: int| 0 <= j < node.plan.children.len() implies same_sources(
            node.plan.children[j],
            #[trigger] node.plan.children[j],
        ) by {}
        assert((PlanView { op: node.plan.op, children: node.plan.children }) == node.plan);
    }
}

/// Sort enforcement at a rooted node gives a rooted node that reads what
/// the node read.
pub proof fn lemma_ensured_same_sources(node: TrackedView)
    requires
        node_rooted(node),
        ensured(node) is Ok,
    ensures
        item_rooted(ensured(node)->Ok_0),
        sources(ensured(node)->Ok_0.plan) == sources(node.plan),
{
    let plan = node.plan;
    let out = ensured(node)->Ok_0;
    if plan.children.len() == 0 {
    } else if immediate_sort_removal(plan, node.lineage) is Some {
        let input = plan.children[0];
        assert(input.well_formed());
        lemma_unary_sources(plan);
        match plan.op {
            OperatorView::Sort { expr, preserve_partitioning, .. } => {
                if !preserve_partitioning && input.partition_count() > 1 {
                    lemma_wrapped_same_sources(out.plan.op, input);
                    let t = out.lineage[0]->0;
                    assert(t.plan == out.plan);
                    assert(out.plan.children[0] == input);
                    assert(tree_rooted(t));
                } else {
                    let slot = first_slot(node.lineage);
                    assert(slot == node.lineage[0]);
                    lemma_lineage_below_rooted(slot, input);
                }
            },
            _ => {},
        }
    } else {
        assert(tracked_slots(node) == plan.children.len());
        lemma_enforce_slots_rooted(node, plan.children.len());
        let state = enforce_slots(node, plan.children.len())->Ok_0;
        let inputs = state.0;
        let lineage = state.1;
        let rebuilt = PlanView { op: plan.op, children: inputs };
        lemma_rebuilt_same_sources(plan, inputs);
        assert(rebuilt.children[0] == inputs[0]);
        if plan.is_window() && first_slot(lineage) is Some {
            let tree = first_slot(lineage)->0;
            assert(tree == lineage[0]->0);
            assert(tree.plan == inputs[0]);
            let single = plan.requires_single_partition(tree.idx);
            lemma_without_sort_same_sources(tree, single);
            let child = without_sort(tree, single)->Ok_0;
            lemma_unary_sources(rebuilt);
            match fitting_window(
                plan.op->window_expr,
                child,
                plan.op->partition_keys,
                window_answer(tree, plan),
            ) {
                Some(w) => {
                    lemma_wrapped_same_sources(w.op, child);
                },
                None => {
                    let w = window_over_sorted_input(plan, child);
                    let reqs = match plan.required_input_ordering(0) {
                        Some(r) => r,
                        None => Seq::empty(),
                    };
                    lemma_sort_above_same_sources(child, reqs, None);
                    lemma_wrapped_same_sources(w.op, sort_above(child, reqs, None));
                },
            }
        } else if !plan.is_window() && plan.is_sort_preserving_merge() && inputs[0].partition_count()
            <= 1 {
            lemma_unary_sources(rebuilt);
            assert(same_sources(plan.children[0], inputs[0]));
            let slot = first_slot(lineage);
            assert(slot == lineage[0]);
            lemma_lineage_below_rooted(slot, inputs[0]);
        } else {
            assert(out.plan == rebuilt);
        }
    }
}

/// The lineage of the first `k` slots that continues through a rewritten
/// node is rooted in the node.
pub proof fn lemma_kept_sort_lineage_rooted(item: TrackedView, k: nat)
    requires
        item_rooted(item),
    ensures
        forall|m: int|
            0 <= m < kept_sort_lineage(item, k).len() ==> {
                &&& tree_rooted(#[trigger] kept_sort_lineage(item, k)[m])
                &&& 0 <= kept_sort_lineage(item, k)[m].idx < item.plan.children.len()
                &&& (kept_sort_lineage(item, k)[m].plan
                    == item.plan.children[kept_sort_lineage(item, k)[m].idx] || (
                item.plan.is_sort_preserving_merge() && kept_sort_lineage(item, k)[m].plan
                    == item.plan))
            },
    decreases k,
{
    if k > 0 {
        lemma_kept_sort_lineage_rooted(item, (k - 1) as nat);
        let front = kept_sort_lineage(item, (k - 1) as nat);
        assert forall|m: int| 0 <= m < kept_sort_lineage(item, k).len() implies {
            &&& tree_rooted(#[trigger] kept_sort_lineage(item, k)[m])
            &&& 0 <= kept_sort_lineage(item, k)[m].idx < item.plan.children.len()
            &&& (kept_sort_lineage(item, k)[m].plan
                == item.plan.children[kept_sort_lineage(item, k)[m].idx] || (
            item.plan.is_sort_preserving_merge() && kept_sort_lineage(item, k)[m].plan
                == item.plan))
        } by {
            if m < front.len() {
                assert(kept_sort_lineage(item, k)[m] == front[m]);
            } else {
                assert(kept_sort_lineage(item, k)[m] == item.lineage[k - 1]->0);
            }
        }
    }
}

/// What the sort-enforcement pass keeps of the inputs of a plan.
pub open spec fn inputs_rooted(plan: PlanView, nodes: Seq<TrackedView>, k: nat) -> bool {
    &&& nodes.len() == k
    &&& forall|i: int|
        0 <= i < k ==> item_rooted(#[trigger] nodes[i]) && sources(nodes[i].plan) == sources(
            plan.children[i],
        )
}

/// The rewritten inputs of a well-formed plan read what its inputs read.
pub proof fn lemma_sort_pass_inputs_same_sources(plan: PlanView, k: nat)
    requires
        plan.well_formed(),
        k <= plan.children.len(),
        sort_pass_inputs(plan, k) is Ok,
    ensures
        inputs_rooted(plan, sort_pass_inputs(plan, k)->Ok_0, k),
    decreases plan, k,
{
    if k > 0 {
        lemma_sort_pass_inputs_same_sources(plan, (k - 1) as nat);
        assert(plan.children[k - 1].well_formed());
        lemma_sort_pass_same_sources(plan.children[k - 1]);
    }
}

/// The sort-enforcement pass over a well-formed plan gives a plan that
/// reads what the plan read.
pub proof fn lemma_sort_pass_same_sources(plan: PlanView)
    requires
        plan.well_formed(),
        sort_pass(plan) is Ok,
    ensures
        item_rooted(sort_pass(plan)->Ok_0),
        sources(sort_pass(plan)->Ok_0.plan) == sources(plan),
    decreases plan, plan.children.len() + 1,
{
    if plan.children.len() == 0 {
        lemma_ensured_same_sources(untracked(plan));
    } else {
        lemma_sort_pass_inputs_same_sources(plan, plan.children.len());
        let nodes = sort_pass_inputs(plan, plan.children.len())->Ok_0;
        let node = with_sort_lineage(nodes, plan)->Ok_0;
        let inputs = plans_of(nodes);
        assert(node.plan.children =~= inputs);
        assert forall|i: int| 0 <= i < inputs.len() implies same_sources(
            plan.children[i],
            #[trigger] inputs[i],
        ) by {
            assert(item_rooted(nodes[i]));
        }
        lemma_rebuilt_same_sources(plan, inputs);
        assert forall|i: int| 0 <= i < node.lineage.len() implies match #[trigger] node.lineage[i] {
            Some(tree) => tree_rooted(tree) && tree.idx == i && tree.plan == node.plan.children[i],
            None => true,
        } by {
            let item = nodes[i];
            assert(item_rooted(item));
            assert(node.lineage[i] == sort_lineage_through(item, i));
            lemma_kept_sort_lineage_rooted(item, item.plan.children.len());
        }
        lemma_ensured_same_sources(node);
    }
}

/// What lies below the repartitions at the top of a well-formed plan
/// reads what the plan reads.
pub proof fn lemma_below_matching_repartitions_same_sources(plan: PlanView, parent: PlanView)
    requires
        plan.well_formed(),
        below_matching_repartitions(plan, parent) is Ok,
    ensures
        same_sources(plan, below_matching_repartitions(plan, parent)->Ok_0),
    decreases plan,
{
    if plan.op is Repartition && parent.op is Repartition && (plan.op->partitioning).same_as(
        parent.op->partitioning,
    ) {
        assert(plan.children[0].well_formed());
        lemma_unary_sources(plan);
        lemma_below_matching_repartitions_same_sources(plan.children[0], parent);
    }
}

/// The repaired inputs of a rooted chain node read what its inputs read.
pub proof fn lemma_coalesce_patched_inputs_same_sources(tree: TreeView, k: nat)
    requires
        tree_rooted(tree),
        forall|m: int|
            0 <= m < tree.children.len() ==> (#[trigger] tree.children[m]).plan
                == tree.plan.children[tree.children[m].idx] || tree.plan.children.len() == 1,
        k <= tree.children.len(),
        coalesce_patched_inputs(tree, k) is Ok,
    ensures
        coalesce_patched_inputs(tree, k)->Ok_0.len() == tree.plan.children.len(),
        forall|j: int|
            0 <= j < tree.plan.children.len() ==> same_sources(
                tree.plan.children[j],
                #[trigger] coalesce_patched_inputs(tree, k)->Ok_0[j],
            ),
    decreases tree, k,
{
    if k > 0 {
        lemma_coalesce_patched_inputs_same_sources(tree, (k - 1) as nat);
        let before = coalesce_patched_inputs(tree, (k - 1) as nat)->Ok_0;
        let item = tree.children[k - 1];
        assert(tree_rooted(item));
        lemma_without_coalesce_same_sources(item, tree.plan);
        let inputs = coalesce_patched_inputs(tree, k)->Ok_0;
        assert(inputs == before.update(item.idx, without_coalesce(item, tree.plan)->Ok_0));
        if item.plan != tree.plan.children[item.idx] {
            lemma_unary_sources(tree.plan);
        }
        assert forall|j: int| 0 <= j < tree.plan.children.len() implies same_sources(
            tree.plan.children[j],
            #[trigger] inputs[j],
        ) by {
            if j != item.idx {
                assert(inputs[j] == before[j]);
            }
        }
    } else {
        assert forall|j: int| 0 <= j < tree.plan.children.len() implies same_sources(
            tree.plan.children[j],
            #[trigger] tree.plan.children[j],
        ) by {}
    }
}

/// Removing the coalesces at the leaves of a rooted lineage tree gives a
/// plan that reads what the plan at the root reads.
pub proof fn lemma_without_coalesce_same_sources(tree: TreeView, parent: PlanView)
    requires
        tree_rooted(tree),
        without_coalesce(tree, parent) is Ok,
    ensures
        same_sources(tree.plan, without_coalesce(tree, parent)->Ok_0),
    decreases tree, tree.children.len() + 1,
{
    let plan = tree.plan;
    if plan.is_coalesce_partitions() {
        assert(plan.children[0].well_formed());
        lemma_unary_sources(plan);
        lemma_below_matching_repartitions_same_sources(plan.children[0], parent);
    } else {
        assert forall|m: int| 0 <= m < tree.children.len() implies (#[trigger] tree.children[m]).plan
            == plan.children[tree.children[m].idx] || plan.children.len() == 1 by {}
        lemma_coalesce_patched_inputs_same_sources(tree, tree.children.len());
        let inputs = coalesce_patched_inputs(tree, tree.children.len())->Ok_0;
        lemma_rebuilt_same_sources(plan, inputs);
    }
}

/// Sort parallelization at a rooted node gives a rooted node that reads
/// what the node read.
pub proof fn lemma_parallelized_same_sources(node: TrackedView)
    requires
        node_rooted(node),
        parallelized(node) is Ok,
    ensures
        node_rooted(parallelized(node)->Ok_0),
        sources(parallelized(node)->Ok_0.plan) == sources(node.plan),
{
    let plan = node.plan;
    let out = parallelized(node)->Ok_0;
    if plan.children.len() == 0 || first_slot(node.lineage) is None {
    } else {
        let tree = first_slot(node.lineage)->0;
        assert(tree == node.lineage[0]->0);
        assert(tree.plan == plan.children[0]);
        if (plan.is_sort() || plan.is_sort_preserving_merge()) && plan.partition_count() <= 1 {
            lemma_without_coalesce_same_sources(tree, plan);
            let below = without_coalesce(tree, plan)->Ok_0;
            let found = sort_exprs_of(plan)->Ok_0;
            let sorted = sort_above(below, exact_requirements(found.0), found.1);
            lemma_sort_above_same_sources(below, exact_requirements(found.0), found.1);
            lemma_wrapped_same_sources(out.plan.op, sorted);
            lemma_unary_sources(plan);
        } else if plan.is_coalesce_partitions() {
            lemma_without_coalesce_same_sources(tree, plan);
            let below = without_coalesce(tree, plan)->Ok_0;
            lemma_wrapped_same_sources(out.plan.op, below);
            lemma_unary_sources(plan);
        }
    }
}

/// The lineage of the first `k` slots that continues through a rooted
/// node is rooted in the node.
pub proof fn lemma_kept_coalesce_lineage_rooted(item: TrackedView, k: nat)
    requires
        node_rooted(item),
    ensures
        forall|m: int|
            0 <= m < kept_coalesce_lineage(item, k).len() ==> {
                &&& tree_rooted(#[trigger] kept_coalesce_lineage(item, k)[m])
                &&& 0 <= kept_coalesce_lineage(item, k)[m].idx < item.plan.children.len()
                &&& kept_coalesce_lineage(item, k)[m].plan
                    == item.plan.children[kept_coalesce_lineage(item, k)[m].idx]
            },
    decreases k,
{
    if k > 0 && k <= item.lineage.len() {
        lemma_kept_coalesce_lineage_rooted(item, (k - 1) as nat);
        let front = kept_coalesce_lineage(item, (k - 1) as nat);
        assert forall|m: int| 0 <= m < kept_coalesce_lineage(item, k).len() implies {
            &&& tree_rooted(#[trigger] kept_coalesce_lineage(item, k)[m])
            &&& 0 <= kept_coalesce_lineage(item, k)[m].idx < item.plan.children.len()
            &&& kept_coalesce_lineage(item, k)[m].plan
                == item.plan.children[kept_coalesce_lineage(item, k)[m].idx]
        } by {
            if m < front.len() {
                assert(kept_coalesce_lineage(item, k)[m] == front[m]);
            } else {
                assert(kept_coalesce_lineage(item, k)[m] == item.lineage[k - 1]->0);
            }
        }
    }
}

/// What the parallelization pass keeps of the inputs of a plan.
pub open spec fn inputs_node_rooted(plan: PlanView, nodes: Seq<TrackedView>, k: nat) -> bool {
    &&& nodes.len() == k
    &&& forall|i: int|
        0 <= i < k ==> node_rooted(#[trigger] nodes[i]) && sources(nodes[i].plan) == sources(
            plan.children[i],
        )
}

/// The inputs of a well-formed plan read after the parallelization pass
/// what they read before.
pub proof fn lemma_parallel_pass_inputs_same_sources(plan: PlanView, k: nat)
    requires
        plan.well_formed(),
        k <= plan.children.len(),
        parallel_pass_inputs(plan, k) is Ok,
    ensures
        inputs_node_rooted(plan, parallel_pass_inputs(plan, k)->Ok_0, k),
    decreases plan, k,
{
    if k > 0 {
        lemma_parallel_pass_inputs_same_sources(plan, (k - 1) as nat);
        assert(plan.children[k - 1].well_formed());
        lemma_parallel_pass_same_sources(plan.children[k - 1]);
    }
}

/// The parallelization pass over a well-formed plan gives a plan that
/// reads what the plan read.
pub proof fn lemma_parallel_pass_same_sources(plan: PlanView)
    requires
        plan.well_formed(),
        parallel_pass(plan) is Ok,
    ensures
        node_rooted(parallel_pass(plan)->Ok_0),
        sources(parallel_pass(plan)->Ok_0.plan) == sources(plan),
    decreases plan, plan.children.len() + 1,
{
    if plan.children.len() == 0 {
        lemma_parallelized_same_sources(untracked(plan));
    } else {
        lemma_parallel_pass_inputs_same_sources(plan, plan.children.len());
        let nodes = parallel_pass_inputs(plan, plan.children.len())->Ok_0;
        let node = with_coalesce_lineage(nodes, plan)->Ok_0;
        let inputs = plans_of(nodes);
        assert(node.plan.children =~= inputs);
        assert forall|i: int| 0 <= i < inputs.len() implies same_sources(
            plan.children[i],
            #[trigger] inputs[i],
        ) by {
            assert(node_rooted(nodes[i]));
        }
        lemma_rebuilt_same_sources(plan, inputs);
        assert forall|i: int| 0 <= i < node.lineage.len() implies match #[trigger] node.lineage[i] {
            Some(tree) => tree_rooted(tree) && tree.idx == i && tree.plan == node.plan.children[i],
            None => true,
        } by {
            let item = nodes[i];
            assert(node_rooted(item));
            assert(node.lineage[i] == coalesce_lineage_through(item, i));
            lemma_kept_coalesce_lineage_rooted(item, item.lineage.len());
        }
        lemma_parallelized_same_sources(node);
    }
}

/// The rewrite loses and repeats nothing: the rewritten plan reads the
/// sources that the plan read, each once and in the same order, with or
/// without sort parallelization.
pub proof fn theorem_rewrite_keeps_sources(plan: PlanView, repartition_sorts: bool)
    requires
        plan.well_formed(),
        optimized(plan, repartition_sorts) is Ok,
    ensures
        sources(optimized(plan, repartition_sorts)->Ok_0) == sources(plan),
{
    lemma_sort_pass_same_sources(plan);
    if repartition_sorts {
        lemma_parallel_pass_same_sources(sort_pass(plan)->Ok_0.plan);
    }
}

} // verus!
