//! Running sort enforcement on its own output: the second run can only
//! find sorts to remove that the first run has made redundant.

use crate::asking::{
    lemma_asks_nothing_of_any_input, lemma_asks_the_same_of_input_that_meets,
    lemma_sorted_windows_ask_alike, searches_unsorted, sorted_windows,
};
use crate::enforce::{
    enforce_slot, enforce_slots, ensured, first_slot, immediate_sort_removal, tracked_slots,
};
use crate::lineage::{
    carries_sort_lineage, first_through, kept_sort_lineage, lemma_first_through, lineage_below,
    plans_of, sort_lineage_through, untracked, with_sort_lineage, TrackedView, TreeView,
};
use crate::model::{OperatorView, PlanView};
use crate::optimizer::{optimized, sort_pass, sort_pass_inputs};
use crate::partitions::{
    distribution_met, edge_partitioned, lemma_sort_pass_inputs_partitioned,
    lemma_with_sort_lineage_partitioned, single_partitions_guarded,
};
use crate::ordering::{
    distinct_keys, distinct_requirements, lemma_ordering_meets_itself,
    requirement_met, SortKey, SortRequirement,
};
use crate::stability::{
    settled, slot_settled, theorem_settled_plan_is_left_alone, window_fits, window_freshly_sorted,
    window_settled, with_own_lineage,
};
use crate::surgery::{
    consolidated, lemma_sort_above_meets, sort_above, sort_patched_inputs, sort_stripped,
    without_sort,
};
use crate::window::{
    best_fitting_window, lemma_fitting_window_fits_again, window_answer, window_over_sorted_input,
    window_without_sort,
};
use vstd::prelude::*;

verus! {

/// Whether a sort is tracked through the plan: the plan is a sort, or it
/// is no limit and a sort is tracked through an input from which an
/// ordering flows unbroken.
pub open spec fn tracks(plan: PlanView) -> bool
    decreases plan,
{
    plan.is_sort() || (!plan.is_limit() && exists|i: int|
        0 <= i < plan.children.len() && carries_sort_lineage(plan, i) && tracks(
            #[trigger] plan.children[i],
        ))
}

/// Whether the operator of the node is plain: if it is a window whose
/// first function names no partition columns, it is not partitioned by
/// any; and, if it has no kind of its own, it takes its ordering from the
/// input whose order it keeps.
pub open spec fn plain_operator(op: OperatorView) -> bool {
    match op {
        OperatorView::Window { window_expr, partition_keys, .. } => window_expr.len() > 0 && (
        window_expr[0].partition_by.len() == 0 ==> partition_keys.len() == 0),
        OperatorView::Other { inputs, ordering_from, .. } => forall|i: int|
            0 <= i < inputs.len() ==> ((#[trigger] inputs[i]).maintains_order ==> ordering_from
                is Some && ordering_from->0 as int == i),
        _ => true,
    }
}

/// Whether the plan is well-formed and every operator in it is plain.
pub open spec fn plain(plan: PlanView) -> bool
    decreases plan,
{
    &&& plan.op.accepts(plan.children.len())
    &&& plain_operator(plan.op)
    &&& forall|i: int| 0 <= i < plan.children.len() ==> plain(#[trigger] plan.children[i])
}

/// A plain plan is well-formed.
pub proof fn lemma_plain_well_formed(plan: PlanView)
    requires
        plain(plan),
    ensures
        plan.well_formed(),
    decreases plan,
{
    assert forall|i: int| 0 <= i < plan.children.len() implies (#[trigger] plan.children[i]).well_formed() by {
        lemma_plain_well_formed(plan.children[i]);
    }
}

/// A plain plan through which a sort is tracked is ordered.
pub proof fn lemma_tracked_means_ordered(plan: PlanView)
    requires
        plain(plan),
        tracks(plan),
    ensures
        plan.output_ordering() is Some,
    decreases plan,
{
    if !plan.is_sort() {
        let i = choose|i: int|
            0 <= i < plan.children.len() && carries_sort_lineage(plan, i) && tracks(
                #[trigger] plan.children[i],
            );
        lemma_tracked_means_ordered(plan.children[i]);
        match plan.op {
            OperatorView::Other { inputs, ordering_from, .. } => {
                assert(inputs[i].maintains_order);
                assert(ordering_from->0 as int == i);
            },
            OperatorView::Repartition { .. } => {
                assert(i == 0);
            },
            _ => {},
        }
    }
}

/// The lineage of the first `k` slots that continues through a node is
/// empty if and only if no ordering flows unbroken from a slot that has
/// lineage.
pub proof fn lemma_kept_nothing(item: TrackedView, k: nat)
    requires
        k <= item.plan.children.len(),
    ensures
        kept_sort_lineage(item, k).len() > 0 <==> exists|i: int|
            0 <= i < k && i < item.lineage.len() && carries_sort_lineage(item.plan, i)
                && (#[trigger] item.lineage[i]) is Some,
    decreases k,
{
    if k > 0 {
        lemma_kept_nothing(item, (k - 1) as nat);
        let i = k - 1;
        if kept_sort_lineage(item, (k - 1) as nat).len() > 0 {
            let j = choose|j: int|
                0 <= j < k - 1 && j < item.lineage.len() && carries_sort_lineage(item.plan, j)
                    && (#[trigger] item.lineage[j]) is Some;
            assert(0 <= j < k && item.lineage[j] is Some);
        }
        if i < item.lineage.len() && carries_sort_lineage(item.plan, i) && item.lineage[i] is Some {
            assert(kept_sort_lineage(item, k).len() > 0);
        }
    }
}

/// A sort is tracked through a plan if and only if the plan with its own
/// lineage has lineage through it.
pub proof fn lemma_tracks_is_own_lineage(plan: PlanView, idx: int)
    ensures
        tracks(plan) <==> sort_lineage_through(with_own_lineage(plan), idx) is Some,
    decreases plan,
{
    let own = with_own_lineage(plan);
    lemma_kept_nothing(own, plan.children.len());
    assert forall|i: int| 0 <= i < plan.children.len() implies (tracks(#[trigger] plan.children[i])
        <==> own.lineage[i] is Some) by {
        lemma_tracks_is_own_lineage(plan.children[i], i);
    }
    if !plan.is_sort() && !plan.is_limit() {
        if tracks(plan) {
            let i = choose|i: int|
                0 <= i < plan.children.len() && carries_sort_lineage(plan, i) && tracks(
                    #[trigger] plan.children[i],
                );
            assert(own.lineage[i] is Some);
        }
        if kept_sort_lineage(own, plan.children.len()).len() > 0 {
            let i = choose|i: int|
                0 <= i < plan.children.len() && i < own.lineage.len() && carries_sort_lineage(
                    plan,
                    i,
                ) && (#[trigger] own.lineage[i]) is Some;
            assert(tracks(plan.children[i]));
        }
    }
}

/// Whether a window is at rest: no sort is tracked through its input, and
/// the input is ordered as the window asks or the window is the
/// evaluation that fits the input; or the window stands over the sort
/// that it takes where no evaluation fits.
pub open spec fn window_at_rest(plan: PlanView) -> bool {
    let child = plan.children[0];
    ||| !tracks(child) && (plan.required_input_ordering(0) matches Some(required)
        ==> child.output_ordering() is Some && child.ordering_satisfy_requirement(required))
    ||| !tracks(child) && window_fits(plan)
    ||| window_freshly_sorted(plan)
}

/// Whether nothing but the removal of a sort can be left to do at slot
/// `i` of the node: a window is at rest; at any other node, an ordering
/// that is asked of the input is met by it, and no sort is tracked through
/// an ordered input whose ordering the node does not pass on.
pub open spec fn slot_at_rest(plan: PlanView, i: int) -> bool {
    let child = plan.children[i];
    if plan.is_window() {
        window_at_rest(plan)
    } else {
        match plan.required_input_ordering(i) {
            Some(required) => child.ordering_satisfy_requirement(required) && (
            child.output_ordering() is Some || !tracks(child)),
            None => child.output_ordering() is Some && (!plan.maintains_input_order(i)
                || plan.is_union()) ==> !tracks(child),
        }
    }
}

/// Whether nothing but the removal of sorts can be left to do in the
/// plan: every slot is at rest and no sort-preserving merge stands over a
/// single partition.
pub open spec fn at_rest(plan: PlanView) -> bool
    decreases plan,
{
    &&& !(plan.is_sort_preserving_merge() && plan.children.len() > 0
        && plan.children[0].partition_count() <= 1)
    &&& forall|i: int|
        0 <= i < plan.children.len() ==> at_rest(#[trigger] plan.children[i]) && slot_at_rest(plan, i)
}

/// Whether a plan is plain and at rest.
pub open spec fn calm(plan: PlanView) -> bool {
    plain(plan) && at_rest(plan)
}

/// Each input of a calm plan is calm.
pub proof fn lemma_input_calm(plan: PlanView, j: int)
    requires
        calm(plan),
        0 <= j < plan.children.len(),
    ensures
        calm(plan.children[j]),
        slot_at_rest(plan, j),
{
    assert(plain(plan.children[j]));
    assert(at_rest(plan.children[j]));
}

/// Whether removing the sorts at the leaves of a lineage tree leaves no
/// sort tracked: the plans of the tree are calm, each subtree is rooted at
/// an input from which an ordering flows unbroken, or, below a merge, at
/// the merge itself, and there is a subtree for every such input through
/// which a sort is tracked.
pub open spec fn clears(tree: TreeView) -> bool
    decreases tree,
{
    &&& calm(tree.plan)
    &&& forall|k: int|
        0 <= k < tree.children.len() ==> {
            &&& clears(#[trigger] tree.children[k])
            &&& 0 <= tree.children[k].idx < tree.plan.children.len()
            &&& carries_sort_lineage(tree.plan, tree.children[k].idx)
            &&& (tree.children[k].plan == tree.plan.children[tree.children[k].idx] || (
            tree.plan.is_sort_preserving_merge() && tree.children[k].plan == tree.plan))
        }
    &&& !tree.plan.is_sort() ==> forall|j: int|
        0 <= j < tree.plan.children.len() && carries_sort_lineage(tree.plan, j) && tracks(
            #[trigger] tree.plan.children[j],
        ) ==> exists|k: int| 0 <= k < tree.children.len() && (#[trigger] tree.children[k]).idx == j
}

/// A requirement that names a column is only met by an ordering that
/// names one.
pub proof fn lemma_met_means_ordered(ordering: Seq<SortKey>, reqs: Seq<SortRequirement>)
    requires
        reqs.len() > 0,
        requirement_met(ordering, reqs),
    ensures
        ordering.len() > 0,
{
    lemma_distinct_requirements_not_empty(reqs);
    if ordering.len() == 0 {
        assert(distinct_keys(ordering).len() == 0);
    }
}

/// Dropping repeated columns from a requirement that names a column
/// leaves one.
pub proof fn lemma_distinct_requirements_not_empty(reqs: Seq<SortRequirement>)
    requires
        reqs.len() > 0,
    ensures
        distinct_requirements(reqs).len() > 0,
    decreases reqs.len(),
{
    if reqs.len() > 1 {
        lemma_distinct_requirements_not_empty(reqs.drop_last());
    } else {
        assert(distinct_requirements(reqs.drop_last()).len() == 0);
    }
}

/// A plan that meets a requirement that names a column is ordered.
pub proof fn lemma_satisfying_means_ordered(plan: PlanView, reqs: Seq<SortRequirement>)
    requires
        reqs.len() > 0,
        plan.ordering_satisfy_requirement(reqs),
    ensures
        plan.output_ordering() is Some,
{
    lemma_met_means_ordered(plan.guaranteed_ordering(), reqs);
}

/// A sort above a calm plan through which no sort is tracked is calm, if
/// the requirement names a column.
pub proof fn lemma_sort_above_calm(node: PlanView, reqs: Seq<SortRequirement>, fetch: Option<usize>)
    requires
        calm(node),
        !tracks(node),
        reqs.len() > 0,
    ensures
        calm(sort_above(node, reqs, fetch)),
        sort_above(node, reqs, fetch).output_ordering() is Some,
        sort_above(node, reqs, fetch).ordering_satisfy_requirement(reqs),
        tracks(sort_above(node, reqs, fetch)) <==> sort_above(node, reqs, fetch).is_sort(),
{
    let sorted = sort_above(node, reqs, fetch);
    lemma_sort_above_meets(node, reqs, fetch);
    lemma_satisfying_means_ordered(sorted, reqs);
    if sorted != node {
        assert(sorted.children[0] == node);
        assert forall|i: int| 0 <= i < sorted.children.len() implies plain(
            #[trigger] sorted.children[i],
        ) && at_rest(sorted.children[i]) && slot_at_rest(sorted, i) by {
            assert(sorted.children[i] == node);
        }
    }
}

/// Bringing the partitions of a calm plan through which no sort is
/// tracked together gives such a plan.
pub proof fn lemma_consolidated_calm(plan: PlanView)
    requires
        calm(plan),
        !tracks(plan),
        plan.partition_count() > 1,
    ensures
        calm(consolidated(plan)),
        !tracks(consolidated(plan)),
{
    let c = consolidated(plan);
    assert(c.children[0] == plan);
    match plan.output_ordering() {
        Some(ordering) => {
            lemma_ordering_meets_itself(ordering);
        },
        None => {},
    }
    assert forall|i: int| 0 <= i < c.children.len() implies plain(#[trigger] c.children[i])
        && at_rest(c.children[i]) && slot_at_rest(c, i) by {
        assert(c.children[i] == plan);
    }
    assert forall|i: int| 0 <= i < c.children.len() && carries_sort_lineage(c, i) implies !tracks(
        #[trigger] c.children[i],
    ) by {
        assert(c.children[i] == plan);
    }
}

/// The repaired inputs of a chain node of a clearing tree are calm, and no
/// sort is tracked through those from which an ordering flows unbroken.
pub proof fn lemma_sort_patched_inputs_calm(tree: TreeView, k: nat)
    requires
        clears(tree),
        !tree.plan.is_sort(),
        k <= tree.children.len(),
        sort_patched_inputs(tree, k) is Ok,
    ensures
        ({
            let inputs = sort_patched_inputs(tree, k)->Ok_0;
            &&& inputs.len() == tree.plan.children.len()
            &&& forall|j: int| 0 <= j < inputs.len() ==> calm(#[trigger] inputs[j])
            &&& forall|j: int|
                0 <= j < inputs.len() ==> (#[trigger] inputs[j]) == tree.plan.children[j] || (
                carries_sort_lineage(tree.plan, j) && !tracks(inputs[j]))
            &&& forall|m: int| 0 <= m < k ==> !tracks(inputs[(#[trigger] tree.children[m]).idx])
        }),
    decreases tree, k,
{
    if k > 0 {
        lemma_sort_patched_inputs_calm(tree, (k - 1) as nat);
        let before = sort_patched_inputs(tree, (k - 1) as nat)->Ok_0;
        let item = tree.children[k - 1];
        let single = tree.plan.requires_single_partition(item.idx);
        assert(clears(item));
        lemma_without_sort_calm(item, single);
        let inputs = sort_patched_inputs(tree, k)->Ok_0;
        assert(inputs == before.update(item.idx, without_sort(item, single)->Ok_0));
        assert forall|j: int| 0 <= j < inputs.len() implies calm(#[trigger] inputs[j]) by {
            if j != item.idx {
                assert(inputs[j] == before[j]);
            }
        }
        assert forall|j: int| 0 <= j < inputs.len() implies (#[trigger] inputs[j])
            == tree.plan.children[j] || (carries_sort_lineage(tree.plan, j) && !tracks(
            inputs[j],
        )) by {
            if j != item.idx {
                assert(inputs[j] == before[j]);
            }
        }
        assert forall|m: int| 0 <= m < k implies !tracks(
            inputs[(#[trigger] tree.children[m]).idx],
        ) by {
            if tree.children[m].idx != item.idx {
                assert(inputs[tree.children[m].idx] == before[tree.children[m].idx]);
            }
        }
    } else {
        assert forall|j: int| 0 <= j < tree.plan.children.len() implies calm(
            #[trigger] tree.plan.children[j],
        ) by {
            lemma_input_calm(tree.plan, j);
        }
    }
}

/// Removing the sorts at the leaves of a clearing tree gives a calm plan
/// through which no sort is tracked.
pub proof fn lemma_without_sort_calm(tree: TreeView, single: bool)
    requires
        clears(tree),
        without_sort(tree, single) is Ok,
    ensures
        calm(without_sort(tree, single)->Ok_0),
        !tracks(without_sort(tree, single)->Ok_0),
    decreases tree, tree.children.len() + 1,
{
    let plan = tree.plan;
    let updated: PlanView = if plan.is_sort() {
        lemma_input_calm(plan, 0);
        if tracks(plan.children[0]) {
            lemma_tracked_means_ordered(plan.children[0]);
        }
        plan.children[0]
    } else {
        lemma_sort_patched_inputs_calm(tree, tree.children.len());
        let inputs = sort_patched_inputs(tree, tree.children.len())->Ok_0;
        assert forall|j: int|
            0 <= j < inputs.len() && carries_sort_lineage(plan, j) implies !tracks(
            #[trigger] inputs[j],
        ) by {
            if tracks(inputs[j]) {
                assert(inputs[j] == plan.children[j]);
                let m = choose|m: int| 0 <= m < tree.children.len() && (#[trigger] tree.children[m]).idx == j;
                assert(!tracks(inputs[tree.children[m].idx]));
            }
        }
        assert forall|j: int|
            0 <= j < inputs.len() && plan.required_input_ordering(j) is None implies (
        #[trigger] inputs[j]).output_ordering() is Some && (!plan.maintains_input_order(j)
            || plan.is_union()) ==> !tracks(inputs[j]) by {
            if tracks(inputs[j]) {
                assert(inputs[j] == plan.children[j]);
                lemma_input_calm(plan, j);
            }
        }
        if plan.is_sort_preserving_merge() {
            inputs[0]
        } else if plan.op is Repartition {
            let q = PlanView {
                op: OperatorView::Repartition {
                    partitioning: plan.op->partitioning,
                    preserve_order: false,
                },
                children: seq![inputs[0]],
            };
            assert(q.children[0] == inputs[0]);
            if tracks(inputs[0]) {
                lemma_tracked_means_ordered(inputs[0]);
            }
            assert forall|i: int| 0 <= i < q.children.len() implies plain(#[trigger] q.children[i])
                && at_rest(q.children[i]) && slot_at_rest(q, i) && !tracks(q.children[i]) by {
                assert(q.children[i] == inputs[0]);
            }
            q
        } else {
            let q = plan.with_new_children(inputs)->0;
            lemma_asks_nothing_of_any_input(
                plan.op,
                plan.window_input_ordering(),
                q.window_input_ordering(),
            );
            assert forall|i: int| 0 <= i < q.children.len() implies plain(#[trigger] q.children[i])
                && at_rest(q.children[i]) && slot_at_rest(q, i) by {
                assert(calm(inputs[i]));
                lemma_input_calm(plan, i);
                if tracks(inputs[i]) {
                    lemma_tracked_means_ordered(inputs[i]);
                }
                if plan.is_window() {
                    if inputs[0] == plan.children[0] {
                        assert(inputs =~= plan.children);
                    }
                } else {
                    lemma_slot_at_rest_kept(plan, q, i);
                }
            }
            assert forall|j: int|
                0 <= j < q.children.len() && carries_sort_lineage(q, j) implies !tracks(
                #[trigger] q.children[j],
            ) by {
                if tracks(inputs[j]) {
                    assert(inputs[j] == plan.children[j]);
                    lemma_input_calm(plan, j);
                    lemma_tracked_means_ordered(inputs[j]);
                }
            }
            q
        }
    };
    assert(calm(updated));
    assert(!tracks(updated));
    if single && updated.partition_count() > 1 {
        lemma_consolidated_calm(updated);
    }
}

/// A slot of a node rebuilt over other inputs is at rest if the input of
/// the slot is the one that was at rest there, or is calm and no sort is
/// tracked through it where the node asks no ordering.
pub proof fn lemma_slot_at_rest_kept(before: PlanView, after: PlanView, i: int)
    requires
        before.op == after.op,
        !(before.op is Repartition),
        !(before.op is Window),
        before.children.len() == after.children.len(),
        0 <= i < before.children.len(),
        slot_at_rest(before, i),
        after.children[i] == before.children[i] || (before.required_input_ordering(i) is None
            && !tracks(after.children[i])),
        before.required_input_ordering(i) is None && tracks(after.children[i])
            ==> before.maintains_input_order(i) && !before.is_union(),
        before.op is Union ==> !tracks(after.children[i]) || after.children[i].output_ordering()
            is None,
    ensures
        slot_at_rest(after, i),
{
}

/// Whether a rewritten node can be handed to its parent for the second
/// run to find nothing but sorts to remove: its plan is calm, there is
/// lineage at every input from which an ordering flows unbroken and
/// through which a sort is tracked, and every lineage tree clears and is
/// rooted at the input of its slot or, if the node is a merge, at the node
/// itself.
pub open spec fn item_calm(node: TrackedView) -> bool {
    &&& calm(node.plan)
    &&& !node.plan.is_limit() ==> forall|j: int|
        0 <= j < node.plan.children.len() && carries_sort_lineage(node.plan, j) && tracks(
            #[trigger] node.plan.children[j],
        ) ==> j < node.lineage.len() && node.lineage[j] is Some
    &&& forall|i: int|
        0 <= i < node.lineage.len() ==> match #[trigger] node.lineage[i] {
            Some(t) => clears(t) && t.idx == i && i < node.plan.children.len() && (t.plan
                == node.plan.children[i] || (node.plan.is_sort_preserving_merge() && t.plan
                == node.plan)),
            None => true,
        }
}

/// The state of the slots of a node during sort enforcement, for the
/// second run to find nothing but sorts to remove: every input is calm,
/// every lineage tree clears and is rooted at the input of its slot,
/// there is lineage at every input through which a sort is tracked, and
/// the slots handled so far are decided.
pub open spec fn slots_calm(
    plan: PlanView,
    inputs: Seq<PlanView>,
    lineage: Seq<Option<TreeView>>,
    k: nat,
) -> bool {
    &&& plain_operator(plan.op)
    &&& plan.op.accepts(plan.children.len())
    &&& inputs.len() == plan.children.len()
    &&& lineage.len() == plan.children.len()
    &&& forall|j: int| 0 <= j < inputs.len() ==> calm(#[trigger] inputs[j])
    &&& forall|i: int|
        0 <= i < lineage.len() ==> match #[trigger] lineage[i] {
            Some(t) => clears(t) && t.idx == i && t.plan == inputs[i],
            None => true,
        }
    &&& forall|i: int| 0 <= i < inputs.len() && tracks(#[trigger] inputs[i]) ==> lineage[i] is Some
    &&& forall|j: int| 0 <= j < k ==> decided(plan, #[trigger] inputs[j], j)
    &&& forall|j: int| k <= j < inputs.len() ==> (#[trigger] inputs[j]) == plan.children[j]
}

/// Whether slot `j` of the node is decided with `input` in it: the input
/// meets what is asked of it; or nothing is asked, no sort
/// is tracked through the input if it is ordered and the node does not
/// pass its ordering on, and the input is the one the node had if the node
/// passes its ordering on.
pub open spec fn decided(plan: PlanView, input: PlanView, j: int) -> bool {
    match plan.required_input_ordering(j) {
        Some(required) => input.ordering_satisfy_requirement(required) && (input.output_ordering()
            is Some || !tracks(input)),
        None => {
            &&& input.output_ordering() is Some && (!plan.maintains_input_order(j)
                || plan.is_union()) ==> !tracks(input)
            &&& plan.maintains_input_order(j) && !plan.is_union() ==> input == plan.children[j]
        },
    }
}

/// Whether a node is ready for sort enforcement, for the second run to
/// find nothing but sorts to remove.
pub open spec fn node_calm(node: TrackedView) -> bool {
    slots_calm(node.plan, node.plan.children, node.lineage, 0)
}

/// A requirement that an ordering does not meet names a column.
pub proof fn lemma_unmet_requirement_not_empty(ordering: Seq<SortKey>, reqs: Seq<SortRequirement>)
    requires
        !requirement_met(ordering, reqs),
    ensures
        reqs.len() > 0,
{
    if reqs.len() == 0 {
        assert(distinct_requirements(reqs).len() == 0);
    }
}

/// Bringing one more slot in line keeps the state of the slots.
pub proof fn lemma_enforce_slot_calm(
    plan: PlanView,
    inputs: Seq<PlanView>,
    lineage: Seq<Option<TreeView>>,
    idx: nat,
)
    requires
        slots_calm(plan, inputs, lineage, idx),
        idx < inputs.len(),
        enforce_slot(plan, inputs, lineage, idx as int) is Ok,
    ensures
        slots_calm(
            plan,
            enforce_slot(plan, inputs, lineage, idx as int)->Ok_0.0,
            enforce_slot(plan, inputs, lineage, idx as int)->Ok_0.1,
            idx + 1,
        ),
{
    let child = inputs[idx as int];
    let out = enforce_slot(plan, inputs, lineage, idx as int)->Ok_0;
    let new_inputs = out.0;
    let new_lineage = out.1;
    assert(calm(child));
    assert(child == plan.children[idx as int]);
    let slot = lineage[idx as int];
    let stripped = sort_stripped(child, slot, plan);
    if stripped is Ok {
        match slot {
            Some(tree) => {
                lemma_without_sort_calm(tree, plan.requires_single_partition(tree.idx));
            },
            None => {},
        }
        assert(calm(stripped->Ok_0));
        assert(!tracks(stripped->Ok_0));
    }
    if !tracks(child) {
    } else {
        lemma_tracked_means_ordered(child);
    }
    match (plan.required_input_ordering(idx as int), child.output_ordering()) {
        (Some(required), Some(_)) => {
            if !child.ordering_satisfy_requirement(required) {
                lemma_unmet_requirement_not_empty(child.guaranteed_ordering(), required);
                lemma_sort_above_calm(stripped->Ok_0, required, None);
            }
        },
        (Some(required), None) => {
            if !child.ordering_satisfy_requirement(required) {
                lemma_unmet_requirement_not_empty(child.guaranteed_ordering(), required);
                lemma_sort_above_calm(child, required, None);
            }
        },
        _ => {},
    }
    assert forall|j: int| 0 <= j < new_inputs.len() implies calm(#[trigger] new_inputs[j]) by {
        if j != idx {
            assert(new_inputs[j] == inputs[j]);
        }
    }
    assert forall|i: int| 0 <= i < new_lineage.len() implies match #[trigger] new_lineage[i] {
        Some(t) => clears(t) && t.idx == i && t.plan == new_inputs[i],
        None => true,
    } by {
        if i != idx {
            assert(new_lineage[i] == lineage[i]);
            assert(new_inputs[i] == inputs[i]);
        }
    }
    assert forall|i: int| 0 <= i < new_inputs.len() && tracks(
        #[trigger] new_inputs[i],
    ) implies new_lineage[i] is Some by {
        if i != idx {
            assert(new_inputs[i] == inputs[i]);
            assert(new_lineage[i] == lineage[i]);
        }
    }
    assert forall|j: int| 0 <= j < idx + 1 implies decided(plan, #[trigger] new_inputs[j], j) by {
        if j != idx {
            assert(new_inputs[j] == inputs[j]);
        }
    }
    assert forall|j: int| idx + 1 <= j < new_inputs.len() implies (#[trigger] new_inputs[j])
        == plan.children[j] by {
        assert(new_inputs[j] == inputs[j]);
    }
}

/// Bringing the first `k` slots in line keeps the state of the slots.
pub proof fn lemma_enforce_slots_calm(node: TrackedView, k: nat)
    requires
        node_calm(node),
        k <= node.plan.children.len(),
        enforce_slots(node, k) is Ok,
    ensures
        slots_calm(node.plan, enforce_slots(node, k)->Ok_0.0, enforce_slots(node, k)->Ok_0.1, k),
    decreases k,
{
    if k > 0 {
        lemma_enforce_slots_calm(node, (k - 1) as nat);
        let before = enforce_slots(node, (k - 1) as nat)->Ok_0;
        lemma_enforce_slot_calm(node.plan, before.0, before.1, (k - 1) as nat);
    }
}

/// The lineage of the first `k` slots that continues through a calm
/// rewritten node clears, is rooted in the node, and holds a tree for
/// every slot that has lineage and from which an ordering flows unbroken.
pub proof fn lemma_kept_sort_lineage_calm(item: TrackedView, k: nat)
    requires
        item_calm(item),
        k <= item.plan.children.len(),
    ensures
        forall|m: int|
            0 <= m < kept_sort_lineage(item, k).len() ==> {
                let c = #[trigger] kept_sort_lineage(item, k)[m];
                &&& clears(c)
                &&& 0 <= c.idx < item.plan.children.len()
                &&& carries_sort_lineage(item.plan, c.idx)
                &&& (c.plan == item.plan.children[c.idx] || (item.plan.is_sort_preserving_merge()
                    && c.plan == item.plan))
            },
        forall|j: int|
            0 <= j < k && j < item.lineage.len() && carries_sort_lineage(item.plan, j)
                && item.lineage[j] is Some ==> exists|m: int|
                0 <= m < kept_sort_lineage(item, k).len() && (#[trigger] kept_sort_lineage(
                    item,
                    k,
                )[m]).idx == j,
    decreases k,
{
    if k > 0 {
        lemma_kept_sort_lineage_calm(item, (k - 1) as nat);
        let front = kept_sort_lineage(item, (k - 1) as nat);
        let now = kept_sort_lineage(item, k);
        assert forall|m: int| 0 <= m < now.len() implies {
            let c = #[trigger] now[m];
            &&& clears(c)
            &&& 0 <= c.idx < item.plan.children.len()
            &&& carries_sort_lineage(item.plan, c.idx)
            &&& (c.plan == item.plan.children[c.idx] || (item.plan.is_sort_preserving_merge()
                && c.plan == item.plan))
        } by {
            if m < front.len() {
                assert(now[m] == front[m]);
            } else {
                assert(now[m] == item.lineage[k - 1]->0);
            }
        }
        assert forall|j: int|
            0 <= j < k && j < item.lineage.len() && carries_sort_lineage(item.plan, j)
                && item.lineage[j] is Some implies exists|m: int|
            0 <= m < now.len() && (#[trigger] now[m]).idx == j by {
            if j < k - 1 {
                let m = choose|m: int| 0 <= m < front.len() && (#[trigger] front[m]).idx == j;
                assert(now[m] == front[m]);
            } else {
                assert(now[front.len() as int] == item.lineage[j]->0);
            }
        }
    }
}

/// The lineage through a calm rewritten node clears, is rooted at the
/// node, and is there if a sort is tracked through the node.
pub proof fn lemma_sort_lineage_through_calm(item: TrackedView, idx: int)
    requires
        item_calm(item),
    ensures
        match sort_lineage_through(item, idx) {
            Some(t) => clears(t) && t.idx == idx && t.plan == item.plan,
            None => !tracks(item.plan),
        },
{
    let plan = item.plan;
    lemma_kept_sort_lineage_calm(item, plan.children.len());
    lemma_kept_nothing(item, plan.children.len());
    if !plan.is_sort() && !plan.is_limit() {
        let kept = kept_sort_lineage(item, plan.children.len());
        if kept.len() > 0 {
            let t = sort_lineage_through(item, idx)->0;
            assert(t.children == kept);
            assert forall|j: int|
                0 <= j < plan.children.len() && carries_sort_lineage(plan, j) && tracks(
                    #[trigger] plan.children[j],
                ) implies exists|m: int| 0 <= m < t.children.len() && (#[trigger] t.children[m]).idx == j by {
                assert(item.lineage[j] is Some);
            }
        } else {
            if tracks(plan) {
                let j = choose|j: int|
                    0 <= j < plan.children.len() && carries_sort_lineage(plan, j) && tracks(
                        #[trigger] plan.children[j],
                    );
                assert(item.lineage[j] is Some);
            }
        }
    }
}

/// A plain parent rebuilt over calm rewritten inputs is ready for sort
/// enforcement.
pub proof fn lemma_with_sort_lineage_calm(children: Seq<TrackedView>, parent: PlanView)
    requires
        plain_operator(parent.op),
        forall|i: int| 0 <= i < children.len() ==> item_calm(#[trigger] children[i]),
        with_sort_lineage(children, parent) is Ok,
    ensures
        node_calm(with_sort_lineage(children, parent)->Ok_0),
{
    let node = with_sort_lineage(children, parent)->Ok_0;
    assert(node.plan.children =~= plans_of(children));
    assert forall|j: int| 0 <= j < node.plan.children.len() implies calm(
        #[trigger] node.plan.children[j],
    ) by {
        assert(item_calm(children[j]));
    }
    assert forall|i: int| 0 <= i < node.lineage.len() implies match #[trigger] node.lineage[i] {
        Some(t) => clears(t) && t.idx == i && t.plan == node.plan.children[i],
        None => true,
    } by {
        assert(item_calm(children[i]));
        lemma_sort_lineage_through_calm(children[i], i);
    }
    assert forall|i: int| 0 <= i < node.plan.children.len() && tracks(
        #[trigger] node.plan.children[i],
    ) implies node.lineage[i] is Some by {
        assert(item_calm(children[i]));
        lemma_sort_lineage_through_calm(children[i], i);
    }
}

/// Among the first `k` trees there is a first one reached through slot
/// `j` if one of them was reached through it.
pub proof fn lemma_first_through_exists(trees: Seq<TreeView>, j: int, k: nat, m: int)
    requires
        k <= trees.len(),
        0 <= m < k,
        trees[m].idx == j,
    ensures
        first_through(trees, j, k) is Some,
    decreases k,
{
    if m < k - 1 {
        lemma_first_through_exists(trees, j, (k - 1) as nat, m);
    }
}

/// The lineage that a calm node carries, read off a clearing lineage tree
/// rooted at the node, makes the node a calm rewritten node.
pub proof fn lemma_lineage_below_calm(tree: Option<TreeView>, plan: PlanView)
    requires
        calm(plan),
        match tree {
            Some(t) => clears(t) && t.plan == plan,
            None => !tracks(plan),
        },
    ensures
        item_calm(TrackedView { plan, lineage: lineage_below(tree, plan.children.len()) }),
{
    let below = lineage_below(tree, plan.children.len());
    assert forall|i: int| 0 <= i < below.len() implies match #[trigger] below[i] {
        Some(t) => clears(t) && t.idx == i && i < plan.children.len() && (t.plan
            == plan.children[i] || (plan.is_sort_preserving_merge() && t.plan == plan)),
        None => true,
    } by {
        match tree {
            Some(t) => {
                if first_through(t.children, i, t.children.len()) is Some {
                    lemma_first_through(t.children, i, t.children.len());
                    let m = choose|m: int|
                        0 <= m < t.children.len() && t.children[m] == first_through(
                            t.children,
                            i,
                            t.children.len(),
                        )->0;
                    assert(clears(t.children[m]));
                }
            },
            None => {},
        }
    }
    if !plan.is_limit() {
        assert forall|j: int|
            0 <= j < plan.children.len() && carries_sort_lineage(plan, j) && tracks(
                #[trigger] plan.children[j],
            ) implies j < below.len() && below[j] is Some by {
            assert(!plan.is_sort()) by {
                if plan.is_sort() {
                    assert(!carries_sort_lineage(plan, j));
                }
            }
            assert(tracks(plan));
            let t = tree->0;
            let m = choose|m: int| 0 <= m < t.children.len() && (#[trigger] t.children[m]).idx == j;
            lemma_first_through_exists(t.children, j, t.children.len(), m);
        }
    }
}

/// What replaces a removable sort whose input yields a single partition
/// where the sort asks for one is a calm rewritten node.
pub proof fn lemma_immediate_removal_calm(node: TrackedView)
    requires
        node_calm(node),
        distribution_met(node.plan),
        immediate_sort_removal(node.plan, node.lineage) is Some,
    ensures
        item_calm(immediate_sort_removal(node.plan, node.lineage)->0),
{
    let plan = node.plan;
    let out = immediate_sort_removal(plan, node.lineage)->0;
    let input = plan.children[0];
    assert(calm(input));
    match plan.op {
        OperatorView::Sort { expr, preserve_partitioning, .. } => {
            if !preserve_partitioning && input.partition_count() > 1 {
                assert(edge_partitioned(plan, 0));
            } else {
                let slot = first_slot(node.lineage);
                assert(slot == node.lineage[0]);
                lemma_lineage_below_calm(slot, input);
            }
        },
        _ => {},
    }
}

/// The window that the analysis leaves, over its input without the sort
/// that was tracked there, is a calm rewritten node.
pub proof fn lemma_window_without_sort_calm(tree: TreeView, window: PlanView)
    requires
        window.is_window(),
        plain_operator(window.op),
        !searches_unsorted(window.op),
        window.op.accepts(window.children.len()),
        clears(tree),
        tree.idx == 0,
        window_without_sort(tree, window, window_answer(tree, window)) is Ok,
    ensures
        item_calm(window_without_sort(tree, window, window_answer(tree, window))->Ok_0),
{
    let single = window.requires_single_partition(0);
    lemma_without_sort_calm(tree, single);
    let child = without_sort(tree, single)->Ok_0;
    let exprs = window.op->window_expr;
    let keys = window.op->partition_keys;
    assert(single ==> child.partition_count() <= 1);
    let out = window_without_sort(tree, window, window_answer(tree, window))->Ok_0;
    let w = out.plan;
    if best_fitting_window(exprs, child, keys) is Some {
        lemma_fitting_window_fits_again(exprs, child, keys);
        assert(w == best_fitting_window(exprs, child, keys)->0);
        assert(w.children[0] == child);
        assert(window_fits(w));
    } else {
        assert(w == window_over_sorted_input(window, child));
        match window.required_input_ordering(0) {
            Some(required) => {
                let sorted = sort_above(child, required, None);
                lemma_sort_above_calm(child, required, None);
                assert(w.children[0] == sorted);
                assert(w.window_input_ordering() == sorted.guaranteed_ordering());
                lemma_sorted_windows_ask_alike(window.op, w.op, sorted.guaranteed_ordering());
                lemma_asks_the_same_of_input_that_meets(
                    window.op,
                    window.window_input_ordering(),
                    sorted.guaranteed_ordering(),
                );
                assert(w.required_input_ordering(0) == Some(required));
                if sorted == child {
                } else {
                    assert(sorted.children[0] == child);
                    assert(window_over_sorted_input(w, child) == w);
                    assert(window_freshly_sorted(w));
                }
            },
            None => {
                assert(requirement_met(child.guaranteed_ordering(), Seq::<SortRequirement>::empty()));
                assert(w.children[0] == child);
                assert(w.window_input_ordering() == child.guaranteed_ordering());
                lemma_sorted_windows_ask_alike(window.op, w.op, child.guaranteed_ordering());
                lemma_asks_nothing_of_any_input(
                    window.op,
                    window.window_input_ordering(),
                    child.guaranteed_ordering(),
                );
            },
        }
    }
    assert(window_at_rest(w));
    assert forall|i: int| 0 <= i < w.children.len() implies plain(#[trigger] w.children[i])
        && at_rest(w.children[i]) && slot_at_rest(w, i) by {
        assert(w.children[i] == w.children[0]);
    }
}

/// Sort enforcement at a node that is ready, and whose inputs yield a
/// single partition where it asks for one, gives a calm rewritten node.
pub proof fn lemma_ensured_calm(node: TrackedView)
    requires
        node_calm(node),
        !searches_unsorted(node.plan.op),
        distribution_met(node.plan),
        ensured(node) is Ok,
    ensures
        item_calm(ensured(node)->Ok_0),
{
    let plan = node.plan;
    if plan.children.len() == 0 {
    } else if immediate_sort_removal(plan, node.lineage) is Some {
        lemma_immediate_removal_calm(node);
    } else {
        assert(tracked_slots(node) == plan.children.len());
        lemma_enforce_slots_calm(node, plan.children.len());
        let state = enforce_slots(node, plan.children.len())->Ok_0;
        let inputs = state.0;
        let lineage = state.1;
        if plan.is_window() && first_slot(lineage) is Some {
            let tree = first_slot(lineage)->0;
            assert(tree == lineage[0]->0);
            lemma_window_without_sort_calm(tree, plan);
        } else if plan.is_sort_preserving_merge() && inputs[0].partition_count() <= 1 {
            let slot = first_slot(lineage);
            assert(slot == lineage[0]);
            lemma_lineage_below_calm(slot, inputs[0]);
        } else {
            let q = plan.with_new_children(inputs)->0;
            if plan.is_window() {
                assert(decided(plan, inputs[0], 0));
                match plan.required_input_ordering(0) {
                    Some(required) => {
                        lemma_asks_the_same_of_input_that_meets(
                            plan.op,
                            plan.window_input_ordering(),
                            q.window_input_ordering(),
                        );
                        lemma_unmet_requirement_not_empty(Seq::empty(), required);
                    },
                    None => {
                        lemma_asks_nothing_of_any_input(
                            plan.op,
                            plan.window_input_ordering(),
                            q.window_input_ordering(),
                        );
                    },
                }
            }
            assert forall|i: int| 0 <= i < q.children.len() implies plain(#[trigger] q.children[i])
                && at_rest(q.children[i]) && slot_at_rest(q, i) by {
                assert(calm(inputs[i]));
                assert(decided(plan, inputs[i], i));
                if plan.is_window() {
                    assert(lineage[0] is None);
                    assert(!tracks(inputs[0]));
                    assert(decided(plan, inputs[0], 0));
                }
            }
        }
    }
}

/// The rewritten inputs of a plain, guarded plan are calm rewritten nodes.
pub proof fn lemma_sort_pass_inputs_calm(plan: PlanView, k: nat)
    requires
        plain(plan),
        sorted_windows(plan),
        single_partitions_guarded(plan),
        k <= plan.children.len(),
        sort_pass_inputs(plan, k) is Ok,
    ensures
        sort_pass_inputs(plan, k)->Ok_0.len() == k,
        forall|i: int| 0 <= i < k ==> item_calm(#[trigger] sort_pass_inputs(plan, k)->Ok_0[i]),
    decreases plan, k,
{
    if k > 0 {
        lemma_sort_pass_inputs_calm(plan, (k - 1) as nat);
        assert(plain(plan.children[k - 1]));
        assert(sorted_windows(plan.children[k - 1]));
        assert(single_partitions_guarded(plan.children[k - 1]));
        lemma_sort_pass_calm(plan.children[k - 1]);
    }
}

/// The sort-enforcement pass over a plain, guarded plan gives a calm
/// rewritten node.
pub proof fn lemma_sort_pass_calm(plan: PlanView)
    requires
        plain(plan),
        sorted_windows(plan),
        single_partitions_guarded(plan),
        sort_pass(plan) is Ok,
    ensures
        item_calm(sort_pass(plan)->Ok_0),
    decreases plan, plan.children.len() + 1,
{
    if plan.children.len() == 0 {
        lemma_ensured_calm(untracked(plan));
    } else {
        lemma_sort_pass_inputs_calm(plan, plan.children.len());
        let nodes = sort_pass_inputs(plan, plan.children.len())->Ok_0;
        lemma_with_sort_lineage_calm(nodes, plan);
        lemma_sort_pass_inputs_partitioned(plan, plan.children.len());
        lemma_with_sort_lineage_partitioned(nodes, plan);
        lemma_ensured_calm(with_sort_lineage(nodes, plan)->Ok_0);
    }
}

/// Whether no sort in the plan stands over input that is already ordered
/// as the sort orders it.
pub open spec fn no_redundant_sort(plan: PlanView) -> bool
    decreases plan,
{
    &&& match plan.op {
        OperatorView::Sort { expr, .. } => !(plan.children.len() > 0
            && plan.children[0].ordering_satisfy(expr)),
        _ => true,
    }
    &&& forall|i: int| 0 <= i < plan.children.len() ==> no_redundant_sort(#[trigger] plan.children[i])
}

/// A calm plan without a redundant sort is settled.
pub proof fn lemma_calm_is_settled(plan: PlanView)
    requires
        calm(plan),
        no_redundant_sort(plan),
    ensures
        settled(plan),
    decreases plan,
{
    assert forall|i: int| 0 <= i < plan.children.len() implies settled(#[trigger] plan.children[i])
        && (plan.is_window() || slot_settled(plan, i)) by {
        lemma_input_calm(plan, i);
        lemma_calm_is_settled(plan.children[i]);
        lemma_tracks_is_own_lineage(plan.children[i], i);
    }
    if plan.is_window() {
        assert(plan.children.len() == 1);
        lemma_input_calm(plan, 0);
        lemma_tracks_is_own_lineage(plan.children[0], 0);
        assert(window_at_rest(plan));
        assert(window_settled(plan));
    }
}

/// After the sort-enforcement pass over a plain plan in which every
/// window takes its partitions as sorted and every input of which a single
/// partition is asked keeps yielding one, nothing but the removal of sorts
/// is left to do.
pub proof fn theorem_first_run_leaves_only_sorts(plan: PlanView)
    requires
        plain(plan),
        sorted_windows(plan),
        single_partitions_guarded(plan),
        sort_pass(plan) is Ok,
    ensures
        calm(sort_pass(plan)->Ok_0.plan),
{
    lemma_sort_pass_calm(plan);
}

/// Running sort enforcement on its own output changes nothing, unless the
/// first run has left a sort over input that is already ordered as the
/// sort orders it. This is shown for plain plans in which every window
/// takes its partitions as sorted and every input of which a single
/// partition is asked keeps yielding one; a window in such a plan keeps
/// the evaluation, or the sort, that the first run gave it.
pub proof fn theorem_second_run_changes_nothing(plan: PlanView)
    requires
        plain(plan),
        sorted_windows(plan),
        single_partitions_guarded(plan),
        sort_pass(plan) is Ok,
        no_redundant_sort(sort_pass(plan)->Ok_0.plan),
    ensures
        sort_pass(sort_pass(plan)->Ok_0.plan) is Ok,
        sort_pass(sort_pass(plan)->Ok_0.plan)->Ok_0.plan == sort_pass(plan)->Ok_0.plan,
{
    let once = sort_pass(plan)->Ok_0.plan;
    lemma_sort_pass_calm(plan);
    lemma_calm_is_settled(once);
    lemma_plain_well_formed(once);
    theorem_settled_plan_is_left_alone(once);
}

/// The rule without sort parallelization, run on its own output, gives
/// that output again, under the same conditions.
pub proof fn theorem_rule_run_twice_changes_nothing(plan: PlanView)
    requires
        plain(plan),
        sorted_windows(plan),
        single_partitions_guarded(plan),
        optimized(plan, false) is Ok,
        no_redundant_sort(optimized(plan, false)->Ok_0),
    ensures
        optimized(optimized(plan, false)->Ok_0, false) == optimized(plan, false),
{
    theorem_second_run_changes_nothing(plan);
}

} // verus!
