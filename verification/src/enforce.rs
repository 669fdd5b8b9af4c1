//! The per-node rewrites: sort enforcement and sort parallelization.

use crate::asking::searches_unsorted;
use crate::engine::share;
use crate::error::PlanError;
use crate::lineage::{
    lineage_below, lineage_view, own_lineage, slot_view, ExecTree,
    PlanWithCorrespondingCoalescePartitions, PlanWithCorrespondingSort, TrackedView, TreeView,
};
use crate::model::{OperatorView, PlanView};
use crate::ordering::{copy_keys, exact_requirements, SortRequirement};
use crate::plan::{views, Operator, PlanNode};
use crate::steadiness::{item_steady, lemma_ensured_steady, lemma_steady_is_bounded};
use crate::surgery::{
    add_sort_above, get_sort_exprs, sort_above, sort_exprs_of, sort_stripped,
    update_child_to_remove_coalesce, update_child_to_remove_unnecessary_sort, without_coalesce,
};
use crate::thinning::{
    coalesces, item_rooted, leaves, lemma_parallelized_thin,
    theorem_parallelization_removes_tracked_coalesces,
};
use crate::traversal::node_outcome;
use crate::validity::{
    item_sound, lemma_ensured_sound, lemma_upheld_orderings_are_met, node_ready, orderings_met,
};
use crate::window::{analyze_window_sort_removal, window_answer, window_without_sort};
use std::sync::Arc;
use vstd::prelude::*;

verus! {

/// The lineage of the first slot, if there is one.
pub open spec fn first_slot(lineage: Seq<Option<TreeView>>) -> Option<TreeView> {
    if lineage.len() > 0 {
        lineage[0]
    } else {
        None
    }
}

/// A lineage leaf at `plan`, reached through slot `idx`.
pub open spec fn leaf(plan: PlanView, idx: int) -> TreeView {
    TreeView { plan, idx, children: Seq::empty() }
}

/// What takes the place of a sort whose input is already ordered as the
/// sort orders it; nothing for any other node. A sort that merges several
/// partitions into one is replaced by a sort-preserving merge, at which a
/// fresh lineage leaf is rooted; any other sort by its input, with the
/// lineage that the input carries.
pub open spec fn immediate_sort_removal(plan: PlanView, lineage: Seq<Option<TreeView>>) -> Option<
    TrackedView,
> {
    match plan.op {
        OperatorView::Sort { expr, preserve_partitioning, .. } => if plan.children.len() > 0
            && plan.children[0].ordering_satisfy(expr) {
            let input = plan.children[0];
            if !preserve_partitioning && input.partition_count() > 1 {
                let merge = PlanView {
                    op: OperatorView::SortPreservingMerge { expr, fetch: None },
                    children: seq![input],
                };
                Some(
                    TrackedView {
                        plan: merge,
                        lineage: seq![
                            Some(TreeView { plan: merge, idx: 0, children: Seq::empty() }),
                        ],
                    },
                )
            } else {
                Some(
                    TrackedView {
                        plan: input,
                        lineage: lineage_below(first_slot(lineage), input.children.len()),
                    },
                )
            }
        } else {
            None
        },
        _ => None,
    }
}

/// The inputs and the lineage of a node after slot `idx` has been brought
/// in line with what the node asks of it.
pub open spec fn enforce_slot(
    plan: PlanView,
    inputs: Seq<PlanView>,
    lineage: Seq<Option<TreeView>>,
    idx: int,
) -> Result<(Seq<PlanView>, Seq<Option<TreeView>>), PlanError>
    recommends
        0 <= idx < inputs.len(),
        idx < lineage.len(),
{
    let child = inputs[idx];
    match (plan.required_input_ordering(idx), child.output_ordering()) {
        (Some(required), Some(_)) => if child.ordering_satisfy_requirement(required) {
            Ok((inputs, lineage))
        } else {
            match sort_stripped(child, lineage[idx], plan) {
                Err(e) => Err(e),
                Ok(stripped) => {
                    let sorted = sort_above(stripped, required, None);
                    Ok(
                        (
                            inputs.update(idx, sorted),
                            lineage.update(
                                idx,
                                if sorted.is_sort() {
                                    Some(leaf(sorted, idx))
                                } else {
                                    None
                                },
                            ),
                        ),
                    )
                },
            }
        },
        (Some(required), None) => {
            let sorted = sort_above(child, required, None);
            Ok(
                (
                    inputs.update(idx, sorted),
                    lineage.update(
                        idx,
                        if sorted.is_sort() {
                            Some(leaf(sorted, idx))
                        } else {
                            None
                        },
                    ),
                ),
            )
        },
        (None, Some(_)) => if !plan.maintains_input_order(idx) || plan.is_union() {
            match sort_stripped(child, lineage[idx], plan) {
                Err(e) => Err(e),
                Ok(stripped) => Ok((inputs.update(idx, stripped), lineage.update(idx, None))),
            }
        } else {
            Ok((inputs, lineage))
        },
        (None, None) => Ok((inputs, lineage)),
    }
}

/// The inputs and the lineage of a node after its first `k` slots have
/// been brought in line.
pub open spec fn enforce_slots(node: TrackedView, k: nat) -> Result<
    (Seq<PlanView>, Seq<Option<TreeView>>),
    PlanError,
>
    decreases k,
{
    if k == 0 {
        Ok((node.plan.children, node.lineage))
    } else {
        match enforce_slots(node, (k - 1) as nat) {
            Err(e) => Err(e),
            Ok((inputs, lineage)) => enforce_slot(node.plan, inputs, lineage, k - 1),
        }
    }
}

/// The number of slots that have both an input and a lineage entry.
pub open spec fn tracked_slots(node: TrackedView) -> nat {
    if node.plan.children.len() <= node.lineage.len() {
        node.plan.children.len()
    } else {
        node.lineage.len()
    }
}

/// The node after sort enforcement, given its rewritten inputs and their
/// lineage:
/// a leaf stays; a sort over input that is already ordered is removed;
/// else each slot is brought in line with the ordering asked of it, and
/// then a window takes the evaluation that fits its input, a
/// sort-preserving merge over a single partition gives way to its input,
/// and any other node is rebuilt over its inputs.
pub open spec fn ensured(node: TrackedView) -> Result<TrackedView, PlanError> {
    let plan = node.plan;
    if plan.children.len() == 0 {
        Ok(node)
    } else if immediate_sort_removal(plan, node.lineage) is Some {
        Ok(immediate_sort_removal(plan, node.lineage)->0)
    } else {
        match enforce_slots(node, tracked_slots(node)) {
            Err(e) => Err(e),
            Ok((inputs, lineage)) => if plan.is_window() && first_slot(lineage) is Some {
                window_without_sort(
                    first_slot(lineage)->0,
                    plan,
                    window_answer(first_slot(lineage)->0, plan),
                )
            } else if !plan.is_window() && plan.is_sort_preserving_merge()
                && inputs[0].partition_count() <= 1 {
                Ok(
                    TrackedView {
                        plan: inputs[0],
                        lineage: lineage_below(first_slot(lineage), inputs[0].children.len()),
                    },
                )
            } else {
                match plan.with_new_children(inputs) {
                    Some(p) => Ok(TrackedView { plan: p, lineage }),
                    None => Err(PlanError::Reconstruction),
                }
            },
        }
    }
}

/// The node after sort parallelization. A sort or sort-preserving merge
/// that yields a single partition, with a coalesce tracked below it,
/// becomes a sort-preserving merge over a sort over the input without the
/// coalesce. A coalesce with another coalesce tracked below it loses the
/// lower one. Any other node stays.
pub open spec fn parallelized(node: TrackedView) -> Result<TrackedView, PlanError> {
    let plan = node.plan;
    if plan.children.len() == 0 || first_slot(node.lineage) is None {
        Ok(node)
    } else if (plan.is_sort() || plan.is_sort_preserving_merge()) && plan.partition_count() <= 1 {
        match without_coalesce(first_slot(node.lineage)->0, plan) {
            Err(e) => Err(e),
            Ok(below) => match sort_exprs_of(plan) {
                Err(e) => Err(e),
                Ok((expr, fetch)) => Ok(
                    TrackedView {
                        plan: PlanView {
                            op: OperatorView::SortPreservingMerge { expr, fetch },
                            children: seq![sort_above(below, exact_requirements(expr), fetch)],
                        },
                        lineage: seq![None],
                    },
                ),
            },
        }
    } else if plan.is_coalesce_partitions() {
        match without_coalesce(first_slot(node.lineage)->0, plan) {
            Err(e) => Err(e),
            Ok(below) => match plan.with_new_children(seq![below]) {
                Some(p) => Ok(TrackedView { plan: p, lineage: seq![None] }),
                None => Err(PlanError::Reconstruction),
            },
        }
    } else {
        Ok(node)
    }
}

/// Model of an optional node with sort lineage.
pub open spec fn removal_view(r: Option<PlanWithCorrespondingSort>) -> Option<TrackedView> {
    match r {
        Some(node) => Some(node@),
        None => None,
    }
}

/// Decides whether a sort can go because its input is already ordered as
/// the sort orders it, and if so gives what takes its place: a
/// sort-preserving merge where the sort also merged several partitions,
/// else the input of the sort. A sort is removed only if the
/// ordering that its input guarantees meets the exact requirement of the
/// sort's keys.
pub fn analyze_immediate_sort_removal(plan: &Arc<PlanNode>, sort_onwards: &Vec<Option<ExecTree>>) -> (r:
    Option<PlanWithCorrespondingSort>)
    ensures
        removal_view(r) == immediate_sort_removal(plan@, lineage_view(sort_onwards@)),
        r is Some ==> plan@.op is Sort && plan@.children.len() > 0
            && plan@.children[0].ordering_satisfy(plan@.op->Sort_expr),
{
    proof {
        plan.lemma_view_children();
    }
    match &*plan.op {
        Operator::Sort { expr, preserve_partitioning, .. } => {
            if plan.children.len() == 0 {
                return None;
            }
            let sort_input = share(&plan.children[0]);
            if sort_input.ordering_satisfy(expr) {
                if !*preserve_partitioning && sort_input.partition_count() > 1 {
                    let new_plan = PlanNode::unary(
                        Operator::SortPreservingMerge { expr: copy_keys(expr), fetch: None },
                        sort_input,
                    );
                    let new_tree = ExecTree::new(share(&new_plan), 0, Vec::new());
                    assert(new_tree@.children =~= Seq::<TreeView>::empty());
                    let mut lineage: Vec<Option<ExecTree>> = Vec::new();
                    lineage.push(Some(new_tree));
                    let node = PlanWithCorrespondingSort { plan: new_plan, sort_onwards: lineage };
                    assert(node@.lineage =~= seq![Some(new_tree@)]);
                    Some(node)
                } else {
                    proof {
                        sort_input.lemma_view_children();
                    }
                    let n = sort_input.children.len();
                    let lineage = if sort_onwards.len() > 0 {
                        own_lineage(&sort_onwards[0], n)
                    } else {
                        own_lineage(&None, n)
                    };
                    Some(PlanWithCorrespondingSort { plan: sort_input, sort_onwards: lineage })
                }
            } else {
                None
            }
        },
        _ => None,
    }
}

/// A handle to the same lineage, if any.
fn duplicate_slot(slot: &Option<ExecTree>) -> (r: Option<ExecTree>)
    ensures
        r == *slot,
{
    match slot {
        Some(tree) => Some(tree.duplicate()),
        None => None,
    }
}

/// Enforces the ordering that a node asks of its inputs, given the node
/// over its rewritten inputs and the sort lineage of its slots: sorts are
/// added where an ordering is asked and not met, and tracked sorts are
/// removed where their ordering is replaced or not used. Fails as the
/// removal of a tracked sort or the rebuilding of the node fails. Where
/// the orderings are upheld within each input and the lineage is sound,
/// and the node is no window that does not take its partitions as sorted,
/// the orderings are upheld throughout the node that is given back, and
/// its lineage is sound. Where, besides, windows take their partitions as
/// sorted and sources are bounded throughout the node and its lineage,
/// every input of the node that is given back, and of every node below
/// it, meets the ordering asked of it.
pub fn ensure_sorting(requirements: PlanWithCorrespondingSort) -> (r: Result<
    PlanWithCorrespondingSort,
    PlanError,
>)
    ensures
        node_outcome(r) == ensured(requirements@),
        node_ready(requirements@) && !searches_unsorted(requirements@.plan.op) ==> (
        r matches Ok(node) ==> item_sound(node@)),
        node_ready(requirements@) && item_steady(requirements@) ==> (r matches Ok(node)
            ==> item_steady(node@) && orderings_met(node@.plan)),
{
    let ghost node = requirements@;
    let plan = share(&requirements.plan);
    let mut sort_onwards = requirements.sort_onwards;
    proof {
        plan.lemma_view_children();
        if node_ready(node) && !searches_unsorted(node.plan.op) && ensured(node) is Ok {
            lemma_ensured_sound(node);
            if item_steady(node) {
                lemma_ensured_steady(node);
                lemma_steady_is_bounded(ensured(node)->Ok_0.plan);
                lemma_upheld_orderings_are_met(ensured(node)->Ok_0.plan);
            }
        }
    }
    if plan.children.len() == 0 {
        return Ok(PlanWithCorrespondingSort { plan, sort_onwards });
    }
    match analyze_immediate_sort_removal(&plan, &sort_onwards) {
        Some(result) => {
            return Ok(result);
        },
        None => {},
    }
    let mut children = plan.children();
    let slots = if children.len() <= sort_onwards.len() {
        children.len()
    } else {
        sort_onwards.len()
    };
    let mut idx: usize = 0;
    while idx < slots
        invariant
            idx <= slots,
            slots == tracked_slots(node),
            node == requirements@,
            node.plan == plan@,
            node.plan.children.len() > 0,
            immediate_sort_removal(node.plan, node.lineage) is None,
            children@.len() == node.plan.children.len(),
            sort_onwards@.len() == node.lineage.len(),
            enforce_slots(node, idx as nat) == Ok::<
                (Seq<PlanView>, Seq<Option<TreeView>>),
                PlanError,
            >((views(children@), lineage_view(sort_onwards@))),
        decreases slots - idx,
    {
        let ghost inputs = views(children@);
        let ghost lineage = lineage_view(sort_onwards@);
        let required = plan.required_input_ordering(idx);
        let physical = children[idx].output_ordering();
        match (required, physical) {
            (Some(required_ordering), Some(_)) => {
                if !children[idx].ordering_satisfy_requirement(&required_ordering) {
                    let mut child = share(&children[idx]);
                    let mut slot = duplicate_slot(&sort_onwards[idx]);
                    match update_child_to_remove_unnecessary_sort(&mut child, &mut slot, &plan) {
                        Ok(_) => {},
                        Err(e) => {
                            proof {
                                lemma_enforce_failure_stays(node, (idx + 1) as nat, slots as nat);
                            }
                            return Err(e);
                        },
                    }
                    add_sort_above(&mut child, &required_ordering, None);
                    let new_slot = if child.is_sort() {
                        let tree = ExecTree::new(share(&child), idx, Vec::new());
                        assert(tree@.children =~= Seq::<TreeView>::empty());
                assert(tree@ == leaf(child@, idx as int));
                        Some(tree)
                    } else {
                        None
                    };
                    children.set(idx, child);
                    sort_onwards.set(idx, new_slot);
                    assert(views(children@) =~= inputs.update(idx as int, child@));
                    assert(lineage_view(sort_onwards@) =~= lineage.update(
                        idx as int,
                        slot_view(new_slot),
                    ));
                }
            },
            (Some(required_ordering), None) => {
                let mut child = share(&children[idx]);
                add_sort_above(&mut child, &required_ordering, None);
                let new_slot = if child.is_sort() {
                    let tree = ExecTree::new(share(&child), idx, Vec::new());
                    assert(tree@.children =~= Seq::<TreeView>::empty());
                    assert(tree@ == leaf(child@, idx as int));
                    Some(tree)
                } else {
                    None
                };
                children.set(idx, child);
                sort_onwards.set(idx, new_slot);
                assert(views(children@) =~= inputs.update(idx as int, child@));
                assert(lineage_view(sort_onwards@) =~= lineage.update(
                    idx as int,
                    slot_view(new_slot),
                ));
            },
            (None, Some(_)) => {
                if !plan.maintains_input_order(idx) || plan.is_union() {
                    let mut child = share(&children[idx]);
                    let mut slot = duplicate_slot(&sort_onwards[idx]);
                    match update_child_to_remove_unnecessary_sort(&mut child, &mut slot, &plan) {
                        Ok(_) => {},
                        Err(e) => {
                            proof {
                                lemma_enforce_failure_stays(node, (idx + 1) as nat, slots as nat);
                            }
                            return Err(e);
                        },
                    }
                    children.set(idx, child);
                    sort_onwards.set(idx, None);
                    assert(views(children@) =~= inputs.update(idx as int, child@));
                    assert(lineage_view(sort_onwards@) =~= lineage.update(idx as int, None));
                }
            },
            (None, None) => {},
        }
        idx += 1;
    }
    if plan.is_window() {
        if sort_onwards.len() > 0 {
            match &sort_onwards[0] {
                Some(tree) => {
                    match analyze_window_sort_removal(tree, &plan) {
                        Ok(Some(result)) => {
                            return Ok(result);
                        },
                        Ok(None) => {},
                        Err(e) => {
                            return Err(e);
                        },
                    }
                },
                None => {},
            }
        }
    } else if plan.is_sort_preserving_merge() && children[0].partition_count() <= 1 {
        let child = share(&children[0]);
        proof {
            child.lemma_view_children();
        }
        let lineage = if sort_onwards.len() > 0 {
            own_lineage(&sort_onwards[0], child.children.len())
        } else {
            own_lineage(&None, child.children.len())
        };
        return Ok(PlanWithCorrespondingSort { plan: child, sort_onwards: lineage });
    }
    match plan.with_new_children(children) {
        Ok(p) => Ok(PlanWithCorrespondingSort { plan: p, sort_onwards }),
        Err(e) => Err(e),
    }
}

/// Once a slot has failed to be brought in line, the failure stays.
pub proof fn lemma_enforce_failure_stays(node: TrackedView, j: nat, m: nat)
    requires
        j <= m,
        enforce_slots(node, j) is Err,
    ensures
        enforce_slots(node, m) == enforce_slots(node, j),
    decreases m - j,
{
    if j < m {
        lemma_enforce_failure_stays(node, j, (m - 1) as nat);
    }
}

/// Turns a single-partition sort over a coalesce into a merge of parallel
/// sorts, and drops a coalesce below another coalesce, given the node over
/// its rewritten inputs and the coalesce lineage of its slots. Where the
/// lineage is rooted in the plan, the node that is given back holds no
/// more coalesces, and, if it is another node, fewer by at least the
/// number of leaves of the lineage tree.
pub fn parallelize_sorts(requirements: PlanWithCorrespondingCoalescePartitions) -> (r: Result<
    PlanWithCorrespondingCoalescePartitions,
    PlanError,
>)
    ensures
        node_outcome(r) == parallelized(requirements@),
        item_rooted(requirements@) ==> (r matches Ok(node) ==> item_rooted(node@) && coalesces(
            node@.plan,
        ) <= coalesces(requirements@.plan) && (node@ != requirements@ ==> coalesces(node@.plan)
            + leaves(first_slot(requirements@.lineage)->0) <= coalesces(requirements@.plan))),
{
    let plan = share(&requirements.plan);
    let mut coalesce_onwards = requirements.coalesce_onwards;
    proof {
        plan.lemma_view_children();
        if item_rooted(requirements@) && parallelized(requirements@) is Ok {
            lemma_parallelized_thin(requirements@);
            if parallelized(requirements@)->Ok_0 != requirements@ {
                theorem_parallelization_removes_tracked_coalesces(requirements@);
            }
        }
    }
    if plan.children.len() == 0 || coalesce_onwards.len() == 0 || coalesce_onwards[0].is_none() {
        return Ok(PlanWithCorrespondingCoalescePartitions { plan, coalesce_onwards });
    } else if (plan.is_sort() || plan.is_sort_preserving_merge()) && plan.partition_count() <= 1 {
        let mut prev_layer = share(&plan);
        let mut slot = duplicate_slot(&coalesce_onwards[0]);
        match update_child_to_remove_coalesce(&mut prev_layer, &mut slot) {
            Ok(_) => {},
            Err(e) => {
                return Err(e);
            },
        }
        let (sort_exprs, fetch) = match get_sort_exprs(&plan) {
            Ok(found) => found,
            Err(e) => {
                return Err(e);
            },
        };
        add_sort_above(&mut prev_layer, &SortRequirement::from_sort_exprs(&sort_exprs), fetch);
        let spm = PlanNode::unary(
            Operator::SortPreservingMerge { expr: sort_exprs, fetch },
            prev_layer,
        );
        let mut lineage: Vec<Option<ExecTree>> = Vec::new();
        lineage.push(None);
        let node = PlanWithCorrespondingCoalescePartitions { plan: spm, coalesce_onwards: lineage };
        assert(node@.lineage =~= seq![None]);
        return Ok(node);
    } else if plan.is_coalesce_partitions() {
        let mut prev_layer = share(&plan);
        let mut slot = duplicate_slot(&coalesce_onwards[0]);
        match update_child_to_remove_coalesce(&mut prev_layer, &mut slot) {
            Ok(_) => {},
            Err(e) => {
                return Err(e);
            },
        }
        let mut inputs: Vec<Arc<PlanNode>> = Vec::new();
        inputs.push(prev_layer);
        assert(views(inputs@) =~= seq![prev_layer@]);
        let new_plan = match plan.with_new_children(inputs) {
            Ok(p) => p,
            Err(e) => {
                return Err(e);
            },
        };
        let mut lineage: Vec<Option<ExecTree>> = Vec::new();
        lineage.push(None);
        let node = PlanWithCorrespondingCoalescePartitions {
            plan: new_plan,
            coalesce_onwards: lineage,
        };
        assert(node@.lineage =~= seq![None]);
        return Ok(node);
    }
    Ok(PlanWithCorrespondingCoalescePartitions { plan, coalesce_onwards })
}

} // verus!
