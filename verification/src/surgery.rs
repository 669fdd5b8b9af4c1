//! Sub-plan surgery: removing the tracked operators at the leaves of a
//! lineage tree by rebuilding only the nodes on the recorded chains, and
//! placing a sort above a node.

use crate::engine::share;
use crate::error::PlanError;
use crate::lineage::{ExecTree, TreeView};
use crate::model::{OperatorView, PlanView};
use crate::ordering::{copy_keys, enforcing_keys, SortKey, SortRequirement};
use crate::plan::{outcome_view, views, Operator, PlanNode};
use std::sync::Arc;
use vstd::prelude::*;

verus! {

/// The node with a sort above it that establishes the requirement, unless
/// the node meets the requirement as it is. The sort keeps the partitions
/// apart if there are several.
pub open spec fn sort_above(node: PlanView, reqs: Seq<SortRequirement>, fetch: Option<usize>) -> PlanView {
    if node.ordering_satisfy_requirement(reqs) {
        node
    } else {
        PlanView {
            op: OperatorView::Sort {
                expr: enforcing_keys(reqs),
                fetch,
                preserve_partitioning: node.partition_count() > 1,
            },
            children: seq![node],
        }
    }
}

/// The plan under an operator that brings its partitions together: a
/// sort-preserving merge if the plan is ordered, else a plain coalesce.
pub open spec fn consolidated(plan: PlanView) -> PlanView {
    match plan.output_ordering() {
        Some(ordering) => PlanView {
            op: OperatorView::SortPreservingMerge { expr: ordering, fetch: None },
            children: seq![plan],
        },
        None => PlanView { op: OperatorView::CoalescePartitions, children: seq![plan] },
    }
}

/// The inputs of the root of `tree` after the sorts below the first `k`
/// tracked slots are removed.
pub open spec fn sort_patched_inputs(tree: TreeView, k: nat) -> Result<Seq<PlanView>, PlanError>
    decreases tree, k,
{
    if k == 0 || k > tree.children.len() {
        Ok(tree.plan.children)
    } else {
        match sort_patched_inputs(tree, (k - 1) as nat) {
            Err(e) => Err(e),
            Ok(inputs) => {
                let item = tree.children[k - 1];
                if item.idx < 0 || item.idx >= inputs.len() {
                    Err(PlanError::KindMismatch)
                } else {
                    match without_sort(item, tree.plan.requires_single_partition(item.idx)) {
                        Err(e) => Err(e),
                        Ok(p) => Ok(inputs.update(item.idx, p)),
                    }
                }
            },
        }
    }
}

/// The plan at the root of `tree` with the sorts at the leaves of the tree
/// removed. A sort is replaced by its input; a sort-preserving merge on the
/// chain by its repaired input; a repartition on the chain stops
/// preserving order; any other node is rebuilt over its repaired inputs.
/// If `single` holds and the result has several partitions, they are
/// brought together again.
pub open spec fn without_sort(tree: TreeView, single: bool) -> Result<PlanView, PlanError>
    decreases tree, tree.children.len() + 1,
{
    let updated = if tree.plan.is_sort() {
        if tree.plan.children.len() > 0 {
            Ok(tree.plan.children[0])
        } else {
            Err(PlanError::KindMismatch)
        }
    } else {
        match sort_patched_inputs(tree, tree.children.len()) {
            Err(e) => Err(e),
            Ok(inputs) => if tree.plan.is_sort_preserving_merge() {
                if inputs.len() > 0 {
                    Ok(inputs[0])
                } else {
                    Err(PlanError::KindMismatch)
                }
            } else if tree.plan.op is Repartition {
                if inputs.len() > 0 {
                    Ok(
                        PlanView {
                            op: OperatorView::Repartition {
                                partitioning: tree.plan.op->partitioning,
                                preserve_order: false,
                            },
                            children: seq![inputs[0]],
                        },
                    )
                } else {
                    Err(PlanError::KindMismatch)
                }
            } else {
                match tree.plan.with_new_children(inputs) {
                    Some(p) => Ok(p),
                    None => Err(PlanError::Reconstruction),
                }
            },
        }
    };
    match updated {
        Err(e) => Err(e),
        Ok(p) => Ok(
            if single && p.partition_count() > 1 {
                consolidated(p)
            } else {
                p
            },
        ),
    }
}

/// The child of a slot after the sorts tracked for the slot are removed;
/// the child itself where nothing is tracked.
pub open spec fn sort_stripped(child: PlanView, slot: Option<TreeView>, parent: PlanView) -> Result<
    PlanView,
    PlanError,
> {
    match slot {
        Some(tree) => without_sort(tree, parent.requires_single_partition(tree.idx)),
        None => Ok(child),
    }
}

/// The plan, or what lies below the repartitions at its top that split
/// rows exactly as the repartition `parent` does.
pub open spec fn below_matching_repartitions(plan: PlanView, parent: PlanView) -> Result<
    PlanView,
    PlanError,
>
    decreases plan,
{
    if plan.op is Repartition && parent.op is Repartition && (plan.op->partitioning).same_as(
        parent.op->partitioning,
    ) {
        if plan.children.len() > 0 {
            below_matching_repartitions(plan.children[0], parent)
        } else {
            Err(PlanError::KindMismatch)
        }
    } else {
        Ok(plan)
    }
}

/// The inputs of the root of `tree` after the coalesces below the first
/// `k` tracked slots are removed.
pub open spec fn coalesce_patched_inputs(tree: TreeView, k: nat) -> Result<Seq<PlanView>, PlanError>
    decreases tree, k,
{
    if k == 0 || k > tree.children.len() {
        Ok(tree.plan.children)
    } else {
        match coalesce_patched_inputs(tree, (k - 1) as nat) {
            Err(e) => Err(e),
            Ok(inputs) => {
                let item = tree.children[k - 1];
                if item.idx < 0 || item.idx >= inputs.len() {
                    Err(PlanError::KindMismatch)
                } else {
                    match without_coalesce(item, tree.plan) {
                        Err(e) => Err(e),
                        Ok(p) => Ok(inputs.update(item.idx, p)),
                    }
                }
            },
        }
    }
}

/// The plan at the root of `tree` with the coalesces at the leaves of the
/// tree removed. A coalesce is replaced by its input, less the
/// repartitions at the top of that input that repeat the repartition
/// `parent`; any other node is rebuilt over its repaired inputs.
pub open spec fn without_coalesce(tree: TreeView, parent: PlanView) -> Result<PlanView, PlanError>
    decreases tree, tree.children.len() + 1,
{
    if tree.plan.is_coalesce_partitions() {
        if tree.plan.children.len() > 0 {
            below_matching_repartitions(tree.plan.children[0], parent)
        } else {
            Err(PlanError::KindMismatch)
        }
    } else {
        match coalesce_patched_inputs(tree, tree.children.len()) {
            Err(e) => Err(e),
            Ok(inputs) => match tree.plan.with_new_children(inputs) {
                Some(p) => Ok(p),
                None => Err(PlanError::Reconstruction),
            },
        }
    }
}

/// The child of a slot after the coalesces tracked for the slot are
/// removed; the child itself where nothing is tracked.
pub open spec fn coalesce_stripped(child: PlanView, slot: Option<TreeView>) -> Result<
    PlanView,
    PlanError,
> {
    match slot {
        Some(tree) => without_coalesce(tree, child),
        None => Ok(child),
    }
}

/// The sort keys and the row limit of a sort or a sort-preserving merge.
pub open spec fn sort_exprs_of(plan: PlanView) -> Result<(Seq<SortKey>, Option<usize>), PlanError> {
    match plan.op {
        OperatorView::Sort { expr, fetch, .. } => Ok((expr, fetch)),
        OperatorView::SortPreservingMerge { expr, fetch } => Ok((expr, fetch)),
        _ => Err(PlanError::KindMismatch),
    }
}

/// Once the repair of a tracked slot has failed, the failure stays.
pub proof fn lemma_sort_patch_failure_stays(tree: TreeView, j: nat, m: nat)
    requires
        j <= m <= tree.children.len(),
        sort_patched_inputs(tree, j) is Err,
    ensures
        sort_patched_inputs(tree, m) == sort_patched_inputs(tree, j),
    decreases m - j,
{
    if j < m {
        lemma_sort_patch_failure_stays(tree, j, (m - 1) as nat);
    }
}

/// Once the repair of a tracked slot has failed, the failure stays.
pub proof fn lemma_coalesce_patch_failure_stays(tree: TreeView, j: nat, m: nat)
    requires
        j <= m <= tree.children.len(),
        coalesce_patched_inputs(tree, j) is Err,
    ensures
        coalesce_patched_inputs(tree, m) == coalesce_patched_inputs(tree, j),
    decreases m - j,
{
    if j < m {
        lemma_coalesce_patch_failure_stays(tree, j, (m - 1) as nat);
    }
}

/// The plan with its sorts removed yields at most one partition where
/// that is asked.
pub proof fn lemma_without_sort_single(tree: TreeView)
    requires
        without_sort(tree, true) is Ok,
    ensures
        without_sort(tree, true)->Ok_0.partition_count() <= 1,
{
}

/// A sort placed above a node meets the requirement it was placed for.
pub proof fn lemma_sort_above_meets(node: PlanView, reqs: Seq<SortRequirement>, fetch: Option<usize>)
    ensures
        sort_above(node, reqs, fetch).ordering_satisfy_requirement(reqs),
{
    crate::ordering::lemma_enforcing_keys_meet(reqs);
}

/// Places a sort that establishes `sort_requirement` above the node,
/// unless the node meets the requirement as it is. Either way the node
/// then meets the requirement.
pub fn add_sort_above(
    node: &mut Arc<PlanNode>,
    sort_requirement: &Vec<SortRequirement>,
    fetch: Option<usize>,
)
    ensures
        final(node)@ == sort_above(old(node)@, sort_requirement@, fetch),
        final(node)@.ordering_satisfy_requirement(sort_requirement@),
{
    proof {
        lemma_sort_above_meets(node@, sort_requirement@, fetch);
    }
    if !node.ordering_satisfy_requirement(sort_requirement) {
        let expr = SortRequirement::to_sort_exprs(sort_requirement);
        let preserve_partitioning = node.partition_count() > 1;
        let input = share(node);
        *node = PlanNode::unary(Operator::Sort { expr, fetch, preserve_partitioning }, input);
    }
}

/// Removes the sorts at the leaves of the lineage tree from the plan at
/// its root, rebuilding only the nodes of the tree. If
/// `requires_single_partition` holds and the result has several
/// partitions, they are brought together again. Fails with
/// `KindMismatch` where a node of the tree lacks the input that its kind
/// or the tree speaks of, and with `Reconstruction` where a node cannot be
/// rebuilt.
pub fn remove_corresponding_sort_from_sub_plan(
    sort_onwards: &ExecTree,
    requires_single_partition: bool,
) -> (r: Result<Arc<PlanNode>, PlanError>)
    ensures
        outcome_view(r) == without_sort(sort_onwards@, requires_single_partition),
        requires_single_partition ==> (r matches Ok(plan) ==> plan@.partition_count() <= 1),
    decreases sort_onwards,
{
    proof {
        if requires_single_partition && without_sort(sort_onwards@, true) is Ok {
            lemma_without_sort_single(sort_onwards@);
        }
        sort_onwards.lemma_view_children();
        sort_onwards.plan.lemma_view_children();
    }
    let plan = &sort_onwards.plan;
    let updated = if plan.is_sort() {
        if plan.children.len() > 0 {
            share(&plan.children[0])
        } else {
            return Err(PlanError::KindMismatch);
        }
    } else {
        let mut children = plan.children();
        let mut k: usize = 0;
        while k < sort_onwards.children.len()
            invariant
                k <= sort_onwards.children@.len(),
                sort_onwards@.children.len() == sort_onwards.children@.len(),
                forall|i: int|
                    0 <= i < sort_onwards.children@.len() ==> #[trigger] sort_onwards@.children[i]
                        == sort_onwards.children@[i]@,
                sort_onwards@.plan == plan@,
                !plan@.is_sort(),
                sort_patched_inputs(sort_onwards@, k as nat) == Ok::<Seq<PlanView>, PlanError>(
                    views(children@),
                ),
            decreases sort_onwards.children@.len() - k,
        {
            let item = &sort_onwards.children[k];
            if item.idx >= children.len() {
                proof {
                    lemma_sort_patch_failure_stays(
                        sort_onwards@,
                        (k + 1) as nat,
                        sort_onwards@.children.len(),
                    );
                }
                return Err(PlanError::KindMismatch);
            }
            let single = plan.requires_single_partition(item.idx);
            match remove_corresponding_sort_from_sub_plan(item, single) {
                Ok(p) => {
                    let ghost before = views(children@);
                    children.set(item.idx, p);
                    assert(views(children@) =~= before.update(item.idx as int, p@));
                },
                Err(e) => {
                    proof {
                        lemma_sort_patch_failure_stays(
                            sort_onwards@,
                            (k + 1) as nat,
                            sort_onwards@.children.len(),
                        );
                    }
                    return Err(e);
                },
            }
            k += 1;
        }
        if plan.is_sort_preserving_merge() {
            if children.len() > 0 {
                share(&children[0])
            } else {
                return Err(PlanError::KindMismatch);
            }
        } else {
            match &*plan.op {
                Operator::Repartition { partitioning, .. } => {
                    if children.len() > 0 {
                        PlanNode::unary(
                            Operator::Repartition {
                                partitioning: partitioning.duplicate(),
                                preserve_order: false,
                            },
                            share(&children[0]),
                        )
                    } else {
                        return Err(PlanError::KindMismatch);
                    }
                },
                _ => match plan.with_new_children(children) {
                    Ok(p) => p,
                    Err(e) => {
                        return Err(e);
                    },
                },
            }
        }
    };
    if requires_single_partition && updated.partition_count() > 1 {
        match updated.output_ordering() {
            Some(ordering) => Ok(
                PlanNode::unary(
                    Operator::SortPreservingMerge { expr: ordering, fetch: None },
                    updated,
                ),
            ),
            None => Ok(PlanNode::unary(Operator::CoalescePartitions, updated)),
        }
    } else {
        Ok(updated)
    }
}

/// Replaces the child of a slot by the child without the sorts tracked for
/// the slot, and forgets the lineage of the slot. On failure neither is
/// changed.
pub fn update_child_to_remove_unnecessary_sort(
    child: &mut Arc<PlanNode>,
    sort_onwards: &mut Option<ExecTree>,
    parent: &Arc<PlanNode>,
) -> (r: Result<(), PlanError>)
    ensures
        match r {
            Ok(_) => sort_stripped(old(child)@, crate::lineage::slot_view(*old(sort_onwards)), parent@)
                == Ok::<PlanView, PlanError>(final(child)@) && *final(sort_onwards) is None,
            Err(e) => {
                &&& sort_stripped(old(child)@, crate::lineage::slot_view(*old(sort_onwards)), parent@)
                    == Err::<PlanView, PlanError>(e)
                &&& *final(child) == *old(child)
                &&& *final(sort_onwards) == *old(sort_onwards)
            },
        },
{
    match sort_onwards {
        Some(tree) => {
            let requires_single_partition = parent.requires_single_partition(tree.idx);
            match remove_corresponding_sort_from_sub_plan(tree, requires_single_partition) {
                Ok(p) => {
                    *child = p;
                },
                Err(e) => {
                    return Err(e);
                },
            }
        },
        None => {},
    }
    *sort_onwards = None;
    Ok(())
}

/// Removes the coalesces at the leaves of the lineage tree from the plan
/// at its root, rebuilding only the nodes of the tree. Below a removed
/// coalesce, repartitions that repeat the repartition `parent` are removed
/// with it.
pub fn remove_corresponding_coalesce_in_sub_plan(
    coalesce_onwards: &ExecTree,
    parent: &Arc<PlanNode>,
) -> (r: Result<Arc<PlanNode>, PlanError>)
    ensures
        outcome_view(r) == without_coalesce(coalesce_onwards@, parent@),
    decreases coalesce_onwards,
{
    proof {
        coalesce_onwards.lemma_view_children();
        coalesce_onwards.plan.lemma_view_children();
    }
    let plan = &coalesce_onwards.plan;
    if plan.is_coalesce_partitions() {
        if plan.children.len() == 0 {
            return Err(PlanError::KindMismatch);
        }
        let mut new_plan = share(&plan.children[0]);
        loop
            invariant
                coalesce_onwards@.plan == plan@,
                plan@.is_coalesce_partitions(),
                plan@.children.len() > 0,
                below_matching_repartitions(new_plan@, parent@) == below_matching_repartitions(
                    plan@.children[0],
                    parent@,
                ),
            ensures
                below_matching_repartitions(plan@.children[0], parent@) == Ok::<PlanView, PlanError>(
                    new_plan@,
                ),
            decreases new_plan,
        {
            let next = match (&*new_plan.op, &*parent.op) {
                (
                    Operator::Repartition { partitioning: p, .. },
                    Operator::Repartition { partitioning: q, .. },
                ) => {
                    if p.same_as(q) {
                        proof {
                            new_plan.lemma_view_children();
                        }
                        if new_plan.children.len() > 0 {
                            Some(share(&new_plan.children[0]))
                        } else {
                            return Err(PlanError::KindMismatch);
                        }
                    } else {
                        None
                    }
                },
                _ => None,
            };
            match next {
                Some(n) => {
                    new_plan = n;
                },
                None => {
                    break ;
                },
            }
        }
        Ok(new_plan)
    } else {
        let mut children = plan.children();
        let mut k: usize = 0;
        while k < coalesce_onwards.children.len()
            invariant
                k <= coalesce_onwards.children@.len(),
                coalesce_onwards@.children.len() == coalesce_onwards.children@.len(),
                forall|i: int|
                    0 <= i < coalesce_onwards.children@.len()
                        ==> #[trigger] coalesce_onwards@.children[i]
                        == coalesce_onwards.children@[i]@,
                coalesce_onwards@.plan == plan@,
                !plan@.is_coalesce_partitions(),
                coalesce_patched_inputs(coalesce_onwards@, k as nat) == Ok::<
                    Seq<PlanView>,
                    PlanError,
                >(views(children@)),
            decreases coalesce_onwards.children@.len() - k,
        {
            let item = &coalesce_onwards.children[k];
            if item.idx >= children.len() {
                proof {
                    lemma_coalesce_patch_failure_stays(
                        coalesce_onwards@,
                        (k + 1) as nat,
                        coalesce_onwards@.children.len(),
                    );
                }
                return Err(PlanError::KindMismatch);
            }
            match remove_corresponding_coalesce_in_sub_plan(item, plan) {
                Ok(p) => {
                    let ghost before = views(children@);
                    children.set(item.idx, p);
                    assert(views(children@) =~= before.update(item.idx as int, p@));
                },
                Err(e) => {
                    proof {
                        lemma_coalesce_patch_failure_stays(
                            coalesce_onwards@,
                            (k + 1) as nat,
                            coalesce_onwards@.children.len(),
                        );
                    }
                    return Err(e);
                },
            }
            k += 1;
        }
        plan.with_new_children(children)
    }
}

/// Replaces the child of a slot by the child without the coalesces tracked
/// for the slot. On failure the child is not changed.
pub fn update_child_to_remove_coalesce(
    child: &mut Arc<PlanNode>,
    coalesce_onwards: &mut Option<ExecTree>,
) -> (r: Result<(), PlanError>)
    ensures
        *final(coalesce_onwards) == *old(coalesce_onwards),
        match r {
            Ok(_) => coalesce_stripped(old(child)@, crate::lineage::slot_view(*old(coalesce_onwards)))
                == Ok::<PlanView, PlanError>(final(child)@),
            Err(e) => coalesce_stripped(old(child)@, crate::lineage::slot_view(*old(coalesce_onwards)))
                == Err::<PlanView, PlanError>(e) && *final(child) == *old(child),
        },
{
    match coalesce_onwards {
        Some(tree) => {
            match remove_corresponding_coalesce_in_sub_plan(tree, child) {
                Ok(p) => {
                    *child = p;
                },
                Err(e) => {
                    return Err(e);
                },
            }
        },
        None => {},
    }
    Ok(())
}

/// The sort keys and the row limit of a sort or a sort-preserving merge;
/// `KindMismatch` for any other node.
pub fn get_sort_exprs(sort_any: &Arc<PlanNode>) -> (r: Result<(Vec<SortKey>, Option<usize>), PlanError>)
    ensures
        match r {
            Ok((expr, fetch)) => sort_exprs_of(sort_any@) == Ok::<
                (Seq<SortKey>, Option<usize>),
                PlanError,
            >((expr@, fetch)),
            Err(e) => sort_exprs_of(sort_any@) == Err::<(Seq<SortKey>, Option<usize>), PlanError>(e),
        },
{
    match &*sort_any.op {
        Operator::Sort { expr, fetch, .. } => Ok((copy_keys(expr), *fetch)),
        Operator::SortPreservingMerge { expr, fetch } => Ok((copy_keys(expr), *fetch)),
        _ => Err(PlanError::KindMismatch),
    }
}

} // verus!
