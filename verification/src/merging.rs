//! Sort parallelization keeps the ordering requirements of a plan met,
//! where every operator takes its ordering from the input from which it
//! takes its partition count.

use crate::enforce::{first_slot, parallelized};
use crate::lineage::{
    coalesce_lineage_through, kept_coalesce_lineage, plans_of, untracked, with_coalesce_lineage,
    TrackedView, TreeView,
};
use crate::model::{OperatorView, PartitionSource, PlanView};
use crate::optimizer::{parallel_pass, parallel_pass_inputs};
use crate::ordering::{exact_requirements, lemma_requirement_met_unordered};
use crate::partitions::{lemma_partition_count_congruent, yields_partitions};
use crate::positivity::{
    lemma_rebuilt_yields_partitions, lemma_sort_above_yields_partitions,
    lemma_unary_yields_partitions,
};
use crate::surgery::{
    below_matching_repartitions, coalesce_patched_inputs, sort_above, sort_exprs_of,
    without_coalesce,
};
use crate::totality::{lemma_sort_above_fits, lemma_unary_well_formed, lemma_well_formed};
use crate::validity::{edge_ordered, lemma_sort_above_valid, orderings_upheld};
use crate::asking::{
    lemma_asks_nothing_of_any_input, lemma_asks_the_same_of_input_that_meets, searches_unsorted,
};
use vstd::prelude::*;

verus! {

/// Whether throughout the tree an operator without a kind of its own
/// that takes its ordering from one input and its partition count from an
/// input takes both from the same input.
pub open spec fn ordering_follows_partitions(plan: PlanView) -> bool
    decreases plan,
{
    &&& match plan.op {
        OperatorView::Other { ordering_from, partitions, .. } => match (ordering_from, partitions) {
            (Some(j), PartitionSource::Input(i)) => i == j,
            _ => true,
        },
        _ => true,
    }
    &&& forall|i: int|
        0 <= i < plan.children.len() ==> ordering_follows_partitions(#[trigger] plan.children[i])
}

/// Whether a plan is in order: it is well-formed, every ordering
/// requirement in it is met, every node yields at least one partition,
/// and orderings follow partitions.
pub open spec fn in_order(plan: PlanView) -> bool {
    &&& plan.well_formed()
    &&& orderings_upheld(plan)
    &&& yields_partitions(plan)
    &&& ordering_follows_partitions(plan)
}

/// Whether `after` is ordered as `before` is, if `before` is ordered.
pub open spec fn ordering_kept(before: PlanView, after: PlanView) -> bool {
    match before.output_ordering() {
        Some(o) => after.output_ordering() == Some(o),
        None => true,
    }
}

/// Whether `after` yields at most one partition, if `before` is ordered
/// and yields at most one.
pub open spec fn single_kept(before: PlanView, after: PlanView) -> bool {
    before.output_ordering() is Some && before.partition_count() <= 1 ==> after.partition_count()
        <= 1
}

/// Whether `after` can take the place of `before` below an operator
/// without breaking an ordering requirement.
pub open spec fn replaces(before: PlanView, after: PlanView) -> bool {
    in_order(after) && ordering_kept(before, after) && single_kept(before, after)
}

/// Whether the coalesces at the leaves of a lineage tree can be removed
/// without breaking an ordering requirement: the tree speaks of the
/// inputs of its plans, the plans are in order, and no sort on a chain
/// yields a single partition.
pub open spec fn chain_in_order(tree: TreeView) -> bool
    decreases tree,
{
    &&& in_order(tree.plan)
    &&& tree.children.len() > 0 ==> !(tree.plan.is_sort() && tree.plan.partition_count() <= 1)
    &&& forall|k: int|
        0 <= k < tree.children.len() ==> {
            &&& chain_in_order(#[trigger] tree.children[k])
            &&& 0 <= tree.children[k].idx < tree.plan.children.len()
            &&& tree.children[k].plan == tree.plan.children[tree.children[k].idx]
        }
}

/// Whether the lineage of a node speaks of its inputs, slot by slot, and
/// is in order.
pub open spec fn lineage_in_order(node: TrackedView) -> bool {
    &&& node.lineage.len() == node.plan.children.len()
    &&& forall|i: int|
        0 <= i < node.lineage.len() ==> match #[trigger] node.lineage[i] {
            Some(tree) => chain_in_order(tree) && tree.idx == i && tree.plan
                == node.plan.children[i],
            None => true,
        }
}

/// Whether a rewritten node can be handed to its parent: its plan and its
/// lineage are in order, and it has no lineage if it is a sort that
/// yields a single partition.
pub open spec fn item_in_order(node: TrackedView) -> bool {
    &&& in_order(node.plan)
    &&& lineage_in_order(node)
    &&& node.plan.is_sort() && node.plan.partition_count() <= 1 ==> forall|i: int|
        0 <= i < node.lineage.len() ==> (#[trigger] node.lineage[i]) is None
}

/// An input that is ordered as before still meets what is asked of it.
pub proof fn lemma_edge_kept(before: PlanView, after: PlanView, i: int)
    requires
        before.op == after.op,
        0 <= i < before.children.len(),
        before.children.len() == after.children.len(),
        edge_ordered(before, i),
        ordering_kept(before.children[i], after.children[i]),
    ensures
        edge_ordered(after, i),
{
    if !searches_unsorted(before.op) {
        match before.required_input_ordering(i) {
            Some(required) => {
                if before.children[i].output_ordering() is None {
                    let unordered = before.children[i].guaranteed_ordering();
                    let ordered = after.children[i].guaranteed_ordering();
                    assert(unordered =~= Seq::empty());
                    lemma_requirement_met_unordered(required, ordered);
                    if before.op is Window {
                        lemma_asks_the_same_of_input_that_meets(
                            before.op,
                            before.window_input_ordering(),
                            after.window_input_ordering(),
                        );
                    }
                }
            },
            None => {
                if before.op is Window {
                    lemma_asks_nothing_of_any_input(
                        before.op,
                        before.window_input_ordering(),
                        after.window_input_ordering(),
                    );
                }
            },
        }
    }
}

/// The ordering that the first `k` inputs share is kept if each input is
/// ordered as before.
pub proof fn lemma_meet_kept(before: PlanView, after: PlanView, k: nat)
    requires
        before.children.len() == after.children.len(),
        forall|i: int|
            0 <= i < before.children.len() ==> ordering_kept(
                #[trigger] before.children[i],
                after.children[i],
            ),
        before.meet_of_inputs(k) is Some,
    ensures
        after.meet_of_inputs(k) == before.meet_of_inputs(k),
    decreases k,
{
    if k > 1 && k <= before.children.len() {
        lemma_meet_kept(before, after, (k - 1) as nat);
        assert(ordering_kept(before.children[k - 1], after.children[k - 1]));
    } else if k == 1 && k <= before.children.len() {
        assert(ordering_kept(before.children[0], after.children[0]));
    }
}

/// Two or more inputs that each yield a partition yield two or more
/// together.
pub proof fn lemma_inputs_yield_two(plan: PlanView, k: nat)
    requires
        2 <= k <= plan.children.len(),
        forall|i: int| 0 <= i < plan.children.len() ==> (#[trigger] plan.children[i]).partition_count() >= 1,
    ensures
        plan.partitions_of_inputs(k) >= 2,
    decreases k,
{
    assert(plan.children[k - 1].partition_count() >= 1);
    if k > 2 {
        lemma_inputs_yield_two(plan, (k - 1) as nat);
    } else {
        assert(plan.children[0].partition_count() >= 1);
        assert(plan.partitions_of_inputs(1) >= 1);
    }
}

/// What is known of the ordering of a union whose inputs share no leading
/// key is kept if each input is ordered as before.
pub proof fn lemma_empty_meet_kept(before: PlanView, after: PlanView, j: nat)
    requires
        before.children.len() == after.children.len(),
        forall|i: int|
            0 <= i < before.children.len() ==> ordering_kept(
                #[trigger] before.children[i],
                after.children[i],
            ),
        before.empty_meet(j) is Some,
    ensures
        after.empty_meet(j) == before.empty_meet(j),
    decreases before.children.len() - j,
{
    if j < before.children.len() {
        assert(ordering_kept(before.children[j as int], after.children[j as int]));
        assert(ordering_kept(before.children[0], after.children[0]));
        assert(before.input_ordering(j as int) is Some && before.input_ordering(0) is Some);
        let o = before.input_ordering(j as int)->0;
        let first = before.input_ordering(0)->0;
        assert(after.input_ordering(j as int) == Some(o));
        assert(after.input_ordering(0) == Some(first));
        if o.len() > 0 {
            assert(first.len() > 0 && o[0] == first[0]);
            assert(before.empty_meet(j) == before.empty_meet(j + 1));
            lemma_empty_meet_kept(before, after, j + 1);
            assert(after.empty_meet(j) == after.empty_meet(j + 1));
        }
    }
}

/// A node rebuilt over inputs that are ordered as before, and single
/// where they were ordered and single, is ordered as before.
pub proof fn lemma_ordering_kept_by_rebuild(before: PlanView, after: PlanView)
    requires
        before.op == after.op,
        before.children.len() == after.children.len(),
        forall|i: int|
            0 <= i < before.children.len() ==> ordering_kept(
                #[trigger] before.children[i],
                after.children[i],
            ) && single_kept(before.children[i], after.children[i]),
    ensures
        ordering_kept(before, after),
{
    if before.children.len() > 0 {
        assert(ordering_kept(before.children[0], after.children[0]));
        assert(single_kept(before.children[0], after.children[0]));
    }
    match before.op {
        OperatorView::Union => {
            if before.meet_of_inputs(before.children.len()) is Some {
                lemma_meet_kept(before, after, before.children.len());
                if before.empty_meet(0) is Some {
                    lemma_empty_meet_kept(before, after, 0);
                }
            }
        },
        OperatorView::Other { ordering_from, .. } => match ordering_from {
            Some(j) => {
                if j < before.children.len() {
                    assert(ordering_kept(before.children[j as int], after.children[j as int]));
                }
            },
            None => {},
        },
        _ => {},
    }
}

/// A node rebuilt over inputs that are ordered as before, and single
/// where they were ordered and single, yields a single partition if it was
/// ordered and did so before, unless it is a sort.
pub proof fn lemma_single_kept_by_rebuild(before: PlanView, after: PlanView)
    requires
        before.op == after.op,
        before.children.len() == after.children.len(),
        forall|i: int|
            0 <= i < before.children.len() ==> ordering_kept(
                #[trigger] before.children[i],
                after.children[i],
            ) && single_kept(before.children[i], after.children[i]),
        yields_partitions(before),
        ordering_follows_partitions(before),
        !(before.is_sort() && before.partition_count() <= 1),
    ensures
        single_kept(before, after),
{
    if before.children.len() > 0 {
        assert(ordering_kept(before.children[0], after.children[0]));
        assert(single_kept(before.children[0], after.children[0]));
        assert(yields_partitions(before.children[0]));
    }
    if before.output_ordering() is Some && before.partition_count() <= 1 {
        match before.op {
            OperatorView::Union => {
                assert forall|i: int| 0 <= i < before.children.len() implies (
                #[trigger] before.children[i]).partition_count() >= 1 by {
                    assert(yields_partitions(before.children[i]));
                }
                if before.children.len() >= 2 {
                    lemma_inputs_yield_two(before, before.children.len());
                }
                assert(before.children.len() == 1);
                assert(before.partitions_of_inputs(1) == before.children[0].partition_count());
                assert(after.partitions_of_inputs(1) == crate::model::capped_sum(
                    after.partitions_of_inputs(0),
                    after.children[0].partition_count(),
                ));
            },
            OperatorView::Other { ordering_from, partitions, .. } => match partitions {
                PartitionSource::Input(i) => {
                    if i < before.children.len() {
                        assert(ordering_kept(before.children[i as int], after.children[i as int]));
                        assert(single_kept(before.children[i as int], after.children[i as int]));
                    }
                },
                _ => {},
            },
            _ => {},
        }
    }
}

/// A well-formed node that is in order stays in order when rebuilt over
/// as many inputs, each in order and ordered as before.
pub proof fn lemma_rebuilt_in_order(before: PlanView, inputs: Seq<PlanView>)
    requires
        in_order(before),
        inputs.len() == before.children.len(),
        forall|i: int| 0 <= i < inputs.len() ==> in_order(#[trigger] inputs[i]),
        forall|i: int|
            0 <= i < inputs.len() ==> ordering_kept(before.children[i], #[trigger] inputs[i]),
    ensures
        in_order(PlanView { op: before.op, children: inputs }),
{
    let after = PlanView { op: before.op, children: inputs };
    assert forall|i: int| 0 <= i < inputs.len() implies (#[trigger] inputs[i]).well_formed() by {
        assert(in_order(inputs[i]));
    }
    lemma_well_formed(before.op, inputs);
    assert forall|i: int| 0 <= i < inputs.len() implies yields_partitions(#[trigger] inputs[i]) by {
        assert(in_order(inputs[i]));
    }
    lemma_rebuilt_yields_partitions(before, inputs);
    assert forall|i: int| 0 <= i < after.children.len() implies edge_ordered(after, i)
        && orderings_upheld(#[trigger] after.children[i]) by {
        assert(in_order(inputs[i]));
        assert(ordering_kept(before.children[i], inputs[i]));
        assert(edge_ordered(before, i));
        lemma_edge_kept(before, after, i);
    }
    assert forall|i: int| 0 <= i < after.children.len() implies ordering_follows_partitions(
        #[trigger] after.children[i],
    ) by {
        assert(in_order(inputs[i]));
    }
}

/// What lies below the repartitions at the top of a plan in order is in
/// order.
pub proof fn lemma_below_matching_repartitions_in_order(plan: PlanView, parent: PlanView)
    requires
        in_order(plan),
        below_matching_repartitions(plan, parent) is Ok,
    ensures
        in_order(below_matching_repartitions(plan, parent)->Ok_0),
    decreases plan,
{
    if plan.op is Repartition && parent.op is Repartition && (plan.op->partitioning).same_as(
        parent.op->partitioning,
    ) {
        let below = plan.children[0];
        assert(below.well_formed());
        assert(orderings_upheld(below));
        assert(yields_partitions(below));
        assert(ordering_follows_partitions(below));
        lemma_below_matching_repartitions_in_order(below, parent);
    }
}

/// The repaired inputs of a chain node can take the place of its inputs.
pub proof fn lemma_coalesce_patched_inputs_replace(tree: TreeView, k: nat)
    requires
        chain_in_order(tree),
        k <= tree.children.len(),
        coalesce_patched_inputs(tree, k) is Ok,
    ensures
        ({
            let inputs = coalesce_patched_inputs(tree, k)->Ok_0;
            &&& inputs.len() == tree.plan.children.len()
            &&& forall|j: int|
                0 <= j < inputs.len() ==> replaces(tree.plan.children[j], #[trigger] inputs[j])
        }),
    decreases tree, k,
{
    if k > 0 {
        lemma_coalesce_patched_inputs_replace(tree, (k - 1) as nat);
        let before = coalesce_patched_inputs(tree, (k - 1) as nat)->Ok_0;
        let item = tree.children[k - 1];
        assert(chain_in_order(item));
        lemma_without_coalesce_replaces(item, tree.plan);
        let inputs = coalesce_patched_inputs(tree, k)->Ok_0;
        assert(inputs == before.update(item.idx, without_coalesce(item, tree.plan)->Ok_0));
        assert forall|j: int| 0 <= j < inputs.len() implies replaces(
            tree.plan.children[j],
            #[trigger] inputs[j],
        ) by {
            if j != item.idx {
                assert(inputs[j] == before[j]);
            }
        }
    } else {
        assert forall|j: int| 0 <= j < tree.plan.children.len() implies replaces(
            tree.plan.children[j],
            #[trigger] tree.plan.children[j],
        ) by {
            lemma_input_in_order(tree.plan, j);
        }
    }
}

/// Each input of a plan in order is in order.
pub proof fn lemma_input_in_order(plan: PlanView, j: int)
    requires
        in_order(plan),
        0 <= j < plan.children.len(),
    ensures
        in_order(plan.children[j]),
{
    assert(plan.children[j].well_formed());
    assert(orderings_upheld(plan.children[j]));
    assert(yields_partitions(plan.children[j]));
    assert(ordering_follows_partitions(plan.children[j]));
}

/// The plan at the root of a lineage tree in order, with the coalesces at
/// the leaves of the tree removed, can take the place of the plan.
pub proof fn lemma_without_coalesce_replaces(tree: TreeView, parent: PlanView)
    requires
        chain_in_order(tree),
        without_coalesce(tree, parent) is Ok,
    ensures
        replaces(tree.plan, without_coalesce(tree, parent)->Ok_0),
    decreases tree, tree.children.len() + 1,
{
    let plan = tree.plan;
    if plan.is_coalesce_partitions() {
        lemma_input_in_order(plan, 0);
        lemma_below_matching_repartitions_in_order(plan.children[0], parent);
    } else {
        lemma_coalesce_patched_inputs_replace(tree, tree.children.len());
        let inputs = coalesce_patched_inputs(tree, tree.children.len())->Ok_0;
        let after = plan.with_new_children(inputs)->0;
        assert forall|i: int| 0 <= i < inputs.len() implies in_order(#[trigger] inputs[i])
            && ordering_kept(plan.children[i], inputs[i]) by {
            assert(replaces(plan.children[i], inputs[i]));
        }
        lemma_rebuilt_in_order(plan, inputs);
        assert forall|i: int| 0 <= i < plan.children.len() implies ordering_kept(
            #[trigger] plan.children[i],
            after.children[i],
        ) && single_kept(plan.children[i], after.children[i]) by {
            assert(replaces(plan.children[i], inputs[i]));
        }
        lemma_ordering_kept_by_rebuild(plan, after);
        if tree.children.len() > 0 {
            lemma_single_kept_by_rebuild(plan, after);
        } else {
            assert(inputs =~= plan.children);
        }
    }
}

/// Whether a rewritten plan is ordered as the plan it was made from and
/// yields as many partitions.
pub open spec fn same_output(before: PlanView, after: PlanView) -> bool {
    ordering_kept(before, after) && after.partition_count() == before.partition_count()
}

/// Sort parallelization at a node in order gives a node that can be
/// handed to the parent, ordered as before and with as many partitions.
pub proof fn lemma_parallelized_in_order(node: TrackedView)
    requires
        in_order(node.plan),
        lineage_in_order(node),
        parallelized(node) is Ok,
    ensures
        item_in_order(parallelized(node)->Ok_0),
        same_output(node.plan, parallelized(node)->Ok_0.plan),
{
    let plan = node.plan;
    let out = parallelized(node)->Ok_0;
    if plan.children.len() == 0 || first_slot(node.lineage) is None {
    } else {
        let tree = first_slot(node.lineage)->0;
        assert(tree == node.lineage[0]->0);
        assert(chain_in_order(tree));
        if (plan.is_sort() || plan.is_sort_preserving_merge()) && plan.partition_count() <= 1 {
            lemma_without_coalesce_replaces(tree, plan);
            let below = without_coalesce(tree, plan)->Ok_0;
            let found = sort_exprs_of(plan)->Ok_0;
            let reqs = exact_requirements(found.0);
            let sorted = sort_above(below, reqs, found.1);
            lemma_sort_above_valid(below, reqs, found.1);
            lemma_sort_above_fits(below, reqs, found.1);
            lemma_sort_above_yields_partitions(below, reqs, found.1);
            assert(ordering_follows_partitions(sorted)) by {
                if sorted != below {
                    assert forall|i: int| 0 <= i < sorted.children.len() implies ordering_follows_partitions(
                        #[trigger] sorted.children[i],
                    ) by {
                        assert(sorted.children[i] == below);
                    }
                }
            }
            lemma_unary_well_formed(out.plan.op, sorted);
            lemma_unary_yields_partitions(out.plan.op, sorted);
            assert forall|i: int| 0 <= i < out.plan.children.len() implies edge_ordered(out.plan, i)
                && orderings_upheld(#[trigger] out.plan.children[i])
                && ordering_follows_partitions(out.plan.children[i]) by {
                assert(out.plan.children[i] == sorted);
            }
        } else if plan.is_coalesce_partitions() {
            lemma_without_coalesce_replaces(tree, plan);
            let below = without_coalesce(tree, plan)->Ok_0;
            lemma_unary_well_formed(out.plan.op, below);
            lemma_unary_yields_partitions(out.plan.op, below);
            assert forall|i: int| 0 <= i < out.plan.children.len() implies edge_ordered(out.plan, i)
                && orderings_upheld(#[trigger] out.plan.children[i])
                && ordering_follows_partitions(out.plan.children[i]) by {
                assert(out.plan.children[i] == below);
            }
        }
    }
}

/// The lineage of the first `k` slots that continues through a node
/// speaks of the inputs of the node and is in order.
pub proof fn lemma_kept_coalesce_lineage_in_order(item: TrackedView, k: nat)
    requires
        lineage_in_order(item),
    ensures
        forall|m: int|
            0 <= m < kept_coalesce_lineage(item, k).len() ==> {
                &&& chain_in_order(#[trigger] kept_coalesce_lineage(item, k)[m])
                &&& 0 <= kept_coalesce_lineage(item, k)[m].idx < item.plan.children.len()
                &&& kept_coalesce_lineage(item, k)[m].plan
                    == item.plan.children[kept_coalesce_lineage(item, k)[m].idx]
            },
        kept_coalesce_lineage(item, k).len() > 0 ==> exists|i: int|
            0 <= i < item.lineage.len() && (#[trigger] item.lineage[i]) is Some,
    decreases k,
{
    if k > 0 && k <= item.lineage.len() {
        lemma_kept_coalesce_lineage_in_order(item, (k - 1) as nat);
        let front = kept_coalesce_lineage(item, (k - 1) as nat);
        assert forall|m: int| 0 <= m < kept_coalesce_lineage(item, k).len() implies {
            &&& chain_in_order(#[trigger] kept_coalesce_lineage(item, k)[m])
            &&& 0 <= kept_coalesce_lineage(item, k)[m].idx < item.plan.children.len()
            &&& kept_coalesce_lineage(item, k)[m].plan
                == item.plan.children[kept_coalesce_lineage(item, k)[m].idx]
        } by {
            if m < front.len() {
                assert(kept_coalesce_lineage(item, k)[m] == front[m]);
            } else {
                assert(kept_coalesce_lineage(item, k)[m] == item.lineage[k - 1]->0);
            }
        }
        if kept_coalesce_lineage(item, k).len() > front.len() {
            assert(item.lineage[k - 1] is Some);
        }
    }
}

/// What the parallelization pass keeps of the inputs of a plan.
pub open spec fn inputs_in_order(plan: PlanView, nodes: Seq<TrackedView>, k: nat) -> bool {
    &&& nodes.len() == k
    &&& forall|i: int|
        0 <= i < k ==> item_in_order(#[trigger] nodes[i]) && same_output(
            plan.children[i],
            nodes[i].plan,
        )
}

/// The parallelization pass keeps the inputs of a plan in order.
pub proof fn lemma_parallel_pass_inputs_in_order(plan: PlanView, k: nat)
    requires
        in_order(plan),
        k <= plan.children.len(),
        parallel_pass_inputs(plan, k) is Ok,
    ensures
        inputs_in_order(plan, parallel_pass_inputs(plan, k)->Ok_0, k),
    decreases plan, k,
{
    if k > 0 {
        lemma_parallel_pass_inputs_in_order(plan, (k - 1) as nat);
        lemma_input_in_order(plan, k - 1);
        lemma_parallel_pass_in_order(plan.children[k - 1]);
    }
}

/// The parallelization pass keeps a plan in order, ordered as before and
/// with as many partitions.
pub proof fn lemma_parallel_pass_in_order(plan: PlanView)
    requires
        in_order(plan),
        parallel_pass(plan) is Ok,
    ensures
        item_in_order(parallel_pass(plan)->Ok_0),
        same_output(plan, parallel_pass(plan)->Ok_0.plan),
    decreases plan, plan.children.len() + 1,
{
    if plan.children.len() == 0 {
        lemma_parallelized_in_order(untracked(plan));
    } else {
        lemma_parallel_pass_inputs_in_order(plan, plan.children.len());
        let nodes = parallel_pass_inputs(plan, plan.children.len())->Ok_0;
        let node = with_coalesce_lineage(nodes, plan)->Ok_0;
        let inputs = plans_of(nodes);
        assert(node.plan.children =~= inputs);
        assert forall|i: int| 0 <= i < inputs.len() implies in_order(#[trigger] inputs[i])
            && ordering_kept(plan.children[i], inputs[i]) by {
            assert(item_in_order(nodes[i]));
            assert(same_output(plan.children[i], nodes[i].plan));
        }
        lemma_rebuilt_in_order(plan, inputs);
        assert forall|i: int| 0 <= i < plan.children.len() implies ordering_kept(
            #[trigger] plan.children[i],
            node.plan.children[i],
        ) && single_kept(plan.children[i], node.plan.children[i]) by {
            assert(same_output(plan.children[i], nodes[i].plan));
        }
        lemma_ordering_kept_by_rebuild(plan, node.plan);
        assert forall|i: int| 0 <= i < node.plan.children.len() implies (
        #[trigger] node.plan.children[i]).partition_count() == plan.children[i].partition_count() by {
            assert(same_output(plan.children[i], nodes[i].plan));
        }
        lemma_partition_count_congruent(node.plan, plan);
        assert forall|i: int| 0 <= i < node.lineage.len() implies match #[trigger] node.lineage[i] {
            Some(tree) => chain_in_order(tree) && tree.idx == i && tree.plan
                == node.plan.children[i],
            None => true,
        } by {
            let item = nodes[i];
            assert(item_in_order(item));
            assert(node.lineage[i] == coalesce_lineage_through(item, i));
            lemma_kept_coalesce_lineage_in_order(item, item.lineage.len());
        }
        lemma_parallelized_in_order(node);
        let out = parallel_pass(plan)->Ok_0;
        assert(same_output(node.plan, out.plan));
    }
}

/// Sort parallelization keeps ordering requirements met: after the pass
/// over a well-formed plan in which every requirement is met, every node
/// yields at least one partition and orderings follow partitions, every
/// input is still ordered as the node above it asks.
pub proof fn theorem_parallelization_keeps_requirements_met(plan: PlanView)
    requires
        in_order(plan),
        parallel_pass(plan) is Ok,
    ensures
        orderings_upheld(parallel_pass(plan)->Ok_0.plan),
        same_output(plan, parallel_pass(plan)->Ok_0.plan),
{
    lemma_parallel_pass_in_order(plan);
}

} // verus!
