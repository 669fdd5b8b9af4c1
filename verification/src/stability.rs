//! Plans that sort enforcement leaves alone.

use crate::enforce::{
    enforce_slot, enforce_slots, ensured, first_slot, immediate_sort_removal, leaf, tracked_slots,
};
use crate::error::PlanError;
use crate::lineage::{
    kept_sort_lineage, plans_of, sort_lineage_through, untracked, with_sort_lineage, TrackedView,
    TreeView,
};
use crate::model::PlanView;
use crate::optimizer::{sort_pass, sort_pass_inputs};
use crate::surgery::{lemma_sort_above_meets, sort_above, without_sort};
use crate::window::{best_fitting_window, window_over_sorted_input};
use vstd::prelude::*;

verus! {

/// The plan with the sort lineage that its own shape gives each slot: the
/// lineage through each input, taken with the lineage that the input has
/// by the same rule.
pub open spec fn with_own_lineage(plan: PlanView) -> TrackedView
    decreases plan,
{
    TrackedView {
        plan,
        lineage: Seq::new(
            plan.children.len(),
            |i: int|
                if 0 <= i < plan.children.len() {
                    sort_lineage_through(with_own_lineage(plan.children[i]), i)
                } else {
                    None
                },
        ),
    }
}

/// Whether nothing is left to do at the slot `i` of the node: an ordering
/// that is asked of the input is met by it, and no sort is tracked below
/// an input whose ordering the node does not pass on.
pub open spec fn slot_settled(plan: PlanView, i: int) -> bool {
    let child = plan.children[i];
    match plan.required_input_ordering(i) {
        Some(required) => child.ordering_satisfy_requirement(required) && (child.output_ordering()
            is Some || with_own_lineage(plan).lineage[i] is None),
        None => child.output_ordering() is Some && (!plan.maintains_input_order(i)
            || plan.is_union()) ==> with_own_lineage(plan).lineage[i] is None,
    }
}

/// Whether the window is the evaluation that the window analysis picks
/// for its input as that input is ordered, and the input yields a single
/// partition if the window asks for one.
pub open spec fn window_fits(plan: PlanView) -> bool {
    &&& plan.op is Window
    &&& plan.children.len() == 1
    &&& plan.op->window_expr.len() > 0
    &&& !(plan.requires_single_partition(0) && plan.children[0].partition_count() > 1)
    &&& best_fitting_window(plan.op->window_expr, plan.children[0], plan.op->partition_keys)
        == Some(plan)
}

/// Whether the window stands over the sort that it takes where no
/// evaluation fits its input: the input of the window is a sort, the
/// analysis picks no evaluation for what lies below that sort, and the
/// window is the one that stands over a fresh sort of it.
pub open spec fn window_freshly_sorted(plan: PlanView) -> bool {
    &&& plan.op is Window
    &&& plan.children.len() == 1
    &&& plan.op->window_expr.len() > 0
    &&& plan.required_input_ordering(0) is Some
    &&& plan.children[0].is_sort()
    &&& plan.children[0].children.len() == 1
    &&& {
        let below = plan.children[0].children[0];
        &&& !(plan.requires_single_partition(0) && below.partition_count() > 1)
        &&& best_fitting_window(plan.op->window_expr, below, plan.op->partition_keys) is None
        &&& window_over_sorted_input(plan, below) == plan
    }
}

/// Whether nothing is left to do at a window: no sort is tracked below it
/// and its input is ordered as it asks or as the evaluation that was
/// picked for it needs; or it stands over the sort that it takes where no
/// evaluation fits.
pub open spec fn window_settled(plan: PlanView) -> bool {
    ||| first_slot(with_own_lineage(plan).lineage) is None && (slot_settled(plan, 0) || window_fits(
        plan,
    ))
    ||| window_freshly_sorted(plan)
}

/// Whether nothing is left to do anywhere in the plan: no sort stands
/// over input that is already ordered as it orders, every slot of a node
/// that is no window is settled, every window is settled, and no
/// sort-preserving merge stands over a single partition.
pub open spec fn settled(plan: PlanView) -> bool
    decreases plan,
{
    &&& immediate_sort_removal(plan, with_own_lineage(plan).lineage) is None
    &&& !(plan.is_sort_preserving_merge() && plan.children.len() > 0
        && plan.children[0].partition_count() <= 1)
    &&& plan.is_window() ==> window_settled(plan)
    &&& forall|i: int|
        0 <= i < plan.children.len() ==> settled(#[trigger] plan.children[i]) && (plan.is_window()
            || slot_settled(plan, i))
}

/// Whether sort enforcement at the node changes no slot: the node is no
/// window, or it is a window below which no sort is tracked and whose
/// input is ordered as it asks.
pub open spec fn quiet(plan: PlanView) -> bool {
    plan.is_window() ==> first_slot(with_own_lineage(plan).lineage) is None && (
    plan.children.len() > 0 ==> slot_settled(plan, 0))
}

/// Whether two rewritten nodes hold the same plan and hand the same
/// lineage to a parent.
pub open spec fn alike(a: TrackedView, b: TrackedView) -> bool {
    a.plan == b.plan && forall|idx: int|
        sort_lineage_through(a, idx) == #[trigger] sort_lineage_through(b, idx)
}

/// Bringing the slots of a settled, quiet node in line changes nothing.
pub proof fn lemma_enforce_slots_settled(plan: PlanView, k: nat)
    requires
        settled(plan),
        quiet(plan),
        plan.is_window() ==> plan.children.len() == 1,
        k <= plan.children.len(),
    ensures
        enforce_slots(with_own_lineage(plan), k) == Ok::<
            (Seq<PlanView>, Seq<Option<TreeView>>),
            PlanError,
        >((plan.children, with_own_lineage(plan).lineage)),
    decreases k,
{
    if k > 0 {
        lemma_enforce_slots_settled(plan, (k - 1) as nat);
        let idx = k - 1;
        let lineage = with_own_lineage(plan).lineage;
        assert(settled(plan.children[idx]));
        assert(slot_settled(plan, idx));
        match (plan.required_input_ordering(idx), plan.children[idx].output_ordering()) {
            (None, Some(_)) => {
                if !plan.maintains_input_order(idx) || plan.is_union() {
                    assert(plan.children.update(idx, plan.children[idx]) =~= plan.children);
                    assert(lineage.update(idx, None) =~= lineage);
                }
            },
            (Some(required), None) => {
                assert(!plan.children[idx].is_sort());
                assert(plan.children.update(idx, plan.children[idx]) =~= plan.children);
                assert(lineage.update(idx, None) =~= lineage);
            },
            _ => {},
        }
    }
}

/// No lineage continues through a node none of whose slots has any.
pub proof fn lemma_nothing_kept(item: TrackedView, k: nat)
    requires
        forall|i: int| 0 <= i < item.lineage.len() ==> (#[trigger] item.lineage[i]) is None,
    ensures
        kept_sort_lineage(item, k).len() == 0,
    decreases k,
{
    if k > 0 {
        lemma_nothing_kept(item, (k - 1) as nat);
    }
}

/// No lineage continues through a window that asks an ordering of its
/// input.
pub proof fn lemma_window_keeps_nothing(item: TrackedView, k: nat)
    requires
        item.plan.op is Window,
        item.plan.required_input_ordering(0) is Some,
        k <= 1,
    ensures
        kept_sort_lineage(item, k).len() == 0,
    decreases k,
{
    if k > 0 {
        lemma_window_keeps_nothing(item, (k - 1) as nat);
    }
}

/// Sort enforcement leaves a settled window as it is: where it puts a
/// sort below the window, the window analysis takes the sort away again,
/// and where the window stands over a fresh sort, the analysis puts the
/// same sort back.
pub proof fn lemma_ensured_settled_window(plan: PlanView)
    requires
        plan.well_formed(),
        settled(plan),
        plan.is_window(),
        !quiet(plan),
    ensures
        ensured(with_own_lineage(plan)) == Ok::<TrackedView, PlanError>(untracked(plan)),
        alike(untracked(plan), with_own_lineage(plan)),
{
    let own = with_own_lineage(plan);
    let child = plan.children[0];
    assert(plan.children.len() == 1);
    assert(tracked_slots(own) == 1);
    assert(enforce_slots(own, 0) == Ok::<(Seq<PlanView>, Seq<Option<TreeView>>), PlanError>(
        (plan.children, own.lineage),
    ));
    assert(enforce_slots(own, 1) == enforce_slot(plan, plan.children, own.lineage, 0));
    lemma_nothing_kept(untracked(plan), plan.children.len());
    if window_freshly_sorted(plan) {
        let below = child.children[0];
        let required = plan.required_input_ordering(0)->0;
        assert(window_over_sorted_input(plan, below).children[0] == sort_above(
            below,
            required,
            None,
        ));
        assert(child == sort_above(below, required, None));
        lemma_sort_above_meets(below, required, None);
        assert(with_own_lineage(child).plan == child);
        assert(own.lineage[0] == sort_lineage_through(with_own_lineage(child), 0));
        assert(own.lineage[0] == Some(leaf(child, 0)));
        assert(plan.children.update(0, child) =~= plan.children);
        assert(own.lineage.update(0, Some(leaf(child, 0))) =~= own.lineage);
        assert(without_sort(leaf(child, 0), plan.requires_single_partition(0)) == Ok::<
            PlanView,
            PlanError,
        >(below));
        lemma_window_keeps_nothing(own, plan.children.len());
    } else {
        assert(own.lineage[0] is None);
        assert(window_fits(plan));
        let required = plan.required_input_ordering(0)->0;
        let sorted = sort_above(child, required, None);
        assert(sorted.is_sort());
        assert(without_sort(leaf(sorted, 0), plan.requires_single_partition(0)) == Ok::<
            PlanView,
            PlanError,
        >(child));
        lemma_nothing_kept(own, plan.children.len());
        assert(untracked(plan).lineage =~= own.lineage);
    }
}

/// Sort enforcement leaves a well-formed settled node as it is.
pub proof fn lemma_ensured_settled(plan: PlanView)
    requires
        plan.well_formed(),
        settled(plan),
    ensures
        ensured(with_own_lineage(plan)) is Ok,
        alike(ensured(with_own_lineage(plan))->Ok_0, with_own_lineage(plan)),
{
    if plan.children.len() > 0 {
        if quiet(plan) {
            assert(tracked_slots(with_own_lineage(plan)) == plan.children.len());
            lemma_enforce_slots_settled(plan, plan.children.len());
            assert(plan.with_new_children(plan.children) == Some(plan));
        } else {
            lemma_ensured_settled_window(plan);
        }
    }
}

/// The pass leaves the inputs of a well-formed settled plan as they are.
pub proof fn lemma_sort_pass_inputs_settled(plan: PlanView, k: nat)
    requires
        plan.well_formed(),
        settled(plan),
        k <= plan.children.len(),
    ensures
        sort_pass_inputs(plan, k) is Ok,
        sort_pass_inputs(plan, k)->Ok_0.len() == k,
        forall|i: int|
            0 <= i < k ==> alike(
                #[trigger] sort_pass_inputs(plan, k)->Ok_0[i],
                with_own_lineage(plan.children[i]),
            ),
    decreases plan, k,
{
    if k > 0 {
        lemma_sort_pass_inputs_settled(plan, (k - 1) as nat);
        assert(plan.children[k - 1].well_formed());
        assert(settled(plan.children[k - 1]));
        theorem_settled_plan_is_left_alone(plan.children[k - 1]);
    }
}

/// The sort-enforcement pass returns a well-formed settled plan as it is,
/// with the lineage that its own shape gives it wherever a parent would
/// look. Running the pass on its own output therefore changes nothing,
/// whenever that output is settled.
pub proof fn theorem_settled_plan_is_left_alone(plan: PlanView)
    requires
        plan.well_formed(),
        settled(plan),
    ensures
        sort_pass(plan) is Ok,
        sort_pass(plan)->Ok_0.plan == plan,
        alike(sort_pass(plan)->Ok_0, with_own_lineage(plan)),
    decreases plan, plan.children.len() + 1,
{
    lemma_ensured_settled(plan);
    if plan.children.len() > 0 {
        lemma_sort_pass_inputs_settled(plan, plan.children.len());
        let nodes = sort_pass_inputs(plan, plan.children.len())->Ok_0;
        assert(plans_of(nodes) =~= plan.children);
        assert(plan.with_new_children(plan.children) == Some(plan));
        let node = with_sort_lineage(nodes, plan)->Ok_0;
        assert(node.lineage =~= with_own_lineage(plan).lineage);
    } else {
        assert(with_own_lineage(plan).lineage =~= untracked(plan).lineage);
    }
}

} // verus!
