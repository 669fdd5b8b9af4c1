//! The two bottom-up passes over a plan, and the rule that runs them.

use crate::alignment::theorem_rewrite_meets_requirements;
use crate::asking::sorted_windows;
use crate::enforce::{ensure_sorting, ensured, parallelize_sorts, parallelized};
use crate::error::PlanError;
use crate::lineage::{
    untracked, with_coalesce_lineage, with_sort_lineage, PlanWithCorrespondingCoalescePartitions,
    PlanWithCorrespondingSort, TrackedView,
};
use crate::merging::ordering_follows_partitions;
use crate::model::PlanView;
use crate::partitions::{
    distribution_met, single_partitions_guarded,
    theorem_sort_enforcement_keeps_single_partitions, yields_partitions,
};
use crate::plan::{outcome_view, PlanNode};
use crate::positivity::theorem_rewrite_keeps_single_partitions;
use crate::rerun::{calm, plain, theorem_first_run_leaves_only_sorts};
use crate::sources::{sources, theorem_rewrite_keeps_sources};
use crate::stability::{settled, theorem_settled_plan_is_left_alone};
use crate::steadiness::{
    steady, theorem_rewrite_keeps_plans_steady, theorem_rewrite_orders_steady_plans,
    theorem_sort_enforcement_keeps_plans_steady, theorem_sort_enforcement_orders_steady_plans,
};
use crate::thinning::{coalesces, theorem_parallelization_adds_no_coalesce};
use crate::totality::{lemma_parallel_pass_fits, lemma_sort_pass_fits, theorem_rewrite_succeeds};
use crate::traversal::{node_outcome, transform_up, traversed, traversed_inputs};
use crate::validity::{
    orderings_met, orderings_upheld, theorem_sort_enforcement_meets_requirements,
    theorem_sort_enforcement_upholds_orderings,
};
use std::sync::Arc;
use vstd::prelude::*;

verus! {

/// The first `k` inputs of `plan` after the sort-enforcement pass.
pub open spec fn sort_pass_inputs(plan: PlanView, k: nat) -> Result<Seq<TrackedView>, PlanError>
    decreases plan, k,
{
    if k == 0 || k > plan.children.len() {
        Ok(Seq::empty())
    } else {
        match sort_pass_inputs(plan, (k - 1) as nat) {
            Err(e) => Err(e),
            Ok(nodes) => match sort_pass(plan.children[k - 1]) {
                Err(e) => Err(e),
                Ok(node) => Ok(nodes.push(node)),
            },
        }
    }
}

/// The plan after the sort-enforcement pass: the inputs of each node are
/// rewritten first, then the node is rebuilt over them with its sort
/// lineage and rewritten itself.
pub open spec fn sort_pass(plan: PlanView) -> Result<TrackedView, PlanError>
    decreases plan, plan.children.len() + 1,
{
    if plan.children.len() == 0 {
        ensured(untracked(plan))
    } else {
        match sort_pass_inputs(plan, plan.children.len()) {
            Err(e) => Err(e),
            Ok(nodes) => match with_sort_lineage(nodes, plan) {
                Err(e) => Err(e),
                Ok(node) => ensured(node),
            },
        }
    }
}

/// The first `k` inputs of `plan` after the parallelization pass.
pub open spec fn parallel_pass_inputs(plan: PlanView, k: nat) -> Result<Seq<TrackedView>, PlanError>
    decreases plan, k,
{
    if k == 0 || k > plan.children.len() {
        Ok(Seq::empty())
    } else {
        match parallel_pass_inputs(plan, (k - 1) as nat) {
            Err(e) => Err(e),
            Ok(nodes) => match parallel_pass(plan.children[k - 1]) {
                Err(e) => Err(e),
                Ok(node) => Ok(nodes.push(node)),
            },
        }
    }
}

/// The plan after the parallelization pass.
pub open spec fn parallel_pass(plan: PlanView) -> Result<TrackedView, PlanError>
    decreases plan, plan.children.len() + 1,
{
    if plan.children.len() == 0 {
        parallelized(untracked(plan))
    } else {
        match parallel_pass_inputs(plan, plan.children.len()) {
            Err(e) => Err(e),
            Ok(nodes) => match with_coalesce_lineage(nodes, plan) {
                Err(e) => Err(e),
                Ok(node) => parallelized(node),
            },
        }
    }
}

/// The plan after sort enforcement and, if `repartition_sorts` holds,
/// sort parallelization.
pub open spec fn optimized(plan: PlanView, repartition_sorts: bool) -> Result<PlanView, PlanError> {
    match sort_pass(plan) {
        Err(e) => Err(e),
        Ok(adjusted) => if repartition_sorts {
            match parallel_pass(adjusted.plan) {
                Err(e) => Err(e),
                Ok(parallel) => Ok(parallel.plan),
            }
        } else {
            Ok(adjusted.plan)
        },
    }
}

/// How the sort-enforcement pass rebuilds a node.
pub open spec fn sort_rebuild() -> spec_fn(Seq<TrackedView>, PlanView) -> Result<
    TrackedView,
    PlanError,
> {
    |children: Seq<TrackedView>, parent: PlanView| with_sort_lineage(children, parent)
}

/// How the sort-enforcement pass rewrites a node.
pub open spec fn sort_rewrite() -> spec_fn(TrackedView) -> Result<TrackedView, PlanError> {
    |node: TrackedView| ensured(node)
}

/// How the parallelization pass rebuilds a node.
pub open spec fn coalesce_rebuild() -> spec_fn(Seq<TrackedView>, PlanView) -> Result<
    TrackedView,
    PlanError,
> {
    |children: Seq<TrackedView>, parent: PlanView| with_coalesce_lineage(children, parent)
}

/// How the parallelization pass rewrites a node.
pub open spec fn coalesce_rewrite() -> spec_fn(TrackedView) -> Result<TrackedView, PlanError> {
    |node: TrackedView| parallelized(node)
}

/// The traversal that rebuilds and rewrites as sort enforcement does
/// rewrites the first `k` inputs as the sort-enforcement pass does.
pub proof fn lemma_traversed_inputs_is_sort_pass(plan: PlanView, k: nat)
    ensures
        traversed_inputs(plan, sort_rebuild(), sort_rewrite(), k) == sort_pass_inputs(plan, k),
    decreases plan, k,
{
    if !(k == 0 || k > plan.children.len()) {
        lemma_traversed_inputs_is_sort_pass(plan, (k - 1) as nat);
        lemma_traversed_is_sort_pass(plan.children[k - 1]);
    }
}

/// The traversal that rebuilds and rewrites as sort enforcement does is
/// the sort-enforcement pass.
pub proof fn lemma_traversed_is_sort_pass(plan: PlanView)
    ensures
        traversed(plan, sort_rebuild(), sort_rewrite()) == sort_pass(plan),
    decreases plan, plan.children.len() + 1,
{
    if plan.children.len() > 0 {
        lemma_traversed_inputs_is_sort_pass(plan, plan.children.len());
    }
}

/// The traversal that rebuilds and rewrites as sort parallelization does
/// rewrites the first `k` inputs as the parallelization pass does.
pub proof fn lemma_traversed_inputs_is_parallel_pass(plan: PlanView, k: nat)
    ensures
        traversed_inputs(plan, coalesce_rebuild(), coalesce_rewrite(), k) == parallel_pass_inputs(
            plan,
            k,
        ),
    decreases plan, k,
{
    if !(k == 0 || k > plan.children.len()) {
        lemma_traversed_inputs_is_parallel_pass(plan, (k - 1) as nat);
        lemma_traversed_is_parallel_pass(plan.children[k - 1]);
    }
}

/// The traversal that rebuilds and rewrites as sort parallelization does
/// is the parallelization pass.
pub proof fn lemma_traversed_is_parallel_pass(plan: PlanView)
    ensures
        traversed(plan, coalesce_rebuild(), coalesce_rewrite()) == parallel_pass(plan),
    decreases plan, plan.children.len() + 1,
{
    if plan.children.len() > 0 {
        lemma_traversed_inputs_is_parallel_pass(plan, plan.children.len());
    }
}

/// Runs sort enforcement bottom-up over the plan: the outcome is exactly
/// the one of the model. On a well-formed plan the pass succeeds, and a
/// settled plan is given back as it is. In the plan that the pass gives
/// for a plan whose windows all take their partitions as sorted, every
/// input meets the ordering that the node above it asks, but perhaps the
/// inputs of windows for which the pass has picked an evaluation that does
/// not take the partitions as sorted; where all sources are bounded it
/// picks no such evaluation. In the plan that it gives for a
/// plain plan whose single-partition inputs keep yielding one, nothing but
/// the removal of sorts is left to do.
pub fn enforce_sorting_pass(plan: &Arc<PlanNode>) -> (r: Result<PlanWithCorrespondingSort, PlanError>)
    ensures
        node_outcome(r) == sort_pass(plan@),
        plan@.well_formed() ==> r is Ok,
        plan@.well_formed() && settled(plan@) ==> (r matches Ok(node) ==> node@.plan == plan@),
        sorted_windows(plan@) ==> (r matches Ok(node) ==> orderings_upheld(node@.plan)),
        sorted_windows(plan@) ==> (r matches Ok(node) ==> (sorted_windows(node@.plan)
            ==> orderings_met(node@.plan))),
        steady(plan@) ==> (r matches Ok(node) ==> steady(node@.plan) && orderings_met(node@.plan)),
        plain(plan@) && sorted_windows(plan@) && single_partitions_guarded(plan@) ==> (
        r matches Ok(node) ==> calm(node@.plan)),
{
    proof {
        if plain(plan@) && sorted_windows(plan@) && single_partitions_guarded(plan@) && sort_pass(
            plan@,
        ) is Ok {
            theorem_first_run_leaves_only_sorts(plan@);
        }
        lemma_traversed_is_sort_pass(plan@);
        if sort_pass(plan@) is Ok && sorted_windows(plan@) {
            theorem_sort_enforcement_upholds_orderings(plan@);
            if sorted_windows(sort_pass(plan@)->Ok_0.plan) {
                theorem_sort_enforcement_meets_requirements(plan@);
            }
        }
        if plan@.well_formed() && settled(plan@) {
            theorem_settled_plan_is_left_alone(plan@);
        }
        if steady(plan@) && sort_pass(plan@) is Ok {
            theorem_sort_enforcement_keeps_plans_steady(plan@);
            theorem_sort_enforcement_orders_steady_plans(plan@);
        }
        if plan@.well_formed() {
            lemma_sort_pass_fits(plan@);
        }
    }
    transform_up(
        plan,
        &PlanWithCorrespondingSort::new,
        &PlanWithCorrespondingSort::new_from_children_nodes,
        &ensure_sorting,
        Ghost(sort_rebuild()),
        Ghost(sort_rewrite()),
    )
}

/// Runs sort parallelization bottom-up over the plan. On a well-formed
/// plan the pass succeeds. The plan that it gives holds no more coalesces
/// than the plan that it was given.
pub fn parallelize_sorts_pass(plan: &Arc<PlanNode>) -> (r: Result<
    PlanWithCorrespondingCoalescePartitions,
    PlanError,
>)
    ensures
        node_outcome(r) == parallel_pass(plan@),
        plan@.well_formed() ==> r is Ok,
        r matches Ok(node) ==> coalesces(node@.plan) <= coalesces(plan@),
{
    proof {
        lemma_traversed_is_parallel_pass(plan@);
        if parallel_pass(plan@) is Ok {
            theorem_parallelization_adds_no_coalesce(plan@);
        }
        if plan@.well_formed() {
            lemma_parallel_pass_fits(plan@);
        }
    }
    transform_up(
        plan,
        &PlanWithCorrespondingCoalescePartitions::new,
        &PlanWithCorrespondingCoalescePartitions::new_from_children_nodes,
        &parallelize_sorts,
        Ghost(coalesce_rebuild()),
        Ghost(coalesce_rewrite()),
    )
}

/// The rule that enforces the ordering requirements of a plan with as few
/// sorts as possible.
#[derive(Clone, Copy, Debug, PartialEq, Eq, Structural)]
pub struct EnforceSorting {}

impl EnforceSorting {
    /// The rule.
    pub fn new() -> (r: Self)
        ensures
            r == (EnforceSorting {  }),
    {
        EnforceSorting {  }
    }

    /// The plan with every ordering requirement enforced and, if
    /// `repartition_sorts` holds, with single-partition sorts over
    /// coalesced inputs turned into merges of parallel sorts. A failure of
    /// either pass fails the whole rewrite. Where every window of the plan
    /// takes its partitions as sorted and every source is bounded, every
    /// input of the rewritten plan meets the ordering asked of it; with
    /// sort parallelization this is stated of well-formed plans in which
    /// every node yields a partition and orderings follow partitions.
    pub fn enforce_and_parallelize(&self, plan: Arc<PlanNode>, repartition_sorts: bool) -> (r: Result<
        Arc<PlanNode>,
        PlanError,
    >)
        ensures
            outcome_view(r) == optimized(plan@, repartition_sorts),
            plan@.well_formed() ==> r is Ok,
            plan@.well_formed() ==> (r matches Ok(rewritten) ==> rewritten@.well_formed()
                && sources(rewritten@) == sources(plan@)),
            !repartition_sorts && plan@.well_formed() && settled(plan@) ==> (r matches Ok(
                rewritten,
            ) ==> rewritten@ == plan@),
            sorted_windows(plan@) && (!repartition_sorts || (plan@.well_formed()
                && yields_partitions(plan@) && ordering_follows_partitions(plan@))) ==> (
            r matches Ok(rewritten) ==> orderings_upheld(rewritten@) && (sorted_windows(rewritten@)
                ==> orderings_met(rewritten@))),
            steady(plan@) && (!repartition_sorts || (plan@.well_formed() && yields_partitions(plan@)
                && ordering_follows_partitions(plan@))) ==> (r matches Ok(rewritten) ==> steady(
                rewritten@,
            ) && orderings_met(rewritten@)),
            !repartition_sorts && single_partitions_guarded(plan@) ==> (r matches Ok(rewritten)
                ==> distribution_met(rewritten@)),
            single_partitions_guarded(plan@) && yields_partitions(plan@) ==> (r matches Ok(
                rewritten,
            ) ==> distribution_met(rewritten@)),
    {
        proof {
            if plan@.well_formed() {
                theorem_rewrite_succeeds(plan@, repartition_sorts);
                theorem_rewrite_keeps_sources(plan@, repartition_sorts);
            }
            if plan@.well_formed() && yields_partitions(plan@) && ordering_follows_partitions(
                plan@,
            ) && sorted_windows(plan@) {
                theorem_rewrite_meets_requirements(plan@, repartition_sorts);
            }
            if steady(plan@) && optimized(plan@, repartition_sorts) is Ok {
                theorem_rewrite_keeps_plans_steady(plan@, repartition_sorts);
                if !repartition_sorts {
                    theorem_sort_enforcement_orders_steady_plans(plan@);
                } else if plan@.well_formed() && yields_partitions(plan@)
                    && ordering_follows_partitions(plan@) {
                    theorem_rewrite_orders_steady_plans(plan@, repartition_sorts);
                }
            }
            if !repartition_sorts && single_partitions_guarded(plan@) && sort_pass(plan@) is Ok {
                theorem_sort_enforcement_keeps_single_partitions(plan@);
            }
            if single_partitions_guarded(plan@) && yields_partitions(plan@) && optimized(
                plan@,
                repartition_sorts,
            ) is Ok {
                theorem_rewrite_keeps_single_partitions(plan@, repartition_sorts);
            }
        }
        let adjusted = match enforce_sorting_pass(&plan) {
            Ok(node) => node,
            Err(e) => {
                return Err(e);
            },
        };
        if repartition_sorts {
            match parallelize_sorts_pass(&adjusted.plan) {
                Ok(parallel) => Ok(parallel.plan),
                Err(e) => Err(e),
            }
        } else {
            Ok(adjusted.plan)
        }
    }

    /// Runs the rule: sort enforcement, then sort parallelization if
    /// `repartition_sorts` holds, then `substitution`, the pass that
    /// substitutes order-preserving operator variants, then `pushdown`, the
    /// pass that pushes sorts down. The first failure ends the run and is
    /// the outcome; else the outcome is what `pushdown` makes of what
    /// `substitution` makes of the rewritten plan.
    pub fn optimize<S, P>(
        &self,
        plan: Arc<PlanNode>,
        repartition_sorts: bool,
        substitution: &S,
        pushdown: &P,
    ) -> (r: Result<Arc<PlanNode>, PlanError>) where
        S: Fn(Arc<PlanNode>) -> Result<Arc<PlanNode>, PlanError>,
        P: Fn(Arc<PlanNode>) -> Result<Arc<PlanNode>, PlanError>,

        requires
            forall|p: Arc<PlanNode>| substitution.requires((p,)),
            forall|p: Arc<PlanNode>| pushdown.requires((p,)),
        ensures
            match optimized(plan@, repartition_sorts) {
                Err(e) => r == Err::<Arc<PlanNode>, PlanError>(e),
                Ok(rewritten) => exists|
                    enforced: Arc<PlanNode>,
                    substituted: Result<Arc<PlanNode>, PlanError>,
                |
                    {
                        &&& enforced@ == rewritten
                        &&& substitution.ensures((enforced,), substituted)
                        &&& match substituted {
                            Err(e) => r == Err::<Arc<PlanNode>, PlanError>(e),
                            Ok(p) => pushdown.ensures((p,), r),
                        }
                    },
            },
    {
        let enforced = match self.enforce_and_parallelize(plan, repartition_sorts) {
            Ok(p) => p,
            Err(e) => {
                return Err(e);
            },
        };
        let ghost handed = enforced;
        let substituted = substitution(enforced);
        let ghost after = substituted;
        let r = match substituted {
            Ok(p) => pushdown(p),
            Err(e) => Err(e),
        };
        assert(handed@ == optimized(plan@, repartition_sorts)->Ok_0 && substitution.ensures(
            (handed,),
            after,
        ) && match after {
            Err(e) => r == Err::<Arc<PlanNode>, PlanError>(e),
            Ok(p) => pushdown.ensures((p,), r),
        });
        r
    }

    /// The name of the rule.
    pub fn name(&self) -> (r: &'static str)
        ensures
            r@ == "EnforceSorting"@,
    {
        "EnforceSorting"
    }

    /// Whether the rule keeps the schema of the plan.
    pub fn schema_check(&self) -> (r: bool)
        ensures
            r,
    {
        true
    }
}

impl Default for EnforceSorting {
    fn default() -> (r: Self)
        ensures
            r == (EnforceSorting {  }),
    {
        EnforceSorting {  }
    }
}

} // verus!
