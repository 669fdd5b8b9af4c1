//! The bottom-up traversal of a plan: the inputs of a node are rewritten
//! first, then the node is rebuilt over them and rewritten itself. The
//! traversal is written once, for any kind of node with lineage and any
//! rewrite of a node.

use crate::engine::share;
use crate::error::PlanError;
use crate::lineage::{untracked, TrackedView};
use crate::model::PlanView;
use crate::plan::PlanNode;
use std::sync::Arc;
use vstd::prelude::*;

verus! {

/// The models of a list of nodes with lineage.
pub open spec fn node_views<N: View<V = TrackedView>>(nodes: Seq<N>) -> Seq<TrackedView> {
    Seq::new(nodes.len(), |i: int| nodes[i]@)
}

/// Model of the outcome of a rewrite of a node with lineage.
pub open spec fn node_outcome<N: View<V = TrackedView>>(r: Result<N, PlanError>) -> Result<
    TrackedView,
    PlanError,
> {
    match r {
        Ok(node) => Ok(node@),
        Err(e) => Err(e),
    }
}

/// The first `k` inputs of `plan` after the traversal that rebuilds by
/// `rebuild` and rewrites by `op`.
pub open spec fn traversed_inputs(
    plan: PlanView,
    rebuild: spec_fn(Seq<TrackedView>, PlanView) -> Result<TrackedView, PlanError>,
    op: spec_fn(TrackedView) -> Result<TrackedView, PlanError>,
    k: nat,
) -> Result<Seq<TrackedView>, PlanError>
    decreases plan, k,
{
    if k == 0 || k > plan.children.len() {
        Ok(Seq::empty())
    } else {
        match traversed_inputs(plan, rebuild, op, (k - 1) as nat) {
            Err(e) => Err(e),
            Ok(nodes) => match traversed(plan.children[k - 1], rebuild, op) {
                Err(e) => Err(e),
                Ok(node) => Ok(nodes.push(node)),
            },
        }
    }
}

/// The plan after the traversal that rebuilds by `rebuild` and rewrites
/// by `op`: a leaf is rewritten as it is, with no lineage; any other node
/// is rebuilt over its rewritten inputs and then rewritten.
pub open spec fn traversed(
    plan: PlanView,
    rebuild: spec_fn(Seq<TrackedView>, PlanView) -> Result<TrackedView, PlanError>,
    op: spec_fn(TrackedView) -> Result<TrackedView, PlanError>,
) -> Result<TrackedView, PlanError>
    decreases plan, plan.children.len() + 1,
{
    if plan.children.len() == 0 {
        op(untracked(plan))
    } else {
        match traversed_inputs(plan, rebuild, op, plan.children.len()) {
            Err(e) => Err(e),
            Ok(nodes) => match rebuild(nodes, plan) {
                Err(e) => Err(e),
                Ok(node) => op(node),
            },
        }
    }
}

/// Once the traversal has failed on an input, the failure stays.
pub proof fn lemma_traversal_failure_stays(
    plan: PlanView,
    rebuild: spec_fn(Seq<TrackedView>, PlanView) -> Result<TrackedView, PlanError>,
    op: spec_fn(TrackedView) -> Result<TrackedView, PlanError>,
    j: nat,
    m: nat,
)
    requires
        j <= m <= plan.children.len(),
        traversed_inputs(plan, rebuild, op, j) is Err,
    ensures
        traversed_inputs(plan, rebuild, op, m) == traversed_inputs(plan, rebuild, op, j),
    decreases m - j,
{
    if j < m {
        lemma_traversal_failure_stays(plan, rebuild, op, j, (m - 1) as nat);
    }
}

/// Rewrites a plan bottom-up. `leaf` makes a node without lineage,
/// `rebuild` rebuilds a node over its rewritten inputs, and `op` rewrites
/// one node; each does what its model says. The outcome is the one of the
/// modelled traversal: the first failure of `rebuild` or `op`, met going
/// through the inputs in order and bottom-up, or the rewritten plan.
pub fn transform_up<N, L, R, F>(
    plan: &Arc<PlanNode>,
    leaf: &L,
    rebuild: &R,
    op: &F,
    Ghost(rebuild_model): Ghost<spec_fn(Seq<TrackedView>, PlanView) -> Result<TrackedView, PlanError>>,
    Ghost(op_model): Ghost<spec_fn(TrackedView) -> Result<TrackedView, PlanError>>,
) -> (r: Result<N, PlanError>) where
    N: View<V = TrackedView>,
    L: Fn(Arc<PlanNode>) -> N,
    R: Fn(Vec<N>, Arc<PlanNode>) -> Result<N, PlanError>,
    F: Fn(N) -> Result<N, PlanError>,

    requires
        forall|p: Arc<PlanNode>| leaf.requires((p,)),
        forall|p: Arc<PlanNode>, n: N| leaf.ensures((p,), n) ==> n@ == untracked(p@),
        forall|c: Vec<N>, p: Arc<PlanNode>| rebuild.requires((c, p)),
        forall|c: Vec<N>, p: Arc<PlanNode>, out: Result<N, PlanError>|
            rebuild.ensures((c, p), out) ==> node_outcome(out) == rebuild_model(
                node_views(c@),
                p@,
            ),
        forall|n: N| op.requires((n,)),
        forall|n: N, out: Result<N, PlanError>|
            op.ensures((n,), out) ==> node_outcome(out) == op_model(n@),
    ensures
        node_outcome(r) == traversed(plan@, rebuild_model, op_model),
    decreases plan,
{
    proof {
        plan.lemma_view_children();
    }
    if plan.children.len() == 0 {
        return op(leaf(share(plan)));
    }
    let mut nodes: Vec<N> = Vec::new();
    let mut k: usize = 0;
    assert(node_views(nodes@) =~= Seq::<TrackedView>::empty());
    while k < plan.children.len()
        invariant
            k <= plan.children@.len(),
            plan@.children.len() == plan.children@.len(),
            plan@.children.len() > 0,
            forall|i: int|
                0 <= i < plan.children@.len() ==> #[trigger] plan@.children[i] == plan.children@[i]@,
            forall|p: Arc<PlanNode>| leaf.requires((p,)),
            forall|p: Arc<PlanNode>, n: N| leaf.ensures((p,), n) ==> n@ == untracked(p@),
            forall|c: Vec<N>, p: Arc<PlanNode>| rebuild.requires((c, p)),
            forall|c: Vec<N>, p: Arc<PlanNode>, out: Result<N, PlanError>|
                rebuild.ensures((c, p), out) ==> node_outcome(out) == rebuild_model(
                    node_views(c@),
                    p@,
                ),
            forall|n: N| op.requires((n,)),
            forall|n: N, out: Result<N, PlanError>|
                op.ensures((n,), out) ==> node_outcome(out) == op_model(n@),
            traversed_inputs(plan@, rebuild_model, op_model, k as nat) == Ok::<
                Seq<TrackedView>,
                PlanError,
            >(node_views(nodes@)),
        decreases plan.children@.len() - k,
    {
        let ghost before = node_views(nodes@);
        match transform_up(&plan.children[k], leaf, rebuild, op, Ghost(rebuild_model), Ghost(op_model)) {
            Ok(node) => {
                nodes.push(node);
                assert(node_views(nodes@) =~= before.push(node@));
            },
            Err(e) => {
                proof {
                    lemma_traversal_failure_stays(
                        plan@,
                        rebuild_model,
                        op_model,
                        (k + 1) as nat,
                        plan@.children.len(),
                    );
                }
                return Err(e);
            },
        }
        k += 1;
    }
    match rebuild(nodes, share(plan)) {
        Ok(node) => op(node),
        Err(e) => Err(e),
    }
}

} // verus!
