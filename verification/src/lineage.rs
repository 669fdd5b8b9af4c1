//! Lineage trees: for a slot of a plan node, the chain of operators that
//! connects the slot to the nearest tracked operators below it.

use crate::engine::share;
use crate::error::PlanError;
use crate::model::PlanView;
use crate::plan::{views, PlanNode};
use crate::traversal::node_views;
use std::sync::Arc;
use vstd::prelude::*;

verus! {

/// Model of a lineage tree.
pub struct TreeView {
    pub plan: PlanView,
    pub idx: int,
    pub children: Seq<TreeView>,
}

/// Model of a plan node together with the lineage of each of its slots.
pub struct TrackedView {
    pub plan: PlanView,
    pub lineage: Seq<Option<TreeView>>,
}

/// A node of a lineage tree: a plan node, the slot of its parent through
/// which it is reached, and the lineage that continues below it.
#[derive(Debug)]
pub struct ExecTree {
    pub plan: Arc<PlanNode>,
    pub idx: usize,
    pub children: Arc<Vec<ExecTree>>,
}

/// A plan node with, for each of its slots, the lineage down to the
/// nearest sorts, where an ordering flows from them unbroken.
#[derive(Debug)]
pub struct PlanWithCorrespondingSort {
    pub plan: Arc<PlanNode>,
    pub sort_onwards: Vec<Option<ExecTree>>,
}

/// A plan node with, for each of its slots, the lineage down to the
/// nearest operators that merge partitions into one.
#[derive(Debug)]
pub struct PlanWithCorrespondingCoalescePartitions {
    pub plan: Arc<PlanNode>,
    pub coalesce_onwards: Vec<Option<ExecTree>>,
}

/// The models of a list of lineage trees.
pub open spec fn trees_view(trees: Seq<ExecTree>) -> Seq<TreeView> {
    Seq::new(trees.len(), |i: int| trees[i]@)
}

/// Model of an optional lineage tree.
pub open spec fn slot_view(slot: Option<ExecTree>) -> Option<TreeView> {
    match slot {
        Some(tree) => Some(tree@),
        None => None,
    }
}

/// The models of the lineage of each slot.
pub open spec fn lineage_view(slots: Seq<Option<ExecTree>>) -> Seq<Option<TreeView>> {
    Seq::new(slots.len(), |i: int| slot_view(slots[i]))
}

/// The lineage that a node carries for each of its `n` slots, read off the
/// lineage tree rooted at the node: for each slot, the first subtree that
/// was reached through it.
pub open spec fn lineage_below(tree: Option<TreeView>, n: nat) -> Seq<Option<TreeView>> {
    Seq::new(
        n,
        |j: int|
            match tree {
                Some(t) => first_through(t.children, j, t.children.len()),
                None => None,
            },
    )
}

/// Among the first `k` trees, the first one reached through slot `j`.
pub open spec fn first_through(trees: Seq<TreeView>, j: int, k: nat) -> Option<TreeView>
    decreases k,
{
    if k == 0 || k > trees.len() {
        None
    } else {
        match first_through(trees, j, (k - 1) as nat) {
            Some(t) => Some(t),
            None => if trees[k - 1].idx == j {
                Some(trees[k - 1])
            } else {
                None
            },
        }
    }
}

/// The first tree reached through slot `j` is one of the trees and was
/// reached through slot `j`.
pub proof fn lemma_first_through(trees: Seq<TreeView>, j: int, k: nat)
    requires
        k <= trees.len(),
        first_through(trees, j, k) is Some,
    ensures
        first_through(trees, j, k)->0.idx == j,
        exists|m: int| 0 <= m < k && trees[m] == first_through(trees, j, k)->0,
    decreases k,
{
    if k > 0 {
        if first_through(trees, j, (k - 1) as nat) is Some {
            lemma_first_through(trees, j, (k - 1) as nat);
            let m = choose|m: int|
                0 <= m < k - 1 && trees[m] == first_through(trees, j, (k - 1) as nat)->0;
            assert(trees[m] == first_through(trees, j, k)->0);
        } else {
            assert(trees[k - 1] == first_through(trees, j, k)->0);
        }
    }
}

/// Whether an ordering flows unbroken from slot `i` of the node to its
/// output: the node asks no ordering of the slot and keeps the order of
/// its rows, or the node is a sort-preserving merge.
pub open spec fn carries_sort_lineage(plan: PlanView, i: int) -> bool {
    (plan.required_input_ordering(i) is None && plan.maintains_input_order(i))
        || plan.is_sort_preserving_merge()
}

/// The lineage of the first `k` slots of a node that continues through it.
pub open spec fn kept_sort_lineage(item: TrackedView, k: nat) -> Seq<TreeView>
    decreases k,
{
    if k == 0 {
        Seq::empty()
    } else {
        let front = kept_sort_lineage(item, (k - 1) as nat);
        let i = k - 1;
        if i < item.lineage.len() && i < item.plan.children.len() && carries_sort_lineage(
            item.plan,
            i,
        ) {
            match item.lineage[i] {
                Some(tree) => front.push(tree),
                None => front,
            }
        } else {
            front
        }
    }
}

/// The sort lineage of the slot `idx` that holds the node `item`.
pub open spec fn sort_lineage_through(item: TrackedView, idx: int) -> Option<TreeView> {
    if item.plan.is_sort() {
        Some(TreeView { plan: item.plan, idx, children: Seq::empty() })
    } else if item.plan.is_limit() {
        None
    } else {
        let kept = kept_sort_lineage(item, item.plan.children.len());
        if kept.len() > 0 {
            Some(TreeView { plan: item.plan, idx, children: kept })
        } else {
            None
        }
    }
}

/// The lineage of the first `k` slots of a node that continues through it:
/// what lies below a slot of which the node asks a single partition is
/// dropped.
pub open spec fn kept_coalesce_lineage(item: TrackedView, k: nat) -> Seq<TreeView>
    decreases k,
{
    if k == 0 || k > item.lineage.len() {
        Seq::empty()
    } else {
        let front = kept_coalesce_lineage(item, (k - 1) as nat);
        match item.lineage[k - 1] {
            Some(tree) => if item.plan.requires_single_partition(tree.idx) {
                front
            } else {
                front.push(tree)
            },
            None => front,
        }
    }
}

/// The coalesce lineage of the slot `idx` that holds the node `item`: none
/// through a leaf or a limit, a fresh leaf at a coalesce, else what
/// continues through the node.
pub open spec fn coalesce_lineage_through(item: TrackedView, idx: int) -> Option<TreeView> {
    if item.plan.children.len() == 0 || item.plan.is_limit() {
        None
    } else if item.plan.is_coalesce_partitions() {
        Some(TreeView { plan: item.plan, idx, children: Seq::empty() })
    } else {
        let kept = kept_coalesce_lineage(item, item.lineage.len());
        if kept.len() > 0 {
            Some(TreeView { plan: item.plan, idx, children: kept })
        } else {
            None
        }
    }
}

/// A node without any lineage.
pub open spec fn untracked(plan: PlanView) -> TrackedView {
    TrackedView { plan, lineage: Seq::new(plan.children.len(), |i: int| None) }
}

/// The plans of a list of tracked nodes.
pub open spec fn plans_of(nodes: Seq<TrackedView>) -> Seq<PlanView> {
    Seq::new(nodes.len(), |i: int| nodes[i].plan)
}

/// The parent rebuilt over rewritten inputs, with the sort lineage of each
/// slot.
pub open spec fn with_sort_lineage(children: Seq<TrackedView>, parent: PlanView) -> Result<
    TrackedView,
    PlanError,
> {
    match parent.with_new_children(plans_of(children)) {
        Some(plan) => Ok(
            TrackedView {
                plan,
                lineage: Seq::new(
                    children.len(),
                    |i: int| sort_lineage_through(children[i], i),
                ),
            },
        ),
        None => Err(PlanError::Reconstruction),
    }
}

/// The parent rebuilt over rewritten inputs, with the coalesce lineage of
/// each slot.
pub open spec fn with_coalesce_lineage(children: Seq<TrackedView>, parent: PlanView) -> Result<
    TrackedView,
    PlanError,
> {
    match parent.with_new_children(plans_of(children)) {
        Some(plan) => Ok(
            TrackedView {
                plan,
                lineage: Seq::new(
                    children.len(),
                    |i: int| coalesce_lineage_through(children[i], i),
                ),
            },
        ),
        None => Err(PlanError::Reconstruction),
    }
}

impl ExecTree {
    /// The model of the lineage tree.
    pub open spec fn model(&self) -> TreeView
        decreases self,
    {
        TreeView {
            plan: self.plan@,
            idx: self.idx as int,
            children: Seq::new(
                self.children@.len(),
                |i: int|
                    if 0 <= i < self.children@.len() {
                        self.children@[i].model()
                    } else {
                        arbitrary()
                    },
            ),
        }
    }

    /// The model of the subtree at position `i` is the model of the tree
    /// held there.
    pub proof fn lemma_view_children(&self)
        ensures
            self@.plan == self.plan@,
            self@.idx == self.idx as int,
            self@.children =~= trees_view(self.children@),
    {
    }

    /// A lineage tree node.
    pub fn new(plan: Arc<PlanNode>, idx: usize, children: Vec<ExecTree>) -> (r: ExecTree)
        ensures
            r@ == (TreeView { plan: plan@, idx: idx as int, children: trees_view(children@) }),
    {
        let r = ExecTree { plan, idx, children: Arc::new(children) };
        proof {
            r.lemma_view_children();
        }
        r
    }

    /// Another handle to the same lineage tree.
    pub fn duplicate(&self) -> (r: ExecTree)
        ensures
            r == *self,
    {
        ExecTree { plan: share(&self.plan), idx: self.idx, children: share(&self.children) }
    }
}

impl View for ExecTree {
    type V = TreeView;

    open spec fn view(&self) -> TreeView {
        self.model()
    }
}

impl View for PlanWithCorrespondingSort {
    type V = TrackedView;

    open spec fn view(&self) -> TrackedView {
        TrackedView { plan: self.plan@, lineage: lineage_view(self.sort_onwards@) }
    }
}

impl View for PlanWithCorrespondingCoalescePartitions {
    type V = TrackedView;

    open spec fn view(&self) -> TrackedView {
        TrackedView { plan: self.plan@, lineage: lineage_view(self.coalesce_onwards@) }
    }
}

/// A list of `n` empty slots.
pub fn no_lineage(n: usize) -> (r: Vec<Option<ExecTree>>)
    ensures
        r@.len() == n,
        forall|i: int| 0 <= i < n ==> r@[i] is None,
{
    let mut out: Vec<Option<ExecTree>> = Vec::new();
    let mut i: usize = 0;
    while i < n
        invariant
            i <= n,
            out@.len() == i,
            forall|j: int| 0 <= j < i ==> out@[j] is None,
        decreases n - i,
    {
        out.push(None);
        i += 1;
    }
    out
}

/// The lineage that a node with `n` slots carries, read off the lineage
/// tree rooted at the node.
pub fn own_lineage(tree: &Option<ExecTree>, n: usize) -> (r: Vec<Option<ExecTree>>)
    ensures
        lineage_view(r@) == lineage_below(slot_view(*tree), n as nat),
{
    let mut out: Vec<Option<ExecTree>> = Vec::new();
    let mut j: usize = 0;
    while j < n
        invariant
            j <= n,
            out@.len() == j,
            forall|i: int|
                0 <= i < j ==> slot_view(#[trigger] out@[i]) == lineage_below(
                    slot_view(*tree),
                    n as nat,
                )[i],
        decreases n - j,
    {
        let mut found: Option<ExecTree> = None;
        match tree {
            Some(t) => {
                proof {
                    t.lemma_view_children();
                }
                let mut k: usize = 0;
                while k < t.children.len()
                    invariant
                        k <= t.children@.len(),
                        t@.children =~= trees_view(t.children@),
                        slot_view(found) == first_through(t@.children, j as int, k as nat),
                    decreases t.children@.len() - k,
                {
                    if found.is_none() && t.children[k].idx == j {
                        found = Some(t.children[k].duplicate());
                    }
                    k += 1;
                }
            },
            None => {},
        }
        out.push(found);
        j += 1;
    }
    assert(lineage_view(out@) =~= lineage_below(slot_view(*tree), n as nat));
    out
}

impl PlanWithCorrespondingSort {
    /// The node with no lineage at any slot.
    pub fn new(plan: Arc<PlanNode>) -> (r: Self)
        ensures
            r@ == untracked(plan@),
    {
        proof {
            plan.lemma_view_children();
        }
        let length = plan.children.len();
        let r = PlanWithCorrespondingSort { plan, sort_onwards: no_lineage(length) };
        assert(r@.lineage =~= untracked(plan@).lineage);
        r
    }

    /// The inputs of the node, each without lineage.
    pub fn children(&self) -> (r: Vec<PlanWithCorrespondingSort>)
        ensures
            r@.len() == self@.plan.children.len(),
            forall|i: int| 0 <= i < r@.len() ==> (#[trigger] r@[i])@ == untracked(self@.plan.children[i]),
    {
        proof {
            self.plan.lemma_view_children();
        }
        let mut out: Vec<PlanWithCorrespondingSort> = Vec::new();
        let mut i: usize = 0;
        while i < self.plan.children.len()
            invariant
                i <= self.plan.children@.len(),
                out@.len() == i,
                self@.plan.children.len() == self.plan.children@.len(),
                forall|j: int|
                    0 <= j < self.plan.children@.len() ==> #[trigger] self@.plan.children[j]
                        == self.plan.children@[j]@,
                forall|j: int| 0 <= j < i ==> (#[trigger] out@[j])@ == untracked(self@.plan.children[j]),
            decreases self.plan.children@.len() - i,
        {
            out.push(PlanWithCorrespondingSort::new(share(&self.plan.children[i])));
            i += 1;
        }
        out
    }

    /// The sort lineage of the slot `idx` that holds the node `item`.
    fn lineage_through(item: &PlanWithCorrespondingSort, idx: usize) -> (r: Option<ExecTree>)
        ensures
            slot_view(r) == sort_lineage_through(item@, idx as int),
    {
        proof {
            item.plan.lemma_view_children();
        }
        if item.plan.is_sort() {
            let leaf = ExecTree::new(share(&item.plan), idx, Vec::new());
            assert(leaf@.children =~= Seq::<TreeView>::empty());
            return Some(leaf);
        } else if item.plan.is_limit() {
            return None;
        }
        let is_spm = item.plan.is_sort_preserving_merge();
        let mut kept: Vec<ExecTree> = Vec::new();
        let mut i: usize = 0;
        while i < item.plan.children.len()
            invariant
                i <= item.plan.children@.len(),
                item@.plan.children.len() == item.plan.children@.len(),
                is_spm == item@.plan.is_sort_preserving_merge(),
                trees_view(kept@) == kept_sort_lineage(item@, i as nat),
            decreases item.plan.children@.len() - i,
        {
            let ghost before = trees_view(kept@);
            if i < item.sort_onwards.len() {
                let carried = is_spm || (item.plan.required_input_ordering(i).is_none()
                    && item.plan.maintains_input_order(i));
                if carried {
                    match &item.sort_onwards[i] {
                        Some(tree) => {
                            kept.push(tree.duplicate());
                            assert(trees_view(kept@) =~= before.push(tree@));
                        },
                        None => {},
                    }
                }
            }
            i += 1;
        }
        if kept.len() > 0 {
            Some(ExecTree::new(share(&item.plan), idx, kept))
        } else {
            None
        }
    }

    /// The parent rebuilt over its rewritten inputs, with the sort lineage
    /// of each slot. Fails if the parent cannot stand over that many
    /// inputs.
    pub fn new_from_children_nodes(
        children_nodes: Vec<PlanWithCorrespondingSort>,
        parent_plan: Arc<PlanNode>,
    ) -> (r: Result<Self, PlanError>)
        ensures
            match r {
                Ok(node) => with_sort_lineage(node_views(children_nodes@), parent_plan@) == Ok::<
                    TrackedView,
                    PlanError,
                >(node@),
                Err(e) => with_sort_lineage(node_views(children_nodes@), parent_plan@) == Err::<
                    TrackedView,
                    PlanError,
                >(e),
            },
    {
        let ghost nodes = node_views(children_nodes@);
        let mut plans: Vec<Arc<PlanNode>> = Vec::new();
        let mut sort_onwards: Vec<Option<ExecTree>> = Vec::new();
        let mut i: usize = 0;
        while i < children_nodes.len()
            invariant
                i <= children_nodes@.len(),
                nodes == node_views(children_nodes@),
                plans@.len() == i,
                sort_onwards@.len() == i,
                forall|j: int| 0 <= j < i ==> (#[trigger] plans@[j])@ == nodes[j].plan,
                forall|j: int|
                    0 <= j < i ==> slot_view(#[trigger] sort_onwards@[j]) == sort_lineage_through(
                        nodes[j],
                        j,
                    ),
            decreases children_nodes@.len() - i,
        {
            plans.push(share(&children_nodes[i].plan));
            sort_onwards.push(Self::lineage_through(&children_nodes[i], i));
            i += 1;
        }
        assert(views(plans@) =~= plans_of(nodes));
        match parent_plan.with_new_children(plans) {
            Ok(plan) => {
                let node = PlanWithCorrespondingSort { plan, sort_onwards };
                assert(node@.lineage =~= Seq::new(
                    nodes.len(),
                    |i: int| sort_lineage_through(nodes[i], i),
                ));
                Ok(node)
            },
            Err(e) => Err(e),
        }
    }
}

impl PlanWithCorrespondingCoalescePartitions {
    /// The node with no lineage at any slot.
    pub fn new(plan: Arc<PlanNode>) -> (r: Self)
        ensures
            r@ == untracked(plan@),
    {
        proof {
            plan.lemma_view_children();
        }
        let length = plan.children.len();
        let r = PlanWithCorrespondingCoalescePartitions { plan, coalesce_onwards: no_lineage(length) };
        assert(r@.lineage =~= untracked(plan@).lineage);
        r
    }

    /// The inputs of the node, each without lineage.
    pub fn children(&self) -> (r: Vec<PlanWithCorrespondingCoalescePartitions>)
        ensures
            r@.len() == self@.plan.children.len(),
            forall|i: int| 0 <= i < r@.len() ==> (#[trigger] r@[i])@ == untracked(self@.plan.children[i]),
    {
        proof {
            self.plan.lemma_view_children();
        }
        let mut out: Vec<PlanWithCorrespondingCoalescePartitions> = Vec::new();
        let mut i: usize = 0;
        while i < self.plan.children.len()
            invariant
                i <= self.plan.children@.len(),
                out@.len() == i,
                self@.plan.children.len() == self.plan.children@.len(),
                forall|j: int|
                    0 <= j < self.plan.children@.len() ==> #[trigger] self@.plan.children[j]
                        == self.plan.children@[j]@,
                forall|j: int| 0 <= j < i ==> (#[trigger] out@[j])@ == untracked(self@.plan.children[j]),
            decreases self.plan.children@.len() - i,
        {
            out.push(PlanWithCorrespondingCoalescePartitions::new(share(&self.plan.children[i])));
            i += 1;
        }
        out
    }

    /// The coalesce lineage of the slot `idx` that holds the node `item`.
    fn lineage_through(item: &PlanWithCorrespondingCoalescePartitions, idx: usize) -> (r: Option<
        ExecTree,
    >)
        ensures
            slot_view(r) == coalesce_lineage_through(item@, idx as int),
    {
        proof {
            item.plan.lemma_view_children();
        }
        if item.plan.children.len() == 0 || item.plan.is_limit() {
            return None;
        } else if item.plan.is_coalesce_partitions() {
            let leaf = ExecTree::new(share(&item.plan), idx, Vec::new());
            assert(leaf@.children =~= Seq::<TreeView>::empty());
            return Some(leaf);
        }
        let mut kept: Vec<ExecTree> = Vec::new();
        let mut i: usize = 0;
        while i < item.coalesce_onwards.len()
            invariant
                i <= item.coalesce_onwards@.len(),
                trees_view(kept@) == kept_coalesce_lineage(item@, i as nat),
            decreases item.coalesce_onwards@.len() - i,
        {
            let ghost before = trees_view(kept@);
            match &item.coalesce_onwards[i] {
                Some(tree) => {
                    if !item.plan.requires_single_partition(tree.idx) {
                        kept.push(tree.duplicate());
                        assert(trees_view(kept@) =~= before.push(tree@));
                    }
                },
                None => {},
            }
            i += 1;
        }
        if kept.len() > 0 {
            Some(ExecTree::new(share(&item.plan), idx, kept))
        } else {
            None
        }
    }

    /// The parent rebuilt over its rewritten inputs, with the coalesce
    /// lineage of each slot. Fails if the parent cannot stand over that
    /// many inputs.
    pub fn new_from_children_nodes(
        children_nodes: Vec<PlanWithCorrespondingCoalescePartitions>,
        parent_plan: Arc<PlanNode>,
    ) -> (r: Result<Self, PlanError>)
        ensures
            match r {
                Ok(node) => with_coalesce_lineage(node_views(children_nodes@), parent_plan@)
                    == Ok::<TrackedView, PlanError>(node@),
                Err(e) => with_coalesce_lineage(node_views(children_nodes@), parent_plan@)
                    == Err::<TrackedView, PlanError>(e),
            },
    {
        let ghost nodes = node_views(children_nodes@);
        let mut plans: Vec<Arc<PlanNode>> = Vec::new();
        let mut coalesce_onwards: Vec<Option<ExecTree>> = Vec::new();
        let mut i: usize = 0;
        while i < children_nodes.len()
            invariant
                i <= children_nodes@.len(),
                nodes == node_views(children_nodes@),
                plans@.len() == i,
                coalesce_onwards@.len() == i,
                forall|j: int| 0 <= j < i ==> (#[trigger] plans@[j])@ == nodes[j].plan,
                forall|j: int|
                    0 <= j < i ==> slot_view(#[trigger] coalesce_onwards@[j])
                        == coalesce_lineage_through(nodes[j], j),
            decreases children_nodes@.len() - i,
        {
            plans.push(share(&children_nodes[i].plan));
            coalesce_onwards.push(Self::lineage_through(&children_nodes[i], i));
            i += 1;
        }
        assert(views(plans@) =~= plans_of(nodes));
        match parent_plan.with_new_children(plans) {
            Ok(plan) => {
                let node = PlanWithCorrespondingCoalescePartitions { plan, coalesce_onwards };
                assert(node@.lineage =~= Seq::new(
                    nodes.len(),
                    |i: int| coalesce_lineage_through(nodes[i], i),
                ));
                Ok(node)
            },
            Err(e) => Err(e),
        }
    }
}

} // verus!
