//! The attributes of a plan node, computed from its operator and inputs.

use crate::asking::lemma_columns_at_leading_positions;
use crate::engine::{longest_permutation, ordering_meets_requirement, share};
use crate::error::PlanError;
use crate::model::{
    agreement, columns_at, common_prefix, ordered_partition_columns, window_requirement,
    Distribution, PartitionSource, PlanView,
};
use crate::ordering::{
    copy_keys, ordering_view, requirements_mention, requirements_view, SortKey, SortRequirement,
};
use crate::plan::{views, Operator, Partitioning, PlanNode, SearchMode};
use crate::window::copy_columns;
use std::sync::Arc;
use vstd::prelude::*;

verus! {

/// The longest ordering that both `a` and `b` start with.
pub fn shared_prefix(a: &Vec<SortKey>, b: &Vec<SortKey>) -> (r: Vec<SortKey>)
    ensures
        r@ == common_prefix(a@, b@),
{
    let mut out: Vec<SortKey> = Vec::new();
    let mut i: usize = 0;
    while i < a.len() && i < b.len() && a[i] == b[i]
        invariant
            i <= a.len(),
            out@ == a@.take(i as int),
            agreement(a@, b@, i as nat) == agreement(a@, b@, 0),
        decreases a.len() - i,
    {
        out.push(a[i]);
        i += 1;
        assert(out@ =~= a@.take(i as int));
    }
    out
}

/// A copy of a requirement.
pub fn copy_requirements(reqs: &Vec<SortRequirement>) -> (r: Vec<SortRequirement>)
    ensures
        r@ == reqs@,
{
    let mut out: Vec<SortRequirement> = Vec::new();
    let mut i: usize = 0;
    while i < reqs.len()
        invariant
            i <= reqs.len(),
            out@ == reqs@.take(i as int),
        decreases reqs.len() - i,
    {
        out.push(reqs[i]);
        i += 1;
        assert(out@ =~= reqs@.take(i as int));
    }
    assert(reqs@.take(i as int) =~= reqs@);
    out
}

/// Whether column `e` occurs among the requirements.
fn mentions(reqs: &Vec<SortRequirement>, e: usize) -> (r: bool)
    ensures
        r == requirements_mention(reqs@, e),
{
    let mut i: usize = 0;
    while i < reqs.len()
        invariant
            i <= reqs.len(),
            forall|j: int| 0 <= j < i ==> reqs@[j].expr != e,
        decreases reqs.len() - i,
    {
        if reqs[i].expr == e {
            return true;
        }
        i += 1;
    }
    false
}

/// The partition columns at the given positions.
pub fn partition_columns_at(partition_by: &Vec<usize>, positions: &Vec<usize>) -> (r: Vec<usize>)
    ensures
        r@ == columns_at(partition_by@, positions@),
{
    let mut out: Vec<usize> = Vec::new();
    let mut i: usize = 0;
    assert(positions@.take(0) =~= Seq::<usize>::empty());
    while i < positions.len()
        invariant
            i <= positions.len(),
            out@ == columns_at(partition_by@, positions@.take(i as int)),
        decreases positions.len() - i,
    {
        let at = positions[i];
        proof {
            assert(positions@.take(i + 1).drop_last() =~= positions@.take(i as int));
            assert(positions@.take(i + 1).last() == at);
        }
        if at < partition_by.len() {
            out.push(partition_by[at]);
        }
        i += 1;
    }
    assert(positions@.take(i as int) =~= positions@);
    out
}

/// The partition columns that a window asks its input to be sorted by,
/// in the order in which it asks for them.
pub fn ordered_columns(
    partition_by: &Vec<usize>,
    bounded: bool,
    mode: &SearchMode,
    input_ordering: &Vec<SortKey>,
) -> (r: Vec<usize>)
    ensures
        r@ == ordered_partition_columns(partition_by@, bounded, mode@, input_ordering@),
{
    if bounded {
        match mode {
            SearchMode::Sorted => {
                let led = longest_permutation(partition_by, input_ordering);
                let count = partition_by.len();
                proof {
                    assert(partition_by@.len() == count);
                    lemma_columns_at_leading_positions(partition_by@, input_ordering@);
                }
                if led.len() == count {
                    partition_columns_at(partition_by, &led)
                } else {
                    copy_columns(partition_by)
                }
            },
            SearchMode::PartiallySorted(positions) => partition_columns_at(partition_by, positions),
            SearchMode::Linear => Vec::new(),
        }
    } else {
        let led = longest_permutation(partition_by, input_ordering);
        let count = partition_by.len();
        proof {
            assert(partition_by@.len() == count);
            lemma_columns_at_leading_positions(partition_by@, input_ordering@);
        }
        if led.len() < count {
            copy_columns(partition_by)
        } else {
            partition_columns_at(partition_by, &led)
        }
    }
}

/// The ordering requirement of a window that asks for the partition
/// columns `partition_by` in that order and is ordered by `order_by`.
pub fn calc_requirements(partition_by: &Vec<usize>, order_by: &Vec<SortKey>) -> (r: Vec<
    SortRequirement,
>)
    ensures
        r@ == window_requirement(partition_by@, order_by@),
{
    let mut out: Vec<SortRequirement> = Vec::new();
    let mut i: usize = 0;
    while i < partition_by.len()
        invariant
            i <= partition_by.len(),
            out@.len() == i,
            forall|j: int|
                0 <= j < i ==> out@[j] == (SortRequirement { expr: partition_by@[j], options: None }),
        decreases partition_by.len() - i,
    {
        out.push(SortRequirement { expr: partition_by[i], options: None });
        i += 1;
    }
    assert(out@ =~= window_requirement(partition_by@, order_by@.take(0)));
    let mut k: usize = 0;
    while k < order_by.len()
        invariant
            k <= order_by.len(),
            out@ == window_requirement(partition_by@, order_by@.take(k as int)),
        decreases order_by.len() - k,
    {
        let key = order_by[k];
        proof {
            assert(order_by@.take(k + 1).drop_last() =~= order_by@.take(k as int));
            assert(order_by@.take(k + 1).last() == key);
        }
        if !mentions(&out, key.expr) {
            out.push(SortRequirement { expr: key.expr, options: Some(key.options) });
        }
        k += 1;
    }
    assert(order_by@.take(k as int) =~= order_by@);
    out
}

impl Partitioning {
    /// A copy of the partitioning.
    pub fn duplicate(&self) -> (r: Partitioning)
        ensures
            r@ == self@,
    {
        match self {
            Partitioning::RoundRobinBatch(n) => Partitioning::RoundRobinBatch(*n),
            Partitioning::Hash(keys, n) => {
                let mut out: Vec<usize> = Vec::new();
                let mut i: usize = 0;
                while i < keys.len()
                    invariant
                        i <= keys.len(),
                        out@ == keys@.take(i as int),
                    decreases keys.len() - i,
                {
                    out.push(keys[i]);
                    i += 1;
                    assert(out@ =~= keys@.take(i as int));
                }
                assert(keys@.take(i as int) =~= keys@);
                Partitioning::Hash(out, *n)
            },
            Partitioning::UnknownPartitioning(n) => Partitioning::UnknownPartitioning(*n),
        }
    }

    /// The number of partitions.
    pub fn partition_count(&self) -> (r: usize)
        ensures
            r == self@.count(),
    {
        match self {
            Partitioning::RoundRobinBatch(n) => *n,
            Partitioning::Hash(_, n) => *n,
            Partitioning::UnknownPartitioning(n) => *n,
        }
    }

    /// Whether two partitionings are known to split rows the same way.
    pub fn same_as(&self, other: &Partitioning) -> (r: bool)
        ensures
            r == self@.same_as(other@),
    {
        match (self, other) {
            (Partitioning::RoundRobinBatch(a), Partitioning::RoundRobinBatch(b)) => *a == *b,
            (Partitioning::Hash(ka, a), Partitioning::Hash(kb, b)) => {
                if *a != *b || ka.len() != kb.len() {
                    return false;
                }
                let mut i: usize = 0;
                while i < ka.len()
                    invariant
                        i <= ka.len(),
                        ka.len() == kb.len(),
                        self@ == crate::model::PartitioningView::Hash(ka@, *a),
                        other@ == crate::model::PartitioningView::Hash(kb@, *b),
                        forall|j: int| 0 <= j < i ==> ka@[j] == kb@[j],
                    decreases ka.len() - i,
                {
                    if ka[i] != kb[i] {
                        assert(ka@[i as int] != kb@[i as int]);
                        return false;
                    }
                    i += 1;
                }
                assert(ka@ =~= kb@);
                true
            },
            _ => false,
        }
    }
}

impl PlanNode {
    /// The model of input `i` is the model of the node held at position
    /// `i`.
    pub proof fn lemma_view_children(&self)
        ensures
            self@.op == self.op@,
            self@.children.len() == self.children@.len(),
            forall|i: int|
                0 <= i < self.children@.len() ==> #[trigger] self@.children[i]
                    == self.children@[i]@,
    {
    }

    /// A node of the given operator over the given inputs.
    pub fn new(op: Operator, children: Vec<Arc<PlanNode>>) -> (r: Arc<PlanNode>)
        ensures
            r.op@ == op@,
            r.children == children,
    {
        Arc::new(PlanNode { op: Arc::new(op), children })
    }

    /// A node of the given operator over a single input.
    pub fn unary(op: Operator, input: Arc<PlanNode>) -> (r: Arc<PlanNode>)
        ensures
            r@ == (PlanView { op: op@, children: seq![input@] }),
    {
        let mut children: Vec<Arc<PlanNode>> = Vec::new();
        children.push(input);
        let r = PlanNode::new(op, children);
        proof {
            r.lemma_view_children();
            assert(r@.children =~= seq![input@]);
        }
        r
    }

    /// Handles to the inputs of the node.
    pub fn children(&self) -> (r: Vec<Arc<PlanNode>>)
        ensures
            r@ == self.children@,
            views(r@) == self@.children,
    {
        proof {
            self.lemma_view_children();
        }
        let mut out: Vec<Arc<PlanNode>> = Vec::new();
        let mut i: usize = 0;
        while i < self.children.len()
            invariant
                i <= self.children@.len(),
                out@ == self.children@.take(i as int),
            decreases self.children@.len() - i,
        {
            out.push(share(&self.children[i]));
            i += 1;
            assert(out@ =~= self.children@.take(i as int));
        }
        assert(self.children@.take(i as int) =~= self.children@);
        assert(views(out@) =~= self@.children);
        out
    }

    pub fn is_sort(&self) -> (r: bool)
        ensures
            r == self@.is_sort(),
    {
        match &*self.op {
            Operator::Sort { .. } => true,
            _ => false,
        }
    }

    pub fn is_sort_preserving_merge(&self) -> (r: bool)
        ensures
            r == self@.is_sort_preserving_merge(),
    {
        match &*self.op {
            Operator::SortPreservingMerge { .. } => true,
            _ => false,
        }
    }

    pub fn is_coalesce_partitions(&self) -> (r: bool)
        ensures
            r == self@.is_coalesce_partitions(),
    {
        match &*self.op {
            Operator::CoalescePartitions => true,
            _ => false,
        }
    }

    pub fn is_repartition(&self) -> (r: bool)
        ensures
            r == self@.is_repartition(),
    {
        match &*self.op {
            Operator::Repartition { .. } => true,
            _ => false,
        }
    }

    pub fn is_limit(&self) -> (r: bool)
        ensures
            r == self@.is_limit(),
    {
        match &*self.op {
            Operator::GlobalLimit { .. } => true,
            Operator::LocalLimit { .. } => true,
            _ => false,
        }
    }

    pub fn is_union(&self) -> (r: bool)
        ensures
            r == self@.is_union(),
    {
        match &*self.op {
            Operator::Union => true,
            _ => false,
        }
    }

    pub fn is_window(&self) -> (r: bool)
        ensures
            r == self@.is_window(),
    {
        match &*self.op {
            Operator::Window { .. } => true,
            _ => false,
        }
    }

    /// What is known of the ordering of a union whose inputs share no
    /// leading key.
    fn empty_union_ordering(&self) -> (r: Option<Vec<SortKey>>)
        ensures
            ordering_view(r) == self@.empty_meet(0),
        decreases self, 1nat,
    {
        proof {
            self.lemma_view_children();
        }
        let first = self.input_ordering(0);
        let mut j: usize = 0;
        while j < self.children.len()
            invariant
                j <= self.children@.len(),
                self@.children.len() == self.children@.len(),
                ordering_view(first) == self@.input_ordering(0),
                self@.empty_meet(j as nat) == self@.empty_meet(0),
            decreases self.children@.len() - j,
        {
            let here = self.input_ordering(j);
            match (&here, &first) {
                (Some(o), Some(f)) => {
                    if o.len() == 0 {
                        return Some(Vec::new());
                    } else if f.len() == 0 || !(o[0] == f[0]) {
                        return None;
                    }
                },
                _ => {
                    return None;
                },
            }
            j += 1;
        }
        None
    }

    /// The ordering of input `i`, if there is such an input and it is
    /// ordered.
    fn input_ordering(&self, i: usize) -> (r: Option<Vec<SortKey>>)
        ensures
            ordering_view(r) == self@.input_ordering(i as int),
        decreases self, 0nat,
    {
        proof {
            self.lemma_view_children();
        }
        if i < self.children.len() {
            self.children[i].output_ordering()
        } else {
            None
        }
    }

    /// The ordering that each partition of the node's output is known to
    /// have.
    pub fn output_ordering(&self) -> (r: Option<Vec<SortKey>>)
        ensures
            ordering_view(r) == self@.output_ordering(),
        decreases self, 2nat,
    {
        proof {
            self.lemma_view_children();
        }
        match &*self.op {
            Operator::Source { ordering, .. } => match ordering {
                Some(keys) => Some(copy_keys(keys)),
                None => None,
            },
            Operator::Sort { expr, .. } => Some(copy_keys(expr)),
            Operator::SortPreservingMerge { expr, .. } => Some(copy_keys(expr)),
            Operator::CoalescePartitions => None,
            Operator::Repartition { preserve_order, .. } => if *preserve_order
                || self.input_partitions(0) <= 1 {
                self.input_ordering(0)
            } else {
                None
            },
            Operator::GlobalLimit { .. } => self.input_ordering(0),
            Operator::LocalLimit { .. } => self.input_ordering(0),
            Operator::Window { .. } => self.input_ordering(0),
            Operator::Union => {
                if self.children.len() == 0 {
                    return None;
                }
                let mut meet = self.children[0].output_ordering();
                let mut k: usize = 1;
                while k < self.children.len()
                    invariant
                        1 <= k <= self.children@.len(),
                        self@.children.len() == self.children@.len(),
                        forall|i: int|
                            0 <= i < self.children@.len() ==> #[trigger] self@.children[i]
                                == self.children@[i]@,
                        ordering_view(meet) == self@.meet_of_inputs(k as nat),
                    decreases self.children@.len() - k,
                {
                    let next = self.children[k].output_ordering();
                    meet = match (meet, next) {
                        (Some(a), Some(b)) => Some(shared_prefix(&a, &b)),
                        _ => None,
                    };
                    k += 1;
                }
                match meet {
                    Some(m) => if m.len() > 0 {
                        Some(m)
                    } else {
                        self.empty_union_ordering()
                    },
                    None => None,
                }
            },
            Operator::Other { ordering_from, .. } => match ordering_from {
                Some(i) => self.input_ordering(*i),
                None => None,
            },
        }
    }

    /// Whether the node's guaranteed ordering meets the requirement.
    pub fn ordering_satisfy_requirement(&self, reqs: &Vec<SortRequirement>) -> (r: bool)
        ensures
            r == self@.ordering_satisfy_requirement(reqs@),
    {
        match self.output_ordering() {
            Some(keys) => ordering_meets_requirement(&keys, reqs),
            None => ordering_meets_requirement(&Vec::new(), reqs),
        }
    }

    /// Whether the node's guaranteed ordering is at least as fine as
    /// `given`.
    pub fn ordering_satisfy(&self, given: &Vec<SortKey>) -> (r: bool)
        ensures
            r == self@.ordering_satisfy(given@),
    {
        let reqs = SortRequirement::from_sort_exprs(given);
        self.ordering_satisfy_requirement(&reqs)
    }

    /// Whether rows leave the node in the order in which input `i` supplied
    /// them.
    pub fn maintains_input_order(&self, i: usize) -> (r: bool)
        ensures
            r == self@.maintains_input_order(i as int),
    {
        proof {
            self.lemma_view_children();
        }
        match &*self.op {
            Operator::SortPreservingMerge { .. } => true,
            Operator::Repartition { preserve_order, .. } => (*preserve_order
                && self.input_ordering(0).is_some()) || self.input_partitions(0) <= 1,
            Operator::GlobalLimit { .. } => true,
            Operator::LocalLimit { .. } => true,
            Operator::Window { .. } => true,
            Operator::Union => match (self.output_ordering(), self.input_ordering(i)) {
                (Some(o), Some(c)) => o.len() == c.len(),
                _ => false,
            },
            Operator::Other { inputs, .. } => i < inputs.len() && inputs[i].maintains_order,
            _ => false,
        }
    }

    /// The ordering that the node asks of input `i`, if any.
    pub fn required_input_ordering(&self, i: usize) -> (r: Option<Vec<SortRequirement>>)
        ensures
            requirements_view(r) == self@.required_input_ordering(i as int),
    {
        match &*self.op {
            Operator::SortPreservingMerge { expr, .. } => Some(SortRequirement::from_sort_exprs(expr)),
            Operator::Window { window_expr, bounded, mode, .. } => if i == 0 && window_expr.len() > 0 {
                let ordering = if self.children.len() > 0 {
                    match self.children[0].output_ordering() {
                        Some(o) => o,
                        None => Vec::new(),
                    }
                } else {
                    Vec::new()
                };
                let columns = ordered_columns(&window_expr[0].partition_by, *bounded, mode, &ordering);
                let reqs = calc_requirements(&columns, &window_expr[0].order_by);
                if reqs.len() > 0 {
                    Some(reqs)
                } else {
                    None
                }
            } else {
                None
            },
            Operator::Other { inputs, .. } => if i < inputs.len() {
                match &inputs[i].required_ordering {
                    Some(reqs) => Some(copy_requirements(reqs)),
                    None => None,
                }
            } else {
                None
            },
            _ => None,
        }
    }

    /// The partitioning that the node asks of input `i`.
    pub fn required_input_distribution(&self, i: usize) -> (r: Distribution)
        ensures
            r == self@.required_input_distribution(i as int),
    {
        match &*self.op {
            Operator::Sort { preserve_partitioning, .. } => if *preserve_partitioning {
                Distribution::UnspecifiedDistribution
            } else {
                Distribution::SinglePartition
            },
            Operator::GlobalLimit { .. } => Distribution::SinglePartition,
            Operator::Window { partition_keys, .. } => if partition_keys.len() == 0 {
                Distribution::SinglePartition
            } else {
                Distribution::HashPartitioned
            },
            Operator::Other { inputs, .. } => if i < inputs.len() {
                inputs[i].distribution
            } else {
                Distribution::UnspecifiedDistribution
            },
            _ => Distribution::UnspecifiedDistribution,
        }
    }

    /// Whether the node asks for input `i` to arrive as a single partition.
    pub fn requires_single_partition(&self, i: usize) -> (r: bool)
        ensures
            r == self@.requires_single_partition(i as int),
    {
        match self.required_input_distribution(i) {
            Distribution::SinglePartition => true,
            _ => false,
        }
    }

    /// Whether the node may produce rows without end.
    pub fn unbounded_output(&self) -> (r: bool)
        ensures
            r == self@.unbounded_output(),
        decreases self,
    {
        proof {
            self.lemma_view_children();
        }
        match &*self.op {
            Operator::Source { unbounded, .. } => *unbounded,
            Operator::GlobalLimit { .. } => false,
            Operator::LocalLimit { .. } => false,
            _ => {
                let mut k: usize = 0;
                while k < self.children.len()
                    invariant
                        k <= self.children@.len(),
                        self@.children.len() == self.children@.len(),
                        !(self@.op is Source),
                        !(self@.op is GlobalLimit),
                        !(self@.op is LocalLimit),
                        forall|i: int|
                            0 <= i < self.children@.len() ==> #[trigger] self@.children[i]
                                == self.children@[i]@,
                        forall|i: int| 0 <= i < k ==> !(#[trigger] self@.children[i]).unbounded_output(),
                    decreases self.children@.len() - k,
                {
                    if self.children[k].unbounded_output() {
                        assert(self@.children[k as int].unbounded_output());
                        return true;
                    }
                    k += 1;
                }
                false
            },
        }
    }

    /// The node rebuilt over other inputs: the same operator, if it can
    /// stand over that many inputs.
    pub fn with_new_children(&self, children: Vec<Arc<PlanNode>>) -> (r: Result<
        Arc<PlanNode>,
        PlanError,
    >)
        ensures
            match r {
                Ok(node) => self@.with_new_children(views(children@)) == Some(node@),
                Err(e) => e == PlanError::Reconstruction && self@.with_new_children(views(children@))
                    is None,
            },
    {
        let n = children.len();
        let fits = match &*self.op {
            Operator::Source { .. } => n == 0,
            Operator::Union => n >= 1,
            Operator::Window { window_expr, .. } => n == 1 && window_expr.len() > 0,
            Operator::Other { inputs, ordering_from, partitions, .. } => {
                n == inputs.len() && (match ordering_from {
                    Some(i) => *i < n,
                    None => true,
                }) && (match partitions {
                    PartitionSource::Input(i) => *i < n,
                    PartitionSource::Fixed(_) => true,
                })
            },
            _ => n == 1,
        };
        if fits {
            let node = Arc::new(PlanNode { op: share(&self.op), children });
            proof {
                node.lemma_view_children();
                assert(node@.children =~= views(children@));
            }
            Ok(node)
        } else {
            Err(PlanError::Reconstruction)
        }
    }

    /// The partition count of input `i`, or 1 where there is no such input.
    fn input_partitions(&self, i: usize) -> (r: usize)
        ensures
            r == self@.input_partitions(i as int),
        decreases self, 0nat,
    {
        proof {
            self.lemma_view_children();
        }
        if i < self.children.len() {
            self.children[i].partition_count()
        } else {
            1
        }
    }

    /// The number of partitions that the node yields.
    pub fn partition_count(&self) -> (r: usize)
        ensures
            r == self@.partition_count(),
        decreases self, 1nat,
    {
        proof {
            self.lemma_view_children();
        }
        match &*self.op {
            Operator::Source { partitions, .. } => *partitions,
            Operator::Sort { preserve_partitioning, .. } => if *preserve_partitioning {
                self.input_partitions(0)
            } else {
                1
            },
            Operator::SortPreservingMerge { .. } => 1,
            Operator::CoalescePartitions => 1,
            Operator::Repartition { partitioning, .. } => partitioning.partition_count(),
            Operator::GlobalLimit { .. } => 1,
            Operator::LocalLimit { .. } => self.input_partitions(0),
            Operator::Window { .. } => self.input_partitions(0),
            Operator::Union => {
                let mut total: usize = 0;
                let mut k: usize = 0;
                while k < self.children.len()
                    invariant
                        k <= self.children@.len(),
                        self@.children.len() == self.children@.len(),
                        forall|i: int|
                            0 <= i < self.children@.len() ==> #[trigger] self@.children[i]
                                == self.children@[i]@,
                        total == self@.partitions_of_inputs(k as nat),
                    decreases self.children@.len() - k,
                {
                    let c = self.children[k].partition_count();
                    total = total.saturating_add(c);
                    k += 1;
                }
                total
            },
            Operator::Other { partitions, .. } => match partitions {
                PartitionSource::Fixed(n) => *n,
                PartitionSource::Input(i) => self.input_partitions(*i),
            },
        }
    }
}

} // verus!
