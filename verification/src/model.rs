//! The mathematical model of a plan tree, and the attributes that a node
//! derives from its operator and its inputs. Contracts are stated over this
//! model.

use crate::engine::leading_columns;
use crate::ordering::{
    distinct_keys, exact_requirement, exact_requirements, requirement_met, requirements_mention,
    SortKey, SortRequirement,
};
use vstd::prelude::*;

verus! {

/// What an operator asks of the partitioning of one input.
#[derive(Clone, Copy, Debug, PartialEq, Eq, Structural)]
pub enum Distribution {
    UnspecifiedDistribution,
    SinglePartition,
    HashPartitioned,
}

/// Where the partition count of an operator without a kind of its own
/// comes from.
#[derive(Clone, Copy, Debug, PartialEq, Eq, Structural)]
pub enum PartitionSource {
    Fixed(usize),
    Input(usize),
}

/// Model of a partitioning scheme.
pub enum PartitioningView {
    RoundRobinBatch(usize),
    Hash(Seq<usize>, usize),
    UnknownPartitioning(usize),
}

/// Model of a partition search mode.
pub enum SearchModeView {
    Linear,
    PartiallySorted(Seq<usize>),
    Sorted,
}

/// Model of a window function.
pub struct WindowFunctionView {
    pub label: usize,
    pub partition_by: Seq<usize>,
    pub order_by: Seq<SortKey>,
    pub uses_bounded_memory: bool,
    pub reversible: bool,
    pub reverse_uses_bounded_memory: bool,
    pub reversed: bool,
}

/// Model of what an operator asks of one input and promises about it.
pub struct InputContractView {
    pub required_ordering: Option<Seq<SortRequirement>>,
    pub distribution: Distribution,
    pub maintains_order: bool,
}

/// Model of an operator.
#[allow(inconsistent_fields)]
pub enum OperatorView {
    Source { label: usize, ordering: Option<Seq<SortKey>>, partitions: usize, unbounded: bool },
    Sort { expr: Seq<SortKey>, fetch: Option<usize>, preserve_partitioning: bool },
    SortPreservingMerge { expr: Seq<SortKey>, fetch: Option<usize> },
    CoalescePartitions,
    Repartition { partitioning: PartitioningView, preserve_order: bool },
    GlobalLimit { skip: usize, fetch: Option<usize> },
    LocalLimit { fetch: usize },
    Union,
    Window {
        window_expr: Seq<WindowFunctionView>,
        partition_keys: Seq<usize>,
        bounded: bool,
        mode: SearchModeView,
    },
    Other {
        label: usize,
        inputs: Seq<InputContractView>,
        ordering_from: Option<usize>,
        partitions: PartitionSource,
    },
}

/// Model of a plan: an operator over its inputs.
pub struct PlanView {
    pub op: OperatorView,
    pub children: Seq<PlanView>,
}

/// The number of leading keys, counted from position `i` on, up to which
/// `a` and `b` agree.
pub open spec fn agreement(a: Seq<SortKey>, b: Seq<SortKey>, i: nat) -> nat
    decreases a.len() - i,
{
    if i < a.len() && i < b.len() && a[i as int] == b[i as int] {
        agreement(a, b, i + 1)
    } else {
        i
    }
}

/// The longest ordering that both `a` and `b` start with.
pub open spec fn common_prefix(a: Seq<SortKey>, b: Seq<SortKey>) -> Seq<SortKey> {
    a.take(agreement(a, b, 0) as int)
}

/// The sum of two partition counts, capped at the largest machine integer.
pub open spec fn capped_sum(a: nat, b: nat) -> nat {
    if a + b > usize::MAX {
        usize::MAX as nat
    } else {
        a + b
    }
}

/// The partition columns at the given positions, in the order of the
/// positions; a position beyond the partition columns names none.
pub open spec fn columns_at(partition_by: Seq<usize>, positions: Seq<usize>) -> Seq<usize>
    decreases positions.len(),
{
    if positions.len() == 0 {
        Seq::empty()
    } else {
        let front = columns_at(partition_by, positions.drop_last());
        if positions.last() < partition_by.len() {
            front.push(partition_by[positions.last() as int])
        } else {
            front
        }
    }
}

/// The partition columns that `input_ordering`, less its repeated columns,
/// starts with, in the order in which the ordering has them.
pub open spec fn leading_run(partition_by: Seq<usize>, input_ordering: Seq<SortKey>) -> Seq<usize> {
    let keys = distinct_keys(input_ordering);
    Seq::new(leading_columns(keys, partition_by), |i: int| keys[i].expr)
}

/// The partition columns that a window asks its input to be sorted by,
/// in the order in which it asks for them. A window that runs in bounded
/// memory and searches its partitions linearly asks for none; one that
/// takes them as partially sorted asks for those at the positions that its
/// mode names. Any other window asks for all of them: in the order in
/// which its input has them, if the input starts with as many as there
/// are, else as they are declared.
pub open spec fn ordered_partition_columns(
    partition_by: Seq<usize>,
    bounded: bool,
    mode: SearchModeView,
    input_ordering: Seq<SortKey>,
) -> Seq<usize> {
    let run = leading_run(partition_by, input_ordering);
    if bounded {
        match mode {
            SearchModeView::Sorted => if run.len() == partition_by.len() {
                run
            } else {
                partition_by
            },
            SearchModeView::PartiallySorted(positions) => columns_at(partition_by, positions),
            SearchModeView::Linear => Seq::empty(),
        }
    } else if run.len() < partition_by.len() {
        partition_by
    } else {
        run
    }
}

/// The ordering requirement of a window operator that asks for the
/// partition columns `partition_by` in that order: those columns in any
/// direction, then those of its order keys that name a further column.
pub open spec fn window_requirement(partition_by: Seq<usize>, order_by: Seq<SortKey>) -> Seq<
    SortRequirement,
>
    decreases order_by.len(),
{
    if order_by.len() == 0 {
        Seq::new(
            partition_by.len(),
            |i: int| SortRequirement { expr: partition_by[i], options: None },
        )
    } else {
        let front = window_requirement(partition_by, order_by.drop_last());
        if requirements_mention(front, order_by.last().expr) {
            front
        } else {
            front.push(exact_requirement(order_by.last()))
        }
    }
}

/// The ordering that a window operator asks of input that is sorted by
/// `input_ordering`: the partition columns of its first function as its
/// mode and the input have them, then the order keys of that function;
/// nothing if that names no column.
pub open spec fn window_asks(op: OperatorView, input_ordering: Seq<SortKey>) -> Option<
    Seq<SortRequirement>,
> {
    match op {
        OperatorView::Window { window_expr, bounded, mode, .. } => if window_expr.len() > 0 {
            let reqs = window_requirement(
                ordered_partition_columns(
                    window_expr[0].partition_by,
                    bounded,
                    mode,
                    input_ordering,
                ),
                window_expr[0].order_by,
            );
            if reqs.len() > 0 {
                Some(reqs)
            } else {
                None
            }
        } else {
            None
        },
        _ => None,
    }
}

impl PartitioningView {
    /// The number of partitions.
    pub open spec fn count(self) -> nat {
        match self {
            PartitioningView::RoundRobinBatch(n) => n as nat,
            PartitioningView::Hash(_, n) => n as nat,
            PartitioningView::UnknownPartitioning(n) => n as nat,
        }
    }

    /// Whether two partitionings are known to split rows the same way. An
    /// unknown partitioning is the same as no other.
    pub open spec fn same_as(self, other: PartitioningView) -> bool {
        match (self, other) {
            (PartitioningView::RoundRobinBatch(a), PartitioningView::RoundRobinBatch(b)) => a == b,
            (PartitioningView::Hash(ka, a), PartitioningView::Hash(kb, b)) => ka == kb && a == b,
            _ => false,
        }
    }
}

impl OperatorView {
    /// Whether the operator can stand over `n` inputs.
    pub open spec fn accepts(self, n: nat) -> bool {
        match self {
            OperatorView::Source { .. } => n == 0,
            OperatorView::Union => n >= 1,
            OperatorView::Window { window_expr, .. } => n == 1 && window_expr.len() > 0,
            OperatorView::Other { inputs, ordering_from, partitions, .. } => {
                &&& n == inputs.len()
                &&& ordering_from matches Some(i) ==> i < n
                &&& partitions matches PartitionSource::Input(i) ==> i < n
            },
            _ => n == 1,
        }
    }
}

impl PlanView {
    pub open spec fn is_sort(self) -> bool {
        self.op is Sort
    }

    pub open spec fn is_sort_preserving_merge(self) -> bool {
        self.op is SortPreservingMerge
    }

    pub open spec fn is_coalesce_partitions(self) -> bool {
        self.op is CoalescePartitions
    }

    pub open spec fn is_repartition(self) -> bool {
        self.op is Repartition
    }

    pub open spec fn is_limit(self) -> bool {
        self.op is GlobalLimit || self.op is LocalLimit
    }

    pub open spec fn is_union(self) -> bool {
        self.op is Union
    }

    pub open spec fn is_window(self) -> bool {
        self.op is Window
    }

    /// Whether every node of the tree has as many inputs as its operator
    /// takes.
    pub open spec fn well_formed(self) -> bool
        decreases self,
    {
        &&& self.op.accepts(self.children.len())
        &&& forall|i: int| 0 <= i < self.children.len() ==> (#[trigger] self.children[i]).well_formed()
    }

    /// The partition count of the first `k` inputs together.
    pub open spec fn partitions_of_inputs(self, k: nat) -> nat
        decreases self, k,
    {
        if k == 0 || k > self.children.len() {
            0
        } else {
            capped_sum(
                self.partitions_of_inputs((k - 1) as nat),
                self.children[k - 1].partition_count(),
            )
        }
    }

    /// The partition count of input `i`, or 1 where there is no such input.
    pub open spec fn input_partitions(self, i: int) -> nat
        decreases self, 0nat,
    {
        if 0 <= i < self.children.len() {
            self.children[i].partition_count()
        } else {
            1
        }
    }

    /// The number of partitions that the node yields.
    pub open spec fn partition_count(self) -> nat
        decreases self, self.children.len() + 1,
    {
        match self.op {
            OperatorView::Source { partitions, .. } => partitions as nat,
            OperatorView::Sort { preserve_partitioning, .. } => if preserve_partitioning {
                self.input_partitions(0)
            } else {
                1
            },
            OperatorView::SortPreservingMerge { .. } => 1,
            OperatorView::CoalescePartitions => 1,
            OperatorView::Repartition { partitioning, .. } => partitioning.count(),
            OperatorView::GlobalLimit { .. } => 1,
            OperatorView::LocalLimit { .. } | OperatorView::Window { .. } => self.input_partitions(0),
            OperatorView::Union => self.partitions_of_inputs(self.children.len()),
            OperatorView::Other { partitions, .. } => match partitions {
                PartitionSource::Fixed(n) => n as nat,
                PartitionSource::Input(i) => self.input_partitions(i as int),
            },
        }
    }

    /// The output ordering of input `i`, if there is such an input and it
    /// is ordered.
    pub open spec fn input_ordering(self, i: int) -> Option<Seq<SortKey>>
        decreases self, 0nat,
    {
        if 0 <= i < self.children.len() {
            self.children[i].output_ordering()
        } else {
            None
        }
    }

    /// The longest ordering that the first `k` inputs share, if all of them
    /// are ordered.
    pub open spec fn meet_of_inputs(self, k: nat) -> Option<Seq<SortKey>>
        decreases self, k,
    {
        if k == 0 || k > self.children.len() {
            None
        } else if k == 1 {
            self.children[0].output_ordering()
        } else {
            match (self.meet_of_inputs((k - 1) as nat), self.children[k - 1].output_ordering()) {
                (Some(a), Some(b)) => Some(common_prefix(a, b)),
                _ => None,
            }
        }
    }

    /// What is known of the ordering of a union whose inputs are all
    /// ordered and share no leading key, from input `j` on: the empty
    /// ordering, if on the way through the inputs one with an empty ordering
    /// comes before any whose first key differs from that of the first
    /// input; else nothing.
    pub open spec fn empty_meet(self, j: nat) -> Option<Seq<SortKey>>
        decreases self, self.children.len() - j,
    {
        if j >= self.children.len() {
            None
        } else {
            match (self.input_ordering(j as int), self.input_ordering(0)) {
                (Some(o), Some(first)) => if o.len() == 0 {
                    Some(Seq::empty())
                } else if first.len() == 0 || o[0] != first[0] {
                    None
                } else {
                    self.empty_meet(j + 1)
                },
                _ => None,
            }
        }
    }

    /// The ordering that each partition of the node's output is known to
    /// have. A sort and a sort-preserving merge are ordered by their keys;
    /// a repartition, a limit, a window and an operator without a kind of
    /// its own hand on the ordering of an input; a union has the ordering
    /// that all its inputs share.
    pub open spec fn output_ordering(self) -> Option<Seq<SortKey>>
        decreases self, self.children.len() + 1,
    {
        match self.op {
            OperatorView::Source { ordering, .. } => ordering,
            OperatorView::Sort { expr, .. } => Some(expr),
            OperatorView::SortPreservingMerge { expr, .. } => Some(expr),
            OperatorView::CoalescePartitions => None,
            OperatorView::Repartition { preserve_order, .. } => if preserve_order
                || self.input_partitions(0) <= 1 {
                self.input_ordering(0)
            } else {
                None
            },
            OperatorView::GlobalLimit { .. } | OperatorView::LocalLimit { .. } | OperatorView::Window {
                ..
            } => self.input_ordering(0),
            OperatorView::Union => match self.meet_of_inputs(self.children.len()) {
                Some(meet) => if meet.len() > 0 {
                    Some(meet)
                } else {
                    self.empty_meet(0)
                },
                None => None,
            },
            OperatorView::Other { ordering_from, .. } => match ordering_from {
                Some(i) => self.input_ordering(i as int),
                None => None,
            },
        }
    }

    /// The ordering that the node guarantees; empty if it guarantees none.
    pub open spec fn guaranteed_ordering(self) -> Seq<SortKey> {
        match self.output_ordering() {
            Some(o) => o,
            None => Seq::empty(),
        }
    }

    /// Whether the node's guaranteed ordering meets the requirement.
    pub open spec fn ordering_satisfy_requirement(self, reqs: Seq<SortRequirement>) -> bool {
        requirement_met(self.guaranteed_ordering(), reqs)
    }

    /// Whether the node's guaranteed ordering is at least as fine as
    /// `given`.
    pub open spec fn ordering_satisfy(self, given: Seq<SortKey>) -> bool {
        requirement_met(self.guaranteed_ordering(), exact_requirements(given))
    }

    /// Whether rows leave the node in the order in which input `i` supplied
    /// them.
    pub open spec fn maintains_input_order(self, i: int) -> bool {
        match self.op {
            OperatorView::SortPreservingMerge { .. } => true,
            OperatorView::Repartition { preserve_order, .. } => (preserve_order
                && self.input_ordering(0) is Some) || self.input_partitions(0) <= 1,
            OperatorView::GlobalLimit { .. } | OperatorView::LocalLimit { .. } | OperatorView::Window {
                ..
            } => true,
            OperatorView::Union => match (self.output_ordering(), self.input_ordering(i)) {
                (Some(o), Some(c)) => o.len() == c.len(),
                _ => false,
            },
            OperatorView::Other { inputs, .. } => 0 <= i < inputs.len() && inputs[i].maintains_order,
            _ => false,
        }
    }

    /// The ordering that the first input guarantees; empty if there is
    /// no input or it guarantees none.
    pub open spec fn window_input_ordering(self) -> Seq<SortKey> {
        match self.input_ordering(0) {
            Some(o) => o,
            None => Seq::empty(),
        }
    }

    /// The ordering that the node asks of input `i`, if any. A window asks
    /// for its partition columns as its mode and the ordering of its input
    /// have them, then for its order keys.
    pub open spec fn required_input_ordering(self, i: int) -> Option<Seq<SortRequirement>> {
        match self.op {
            OperatorView::SortPreservingMerge { expr, .. } => Some(exact_requirements(expr)),
            OperatorView::Window { .. } => if i == 0 {
                window_asks(self.op, self.window_input_ordering())
            } else {
                None
            },
            OperatorView::Other { inputs, .. } => if 0 <= i < inputs.len() {
                inputs[i].required_ordering
            } else {
                None
            },
            _ => None,
        }
    }

    /// The partitioning that the node asks of input `i`.
    pub open spec fn required_input_distribution(self, i: int) -> Distribution {
        match self.op {
            OperatorView::Sort { preserve_partitioning, .. } => if preserve_partitioning {
                Distribution::UnspecifiedDistribution
            } else {
                Distribution::SinglePartition
            },
            OperatorView::GlobalLimit { .. } => Distribution::SinglePartition,
            OperatorView::Window { partition_keys, .. } => if partition_keys.len() == 0 {
                Distribution::SinglePartition
            } else {
                Distribution::HashPartitioned
            },
            OperatorView::Other { inputs, .. } => if 0 <= i < inputs.len() {
                inputs[i].distribution
            } else {
                Distribution::UnspecifiedDistribution
            },
            _ => Distribution::UnspecifiedDistribution,
        }
    }

    /// Whether the node asks for input `i` to arrive as a single partition.
    pub open spec fn requires_single_partition(self, i: int) -> bool {
        self.required_input_distribution(i) == Distribution::SinglePartition
    }

    /// Whether the node may produce rows without end: a source says so
    /// itself, a limit never does, and any other node does if one of its
    /// inputs does.
    pub open spec fn unbounded_output(self) -> bool
        decreases self,
    {
        match self.op {
            OperatorView::Source { unbounded, .. } => unbounded,
            OperatorView::GlobalLimit { .. } | OperatorView::LocalLimit { .. } => false,
            _ => exists|i: int|
                0 <= i < self.children.len() && (#[trigger] self.children[i]).unbounded_output(),
        }
    }

    /// The node rebuilt over other inputs: the same operator, if it can
    /// stand over that many inputs.
    pub open spec fn with_new_children(self, children: Seq<PlanView>) -> Option<PlanView> {
        if self.op.accepts(children.len()) {
            Some(PlanView { op: self.op, children })
        } else {
            None
        }
    }
}

} // verus!
