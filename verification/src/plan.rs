//! Plan nodes as they are held in memory, with their models.

use crate::error::PlanError;
use crate::model::{
    Distribution, InputContractView, OperatorView, PartitionSource, PartitioningView, PlanView,
    SearchModeView, WindowFunctionView,
};
use crate::ordering::{ordering_view, requirements_view, SortKey, SortRequirement};
use std::sync::Arc;
use vstd::prelude::*;

verus! {

/// How the output of a repartition is split.
#[derive(Clone, Debug)]
pub enum Partitioning {
    RoundRobinBatch(usize),
    Hash(Vec<usize>, usize),
    UnknownPartitioning(usize),
}

/// How a window operator finds the boundaries of its partitions: by
/// looking at every row, by the partition columns that its input is sorted
/// by, given by their positions among the partition columns, or by all of
/// them.
#[derive(Clone, Debug, PartialEq, Eq)]
pub enum SearchMode {
    Linear,
    PartiallySorted(Vec<usize>),
    Sorted,
}

/// One window function of a window operator.
#[derive(Clone, Debug)]
pub struct WindowFunction {
    /// Which function this is; a function and its reversed form carry the
    /// same label.
    pub label: usize,
    pub partition_by: Vec<usize>,
    pub order_by: Vec<SortKey>,
    /// Whether the function can be evaluated in bounded memory.
    pub uses_bounded_memory: bool,
    /// Whether an equivalent function over the reversed ordering exists.
    pub reversible: bool,
    /// Whether that reversed function can be evaluated in bounded memory.
    pub reverse_uses_bounded_memory: bool,
    /// Whether the frame runs against the direction it was declared in.
    pub reversed: bool,
}

/// What an operator without a kind of its own asks of one input and
/// promises about it.
#[derive(Clone, Debug)]
pub struct InputContract {
    pub required_ordering: Option<Vec<SortRequirement>>,
    pub distribution: Distribution,
    pub maintains_order: bool,
}

/// The kind of a plan node together with its parameters.
#[allow(inconsistent_fields)]
#[derive(Debug)]
pub enum Operator {
    /// A leaf that produces rows; `label` tells one source from another.
    Source { label: usize, ordering: Option<Vec<SortKey>>, partitions: usize, unbounded: bool },
    /// Sorts its input, each partition on its own if `preserve_partitioning`.
    Sort { expr: Vec<SortKey>, fetch: Option<usize>, preserve_partitioning: bool },
    /// Merges sorted partitions into one sorted partition.
    SortPreservingMerge { expr: Vec<SortKey>, fetch: Option<usize> },
    /// Merges partitions into one, in no particular order.
    CoalescePartitions,
    /// Redistributes rows over partitions.
    Repartition { partitioning: Partitioning, preserve_order: bool },
    /// Truncates the single stream of rows.
    GlobalLimit { skip: usize, fetch: Option<usize> },
    /// Truncates each partition.
    LocalLimit { fetch: usize },
    /// Concatenates the partitions of its inputs.
    Union,
    /// Evaluates window functions over partitioned, ordered input.
    Window {
        window_expr: Vec<WindowFunction>,
        partition_keys: Vec<usize>,
        bounded: bool,
        mode: SearchMode,
    },
    /// Any other operator, described by what it asks and promises.
    Other {
        label: usize,
        inputs: Vec<InputContract>,
        ordering_from: Option<usize>,
        partitions: PartitionSource,
    },
}

/// A node of a plan: an operator over its inputs. Nodes are never changed;
/// a rewrite builds new nodes and shares the subtrees it leaves alone.
#[derive(Clone, Debug)]
pub struct PlanNode {
    pub op: Arc<Operator>,
    pub children: Vec<Arc<PlanNode>>,
}

impl View for Partitioning {
    type V = PartitioningView;

    open spec fn view(&self) -> PartitioningView {
        match *self {
            Partitioning::RoundRobinBatch(n) => PartitioningView::RoundRobinBatch(n),
            Partitioning::Hash(keys, n) => PartitioningView::Hash(keys@, n),
            Partitioning::UnknownPartitioning(n) => PartitioningView::UnknownPartitioning(n),
        }
    }
}

impl View for SearchMode {
    type V = SearchModeView;

    open spec fn view(&self) -> SearchModeView {
        match *self {
            SearchMode::Linear => SearchModeView::Linear,
            SearchMode::PartiallySorted(columns) => SearchModeView::PartiallySorted(columns@),
            SearchMode::Sorted => SearchModeView::Sorted,
        }
    }
}

impl View for WindowFunction {
    type V = WindowFunctionView;

    open spec fn view(&self) -> WindowFunctionView {
        WindowFunctionView {
            label: self.label,
            partition_by: self.partition_by@,
            order_by: self.order_by@,
            uses_bounded_memory: self.uses_bounded_memory,
            reversible: self.reversible,
            reverse_uses_bounded_memory: self.reverse_uses_bounded_memory,
            reversed: self.reversed,
        }
    }
}

impl View for InputContract {
    type V = InputContractView;

    open spec fn view(&self) -> InputContractView {
        InputContractView {
            required_ordering: requirements_view(self.required_ordering),
            distribution: self.distribution,
            maintains_order: self.maintains_order,
        }
    }
}

impl View for Operator {
    type V = OperatorView;

    open spec fn view(&self) -> OperatorView {
        match *self {
            Operator::Source { label, ordering, partitions, unbounded } => OperatorView::Source {
                label,
                ordering: ordering_view(ordering),
                partitions,
                unbounded,
            },
            Operator::Sort { expr, fetch, preserve_partitioning } => OperatorView::Sort {
                expr: expr@,
                fetch,
                preserve_partitioning,
            },
            Operator::SortPreservingMerge { expr, fetch } => OperatorView::SortPreservingMerge {
                expr: expr@,
                fetch,
            },
            Operator::CoalescePartitions => OperatorView::CoalescePartitions,
            Operator::Repartition { partitioning, preserve_order } => OperatorView::Repartition {
                partitioning: partitioning@,
                preserve_order,
            },
            Operator::GlobalLimit { skip, fetch } => OperatorView::GlobalLimit { skip, fetch },
            Operator::LocalLimit { fetch } => OperatorView::LocalLimit { fetch },
            Operator::Union => OperatorView::Union,
            Operator::Window { window_expr, partition_keys, bounded, mode } => OperatorView::Window {
                window_expr: functions_view(window_expr@),
                partition_keys: partition_keys@,
                bounded,
                mode: mode@,
            },
            Operator::Other { label, inputs, ordering_from, partitions } => OperatorView::Other {
                label,
                inputs: Seq::new(inputs@.len(), |i: int| inputs@[i]@),
                ordering_from,
                partitions,
            },
        }
    }
}

/// The models of a list of window functions.
pub open spec fn functions_view(functions: Seq<WindowFunction>) -> Seq<WindowFunctionView> {
    Seq::new(functions.len(), |i: int| functions[i]@)
}

/// The models of a list of nodes.
pub open spec fn views(nodes: Seq<Arc<PlanNode>>) -> Seq<PlanView> {
    Seq::new(nodes.len(), |i: int| nodes[i]@)
}

/// Model of the outcome of a rewrite that yields a plan.
pub open spec fn outcome_view(r: Result<Arc<PlanNode>, PlanError>) -> Result<PlanView, PlanError> {
    match r {
        Ok(plan) => Ok(plan@),
        Err(e) => Err(e),
    }
}

impl PlanNode {
    /// The model of the tree rooted at this node.
    pub open spec fn model(&self) -> PlanView
        decreases self,
    {
        PlanView {
            op: self.op@,
            children: Seq::new(
                self.children@.len(),
                |i: int|
                    if 0 <= i < self.children@.len() {
                        (*self.children@[i]).model()
                    } else {
                        arbitrary()
                    },
            ),
        }
    }
}

impl View for PlanNode {
    type V = PlanView;

    open spec fn view(&self) -> PlanView {
        self.model()
    }
}

} // verus!
