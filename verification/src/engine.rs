//! Calls into the execution engine and the standard library whose results
//! are taken on trust.

use crate::model::SearchModeView;
use crate::ordering::{
    distinct_keys, exact_requirements, requirement_met, reversed_keys, SortKey, SortRequirement,
};
use datafusion_common::arrow::compute::SortOptions;
use datafusion_common::arrow::datatypes::Schema;
use datafusion_common::DataFusionError;
use datafusion_physical_expr::{EquivalenceProperties, PhysicalSortExpr, PhysicalSortRequirement};
use datafusion_physical_expr::expressions::Column;
use datafusion_physical_plan::memory::MemoryExec;
use datafusion_physical_plan::windows::{get_window_mode, PartitionSearchMode};
use std::sync::Arc;
use vstd::prelude::*;

verus! {

/// The error type of the execution engine.
#[verifier::external_type_specification]
#[verifier::external_body]
pub struct ExDataFusionError(DataFusionError);

/// The engine's description of how a window operator finds the boundaries
/// of its partitions.
#[verifier::external_type_specification]
pub struct ExPartitionSearchMode(PartitionSearchMode);

/// Model of a partition search mode.
pub open spec fn mode_view(mode: PartitionSearchMode) -> SearchModeView {
    match mode {
        PartitionSearchMode::Linear => SearchModeView::Linear,
        PartitionSearchMode::PartiallySorted(columns) => SearchModeView::PartiallySorted(columns@),
        PartitionSearchMode::Sorted => SearchModeView::Sorted,
    }
}

/// Model of an answer of the window analysis.
pub open spec fn answer_view(answer: Option<(bool, PartitionSearchMode)>) -> Option<
    (bool, SearchModeView),
> {
    match answer {
        Some((reverse, mode)) => Some((reverse, mode_view(mode))),
        None => None,
    }
}

/// The position of the first occurrence of `column` among `columns`; the
/// length of `columns` if there is none.
pub open spec fn first_position(columns: Seq<usize>, column: usize) -> nat
    decreases columns.len(),
{
    if columns.len() == 0 || columns[0] == column {
        0
    } else {
        1 + first_position(columns.drop_first(), column)
    }
}

/// The number of leading keys whose column is among `columns`.
pub open spec fn leading_columns(keys: Seq<SortKey>, columns: Seq<usize>) -> nat
    decreases keys.len(),
{
    if keys.len() == 0 || !columns.contains(keys[0].expr) {
        0
    } else {
        1 + leading_columns(keys.drop_first(), columns)
    }
}

/// The positions, among `partition_by`, of the partition columns that
/// `input_ordering`, less its repeated columns, starts with, in the order
/// in which the ordering has them.
pub open spec fn leading_positions(partition_by: Seq<usize>, input_ordering: Seq<SortKey>) -> Seq<
    usize,
> {
    let keys = distinct_keys(input_ordering);
    Seq::new(
        leading_columns(keys, partition_by),
        |i: int| first_position(partition_by, keys[i].expr) as usize,
    )
}

/// How a window partitioned by `partition_by` finds its partitions in
/// input sorted by `input_ordering`: sorted, if the ordering, less its
/// repeated columns, starts with as many partition columns as there are;
/// linear, if it starts with none; else by the partition columns that it
/// starts with, given by their positions among the partition columns.
pub open spec fn search_mode(partition_by: Seq<usize>, input_ordering: Seq<SortKey>) -> SearchModeView {
    let keys = distinct_keys(input_ordering);
    let found = leading_columns(keys, partition_by);
    if found == partition_by.len() {
        SearchModeView::Sorted
    } else if found == 0 {
        SearchModeView::Linear
    } else {
        SearchModeView::PartiallySorted(leading_positions(partition_by, input_ordering))
    }
}

/// Whether a key names a column that is not among `columns`.
pub open spec fn outside_keys(columns: Seq<usize>) -> spec_fn(SortKey) -> bool {
    |k: SortKey| !columns.contains(k.expr)
}

/// Whether a requirement names a column that is not among `columns`.
pub open spec fn outside_requirements(columns: Seq<usize>) -> spec_fn(SortRequirement) -> bool {
    |q: SortRequirement| !columns.contains(q.expr)
}

/// Whether input sorted by `input_ordering` serves a window partitioned by
/// `partition_by` and ordered by `order_by`: with the partition columns
/// left out of both, the ordering meets the exact requirement of the
/// order keys.
pub open spec fn serves_window(
    partition_by: Seq<usize>,
    order_by: Seq<SortKey>,
    input_ordering: Seq<SortKey>,
) -> bool {
    requirement_met(
        input_ordering.filter(outside_keys(partition_by)),
        exact_requirements(order_by).filter(outside_requirements(partition_by)),
    )
}

/// What the engine's window analysis answers for a window partitioned by
/// `partition_by` and ordered by `order_by` over an input that is sorted by
/// `input_ordering`: if the input serves the window as it is declared, that
/// the window runs as declared; else, if the input serves the window with
/// its order keys reversed, that the window must run in reverse; else
/// nothing. With either answer goes how the window finds its partitions.
pub open spec fn window_mode(
    partition_by: Seq<usize>,
    order_by: Seq<SortKey>,
    input_ordering: Seq<SortKey>,
) -> Option<(bool, SearchModeView)> {
    if serves_window(partition_by, order_by, input_ordering) {
        Some((false, search_mode(partition_by, input_ordering)))
    } else if serves_window(partition_by, reversed_keys(order_by), input_ordering) {
        Some((true, search_mode(partition_by, input_ordering)))
    } else {
        None
    }
}

/// `Arc::clone`: another handle to the same value.
#[verifier::external_body]
pub(crate) fn share<T>(handle: &Arc<T>) -> (r: Arc<T>)
    ensures
        r == *handle,
{
    Arc::clone(handle)
}

/// `EquivalenceProperties::ordering_satisfy_requirement`, asked of the
/// properties of a relation whose only known ordering is `ordering`, with
/// no equal or constant columns. The schema handed over is empty, for
/// which the engine takes every column as nullable. The engine drops
/// repeated columns from the requirement and from the ordering, then wants
/// each remaining key of the requirement met by the key of the ordering at
/// the same position.
#[verifier::external_body]
pub(crate) fn ordering_meets_requirement(ordering: &Vec<SortKey>, reqs: &Vec<SortRequirement>) -> (r:
    bool)
    ensures
        r == requirement_met(ordering@, reqs@),
{
    let options = |o: crate::ordering::SortOptions| SortOptions {
        descending: o.descending,
        nulls_first: o.nulls_first,
    };
    let sorted: Vec<PhysicalSortExpr> = ordering.iter().map(|k| PhysicalSortExpr {
        expr: Arc::new(Column::new("", k.expr)),
        options: options(k.options),
    }).collect();
    let wanted: Vec<PhysicalSortRequirement> = reqs.iter().map(|q| PhysicalSortRequirement {
        expr: Arc::new(Column::new("", q.expr)),
        options: q.options.map(options),
    }).collect();
    EquivalenceProperties::new_with_orderings(Arc::new(Schema::empty()), &[sorted])
        .ordering_satisfy_requirement(&wanted)
}

/// `EquivalenceProperties::find_longest_permutation`, asked of the
/// properties of a relation whose only known ordering is `input_ordering`,
/// with no equal or constant columns: the engine walks the ordering, less
/// its repeated columns, for as long as its columns are among
/// `partition_by`, and gives the position of each among them.
#[verifier::external_body]
pub(crate) fn longest_permutation(partition_by: &Vec<usize>, input_ordering: &Vec<SortKey>) -> (r:
    Vec<usize>)
    ensures
        r@ == leading_positions(partition_by@, input_ordering@),
{
    let sorted: Vec<PhysicalSortExpr> = input_ordering.iter().map(|k| PhysicalSortExpr {
        expr: Arc::new(Column::new("", k.expr)),
        options: SortOptions { descending: k.options.descending, nulls_first: k.options.nulls_first },
    }).collect();
    let by: Vec<_> = partition_by.iter().map(|c| Arc::new(Column::new("", *c)) as _).collect();
    EquivalenceProperties::new_with_orderings(Arc::new(Schema::empty()), &[sorted])
        .find_longest_permutation(&by).1
}

/// `get_window_mode`, asked for an input whose only known ordering is
/// `input_ordering`, with no equal or constant columns. The engine has no
/// failing path here: a memory source without a projection is always made,
/// and the analysis itself fails on nothing. The engine takes the
/// partition columns as constant, tries the order keys as declared and
/// then reversed against the ordering, and reads the search mode off the
/// partition columns that the ordering starts with.
#[verifier::external_body]
pub(crate) fn find_window_mode(
    partition_by: &Vec<usize>,
    order_by: &Vec<SortKey>,
    input_ordering: &Vec<SortKey>,
) -> (r: Result<Option<(bool, PartitionSearchMode)>, DataFusionError>)
    ensures
        r is Ok,
        r matches Ok(answer) ==> answer_view(answer) == window_mode(
            partition_by@,
            order_by@,
            input_ordering@,
        ),
{
    let key = |k: &SortKey| PhysicalSortExpr {
        expr: Arc::new(Column::new("", k.expr)),
        options: SortOptions { descending: k.options.descending, nulls_first: k.options.nulls_first },
    };
    let by: Vec<_> = partition_by.iter().map(|c| Arc::new(Column::new("", *c)) as _).collect();
    let order: Vec<_> = order_by.iter().map(key).collect();
    let sorted = vec![input_ordering.iter().map(key).collect()];
    let input = MemoryExec::try_new(&[], Arc::new(Schema::empty()), None)?;
    get_window_mode(&by, &order, &(Arc::new(input.with_sort_information(sorted)) as _))
}

} // verus!
