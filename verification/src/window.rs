//! Window operators: choosing the evaluation that fits the ordering of the
//! input, so that no sort is needed below the window.

use crate::engine::{find_window_mode, mode_view, share, window_mode};
use crate::error::PlanError;
use crate::lineage::{untracked, ExecTree, PlanWithCorrespondingSort, TrackedView, TreeView};
use crate::model::{OperatorView, PlanView, SearchModeView, WindowFunctionView};
use crate::ordering::{copy_keys, reverse_order_bys, reversed_keys, SortRequirement};
use crate::plan::{functions_view, Operator, PlanNode, SearchMode, WindowFunction};
use crate::surgery::{
    add_sort_above, remove_corresponding_sort_from_sub_plan, sort_above, without_sort,
};
use std::sync::Arc;
use vstd::prelude::*;

verus! {

/// The window function that gives the same results over the reversed
/// ordering.
pub open spec fn reversed_function(f: WindowFunctionView) -> WindowFunctionView {
    WindowFunctionView {
        label: f.label,
        partition_by: f.partition_by,
        order_by: reversed_keys(f.order_by),
        uses_bounded_memory: f.reverse_uses_bounded_memory,
        reversible: true,
        reverse_uses_bounded_memory: f.uses_bounded_memory,
        reversed: !f.reversed,
    }
}

/// Every function reversed.
pub open spec fn reversed_functions(fs: Seq<WindowFunctionView>) -> Seq<WindowFunctionView> {
    Seq::new(fs.len(), |i: int| reversed_function(fs[i]))
}

/// Whether every function has a reversed form.
pub open spec fn all_reversible(fs: Seq<WindowFunctionView>) -> bool {
    forall|i: int| 0 <= i < fs.len() ==> (#[trigger] fs[i]).reversible
}

/// Whether every function can be evaluated in bounded memory.
pub open spec fn all_bounded(fs: Seq<WindowFunctionView>) -> bool {
    forall|i: int| 0 <= i < fs.len() ==> (#[trigger] fs[i]).uses_bounded_memory
}

/// The window operator that runs over `input` as it is ordered, given the
/// answer of the window analysis; nothing if the input must be sorted
/// first. A bounded input is only accepted if the partitions are found in
/// sorted mode; a window that must run in reverse needs every function to
/// be reversible; functions that need unbounded memory need sorted mode.
pub open spec fn fitting_window(
    window_expr: Seq<WindowFunctionView>,
    input: PlanView,
    partition_keys: Seq<usize>,
    answer: Option<(bool, SearchModeView)>,
) -> Option<PlanView> {
    match answer {
        None => None,
        Some((reverse, mode)) => {
            let exprs = if reverse {
                reversed_functions(window_expr)
            } else {
                window_expr
            };
            if !input.unbounded_output() && !(mode is Sorted) {
                None
            } else if reverse && !all_reversible(window_expr) {
                None
            } else if all_bounded(exprs) {
                Some(
                    PlanView {
                        op: OperatorView::Window {
                            window_expr: exprs,
                            partition_keys,
                            bounded: true,
                            mode,
                        },
                        children: seq![input],
                    },
                )
            } else if !(mode is Sorted) {
                None
            } else {
                Some(
                    PlanView {
                        op: OperatorView::Window {
                            window_expr: exprs,
                            partition_keys,
                            bounded: false,
                            mode: SearchModeView::Sorted,
                        },
                        children: seq![input],
                    },
                )
            }
        },
    }
}

/// The window operator that runs over `input` as it is ordered, if the
/// engine's window analysis finds one.
pub open spec fn best_fitting_window(
    window_expr: Seq<WindowFunctionView>,
    input: PlanView,
    partition_keys: Seq<usize>,
) -> Option<PlanView>
    recommends
        window_expr.len() > 0,
{
    fitting_window(
        window_expr,
        input,
        partition_keys,
        window_mode(window_expr[0].partition_by, window_expr[0].order_by, input.guaranteed_ordering()),
    )
}

/// The evaluation that the analysis picks for a window is the one that it
/// picks for the picked window over the same input: a window that was
/// turned round is served by the input as it then stands.
pub proof fn lemma_fitting_window_fits_again(
    window_expr: Seq<WindowFunctionView>,
    input: PlanView,
    partition_keys: Seq<usize>,
)
    requires
        window_expr.len() > 0,
        best_fitting_window(window_expr, input, partition_keys) is Some,
    ensures
        ({
            let w = best_fitting_window(window_expr, input, partition_keys)->0;
            &&& w.op is Window
            &&& w.children =~= seq![input]
            &&& w.op->window_expr.len() == window_expr.len()
            &&& w.op->window_expr[0].partition_by == window_expr[0].partition_by
            &&& w.op->partition_keys == partition_keys
            &&& best_fitting_window(w.op->window_expr, input, partition_keys) == Some(w)
        }),
{
    let w = best_fitting_window(window_expr, input, partition_keys)->0;
    let answer = window_mode(
        window_expr[0].partition_by,
        window_expr[0].order_by,
        input.guaranteed_ordering(),
    );
    let (reverse, mode) = answer->0;
    if reverse {
        assert(w.op->window_expr == reversed_functions(window_expr));
        assert(w.op->window_expr[0] == reversed_function(window_expr[0]));
    }
    assert(window_mode(
        w.op->window_expr[0].partition_by,
        w.op->window_expr[0].order_by,
        input.guaranteed_ordering(),
    ) == Some((false, mode)));
}

/// The window operator that sorts its input as it asks: the functions as
/// declared, over the input under the sort that the window needs.
pub open spec fn window_over_sorted_input(window: PlanView, child: PlanView) -> PlanView
    recommends
        window.op is Window,
        window.op->window_expr.len() > 0,
{
    let reqs = match window.required_input_ordering(0) {
        Some(r) => r,
        None => Seq::empty(),
    };
    PlanView {
        op: OperatorView::Window {
            window_expr: window.op->window_expr,
            partition_keys: window.op->window_expr[0].partition_by,
            bounded: all_bounded(window.op->window_expr),
            mode: SearchModeView::Sorted,
        },
        children: seq![sort_above(child, reqs, None)],
    }
}

/// The window rewritten so that the sort tracked below it is not needed:
/// the tracked sort is removed, and the window becomes the evaluation that
/// fits the child as it is then ordered, if `answer` names one, else the
/// window over a fresh sort of the child.
pub open spec fn window_without_sort(
    tree: TreeView,
    window: PlanView,
    answer: Option<(bool, SearchModeView)>,
) -> Result<TrackedView, PlanError> {
    match without_sort(tree, window.requires_single_partition(tree.idx)) {
        Err(e) => Err(e),
        Ok(child) => if window.op is Window && window.op->window_expr.len() > 0 {
            match fitting_window(window.op->window_expr, child, window.op->partition_keys, answer) {
                Some(w) => Ok(untracked(w)),
                None => Ok(untracked(window_over_sorted_input(window, child))),
            }
        } else {
            Err(PlanError::KindMismatch)
        },
    }
}

/// The answer of the window analysis for the window over the child that
/// remains when the tracked sort is removed.
pub open spec fn window_answer(tree: TreeView, window: PlanView) -> Option<(bool, SearchModeView)>
    recommends
        window.op is Window,
        window.op->window_expr.len() > 0,
{
    match without_sort(tree, window.requires_single_partition(tree.idx)) {
        Ok(child) => window_mode(
            window.op->window_expr[0].partition_by,
            window.op->window_expr[0].order_by,
            child.guaranteed_ordering(),
        ),
        Err(_) => None,
    }
}

/// A copy of a list of columns.
pub fn copy_columns(columns: &Vec<usize>) -> (r: Vec<usize>)
    ensures
        r@ == columns@,
{
    let mut out: Vec<usize> = Vec::new();
    let mut i: usize = 0;
    while i < columns.len()
        invariant
            i <= columns.len(),
            out@ == columns@.take(i as int),
        decreases columns.len() - i,
    {
        out.push(columns[i]);
        i += 1;
        assert(out@ =~= columns@.take(i as int));
    }
    assert(columns@.take(i as int) =~= columns@);
    out
}

impl WindowFunction {
    /// A copy of the function.
    pub fn duplicate(&self) -> (r: WindowFunction)
        ensures
            r@ == self@,
    {
        WindowFunction {
            label: self.label,
            partition_by: copy_columns(&self.partition_by),
            order_by: copy_keys(&self.order_by),
            uses_bounded_memory: self.uses_bounded_memory,
            reversible: self.reversible,
            reverse_uses_bounded_memory: self.reverse_uses_bounded_memory,
            reversed: self.reversed,
        }
    }

    /// The function that gives the same results over the reversed
    /// ordering, if there is one.
    pub fn get_reverse_expr(&self) -> (r: Option<WindowFunction>)
        ensures
            r is Some == self.reversible,
            r matches Some(f) ==> f@ == reversed_function(self@),
    {
        if self.reversible {
            Some(
                WindowFunction {
                    label: self.label,
                    partition_by: copy_columns(&self.partition_by),
                    order_by: reverse_order_bys(&self.order_by),
                    uses_bounded_memory: self.reverse_uses_bounded_memory,
                    reversible: true,
                    reverse_uses_bounded_memory: self.uses_bounded_memory,
                    reversed: !self.reversed,
                },
            )
        } else {
            None
        }
    }
}

/// Copies of the functions.
pub fn copy_functions(fs: &Vec<WindowFunction>) -> (r: Vec<WindowFunction>)
    ensures
        functions_view(r@) == functions_view(fs@),
{
    let mut out: Vec<WindowFunction> = Vec::new();
    let mut i: usize = 0;
    while i < fs.len()
        invariant
            i <= fs.len(),
            out@.len() == i,
            forall|j: int| 0 <= j < i ==> (#[trigger] out@[j])@ == fs@[j]@,
        decreases fs.len() - i,
    {
        out.push(fs[i].duplicate());
        i += 1;
    }
    assert(functions_view(out@) =~= functions_view(fs@));
    out
}

/// Every function reversed, if every one has a reversed form.
pub fn reverse_functions(fs: &Vec<WindowFunction>) -> (r: Option<Vec<WindowFunction>>)
    ensures
        r is Some == all_reversible(functions_view(fs@)),
        r matches Some(out) ==> functions_view(out@) == reversed_functions(functions_view(fs@)),
{
    let mut out: Vec<WindowFunction> = Vec::new();
    let mut i: usize = 0;
    while i < fs.len()
        invariant
            i <= fs.len(),
            out@.len() == i,
            forall|j: int| 0 <= j < i ==> (#[trigger] fs@[j]).reversible,
            forall|j: int| 0 <= j < i ==> (#[trigger] out@[j])@ == reversed_function(fs@[j]@),
        decreases fs.len() - i,
    {
        match fs[i].get_reverse_expr() {
            Some(f) => {
                out.push(f);
            },
            None => {
                assert(!functions_view(fs@)[i as int].reversible);
                return None;
            },
        }
        i += 1;
    }
    assert(functions_view(out@) =~= reversed_functions(functions_view(fs@)));
    assert forall|j: int| 0 <= j < functions_view(fs@).len() implies (#[trigger] functions_view(
        fs@,
    )[j]).reversible by {
        assert(fs@[j].reversible);
    }
    Some(out)
}

/// Whether every function can be evaluated in bounded memory.
pub fn uses_bounded_memory(fs: &Vec<WindowFunction>) -> (r: bool)
    ensures
        r == all_bounded(functions_view(fs@)),
{
    let mut i: usize = 0;
    while i < fs.len()
        invariant
            i <= fs.len(),
            forall|j: int| 0 <= j < i ==> (#[trigger] fs@[j]).uses_bounded_memory,
        decreases fs.len() - i,
    {
        if !fs[i].uses_bounded_memory {
            assert(!functions_view(fs@)[i as int].uses_bounded_memory);
            return false;
        }
        i += 1;
    }
    assert forall|j: int| 0 <= j < functions_view(fs@).len() implies (#[trigger] functions_view(
        fs@,
    )[j]).uses_bounded_memory by {
        assert(fs@[j].uses_bounded_memory);
    }
    true
}

/// Model of an optional plan.
pub open spec fn choice_view(r: Option<Arc<PlanNode>>) -> Option<PlanView> {
    match r {
        Some(plan) => Some(plan@),
        None => None,
    }
}

/// Model of an answer of the window analysis.
pub open spec fn answer_model(answer: Option<(bool, SearchMode)>) -> Option<
    (bool, SearchModeView),
> {
    match answer {
        Some((reverse, mode)) => Some((reverse, mode@)),
        None => None,
    }
}

/// The search mode that the engine names.
fn search_mode_of(mode: datafusion_physical_plan::windows::PartitionSearchMode) -> (r:
    SearchMode)
    ensures
        r@ == mode_view(mode),
{
    match mode {
        datafusion_physical_plan::windows::PartitionSearchMode::Linear => SearchMode::Linear,
        datafusion_physical_plan::windows::PartitionSearchMode::PartiallySorted(columns) => {
            SearchMode::PartiallySorted(columns)
        },
        datafusion_physical_plan::windows::PartitionSearchMode::Sorted => SearchMode::Sorted,
    }
}

/// The window operator that runs over `input` as it is ordered, given the
/// answer of the window analysis; nothing if the input must be sorted
/// first.
pub fn window_for_answer(
    window_expr: &Vec<WindowFunction>,
    input: &Arc<PlanNode>,
    partition_keys: &Vec<usize>,
    answer: Option<(bool, SearchMode)>,
) -> (r: Option<Arc<PlanNode>>)
    ensures
        choice_view(r) == fitting_window(
            functions_view(window_expr@),
            input@,
            partition_keys@,
            answer_model(answer),
        ),
{
    let (reverse, mode) = match answer {
        Some(found) => found,
        None => {
            return None;
        },
    };
    let sorted = match &mode {
        SearchMode::Sorted => true,
        _ => false,
    };
    if !input.unbounded_output() && !sorted {
        return None;
    }
    let exprs = if reverse {
        match reverse_functions(window_expr) {
            Some(reversed) => reversed,
            None => {
                return None;
            },
        }
    } else {
        copy_functions(window_expr)
    };
    if uses_bounded_memory(&exprs) {
        Some(
            PlanNode::unary(
                Operator::Window {
                    window_expr: exprs,
                    partition_keys: copy_columns(partition_keys),
                    bounded: true,
                    mode,
                },
                share(input),
            ),
        )
    } else if !sorted {
        None
    } else {
        Some(
            PlanNode::unary(
                Operator::Window {
                    window_expr: exprs,
                    partition_keys: copy_columns(partition_keys),
                    bounded: false,
                    mode: SearchMode::Sorted,
                },
                share(input),
            ),
        )
    }
}

/// The window operator that runs over `input` as it is ordered, if the
/// engine's window analysis finds one. Fails, with `KindMismatch`, if and
/// only if there is no window function.
pub fn get_best_fitting_window(
    window_expr: &Vec<WindowFunction>,
    input: &Arc<PlanNode>,
    partition_keys: &Vec<usize>,
) -> (r: Result<Option<Arc<PlanNode>>, PlanError>)
    ensures
        match r {
            Ok(found) => window_expr@.len() > 0 && choice_view(found) == best_fitting_window(
                functions_view(window_expr@),
                input@,
                partition_keys@,
            ),
            Err(e) => window_expr@.len() == 0 && e == PlanError::KindMismatch,
        },
{
    if window_expr.len() == 0 {
        return Err(PlanError::KindMismatch);
    }
    let ordering = match input.output_ordering() {
        Some(keys) => keys,
        None => Vec::new(),
    };
    match find_window_mode(&window_expr[0].partition_by, &window_expr[0].order_by, &ordering) {
        Ok(answer) => {
            let answer = match answer {
                Some((reverse, mode)) => Some((reverse, search_mode_of(mode))),
                None => None,
            };
            Ok(window_for_answer(window_expr, input, partition_keys, answer))
        },
        Err(_) => Err(PlanError::Engine),
    }
}

/// Rewrites a window so that the sort tracked below it is not needed. The
/// tracked sort is removed; the window becomes the evaluation that fits
/// the child as it is then ordered, or, if there is none, the window over
/// a fresh sort of the child. Fails as the removal of the sort fails, and
/// with `KindMismatch` if `window_exec` is no window with a function.
pub fn analyze_window_sort_removal(sort_tree: &ExecTree, window_exec: &Arc<PlanNode>) -> (r: Result<
    Option<PlanWithCorrespondingSort>,
    PlanError,
>)
    ensures
        match r {
            Ok(found) => found matches Some(node) && window_without_sort(
                sort_tree@,
                window_exec@,
                window_answer(sort_tree@, window_exec@),
            ) == Ok::<TrackedView, PlanError>(node@),
            Err(e) => window_without_sort(
                sort_tree@,
                window_exec@,
                window_answer(sort_tree@, window_exec@),
            ) == Err::<TrackedView, PlanError>(e),
        },
{
    let requires_single_partition = window_exec.requires_single_partition(sort_tree.idx);
    proof {
        sort_tree.lemma_view_children();
    }
    let mut window_child = match remove_corresponding_sort_from_sub_plan(
        sort_tree,
        requires_single_partition,
    ) {
        Ok(child) => child,
        Err(e) => {
            return Err(e);
        },
    };
    match &*window_exec.op {
        Operator::Window { window_expr, partition_keys, .. } => {
            if window_expr.len() == 0 {
                return Err(PlanError::KindMismatch);
            }
            let new_window = match get_best_fitting_window(window_expr, &window_child, partition_keys) {
                Ok(found) => found,
                Err(e) => {
                    return Err(e);
                },
            };
            match new_window {
                Some(w) => Ok(Some(PlanWithCorrespondingSort::new(w))),
                None => {
                    let reqs: Vec<SortRequirement> = match window_exec.required_input_ordering(0) {
                        Some(r) => r,
                        None => Vec::new(),
                    };
                    add_sort_above(&mut window_child, &reqs, None);
                    let bounded = uses_bounded_memory(window_expr);
                    let w = PlanNode::unary(
                        Operator::Window {
                            window_expr: copy_functions(window_expr),
                            partition_keys: copy_columns(&window_expr[0].partition_by),
                            bounded,
                            mode: SearchMode::Sorted,
                        },
                        window_child,
                    );
                    proof {
                        assert(functions_view(window_expr@)[0] == window_expr@[0]@);
                    }
                    Ok(Some(PlanWithCorrespondingSort::new(w)))
                },
            }
        },
        _ => Err(PlanError::KindMismatch),
    }
}

} // verus!
