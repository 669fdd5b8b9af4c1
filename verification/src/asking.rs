//! What a window asks of its input, as the ordering of the input changes.

use crate::engine::{
    first_position, leading_columns, leading_positions, outside_keys, outside_requirements,
    serves_window,
};
use crate::model::{
    columns_at, leading_run, ordered_partition_columns, window_asks, window_requirement,
    OperatorView, PlanView, SearchModeView,
};
use crate::ordering::{
    distinct_keys, distinct_requirements, exact_requirement, exact_requirements, key_meets,
    keys_mention, requirement_met, requirements_mention, SortKey, SortRequirement,
};
use vstd::prelude::*;

verus! {

/// Whether the operator is a window that runs in bounded memory and does
/// not take its partitions as sorted.
pub open spec fn searches_unsorted(op: OperatorView) -> bool {
    match op {
        OperatorView::Window { bounded, mode, .. } => bounded && !(mode is Sorted),
        _ => false,
    }
}

/// Whether every window in the plan takes its partitions as sorted.
pub open spec fn sorted_windows(plan: PlanView) -> bool
    decreases plan,
{
    &&& !searches_unsorted(plan.op)
    &&& forall|i: int| 0 <= i < plan.children.len() ==> sorted_windows(#[trigger] plan.children[i])
}

/// No two of the keys that are left when repeated columns are dropped
/// name the same column.
pub proof fn lemma_distinct_keys_apart(s: Seq<SortKey>)
    ensures
        distinct_keys(s).len() <= s.len(),
        forall|i: int, j: int|
            0 <= i < j < distinct_keys(s).len() ==> distinct_keys(s)[i].expr != distinct_keys(
                s,
            )[j].expr,
    decreases s.len(),
{
    if s.len() > 0 {
        lemma_distinct_keys_apart(s.drop_last());
    }
}

/// The leading keys whose column is among `columns` are as many as
/// `leading_columns` counts, and the key after them names another column.
pub proof fn lemma_leading_columns(keys: Seq<SortKey>, columns: Seq<usize>)
    ensures
        leading_columns(keys, columns) <= keys.len(),
        forall|i: int|
            0 <= i < leading_columns(keys, columns) ==> columns.contains((#[trigger] keys[i]).expr),
        leading_columns(keys, columns) < keys.len() ==> !columns.contains(
            keys[leading_columns(keys, columns) as int].expr,
        ),
    decreases keys.len(),
{
    if keys.len() > 0 && columns.contains(keys[0].expr) {
        let rest = keys.drop_first();
        lemma_leading_columns(rest, columns);
        assert forall|i: int| 0 <= i < leading_columns(keys, columns) implies columns.contains(
            (#[trigger] keys[i]).expr,
        ) by {
            if i > 0 {
                assert(keys[i] == rest[i - 1]);
            }
        }
        if leading_columns(keys, columns) < keys.len() {
            assert(keys[leading_columns(keys, columns) as int] == rest[leading_columns(
                rest,
                columns,
            ) as int]);
        }
    }
}

/// If the first `n` keys all name one of the columns, at least `n` keys
/// lead.
pub proof fn lemma_leading_columns_at_least(keys: Seq<SortKey>, columns: Seq<usize>, n: nat)
    requires
        n <= keys.len(),
        forall|i: int| 0 <= i < n ==> columns.contains((#[trigger] keys[i]).expr),
    ensures
        leading_columns(keys, columns) >= n,
    decreases n,
{
    if n > 0 {
        let rest = keys.drop_first();
        assert(columns.contains(keys[0].expr));
        assert forall|i: int| 0 <= i < n - 1 implies columns.contains((#[trigger] rest[i]).expr) by {
            assert(rest[i] == keys[i + 1]);
        }
        lemma_leading_columns_at_least(rest, columns, (n - 1) as nat);
    }
}

/// The partition columns that an ordering starts with are all different
/// and are partition columns, so there are no more of them than there are
/// partition columns. Where there are as many, no partition column is
/// repeated and every one of them is among those that the ordering starts
/// with.
pub proof fn lemma_leading_run(partition_by: Seq<usize>, o: Seq<SortKey>)
    ensures
        leading_run(partition_by, o).no_duplicates(),
        forall|i: int|
            0 <= i < leading_run(partition_by, o).len() ==> partition_by.contains(
                #[trigger] leading_run(partition_by, o)[i],
            ),
        leading_run(partition_by, o).len() <= partition_by.len(),
        leading_run(partition_by, o).len() <= distinct_keys(o).len(),
        leading_run(partition_by, o).len() == partition_by.len() ==> partition_by.no_duplicates()
            && forall|e: usize|
            partition_by.contains(e) ==> leading_run(partition_by, o).contains(e),
{
    let keys = distinct_keys(o);
    let run = leading_run(partition_by, o);
    lemma_distinct_keys_apart(o);
    lemma_leading_columns(keys, partition_by);
    assert(run.no_duplicates());
    assert forall|i: int| 0 <= i < run.len() implies partition_by.contains(#[trigger] run[i]) by {
        assert(partition_by.contains(keys[i].expr));
    }
    assert(run.to_set().subset_of(partition_by.to_set())) by {
        assert forall|e: usize| run.to_set().contains(e) implies partition_by.to_set().contains(
            e,
        ) by {
            let i = choose|i: int| 0 <= i < run.len() && run[i] == e;
            assert(partition_by.contains(run[i]));
        }
    }
    vstd::seq_lib::seq_to_set_is_finite(partition_by);
    vstd::seq_lib::seq_to_set_is_finite(run);
    vstd::set_lib::lemma_len_subset(run.to_set(), partition_by.to_set());
    run.unique_seq_to_set();
    partition_by.lemma_cardinality_of_set();
    if run.len() == partition_by.len() {
        partition_by.lemma_no_dup_set_cardinality();
        vstd::set_lib::lemma_subset_equality(run.to_set(), partition_by.to_set());
        assert forall|e: usize| partition_by.contains(e) implies run.contains(e) by {
            assert(partition_by.to_set().contains(e));
            assert(run.to_set().contains(e));
        }
    }
}

/// A column that is among `columns` is found at its first position.
pub proof fn lemma_first_position(columns: Seq<usize>, column: usize)
    requires
        columns.contains(column),
    ensures
        first_position(columns, column) < columns.len(),
        columns[first_position(columns, column) as int] == column,
    decreases columns.len(),
{
    if columns[0] != column {
        let rest = columns.drop_first();
        let i = choose|i: int| 0 <= i < columns.len() && columns[i] == column;
        assert(rest[i - 1] == column);
        lemma_first_position(rest, column);
        let at = first_position(rest, column) as int;
        assert(rest[at] == columns[at + 1]);
    }
}

/// The columns at positions that each name a column are those columns.
pub proof fn lemma_columns_at(partition_by: Seq<usize>, positions: Seq<usize>, columns: Seq<usize>)
    requires
        positions.len() == columns.len(),
        forall|i: int|
            0 <= i < positions.len() ==> (#[trigger] positions[i]) < partition_by.len()
                && partition_by[positions[i] as int] == columns[i],
    ensures
        columns_at(partition_by, positions) == columns,
    decreases positions.len(),
{
    if positions.len() > 0 {
        lemma_columns_at(partition_by, positions.drop_last(), columns.drop_last());
        assert(positions.last() == positions[positions.len() - 1]);
        assert(columns_at(partition_by, positions) =~= columns);
    } else {
        assert(columns_at(partition_by, positions) =~= columns);
    }
}

/// The partition columns at the positions of those that an ordering starts
/// with are the columns that it starts with.
pub proof fn lemma_columns_at_leading_positions(partition_by: Seq<usize>, o: Seq<SortKey>)
    requires
        partition_by.len() <= usize::MAX,
    ensures
        columns_at(partition_by, leading_positions(partition_by, o)) == leading_run(partition_by, o),
        leading_positions(partition_by, o).len() == leading_run(partition_by, o).len(),
{
    let keys = distinct_keys(o);
    lemma_leading_columns(keys, partition_by);
    let positions = leading_positions(partition_by, o);
    let run = leading_run(partition_by, o);
    assert forall|i: int| 0 <= i < positions.len() implies (#[trigger] positions[i])
        < partition_by.len() && partition_by[positions[i] as int] == run[i] by {
        assert(partition_by.contains(keys[i].expr));
        lemma_first_position(partition_by, keys[i].expr);
    }
    lemma_columns_at(partition_by, positions, run);
}

/// The requirement of a window starts with the columns that the window
/// asks for, in any direction, and names a column if the window has an
/// order key.
pub proof fn lemma_window_requirement_front(columns: Seq<usize>, order_by: Seq<SortKey>)
    ensures
        window_requirement(columns, order_by).len() >= columns.len(),
        window_requirement(columns, order_by).len() <= columns.len() + order_by.len(),
        forall|i: int|
            0 <= i < columns.len() ==> #[trigger] window_requirement(columns, order_by)[i] == (
            SortRequirement { expr: columns[i], options: None }),
        order_by.len() > 0 ==> window_requirement(columns, order_by).len() > 0,
    decreases order_by.len(),
{
    if order_by.len() > 0 {
        lemma_window_requirement_front(columns, order_by.drop_last());
        let front = window_requirement(columns, order_by.drop_last());
        if front.len() == 0 {
            assert(!requirements_mention(front, order_by.last().expr));
        }
    }
}

/// The columns that a window that takes its partitions as sorted asks
/// for: those that its input starts with, if they are as many as the
/// partition columns, else the partition columns as they are declared.
pub proof fn lemma_sorted_window_columns(
    partition_by: Seq<usize>,
    bounded: bool,
    mode: SearchModeView,
    o: Seq<SortKey>,
)
    requires
        !bounded || mode is Sorted,
    ensures
        ordered_partition_columns(partition_by, bounded, mode, o) == if leading_run(
            partition_by,
            o,
        ).len() == partition_by.len() {
            leading_run(partition_by, o)
        } else {
            partition_by
        },
        ordered_partition_columns(partition_by, bounded, mode, o).len() == partition_by.len(),
{
    lemma_leading_run(partition_by, o);
}

/// Whether a window asks anything of its input does not depend on how the
/// input is ordered.
pub proof fn lemma_asks_nothing_of_any_input(op: OperatorView, a: Seq<SortKey>, b: Seq<SortKey>)
    ensures
        window_asks(op, a) is None <==> window_asks(op, b) is None,
{
    match op {
        OperatorView::Window { window_expr, bounded, mode, .. } => {
            if window_expr.len() > 0 {
                let by = window_expr[0].partition_by;
                let order_by = window_expr[0].order_by;
                let ca = ordered_partition_columns(by, bounded, mode, a);
                let cb = ordered_partition_columns(by, bounded, mode, b);
                lemma_window_requirement_front(ca, order_by);
                lemma_window_requirement_front(cb, order_by);
                if !bounded || mode is Sorted {
                    lemma_sorted_window_columns(by, bounded, mode, a);
                    lemma_sorted_window_columns(by, bounded, mode, b);
                }
                assert(ca.len() == 0 <==> cb.len() == 0);
            }
        },
        _ => {},
    }
}

/// Two windows with the same functions that take their partitions as
/// sorted ask the same of the same input.
pub proof fn lemma_sorted_windows_ask_alike(a: OperatorView, b: OperatorView, o: Seq<SortKey>)
    requires
        a is Window,
        b is Window,
        a->window_expr == b->window_expr,
        !searches_unsorted(a),
        !searches_unsorted(b),
    ensures
        window_asks(a, o) == window_asks(b, o),
{
    if a->window_expr.len() > 0 {
        let by = a->window_expr[0].partition_by;
        lemma_sorted_window_columns(by, a->bounded, a->mode, o);
        lemma_sorted_window_columns(by, b->bounded, b->mode, o);
    }
}

/// Dropping repeated columns makes a requirement no longer and keeps, as
/// they are, the requirements at its front that name different columns.
pub proof fn lemma_distinct_front(s: Seq<SortRequirement>, n: nat)
    requires
        n <= s.len(),
        forall|i: int, j: int| 0 <= i < j < n ==> s[i].expr != s[j].expr,
    ensures
        distinct_requirements(s).len() <= s.len(),
        distinct_requirements(s).len() >= n,
        forall|i: int| 0 <= i < n ==> #[trigger] distinct_requirements(s)[i] == s[i],
        n == s.len() ==> distinct_requirements(s) == s,
    decreases s.len(),
{
    if s.len() > 0 {
        let front = s.drop_last();
        if n < s.len() {
            lemma_distinct_front(front, n);
        } else {
            lemma_distinct_front(front, (n - 1) as nat);
            if requirements_mention(front, s.last().expr) {
                let i = choose|i: int| 0 <= i < front.len() && front[i].expr == s.last().expr;
                assert(s[i].expr != s[n - 1].expr);
            }
            assert(distinct_requirements(s) =~= s);
        }
    } else {
        assert(distinct_requirements(s) =~= s);
    }
}

/// Of input that meets what a window asks of input in some ordering, the
/// window asks the same.
pub proof fn lemma_asks_the_same_of_input_that_meets(
    op: OperatorView,
    before: Seq<SortKey>,
    after: Seq<SortKey>,
)
    requires
        window_asks(op, before) is Some,
        requirement_met(after, window_asks(op, before)->0),
    ensures
        window_asks(op, after) == window_asks(op, before),
{
    if !searches_unsorted(op) {
        let by = op->window_expr[0].partition_by;
        let order_by = op->window_expr[0].order_by;
        lemma_sorted_window_columns(by, op->bounded, op->mode, before);
        lemma_sorted_window_columns(by, op->bounded, op->mode, after);
        lemma_leading_run(by, before);
        lemma_leading_run(by, after);
        let asked = ordered_partition_columns(by, op->bounded, op->mode, before);
        let required = window_requirement(asked, order_by);
        let keys = distinct_keys(after);
        let run = leading_run(by, after);
        lemma_window_requirement_front(asked, order_by);
        if leading_run(by, before).len() == by.len() || run.len() == by.len() {
            assert(asked.no_duplicates());
            assert forall|i: int, j: int| 0 <= i < j < by.len() implies required[i].expr
                != required[j].expr by {
                assert(required[i].expr == asked[i]);
                assert(required[j].expr == asked[j]);
            }
            lemma_distinct_front(required, by.len());
            let met = distinct_requirements(required);
            assert forall|i: int| 0 <= i < by.len() implies by.contains((#[trigger] keys[i]).expr) by {
                assert(key_meets(keys[i], met[i]));
                assert(met[i] == required[i]);
                assert(required[i].expr == asked[i]);
                if leading_run(by, before).len() == by.len() {
                    assert(by.contains(leading_run(by, before)[i]));
                } else {
                    assert(asked[i] == by[i]);
                }
            }
            lemma_leading_columns_at_least(keys, by, by.len());
            assert(run.len() == by.len());
            assert forall|i: int| 0 <= i < by.len() implies run[i] == asked[i] by {
                assert(key_meets(keys[i], met[i]));
                assert(met[i] == required[i]);
                assert(required[i].expr == asked[i]);
            }
            assert(run =~= asked);
        }
    }
}

/// Dropping repeated columns and leaving out the keys of some columns can
/// be done in either order.
pub proof fn lemma_distinct_keys_filtered(o: Seq<SortKey>, by: Seq<usize>)
    ensures
        distinct_keys(o.filter(outside_keys(by))) == distinct_keys(o).filter(outside_keys(by)),
    decreases o.len(),
{
    let pred = outside_keys(by);
    if o.len() > 0 {
        let front = o.drop_last();
        let k = o.last();
        lemma_distinct_keys_filtered(front, by);
        assert(front.push(k) =~= o);
        front.lemma_filter_push(k, pred);
        let df = distinct_keys(front);
        df.lemma_filter_push(k, pred);
        let fl = distinct_keys(front.filter(pred));
        if pred(k) {
            assert(front.filter(pred).push(k).drop_last() =~= front.filter(pred));
            if keys_mention(fl, k.expr) {
                let i = choose|i: int| 0 <= i < fl.len() && fl[i].expr == k.expr;
                assert(df.filter(pred).contains(fl[i]));
                df.lemma_filter_contains_rev(pred, fl[i]);
                let j = choose|j: int| 0 <= j < df.len() && df[j] == fl[i];
                assert(df[j].expr == k.expr);
            }
            if keys_mention(df, k.expr) {
                let j = choose|j: int| 0 <= j < df.len() && df[j].expr == k.expr;
                assert(pred(df[j]));
                df.lemma_filter_contains(pred, j);
                let i = choose|i: int| 0 <= i < fl.len() && fl[i] == df[j];
                assert(fl[i].expr == k.expr);
            }
            assert(distinct_keys(o.filter(pred)) =~= distinct_keys(o).filter(pred));
        } else {
            assert(distinct_keys(o.filter(pred)) =~= distinct_keys(o).filter(pred));
        }
    } else {
        o.lemma_filter_len(pred);
        assert(distinct_keys(o.filter(pred)) =~= distinct_keys(o).filter(pred));
    }
}

/// Leaving out the keys at the front of a sequence, where those are the
/// keys to leave out, leaves the rest of the sequence.
pub proof fn lemma_filter_after_run(s: Seq<SortKey>, pred: spec_fn(SortKey) -> bool, n: nat)
    requires
        n <= s.len(),
        forall|i: int| 0 <= i < n ==> !pred(#[trigger] s[i]),
        forall|i: int| n <= i < s.len() ==> pred(#[trigger] s[i]),
    ensures
        s.filter(pred) == s.skip(n as int),
    decreases s.len(),
{
    if s.len() > n {
        let front = s.drop_last();
        lemma_filter_after_run(front, pred, n);
        assert(front.push(s.last()) =~= s);
        front.lemma_filter_push(s.last(), pred);
        assert(s.filter(pred) =~= s.skip(n as int));
    } else {
        if s.filter(pred).len() > 0 {
            let x = s.filter(pred)[0];
            s.lemma_filter_pred(pred, 0);
            assert(s.filter(pred).contains(x));
            s.lemma_filter_contains_rev(pred, x);
            let j = choose|j: int| 0 <= j < s.len() && s[j] == x;
            assert(!pred(s[j]));
        }
        assert(s.filter(pred) =~= s.skip(n as int));
    }
}

/// The requirement of a window that asks for all its partition columns
/// names no column twice, and goes on after those columns with the exact
/// requirement of its order keys, less repeated columns and partition
/// columns.
pub proof fn lemma_window_requirement_tail(
    columns: Seq<usize>,
    by: Seq<usize>,
    order_by: Seq<SortKey>,
)
    requires
        columns.no_duplicates(),
        forall|e: usize| columns.contains(e) <==> by.contains(e),
    ensures
        ({
            let w = window_requirement(columns, order_by);
            let b = distinct_requirements(
                exact_requirements(order_by).filter(outside_requirements(by)),
            );
            &&& w.len() == columns.len() + b.len()
            &&& forall|j: int| 0 <= j < b.len() ==> w[columns.len() + j] == #[trigger] b[j]
            &&& forall|j: int| 0 <= j < b.len() ==> !by.contains((#[trigger] b[j]).expr)
            &&& forall|i: int, j: int| 0 <= i < j < w.len() ==> w[i].expr != w[j].expr
        }),
    decreases order_by.len(),
{
    lemma_window_requirement_front(columns, order_by);
    let pred = outside_requirements(by);
    let w = window_requirement(columns, order_by);
    let b = distinct_requirements(exact_requirements(order_by).filter(pred));
    if order_by.len() > 0 {
        let ob = order_by.drop_last();
        let k = order_by.last();
        let x = exact_requirement(k);
        lemma_window_requirement_tail(columns, by, ob);
        lemma_window_requirement_front(columns, ob);
        let front = window_requirement(columns, ob);
        let ef = exact_requirements(ob);
        assert(exact_requirements(order_by) =~= ef.push(x));
        ef.lemma_filter_push(x, pred);
        let bf = distinct_requirements(ef.filter(pred));
        if by.contains(k.expr) {
            assert(columns.contains(k.expr));
            let i = choose|i: int| 0 <= i < columns.len() && columns[i] == k.expr;
            assert(front[i].expr == k.expr);
            assert(w == front);
            assert(b == bf);
        } else {
            assert(ef.filter(pred).push(x).drop_last() =~= ef.filter(pred));
            if requirements_mention(front, k.expr) {
                let i = choose|i: int| 0 <= i < front.len() && front[i].expr == k.expr;
                if i < columns.len() {
                    assert(front[i].expr == columns[i]);
                    assert(columns.contains(columns[i]));
                } else {
                    assert(front[columns.len() + (i - columns.len())] == bf[i - columns.len()]);
                }
            }
            if requirements_mention(bf, k.expr) {
                let j = choose|j: int| 0 <= j < bf.len() && bf[j].expr == k.expr;
                assert(front[columns.len() + j] == bf[j]);
            }
            if requirements_mention(front, k.expr) {
                assert(w == front);
                assert(b == bf);
            } else {
                assert(w == front.push(x));
                assert(b == bf.push(x));
                assert forall|j: int| 0 <= j < b.len() implies w[columns.len() + j]
                    == #[trigger] b[j] by {
                    if j < bf.len() {
                        assert(front[columns.len() + j] == bf[j]);
                    }
                }
                assert forall|i: int, j: int| 0 <= i < j < w.len() implies w[i].expr
                    != w[j].expr by {
                    if j == w.len() - 1 {
                        assert(front[i].expr != k.expr);
                    }
                }
            }
        }
    } else {
        exact_requirements(order_by).lemma_filter_len(pred);
        assert(exact_requirements(order_by).filter(pred) =~= Seq::empty());
        assert forall|i: int, j: int| 0 <= i < j < w.len() implies w[i].expr != w[j].expr by {
            assert(w[i].expr == columns[i]);
            assert(w[j].expr == columns[j]);
        }
    }
}

/// Input that serves a window, and starts with as many of its partition
/// columns as there are, meets what the window asks if the window takes
/// its partitions as sorted.
pub proof fn lemma_served_sorted_window_is_met(op: OperatorView, o: Seq<SortKey>)
    requires
        op is Window,
        op->window_expr.len() > 0,
        !searches_unsorted(op),
        leading_run(op->window_expr[0].partition_by, o).len()
            == op->window_expr[0].partition_by.len(),
        serves_window(op->window_expr[0].partition_by, op->window_expr[0].order_by, o),
    ensures
        window_asks(op, o) matches Some(required) ==> requirement_met(o, required),
{
    let by = op->window_expr[0].partition_by;
    let order_by = op->window_expr[0].order_by;
    let run = leading_run(by, o);
    let keys = distinct_keys(o);
    let n = by.len();
    lemma_sorted_window_columns(by, op->bounded, op->mode, o);
    lemma_leading_run(by, o);
    lemma_distinct_keys_apart(o);
    lemma_leading_columns(keys, by);
    assert forall|e: usize| run.contains(e) <==> by.contains(e) by {
        if run.contains(e) {
            let i = choose|i: int| 0 <= i < run.len() && run[i] == e;
            assert(by.contains(run[i]));
        }
    }
    let required = window_requirement(run, order_by);
    lemma_window_requirement_front(run, order_by);
    lemma_window_requirement_tail(run, by, order_by);
    lemma_distinct_front(required, required.len());
    assert forall|i: int| n <= i < keys.len() implies outside_keys(by)(#[trigger] keys[i]) by {
        if by.contains(keys[i].expr) {
            assert(run.contains(keys[i].expr));
            let j = choose|j: int| 0 <= j < run.len() && run[j] == keys[i].expr;
            assert(keys[j].expr == keys[i].expr);
        }
    }
    assert forall|i: int| 0 <= i < n implies !outside_keys(by)(#[trigger] keys[i]) by {
        assert(by.contains(keys[i].expr));
    }
    lemma_filter_after_run(keys, outside_keys(by), n);
    lemma_distinct_keys_filtered(o, by);
    let left = distinct_keys(o.filter(outside_keys(by)));
    let asked = distinct_requirements(
        exact_requirements(order_by).filter(outside_requirements(by)),
    );
    assert(left == keys.skip(n as int));
    assert(asked.len() <= left.len());
    assert forall|i: int| 0 <= i < required.len() implies key_meets(
        #[trigger] keys[i],
        required[i],
    ) by {
        if i < n {
            assert(required[i].expr == run[i]);
        } else {
            assert(required[n + (i - n)] == asked[i - n]);
            assert(left[i - n] == keys[i]);
            assert(key_meets(left[i - n], asked[i - n]));
        }
    }
}

} // verus!
