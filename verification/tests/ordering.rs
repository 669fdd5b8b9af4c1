use sort_enforcement::attributes::{calc_requirements, copy_requirements, shared_prefix};
use sort_enforcement::ordering::{
    copy_keys, reverse_order_bys, SortKey, SortOptions, SortRequirement,
};
use sort_enforcement::plan::{Operator, PlanNode};
use std::sync::Arc;

fn key(expr: usize, descending: bool, nulls_first: bool) -> SortKey {
    SortKey { expr, options: SortOptions { descending, nulls_first } }
}

fn exact(expr: usize, descending: bool, nulls_first: bool) -> SortRequirement {
    SortRequirement { expr, options: Some(SortOptions { descending, nulls_first }) }
}

fn any_direction(expr: usize) -> SortRequirement {
    SortRequirement { expr, options: None }
}

fn source(ordering: Option<Vec<SortKey>>) -> Arc<PlanNode> {
    Arc::new(PlanNode {
        op: Arc::new(Operator::Source { label: 0, ordering, partitions: 1, unbounded: false }),
        children: vec![],
    })
}

fn distinct_keys(keys: &[SortKey]) -> Vec<SortKey> {
    let mut out: Vec<SortKey> = Vec::new();
    for k in keys {
        if !out.iter().any(|o| o.expr == k.expr) {
            out.push(*k);
        }
    }
    out
}

fn distinct_requirements(reqs: &[SortRequirement]) -> Vec<SortRequirement> {
    let mut out: Vec<SortRequirement> = Vec::new();
    for r in reqs {
        if !out.iter().any(|o| o.expr == r.expr) {
            out.push(*r);
        }
    }
    out
}

fn expected_met(ordering: &[SortKey], reqs: &[SortRequirement]) -> bool {
    let o = distinct_keys(ordering);
    let r = distinct_requirements(reqs);
    r.len() <= o.len()
        && r.iter().zip(o.iter()).all(|(r, o)| {
            r.expr == o.expr && r.options.map_or(true, |options| options == o.options)
        })
}

fn all_keys(columns: usize) -> Vec<SortKey> {
    let mut out = Vec::new();
    for expr in 0..columns {
        for descending in [false, true] {
            for nulls_first in [false, true] {
                out.push(key(expr, descending, nulls_first));
            }
        }
    }
    out
}

fn all_requirements(columns: usize) -> Vec<SortRequirement> {
    let mut out = Vec::new();
    for expr in 0..columns {
        out.push(any_direction(expr));
        for descending in [false, true] {
            for nulls_first in [false, true] {
                out.push(exact(expr, descending, nulls_first));
            }
        }
    }
    out
}

fn sequences<T: Copy>(items: &[T], max_len: usize) -> Vec<Vec<T>> {
    let mut out: Vec<Vec<T>> = vec![vec![]];
    let mut last: Vec<Vec<T>> = vec![vec![]];
    for _ in 0..max_len {
        let mut next = Vec::new();
        for prefix in &last {
            for item in items {
                let mut s = prefix.clone();
                s.push(*item);
                next.push(s);
            }
        }
        out.extend(next.iter().cloned());
        last = next;
    }
    out
}

#[test]
fn from_sort_exprs_asks_for_exactly_the_keys() {
    let keys = vec![key(3, true, false), key(1, false, true)];
    assert_eq!(
        SortRequirement::from_sort_exprs(&keys),
        vec![exact(3, true, false), exact(1, false, true)]
    );
    assert_eq!(SortRequirement::from_sort_exprs(&vec![]), vec![]);
}

#[test]
fn to_sort_exprs_defaults_to_ascending_nulls_last() {
    let reqs = vec![any_direction(2), exact(0, true, true)];
    assert_eq!(
        SortRequirement::to_sort_exprs(&reqs),
        vec![key(2, false, false), key(0, true, true)]
    );
}

#[test]
fn reversed_key_flips_direction_and_null_placement() {
    assert_eq!(key(4, false, true).reversed(), key(4, true, false));
    assert_eq!(
        reverse_order_bys(&vec![key(0, false, false), key(1, true, false)]),
        vec![key(0, true, true), key(1, false, true)]
    );
}

#[test]
fn copies_are_equal() {
    let keys = vec![key(0, false, true), key(7, true, true)];
    assert_eq!(copy_keys(&keys), keys);
    let reqs = vec![any_direction(0), exact(7, true, true)];
    assert_eq!(copy_requirements(&reqs), reqs);
}

#[test]
fn shared_prefix_stops_at_first_difference() {
    let a = vec![key(0, false, true), key(1, false, true), key(2, false, true)];
    let b = vec![key(0, false, true), key(1, true, true), key(2, false, true)];
    assert_eq!(shared_prefix(&a, &b), vec![key(0, false, true)]);
    assert_eq!(shared_prefix(&a, &a[..2].to_vec()), a[..2].to_vec());
    assert_eq!(shared_prefix(&b, &vec![]), vec![]);
    assert_eq!(shared_prefix(&vec![key(1, false, true)], &a), vec![]);
}

#[test]
fn window_requirement_is_partition_columns_then_new_order_keys() {
    let reqs = calc_requirements(&vec![5, 2], &vec![key(2, true, true), key(9, false, false), key(9, true, true)]);
    assert_eq!(reqs, vec![any_direction(5), any_direction(2), exact(9, false, false)]);
    assert_eq!(calc_requirements(&vec![], &vec![]), vec![]);
}

#[test]
fn ordering_meets_its_own_prefixes_only() {
    let sorted = source(Some(vec![key(0, false, true), key(1, true, false)]));
    assert!(sorted.ordering_satisfy(&vec![]));
    assert!(sorted.ordering_satisfy(&vec![key(0, false, true)]));
    assert!(sorted.ordering_satisfy(&vec![key(0, false, true), key(1, true, false)]));
    assert!(!sorted.ordering_satisfy(&vec![key(1, true, false)]));
    assert!(!sorted.ordering_satisfy(&vec![key(0, false, false)]));
    assert!(!sorted.ordering_satisfy(&vec![key(0, true, true)]));
    assert!(!sorted.ordering_satisfy(&vec![
        key(0, false, true),
        key(1, true, false),
        key(2, false, true)
    ]));
    let unsorted = source(None);
    assert!(unsorted.ordering_satisfy(&vec![]));
    assert!(!unsorted.ordering_satisfy(&vec![key(0, false, true)]));
}

#[test]
fn requirement_without_options_accepts_any_direction() {
    let sorted = source(Some(vec![key(0, true, false), key(1, false, true)]));
    assert!(sorted.ordering_satisfy_requirement(&vec![any_direction(0)]));
    assert!(sorted.ordering_satisfy_requirement(&vec![any_direction(0), exact(1, false, true)]));
    assert!(!sorted.ordering_satisfy_requirement(&vec![any_direction(1)]));
    assert!(!sorted.ordering_satisfy_requirement(&vec![any_direction(0), exact(1, true, true)]));
}

#[test]
fn repeated_columns_are_dropped_before_comparing() {
    let sorted = source(Some(vec![key(0, false, true), key(0, true, true), key(1, false, true)]));
    assert!(sorted.ordering_satisfy_requirement(&vec![exact(0, false, true), exact(1, false, true)]));
    assert!(sorted.ordering_satisfy_requirement(&vec![
        exact(0, false, true),
        exact(0, true, false),
        exact(1, false, true)
    ]));
    assert!(!sorted.ordering_satisfy_requirement(&vec![exact(0, true, true)]));
}

#[test]
fn engine_agrees_with_the_stated_rule_on_all_short_inputs() {
    let orderings = sequences(&all_keys(2), 3);
    let requirements = sequences(&all_requirements(2), 2);
    let mut checked = 0usize;
    for ordering in &orderings {
        let plan = source(Some(ordering.clone()));
        for reqs in &requirements {
            assert_eq!(
                plan.ordering_satisfy_requirement(reqs),
                expected_met(ordering, reqs),
                "ordering {:?}, requirement {:?}",
                ordering,
                reqs
            );
            checked += 1;
        }
    }
    assert_eq!(checked, 585 * 111);
}

#[test]
fn engine_agrees_with_the_stated_rule_on_longer_requirements() {
    let orderings = sequences(&all_keys(3), 2);
    let requirements = sequences(&all_requirements(3), 3);
    let mut step = 0usize;
    for ordering in &orderings {
        let plan = source(Some(ordering.clone()));
        for reqs in &requirements {
            step += 1;
            if step % 7 != 0 {
                continue;
            }
            assert_eq!(
                plan.ordering_satisfy_requirement(reqs),
                expected_met(ordering, reqs),
                "ordering {:?}, requirement {:?}",
                ordering,
                reqs
            );
        }
    }
}
