use datafusion_common::arrow::compute::SortOptions as EngineSortOptions;
use datafusion_common::arrow::datatypes::{DataType, Schema};
use datafusion_expr::WindowFrame;
use datafusion_physical_expr::expressions::{cume_dist, lag, Column, RowNumber};
use datafusion_physical_expr::window::{BuiltInWindowExpr, BuiltInWindowFunctionExpr, WindowExpr};
use datafusion_physical_expr::{PhysicalExpr, PhysicalSortExpr};
use datafusion_physical_plan::memory::MemoryExec;
use datafusion_physical_plan::windows::get_best_fitting_window as engine_best_fitting_window;
use datafusion_physical_plan::windows::{BoundedWindowAggExec, PartitionSearchMode, WindowAggExec};
use datafusion_physical_plan::ExecutionPlan;
use sort_enforcement::ordering::{SortKey, SortOptions, SortRequirement};
use sort_enforcement::plan::{Operator, PlanNode, WindowFunction, SearchMode};
use sort_enforcement::window::get_best_fitting_window;
use std::sync::Arc;

fn key(expr: usize, descending: bool, nulls_first: bool) -> SortKey {
    SortKey { expr, options: SortOptions { descending, nulls_first } }
}

fn unbounded_source(ordering: Vec<SortKey>) -> Arc<PlanNode> {
    Arc::new(PlanNode {
        op: Arc::new(Operator::Source {
            label: 0,
            ordering: Some(ordering),
            partitions: 1,
            unbounded: true,
        }),
        children: vec![],
    })
}

fn function(partition_by: Vec<usize>, order_by: Vec<SortKey>) -> WindowFunction {
    WindowFunction {
        label: 0,
        partition_by,
        order_by,
        uses_bounded_memory: true,
        reversible: true,
        reverse_uses_bounded_memory: true,
        reversed: false,
    }
}

fn distinct(keys: &[SortKey]) -> Vec<SortKey> {
    let mut out: Vec<SortKey> = Vec::new();
    for k in keys {
        if !out.iter().any(|o| o.expr == k.expr) {
            out.push(*k);
        }
    }
    out
}

fn serves(partition_by: &[usize], order_by: &[SortKey], ordering: &[SortKey]) -> bool {
    let left: Vec<SortKey> =
        ordering.iter().filter(|k| !partition_by.contains(&k.expr)).copied().collect();
    let asked: Vec<SortKey> =
        order_by.iter().filter(|k| !partition_by.contains(&k.expr)).copied().collect();
    let left = distinct(&left);
    let asked = distinct(&asked);
    asked.len() <= left.len() && asked.iter().zip(left.iter()).all(|(a, l)| a == l)
}

fn reversed(order_by: &[SortKey]) -> Vec<SortKey> {
    order_by.iter().map(|k| k.reversed()).collect()
}

fn mode(partition_by: &[usize], ordering: &[SortKey]) -> String {
    let keys = distinct(ordering);
    let mut found = Vec::new();
    for k in &keys {
        match partition_by.iter().position(|c| *c == k.expr) {
            Some(i) => found.push(i),
            None => break,
        }
    }
    if found.len() == partition_by.len() {
        format!("{:?}", SearchMode::Sorted)
    } else if found.is_empty() {
        format!("{:?}", SearchMode::Linear)
    } else {
        format!("{:?}", SearchMode::PartiallySorted(found))
    }
}

fn expected(partition_by: &[usize], order_by: &[SortKey], ordering: &[SortKey]) -> Option<(bool, String)> {
    if serves(partition_by, order_by, ordering) {
        Some((false, mode(partition_by, ordering)))
    } else if serves(partition_by, &reversed(order_by), ordering) {
        Some((true, mode(partition_by, ordering)))
    } else {
        None
    }
}

fn answered(partition_by: &[usize], order_by: &[SortKey], ordering: &[SortKey]) -> Option<(bool, String)> {
    let functions = vec![function(partition_by.to_vec(), order_by.to_vec())];
    let input = unbounded_source(ordering.to_vec());
    let found = get_best_fitting_window(&functions, &input, &partition_by.to_vec()).unwrap();
    found.map(|w| match &*w.op {
        Operator::Window { window_expr, mode, bounded, .. } => {
            assert!(*bounded);
            (window_expr[0].reversed, format!("{:?}", mode))
        }
        _ => panic!("not a window"),
    })
}

fn sequences<T: Copy>(items: &[T], max_len: usize) -> Vec<Vec<T>> {
    let mut out: Vec<Vec<T>> = vec![vec![]];
    let mut last: Vec<Vec<T>> = vec![vec![]];
    for _ in 0..max_len {
        let mut next = Vec::new();
        for prefix in &last {
            for item in items {
                let mut s = prefix.clone();
                s.push(*item);
                next.push(s);
            }
        }
        out.extend(next.iter().cloned());
        last = next;
    }
    out
}

fn keys() -> Vec<SortKey> {
    let mut out = Vec::new();
    for expr in 0..3 {
        out.push(key(expr, false, true));
        out.push(key(expr, true, false));
        out.push(key(expr, false, false));
    }
    out
}

#[test]
fn window_analysis_answers_as_stated_examples() {
    let asc = |e| key(e, false, true);
    let desc = |e| key(e, true, false);
    assert_eq!(expected(&[], &[asc(0)], &[asc(0), asc(1)]), Some((false, "Sorted".to_string())));
    assert_eq!(answered(&[], &[asc(0)], &[asc(0), asc(1)]), Some((false, "Sorted".to_string())));
    assert_eq!(answered(&[], &[asc(0)], &[desc(0)]), Some((true, "Sorted".to_string())));
    assert_eq!(answered(&[], &[asc(0)], &[asc(1)]), None);
    assert_eq!(answered(&[1], &[asc(0)], &[desc(1), asc(0)]), Some((false, "Sorted".to_string())));
    assert_eq!(answered(&[1], &[asc(0)], &[asc(0), asc(1)]), Some((false, "Linear".to_string())));
    assert_eq!(
        answered(&[2, 1], &[asc(0)], &[asc(1), asc(0)]),
        Some((false, "PartiallySorted([1])".to_string()))
    );
    assert_eq!(answered(&[1, 2], &[], &[asc(2), asc(1)]), Some((false, "Sorted".to_string())));
    assert_eq!(answered(&[1, 1], &[], &[asc(1)]), Some((false, "PartiallySorted([0])".to_string())));
}

#[test]
fn window_analysis_answers_as_stated_on_all_short_inputs() {
    let partitions = sequences(&[0usize, 1, 2], 2);
    let orders = sequences(&keys(), 2);
    let orderings = sequences(&keys(), 2);
    let mut checked = 0usize;
    for partition_by in &partitions {
        for order_by in &orders {
            for ordering in &orderings {
                assert_eq!(
                    answered(partition_by, order_by, ordering),
                    expected(partition_by, order_by, ordering),
                    "partition by {:?}, order by {:?}, input {:?}",
                    partition_by,
                    order_by,
                    ordering
                );
                checked += 1;
            }
        }
    }
    assert_eq!(checked, 13 * 91 * 91);
}

#[test]
fn window_analysis_answers_as_stated_on_longer_orderings() {
    let partitions = sequences(&[0usize, 1, 2], 2);
    let orders = sequences(&keys(), 2);
    let orderings = sequences(&keys(), 3);
    let mut step = 0usize;
    for partition_by in &partitions {
        for order_by in &orders {
            for ordering in &orderings {
                step += 1;
                if step % 11 != 0 {
                    continue;
                }
                assert_eq!(
                    answered(partition_by, order_by, ordering),
                    expected(partition_by, order_by, ordering),
                    "partition by {:?}, order by {:?}, input {:?}",
                    partition_by,
                    order_by,
                    ordering
                );
            }
        }
    }
}

fn engine_column(c: usize) -> Arc<dyn PhysicalExpr> {
    Arc::new(Column::new("", c))
}

fn engine_key(k: &SortKey) -> PhysicalSortExpr {
    PhysicalSortExpr {
        expr: engine_column(k.expr),
        options: EngineSortOptions {
            descending: k.options.descending,
            nulls_first: k.options.nulls_first,
        },
    }
}

fn engine_asks(
    partition_by: &[usize],
    order_by: &[SortKey],
    ordering: &[SortKey],
    bounded: bool,
    mode: &SearchMode,
) -> Option<Vec<SortRequirement>> {
    let by: Vec<Arc<dyn PhysicalExpr>> = partition_by.iter().map(|c| engine_column(*c)).collect();
    let order: Vec<PhysicalSortExpr> = order_by.iter().map(engine_key).collect();
    let function: Arc<dyn WindowExpr> = Arc::new(BuiltInWindowExpr::new(
        Arc::new(RowNumber::new("row")),
        &by,
        &order,
        Arc::new(WindowFrame::new(!order_by.is_empty())),
    ));
    let sorted: Vec<PhysicalSortExpr> = ordering.iter().map(engine_key).collect();
    let input: Arc<dyn ExecutionPlan> = Arc::new(
        MemoryExec::try_new(&[], Arc::new(Schema::empty()), None)
            .unwrap()
            .with_sort_information(vec![sorted]),
    );
    let asked = if bounded {
        let mode = match mode {
            SearchMode::Linear => PartitionSearchMode::Linear,
            SearchMode::PartiallySorted(columns) => PartitionSearchMode::PartiallySorted(columns.clone()),
            SearchMode::Sorted => PartitionSearchMode::Sorted,
        };
        BoundedWindowAggExec::try_new(vec![function], input, by, mode)
            .unwrap()
            .required_input_ordering()
    } else {
        WindowAggExec::try_new(vec![function], input, by).unwrap().required_input_ordering()
    };
    assert_eq!(asked.len(), 1);
    asked[0].as_ref().map(|requirements| {
        requirements
            .iter()
            .map(|r| SortRequirement {
                expr: r.expr.as_any().downcast_ref::<Column>().unwrap().index(),
                options: r.options.map(|o| SortOptions {
                    descending: o.descending,
                    nulls_first: o.nulls_first,
                }),
            })
            .collect()
    })
}

fn library_asks(
    partition_by: &[usize],
    order_by: &[SortKey],
    ordering: &[SortKey],
    bounded: bool,
    mode: &SearchMode,
) -> Option<Vec<SortRequirement>> {
    let source = Arc::new(PlanNode {
        op: Arc::new(Operator::Source {
            label: 0,
            ordering: Some(ordering.to_vec()),
            partitions: 1,
            unbounded: true,
        }),
        children: vec![],
    });
    let window = PlanNode {
        op: Arc::new(Operator::Window {
            window_expr: vec![function(partition_by.to_vec(), order_by.to_vec())],
            partition_keys: partition_by.to_vec(),
            bounded,
            mode: mode.clone(),
        }),
        children: vec![source],
    };
    window.required_input_ordering(0)
}

#[test]
fn window_asks_what_the_engine_window_asks_on_all_short_inputs() {
    let columns = [0usize, 1, 2];
    let plain_keys: Vec<SortKey> = columns.iter().map(|c| key(*c, false, true)).collect();
    let order_keys: Vec<SortKey> =
        columns.iter().flat_map(|c| [key(*c, false, true), key(*c, true, false)]).collect();
    let mut compared = 0;
    let mut asked_as_the_input_has_them = 0;
    for partition_by in sequences(&columns, 2) {
        let mut variants = vec![
            (false, SearchMode::Sorted),
            (true, SearchMode::Sorted),
            (true, SearchMode::Linear),
        ];
        for positions in sequences(&[0usize, 1], 2) {
            if positions.iter().all(|p| *p < partition_by.len()) {
                variants.push((true, SearchMode::PartiallySorted(positions)));
            }
        }
        for order_by in sequences(&order_keys, 2) {
            for ordering in sequences(&plain_keys, 3) {
                for (bounded, mode) in &variants {
                    let library = library_asks(&partition_by, &order_by, &ordering, *bounded, mode);
                    let engine = engine_asks(&partition_by, &order_by, &ordering, *bounded, mode);
                    assert_eq!(
                        library, engine,
                        "{:?} {:?} {:?} {} {:?}",
                        partition_by, order_by, ordering, bounded, mode
                    );
                    compared += 1;
                    if partition_by == vec![1, 0] && ordering.len() >= 2 && ordering[0].expr == 0
                        && ordering[1].expr == 1 && *mode == SearchMode::Sorted
                    {
                        assert_eq!(library.as_ref().unwrap()[0].expr, 0);
                        asked_as_the_input_has_them += 1;
                    }
                }
            }
        }
    }
    assert!(compared > 50000);
    assert!(asked_as_the_input_has_them > 0);
}

#[derive(Clone, Copy, Debug)]
enum Kind {
    RowNumber,
    Lag,
    CumeDist,
}

fn engine_function(kind: Kind, partition_by: &[usize], order_by: &[SortKey]) -> Arc<dyn WindowExpr> {
    let by: Vec<Arc<dyn PhysicalExpr>> = partition_by.iter().map(|c| engine_column(*c)).collect();
    let order: Vec<PhysicalSortExpr> = order_by.iter().map(engine_key).collect();
    let function: Arc<dyn BuiltInWindowFunctionExpr> = match kind {
        Kind::RowNumber => Arc::new(RowNumber::new("row")),
        Kind::Lag => Arc::new(lag("lag".to_string(), DataType::Int32, engine_column(0), None, None)),
        Kind::CumeDist => Arc::new(cume_dist("share".to_string())),
    };
    Arc::new(BuiltInWindowExpr::new(
        function,
        &by,
        &order,
        Arc::new(WindowFrame::new(!order_by.is_empty())),
    ))
}

fn described_function(label: usize, expr: &Arc<dyn WindowExpr>, partition_by: &[usize], order_by: &[SortKey]) -> WindowFunction {
    let reverse = expr.get_reverse_expr();
    WindowFunction {
        label,
        partition_by: partition_by.to_vec(),
        order_by: order_by.to_vec(),
        uses_bounded_memory: expr.uses_bounded_memory(),
        reversible: reverse.is_some(),
        reverse_uses_bounded_memory: reverse.map_or(false, |r| r.uses_bounded_memory()),
        reversed: false,
    }
}

/// Whether the window runs in bounded memory, how it searches its
/// partitions, and the order keys of its first function.
type Picked = Option<(bool, String, Vec<SortKey>)>;

fn engine_picks(kinds: &[Kind], partition_by: &[usize], order_by: &[SortKey], ordering: &[SortKey]) -> Picked {
    let functions: Vec<Arc<dyn WindowExpr>> =
        kinds.iter().map(|k| engine_function(*k, partition_by, order_by)).collect();
    let sorted: Vec<PhysicalSortExpr> = ordering.iter().map(engine_key).collect();
    let input: Arc<dyn ExecutionPlan> = Arc::new(
        MemoryExec::try_new(&[], Arc::new(Schema::empty()), None)
            .unwrap()
            .with_sort_information(vec![sorted]),
    );
    let by: Vec<Arc<dyn PhysicalExpr>> = partition_by.iter().map(|c| engine_column(*c)).collect();
    let found = engine_best_fitting_window(&functions, &input, &by).unwrap();
    found.map(|plan| {
        let keys = |exprs: &[Arc<dyn WindowExpr>]| -> Vec<SortKey> {
            exprs[0]
                .order_by()
                .iter()
                .map(|k| {
                    key(
                        k.expr.as_any().downcast_ref::<Column>().unwrap().index(),
                        k.options.descending,
                        k.options.nulls_first,
                    )
                })
                .collect()
        };
        if let Some(window) = plan.as_any().downcast_ref::<BoundedWindowAggExec>() {
            (true, format!("{:?}", window.partition_search_mode), keys(window.window_expr()))
        } else {
            let window = plan.as_any().downcast_ref::<WindowAggExec>().unwrap();
            (false, format!("{:?}", PartitionSearchMode::Sorted), keys(window.window_expr()))
        }
    })
}

fn library_picks(kinds: &[Kind], partition_by: &[usize], order_by: &[SortKey], ordering: &[SortKey]) -> Picked {
    let functions: Vec<WindowFunction> = kinds
        .iter()
        .enumerate()
        .map(|(label, k)| {
            described_function(label, &engine_function(*k, partition_by, order_by), partition_by, order_by)
        })
        .collect();
    let source = Arc::new(PlanNode {
        op: Arc::new(Operator::Source {
            label: 0,
            ordering: Some(ordering.to_vec()),
            partitions: 1,
            unbounded: false,
        }),
        children: vec![],
    });
    let found = get_best_fitting_window(&functions, &source, &partition_by.to_vec()).unwrap();
    found.map(|w| match &*w.op {
        Operator::Window { window_expr, mode, bounded, .. } => {
            (*bounded, format!("{:?}", mode), window_expr[0].order_by.clone())
        }
        _ => panic!("not a window"),
    })
}

#[test]
fn window_is_picked_as_the_engine_picks_it_on_all_short_bounded_inputs() {
    let columns = [0usize, 1];
    let all_keys: Vec<SortKey> =
        columns.iter().flat_map(|c| [key(*c, false, true), key(*c, true, false)]).collect();
    let sets: [&[Kind]; 5] = [
        &[Kind::RowNumber],
        &[Kind::Lag],
        &[Kind::CumeDist],
        &[Kind::Lag, Kind::RowNumber],
        &[Kind::Lag, Kind::Lag],
    ];
    let mut compared = 0;
    let mut picked = 0;
    let mut turned = 0;
    for partition_by in sequences(&columns, 2) {
        for order_by in sequences(&all_keys, 2) {
            for ordering in sequences(&all_keys, 3) {
                for kinds in sets.iter() {
                    let library = library_picks(kinds, &partition_by, &order_by, &ordering);
                    let engine = engine_picks(kinds, &partition_by, &order_by, &ordering);
                    assert_eq!(
                        library, engine,
                        "{:?} {:?} {:?} {:?}",
                        kinds, partition_by, order_by, ordering
                    );
                    compared += 1;
                    if let Some((_, _, keys)) = &library {
                        picked += 1;
                        if *keys != order_by {
                            turned += 1;
                        }
                    }
                }
            }
        }
    }
    assert!(compared > 10000);
    assert!(picked > 1000);
    assert!(turned > 100);
}
