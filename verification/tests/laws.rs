use sort_enforcement::enforce::analyze_immediate_sort_removal;
use sort_enforcement::lineage::{no_lineage, PlanWithCorrespondingSort};
use sort_enforcement::model::{Distribution, PartitionSource};
use sort_enforcement::optimizer::{enforce_sorting_pass, EnforceSorting};
use sort_enforcement::ordering::{SortKey, SortOptions, SortRequirement};
use sort_enforcement::plan::{
    InputContract, Operator, Partitioning, PlanNode, SearchMode, WindowFunction,
};
use std::sync::Arc;

fn asc(expr: usize) -> SortKey {
    SortKey { expr, options: SortOptions { descending: false, nulls_first: true } }
}

fn node(op: Operator, children: Vec<Arc<PlanNode>>) -> Arc<PlanNode> {
    Arc::new(PlanNode { op: Arc::new(op), children })
}

fn source(partitions: usize, ordering: Option<Vec<SortKey>>) -> Arc<PlanNode> {
    node(Operator::Source { label: 0, ordering, partitions, unbounded: false }, vec![])
}

fn other(
    required_ordering: Option<Vec<SortRequirement>>,
    distribution: Distribution,
    maintains_order: bool,
    input: Arc<PlanNode>,
) -> Arc<PlanNode> {
    node(
        Operator::Other {
            label: 1,
            inputs: vec![InputContract { required_ordering, distribution, maintains_order }],
            ordering_from: if maintains_order { Some(0) } else { None },
            partitions: if distribution == Distribution::SinglePartition {
                PartitionSource::Fixed(1)
            } else {
                PartitionSource::Input(0)
            },
        },
        vec![input],
    )
}

struct Dice(u64);

impl Dice {
    fn roll(&mut self, sides: u64) -> u64 {
        self.0 = self.0.wrapping_mul(6364136223846793005).wrapping_add(1442695040888963407);
        (self.0 >> 33) % sides
    }
}

fn some_keys(dice: &mut Dice) -> Vec<SortKey> {
    match dice.roll(5) {
        0 => vec![asc(0)],
        1 => vec![asc(1)],
        2 => vec![asc(0), asc(1)],
        3 => vec![SortKey { expr: 0, options: SortOptions { descending: true, nulls_first: false } }],
        _ => vec![asc(1), asc(0)],
    }
}

fn yields_single_partition(plan: &PlanNode) -> bool {
    match &*plan.op {
        Operator::Source { partitions, .. } => *partitions <= 1,
        Operator::Sort { preserve_partitioning, .. } => !*preserve_partitioning,
        Operator::SortPreservingMerge { .. } => true,
        Operator::CoalescePartitions => true,
        Operator::Repartition { partitioning, .. } => partitioning.partition_count() <= 1,
        Operator::GlobalLimit { .. } => true,
        Operator::Other { partitions, .. } => matches!(partitions, PartitionSource::Fixed(n) if *n <= 1),
        _ => false,
    }
}

fn guarded(input: Arc<PlanNode>) -> Arc<PlanNode> {
    if yields_single_partition(&input) {
        input
    } else {
        node(Operator::CoalescePartitions, vec![input])
    }
}

fn some_plan(dice: &mut Dice, depth: u32) -> Arc<PlanNode> {
    if depth == 0 {
        let partitions = if dice.roll(2) == 0 { 1 } else { 3 };
        let ordering = if dice.roll(2) == 0 { None } else { Some(some_keys(dice)) };
        let label = dice.roll(1000) as usize;
        return node(Operator::Source { label, ordering, partitions, unbounded: false }, vec![]);
    }
    let input = some_plan(dice, depth - 1);
    match dice.roll(11) {
        0 => node(
            Operator::Sort { expr: some_keys(dice), fetch: None, preserve_partitioning: false },
            vec![guarded(input)],
        ),
        1 => node(
            Operator::Sort { expr: some_keys(dice), fetch: None, preserve_partitioning: true },
            vec![input],
        ),
        2 => node(Operator::SortPreservingMerge { expr: some_keys(dice), fetch: None }, vec![input]),
        3 => node(Operator::CoalescePartitions, vec![input]),
        4 => node(
            Operator::Repartition {
                partitioning: Partitioning::RoundRobinBatch(4),
                preserve_order: dice.roll(3) == 0,
            },
            vec![input],
        ),
        5 => node(Operator::Union, vec![input, some_plan(dice, depth - 1)]),
        6 => node(Operator::GlobalLimit { skip: 0, fetch: Some(10) }, vec![guarded(input)]),
        7 => node(Operator::LocalLimit { fetch: 10 }, vec![input]),
        8 => other(None, Distribution::UnspecifiedDistribution, true, input),
        9 => other(None, Distribution::SinglePartition, false, guarded(input)),
        _ => other(
            Some(SortRequirement::from_sort_exprs(&some_keys(dice))),
            Distribution::HashPartitioned,
            dice.roll(2) == 0,
            input,
        ),
    }
}

fn orderings_met(plan: &PlanNode) -> bool {
    plan.children.iter().enumerate().all(|(i, child)| {
        let edge = match plan.required_input_ordering(i) {
            Some(required) => child.ordering_satisfy_requirement(&required),
            None => true,
        };
        edge && orderings_met(child)
    })
}

fn distribution_met(plan: &PlanNode) -> bool {
    plan.children.iter().enumerate().all(|(i, child)| {
        (!plan.requires_single_partition(i) || child.partition_count() <= 1)
            && distribution_met(child)
    })
}

fn with_own_lineage(plan: &Arc<PlanNode>) -> PlanWithCorrespondingSort {
    let inputs: Vec<PlanWithCorrespondingSort> = plan.children.iter().map(with_own_lineage).collect();
    if inputs.is_empty() {
        PlanWithCorrespondingSort::new(plan.clone())
    } else {
        PlanWithCorrespondingSort::new_from_children_nodes(inputs, plan.clone()).unwrap()
    }
}

fn settled(plan: &Arc<PlanNode>) -> bool {
    let node = with_own_lineage(plan);
    analyze_immediate_sort_removal(plan, &node.sort_onwards).is_none()
        && !(plan.is_window() && node.sort_onwards[0].is_some())
        && !(plan.is_sort_preserving_merge() && plan.children[0].partition_count() <= 1)
        && plan.children.iter().enumerate().all(|(i, child)| {
            settled(child)
                && match plan.required_input_ordering(i) {
                    Some(required) => {
                        child.ordering_satisfy_requirement(&required)
                            && (child.output_ordering().is_some() || node.sort_onwards[i].is_none())
                    }
                    None => {
                        !(child.output_ordering().is_some()
                            && (!plan.maintains_input_order(i) || plan.is_union()))
                            || node.sort_onwards[i].is_none()
                    }
                }
        })
}

fn same(a: &PlanNode, b: &PlanNode) -> bool {
    format!("{:?}", a) == format!("{:?}", b)
}

#[test]
fn every_requirement_is_met_after_sort_enforcement() {
    let mut dice = Dice(7);
    for _ in 0..400 {
        let plan = some_plan(&mut dice, 4);
        let rewritten = EnforceSorting::new().enforce_and_parallelize(plan.clone(), false).unwrap();
        assert!(orderings_met(&rewritten), "not ordered after rewriting {:?}", plan);
    }
}

#[test]
fn every_requirement_is_met_after_the_whole_rewrite() {
    let mut dice = Dice(29);
    for _ in 0..400 {
        let plan = some_plan(&mut dice, 4);
        let rewritten = EnforceSorting::new().enforce_and_parallelize(plan.clone(), true).unwrap();
        assert!(orderings_met(&rewritten), "not ordered after rewriting {:?}", plan);
    }
}

fn sources(plan: &PlanNode, out: &mut Vec<usize>) {
    if let Operator::Source { label, .. } = &*plan.op {
        out.push(*label);
    }
    for child in plan.children.iter() {
        sources(child, out);
    }
}

#[test]
fn rewritten_plan_reads_the_same_sources() {
    let mut dice = Dice(31);
    for round in 0..400 {
        let plan = some_plan(&mut dice, 4);
        let rewritten = EnforceSorting::new().enforce_and_parallelize(plan.clone(), round % 2 == 0).unwrap();
        let (mut before, mut after) = (Vec::new(), Vec::new());
        sources(&plan, &mut before);
        sources(&rewritten, &mut after);
        assert_eq!(before, after);
    }
}

#[test]
fn unordered_plan_becomes_ordered() {
    let required = SortRequirement::from_sort_exprs(&vec![asc(1), asc(0)]);
    let plan = other(Some(required), Distribution::UnspecifiedDistribution, true, source(3, Some(vec![asc(0)])));
    assert!(!orderings_met(&plan));
    let rewritten = EnforceSorting::new().enforce_and_parallelize(plan, false).unwrap();
    assert!(orderings_met(&rewritten));
    assert!(rewritten.children[0].is_sort());
    assert_eq!(rewritten.children[0].output_ordering(), Some(vec![asc(1), asc(0)]));
}

#[test]
fn every_well_formed_plan_is_rewritten() {
    let mut dice = Dice(11);
    for round in 0..400 {
        let plan = some_plan(&mut dice, 4);
        assert!(EnforceSorting::new().enforce_and_parallelize(plan.clone(), round % 2 == 0).is_ok());
        assert!(enforce_sorting_pass(&plan).is_ok());
    }
}

#[test]
fn single_partitions_stay_single_in_guarded_plans() {
    let mut dice = Dice(13);
    for _ in 0..400 {
        let plan = some_plan(&mut dice, 4);
        assert!(distribution_met(&plan));
        let sorted = EnforceSorting::new().enforce_and_parallelize(plan.clone(), false).unwrap();
        assert!(distribution_met(&sorted), "partitions split after rewriting {:?}", plan);
        let parallel = EnforceSorting::new().enforce_and_parallelize(plan.clone(), true).unwrap();
        assert!(distribution_met(&parallel), "partitions split after parallelizing {:?}", plan);
        assert_eq!(sorted.partition_count(), parallel.partition_count());
    }
}

#[test]
fn single_partition_survives_below_an_order_keeping_operator() {
    let merged = node(
        Operator::SortPreservingMerge { expr: vec![asc(0)], fetch: None },
        vec![node(
            Operator::Sort { expr: vec![asc(0)], fetch: None, preserve_partitioning: true },
            vec![source(3, None)],
        )],
    );
    let kept = other(None, Distribution::UnspecifiedDistribution, true, merged);
    let plan = node(Operator::GlobalLimit { skip: 0, fetch: Some(1) }, vec![kept]);
    let rewritten = EnforceSorting::new().enforce_and_parallelize(plan, true).unwrap();
    assert!(distribution_met(&rewritten));
    assert_eq!(rewritten.children[0].partition_count(), 1);
    assert!(rewritten.children[0].children[0].is_sort_preserving_merge());
}

#[test]
fn single_partition_survives_a_partition_wise_sort_over_one_partition() {
    let passing = node(
        Operator::Sort { expr: vec![asc(1)], fetch: None, preserve_partitioning: true },
        vec![source(1, Some(vec![asc(0)]))],
    );
    let plan = node(Operator::GlobalLimit { skip: 0, fetch: Some(1) }, vec![passing]);
    assert!(distribution_met(&plan));
    let rewritten = EnforceSorting::new().enforce_and_parallelize(plan, true).unwrap();
    assert!(distribution_met(&rewritten));
    assert!(rewritten.children[0].is_sort());
}

#[test]
fn single_partition_can_be_lost_where_the_count_passes_through() {
    let below = node(
        Operator::SortPreservingMerge { expr: vec![asc(0)], fetch: None },
        vec![node(
            Operator::Sort { expr: vec![asc(0)], fetch: None, preserve_partitioning: true },
            vec![source(3, None)],
        )],
    );
    let passing = node(
        Operator::Sort { expr: vec![asc(1)], fetch: None, preserve_partitioning: true },
        vec![below],
    );
    let plan = node(Operator::GlobalLimit { skip: 0, fetch: Some(1) }, vec![passing]);
    assert!(distribution_met(&plan));
    let rewritten = EnforceSorting::new().enforce_and_parallelize(plan, false).unwrap();
    assert!(!distribution_met(&rewritten));
    assert_eq!(rewritten.children[0].partition_count(), 3);
}

#[test]
fn parallelization_can_cost_an_ordering_above_a_join_like_operator() {
    let ordered = source(1, Some(vec![asc(1)]));
    let coalesced = node(
        Operator::CoalescePartitions,
        vec![node(
            Operator::Repartition { partitioning: Partitioning::RoundRobinBatch(4), preserve_order: false },
            vec![source(1, None)],
        )],
    );
    let free = |maintains_order: bool| InputContract {
        required_ordering: None,
        distribution: Distribution::UnspecifiedDistribution,
        maintains_order,
    };
    let join = node(
        Operator::Other {
            label: 2,
            inputs: vec![free(false), free(true)],
            ordering_from: Some(1),
            partitions: PartitionSource::Input(0),
        },
        vec![coalesced, ordered],
    );
    let spread = node(
        Operator::Repartition { partitioning: Partitioning::RoundRobinBatch(10), preserve_order: false },
        vec![join],
    );
    let needs_order = other(
        Some(SortRequirement::from_sort_exprs(&vec![asc(1)])),
        Distribution::UnspecifiedDistribution,
        true,
        spread,
    );
    let plan = node(
        Operator::Sort { expr: vec![asc(0)], fetch: None, preserve_partitioning: false },
        vec![needs_order],
    );
    let sorted = EnforceSorting::new().enforce_and_parallelize(plan.clone(), false).unwrap();
    assert!(orderings_met(&sorted));
    assert!(same(&sorted, &plan));
    let parallel = EnforceSorting::new().enforce_and_parallelize(plan, true).unwrap();
    assert!(parallel.is_sort_preserving_merge());
    assert!(!orderings_met(&parallel));
}

#[test]
fn settled_plan_is_returned_as_it_is() {
    let mut dice = Dice(17);
    let mut seen = 0;
    for _ in 0..1000 {
        let plan = some_plan(&mut dice, 3);
        if settled(&plan) {
            seen += 1;
            let rewritten = EnforceSorting::new().enforce_and_parallelize(plan.clone(), false).unwrap();
            assert!(same(&plan, &rewritten));
        }
    }
    assert!(seen > 50);
}

#[test]
fn second_run_changes_nothing_where_the_first_left_a_settled_plan() {
    let mut dice = Dice(23);
    let mut settled_outputs = 0;
    for _ in 0..500 {
        let plan = some_plan(&mut dice, 4);
        let once = EnforceSorting::new().enforce_and_parallelize(plan, false).unwrap();
        let twice = EnforceSorting::new().enforce_and_parallelize(once.clone(), false).unwrap();
        if settled(&once) {
            settled_outputs += 1;
            assert!(same(&once, &twice));
        } else {
            assert!(!same(&once, &twice));
        }
    }
    assert!(settled_outputs > 300);
}

fn redundant_sort(plan: &PlanNode) -> bool {
    let here = match &*plan.op {
        Operator::Sort { expr, .. } => plan.children[0].ordering_satisfy(expr),
        _ => false,
    };
    here || plan.children.iter().any(|c| redundant_sort(c))
}

#[test]
fn second_run_changes_nothing_unless_the_first_left_a_redundant_sort() {
    let mut dice = Dice(37);
    let mut without = 0;
    for _ in 0..500 {
        let plan = some_plan(&mut dice, 4);
        let once = EnforceSorting::new().enforce_and_parallelize(plan, false).unwrap();
        assert_eq!(settled(&once), !redundant_sort(&once));
        if !redundant_sort(&once) {
            without += 1;
            let twice = EnforceSorting::new().enforce_and_parallelize(once.clone(), false).unwrap();
            assert!(same(&once, &twice));
        }
    }
    assert!(without > 300);
}

#[test]
fn first_run_can_leave_a_sort_that_the_second_removes() {
    let inner = node(
        Operator::Sort { expr: vec![asc(1)], fetch: None, preserve_partitioning: false },
        vec![source(1, Some(vec![asc(0)]))],
    );
    let plan = node(
        Operator::Sort { expr: vec![asc(0)], fetch: None, preserve_partitioning: false },
        vec![inner],
    );
    let once = EnforceSorting::new().enforce_and_parallelize(plan, false).unwrap();
    assert!(once.is_sort());
    assert!(!settled(&once));
    let twice = EnforceSorting::new().enforce_and_parallelize(once, false).unwrap();
    assert!(!twice.is_sort());
    assert!(settled(&twice));
}

#[test]
fn removed_sort_was_covered_by_its_input() {
    let mut dice = Dice(19);
    let mut removed = 0;
    for _ in 0..2000 {
        let input = some_plan(&mut dice, 2);
        let keys = some_keys(&mut dice);
        let plan = node(
            Operator::Sort { expr: keys.clone(), fetch: None, preserve_partitioning: true },
            vec![input.clone()],
        );
        let lineage = no_lineage(1);
        match analyze_immediate_sort_removal(&plan, &lineage) {
            Some(replacement) => {
                removed += 1;
                assert!(input.ordering_satisfy(&keys));
                assert!(same(&replacement.plan, &input));
            }
            None => assert!(!input.ordering_satisfy(&keys)),
        }
    }
    assert!(removed > 20);
}

fn some_window(dice: &mut Dice, input: Arc<PlanNode>) -> Arc<PlanNode> {
    let partition_by: Vec<usize> = match dice.roll(4) {
        0 => vec![],
        1 => vec![0],
        2 => vec![0, 1],
        _ => vec![1, 0],
    };
    let order_by = if dice.roll(3) == 0 { vec![] } else { some_keys(dice) };
    let uses_bounded_memory = dice.roll(2) == 0;
    let function = WindowFunction {
        label: 0,
        partition_by: partition_by.clone(),
        order_by,
        uses_bounded_memory,
        reversible: dice.roll(3) != 0,
        reverse_uses_bounded_memory: dice.roll(2) == 0,
        reversed: false,
    };
    let input = if partition_by.is_empty() { guarded(input) } else { input };
    node(
        Operator::Window {
            window_expr: vec![function],
            partition_keys: partition_by,
            bounded: uses_bounded_memory,
            mode: SearchMode::Sorted,
        },
        vec![input],
    )
}

fn some_plan_with_windows(dice: &mut Dice, depth: u32) -> Arc<PlanNode> {
    if depth == 0 {
        let ordering = if dice.roll(3) == 0 { None } else { Some(some_keys(dice)) };
        let unbounded = dice.roll(2) == 0;
        return node(Operator::Source { label: 0, ordering, partitions: 1, unbounded }, vec![]);
    }
    match dice.roll(3) {
        0 => {
            let input = some_plan_with_windows(dice, depth - 1);
            some_window(dice, input)
        }
        1 => {
            let input = some_plan_with_windows(dice, depth - 1);
            let keys = some_keys(dice);
            node(Operator::Sort { expr: keys, fetch: None, preserve_partitioning: false }, vec![guarded(input)])
        }
        _ => {
            let input = some_plan_with_windows(dice, depth - 1);
            other(None, Distribution::UnspecifiedDistribution, true, input)
        }
    }
}

#[test]
fn second_run_over_windows_changes_nothing_unless_the_first_left_a_redundant_sort() {
    let mut dice = Dice(41);
    let mut without = 0;
    for _ in 0..2000 {
        let plan = some_plan_with_windows(&mut dice, 4);
        let once = EnforceSorting::new().enforce_and_parallelize(plan.clone(), false).unwrap();
        if !redundant_sort(&once) {
            without += 1;
            let twice = EnforceSorting::new().enforce_and_parallelize(once.clone(), false).unwrap();
            assert!(same(&once, &twice), "{:?}\n{:?}\n{:?}", plan, once, twice);
        }
    }
    assert!(without > 1000);
}

fn window_over(
    partition_by: Vec<usize>,
    partition_keys: Vec<usize>,
    order_by: Vec<SortKey>,
    input: Arc<PlanNode>,
) -> Arc<PlanNode> {
    node(
        Operator::Window {
            window_expr: vec![WindowFunction {
                label: 0,
                partition_by,
                order_by,
                uses_bounded_memory: true,
                reversible: true,
                reverse_uses_bounded_memory: true,
                reversed: false,
            }],
            partition_keys,
            bounded: true,
            mode: SearchMode::Sorted,
        },
        vec![input],
    )
}

#[test]
fn second_run_keeps_the_window_that_the_first_turned_round() {
    let descending = SortKey { expr: 0, options: SortOptions { descending: true, nulls_first: false } };
    let sorted = node(
        Operator::Sort { expr: vec![descending], fetch: None, preserve_partitioning: false },
        vec![source(1, Some(vec![asc(0)]))],
    );
    let plan = window_over(vec![], vec![], vec![descending], sorted);
    let once = EnforceSorting::new().enforce_and_parallelize(plan, false).unwrap();
    assert!(once.is_window());
    assert!(!once.children[0].is_sort());
    match &*once.op {
        Operator::Window { window_expr, .. } => {
            assert!(window_expr[0].reversed);
            assert_eq!(window_expr[0].order_by, vec![asc(0)]);
        }
        _ => unreachable!(),
    }
    let twice = EnforceSorting::new().enforce_and_parallelize(once.clone(), false).unwrap();
    assert!(same(&once, &twice));
}

#[test]
fn second_run_keeps_the_sort_that_the_first_put_below_a_window() {
    let plan = window_over(vec![1], vec![1], vec![asc(0)], source(3, Some(vec![asc(0)])));
    let once = EnforceSorting::new().enforce_and_parallelize(plan, false).unwrap();
    assert!(once.is_window());
    assert!(once.children[0].is_sort());
    let partition_column =
        SortKey { expr: 1, options: SortOptions { descending: false, nulls_first: false } };
    assert_eq!(once.children[0].output_ordering(), Some(vec![partition_column, asc(0)]));
    let twice = EnforceSorting::new().enforce_and_parallelize(once.clone(), false).unwrap();
    assert!(same(&once, &twice));
}

#[test]
fn second_run_differs_where_a_window_is_partitioned_by_columns_that_its_functions_do_not_name() {
    let plan = window_over(vec![], vec![1], vec![asc(0)], source(3, None));
    let once = EnforceSorting::new().enforce_and_parallelize(plan, false).unwrap();
    assert!(once.children[0].is_sort());
    assert_eq!(once.children[0].partition_count(), 3);
    assert!(once.requires_single_partition(0));
    let twice = EnforceSorting::new().enforce_and_parallelize(once.clone(), false).unwrap();
    assert!(!same(&once, &twice));
    assert_eq!(twice.children[0].partition_count(), 1);
    let thrice = EnforceSorting::new().enforce_and_parallelize(twice.clone(), false).unwrap();
    assert!(same(&twice, &thrice));
}

#[test]
fn second_run_differs_where_a_sort_over_several_partitions_gave_way_to_a_merge() {
    let descending = SortKey { expr: 0, options: SortOptions { descending: true, nulls_first: false } };
    let partition_wise = node(
        Operator::Sort { expr: vec![asc(1), asc(0)], fetch: None, preserve_partitioning: true },
        vec![source(3, Some(vec![asc(0)]))],
    );
    let unguarded = node(
        Operator::Sort { expr: vec![asc(1)], fetch: None, preserve_partitioning: false },
        vec![partition_wise],
    );
    let plan = node(Operator::SortPreservingMerge { expr: vec![descending], fetch: None }, vec![unguarded]);
    let once = EnforceSorting::new().enforce_and_parallelize(plan, false).unwrap();
    assert!(once.is_sort_preserving_merge());
    assert_eq!(once.children[0].output_ordering(), Some(vec![descending]));
    assert!(once.children[0].children[0].is_sort());
    assert!(!redundant_sort(&once));
    let twice = EnforceSorting::new().enforce_and_parallelize(once.clone(), false).unwrap();
    assert!(!same(&once, &twice));
    assert_eq!(twice.children[0].output_ordering(), Some(vec![descending]));
    assert!(!twice.children[0].children[0].is_sort());
    let thrice = EnforceSorting::new().enforce_and_parallelize(twice.clone(), false).unwrap();
    assert!(same(&twice, &thrice));
}

#[test]
fn second_run_changes_nothing_where_an_empty_ordering_is_asked_of_an_unordered_input() {
    let plan = other(Some(vec![]), Distribution::UnspecifiedDistribution, false, source(3, None));
    let once = EnforceSorting::new().enforce_and_parallelize(plan.clone(), false).unwrap();
    assert!(same(&plan, &once));
    assert!(settled(&once));
    let twice = EnforceSorting::new().enforce_and_parallelize(once.clone(), false).unwrap();
    assert!(same(&once, &twice));
}

#[test]
fn second_run_differs_where_an_operator_keeps_an_order_that_it_does_not_report() {
    let lower = node(
        Operator::Sort { expr: vec![asc(1)], fetch: None, preserve_partitioning: false },
        vec![source(1, None)],
    );
    let silent = node(
        Operator::Other {
            label: 1,
            inputs: vec![InputContract {
                required_ordering: None,
                distribution: Distribution::UnspecifiedDistribution,
                maintains_order: true,
            }],
            ordering_from: None,
            partitions: PartitionSource::Input(0),
        },
        vec![lower],
    );
    let upper = node(
        Operator::Sort { expr: vec![asc(0)], fetch: None, preserve_partitioning: false },
        vec![silent],
    );
    let plan = window_over(vec![], vec![], vec![], upper);
    let once = EnforceSorting::new().enforce_and_parallelize(plan, false).unwrap();
    assert!(once.is_window());
    assert!(!once.children[0].is_sort());
    assert!(once.children[0].children[0].is_sort());
    assert!(!redundant_sort(&once));
    let twice = EnforceSorting::new().enforce_and_parallelize(once.clone(), false).unwrap();
    assert!(!same(&once, &twice));
    assert!(!twice.children[0].children[0].is_sort());
    let thrice = EnforceSorting::new().enforce_and_parallelize(twice.clone(), false).unwrap();
    assert!(same(&twice, &thrice));
}

fn searches_unsorted(plan: &PlanNode) -> bool {
    match &*plan.op {
        Operator::Window { bounded, mode, .. } => *bounded && *mode != SearchMode::Sorted,
        _ => false,
    }
}

fn sorted_windows(plan: &PlanNode) -> bool {
    !searches_unsorted(plan) && plan.children.iter().all(|c| sorted_windows(c))
}

fn orderings_met_here(plan: &PlanNode) -> bool {
    plan.children.iter().enumerate().all(|(i, child)| match plan.required_input_ordering(i) {
        Some(required) => child.ordering_satisfy_requirement(&required),
        None => true,
    })
}

fn orderings_upheld(plan: &PlanNode) -> bool {
    (searches_unsorted(plan) || orderings_met_here(plan))
        && plan.children.iter().all(|c| orderings_upheld(c))
}

#[test]
fn every_requirement_is_met_after_sort_enforcement_where_windows_search_sorted() {
    let mut dice = Dice(53);
    let mut sorted = 0;
    let mut unsorted = 0;
    for _ in 0..3000 {
        let plan = some_plan_with_windows(&mut dice, 3);
        assert!(sorted_windows(&plan));
        let once = EnforceSorting::new().enforce_and_parallelize(plan, false).unwrap();
        assert!(orderings_upheld(&once));
        if sorted_windows(&once) {
            sorted += 1;
            assert!(orderings_met(&once));
        } else {
            unsorted += 1;
        }
    }
    assert!(sorted > 1000);
    assert!(unsorted > 20);
}

fn unbounded_source(ordering: Option<Vec<SortKey>>) -> Arc<PlanNode> {
    node(Operator::Source { label: 0, ordering, partitions: 1, unbounded: true }, vec![])
}

#[test]
fn window_that_asks_nothing_of_an_unordered_input_is_left_alone() {
    let window = node(
        Operator::Window {
            window_expr: vec![WindowFunction {
                label: 0,
                partition_by: vec![1],
                order_by: vec![],
                uses_bounded_memory: true,
                reversible: true,
                reverse_uses_bounded_memory: true,
                reversed: false,
            }],
            partition_keys: vec![1],
            bounded: true,
            mode: SearchMode::Linear,
        },
        vec![unbounded_source(None)],
    );
    assert_eq!(window.required_input_ordering(0), None);
    assert!(settled(&window));
    let once = EnforceSorting::new().enforce_and_parallelize(window.clone(), false).unwrap();
    assert!(same(&window, &once));
    assert!(orderings_met(&once));
}

#[test]
fn window_over_its_partition_columns_in_another_order_is_left_alone() {
    let window = node(
        Operator::Window {
            window_expr: vec![WindowFunction {
                label: 0,
                partition_by: vec![1, 0],
                order_by: vec![],
                uses_bounded_memory: true,
                reversible: true,
                reverse_uses_bounded_memory: true,
                reversed: false,
            }],
            partition_keys: vec![1, 0],
            bounded: false,
            mode: SearchMode::Sorted,
        },
        vec![source(1, Some(vec![asc(0), asc(1)]))],
    );
    assert_eq!(
        window.required_input_ordering(0),
        Some(vec![
            SortRequirement { expr: 0, options: None },
            SortRequirement { expr: 1, options: None },
        ])
    );
    assert!(orderings_met(&window));
    let once = EnforceSorting::new().enforce_and_parallelize(window.clone(), false).unwrap();
    assert!(same(&window, &once));
    assert!(orderings_met(&once));
}

#[test]
fn window_picked_for_an_input_with_a_partition_column_between_its_order_keys_is_not_met() {
    let ordering = vec![asc(0), asc(2), asc(1)];
    let plan = window_over(vec![2], vec![2], vec![asc(0), asc(1)], unbounded_source(Some(ordering)));
    assert!(sorted_windows(&plan));
    let once = EnforceSorting::new().enforce_and_parallelize(plan, false).unwrap();
    assert!(once.is_window());
    assert!(!once.children[0].is_sort());
    assert!(searches_unsorted(&once));
    assert_eq!(
        once.required_input_ordering(0),
        Some(SortRequirement::from_sort_exprs(&[asc(0), asc(1)].to_vec()))
    );
    assert!(orderings_upheld(&once));
    assert!(!orderings_met(&once));
}

fn linear_window_over_a_sort() -> Arc<PlanNode> {
    let sorted = node(
        Operator::Sort { expr: vec![asc(2)], fetch: None, preserve_partitioning: false },
        vec![source(1, None)],
    );
    node(
        Operator::Window {
            window_expr: vec![WindowFunction {
                label: 0,
                partition_by: vec![1],
                order_by: vec![asc(0)],
                uses_bounded_memory: true,
                reversible: true,
                reverse_uses_bounded_memory: true,
                reversed: false,
            }],
            partition_keys: vec![1],
            bounded: true,
            mode: SearchMode::Linear,
        },
        vec![sorted],
    )
}

#[test]
fn window_that_searched_unsorted_is_not_met_by_the_sort_that_it_gets() {
    let plan = linear_window_over_a_sort();
    assert!(!sorted_windows(&plan));
    let once = EnforceSorting::new().enforce_and_parallelize(plan, false).unwrap();
    assert!(once.is_window());
    assert!(sorted_windows(&once));
    assert_eq!(once.children[0].output_ordering(), Some(vec![asc(0)]));
    assert!(!orderings_upheld(&once));
}

#[test]
fn second_run_differs_where_a_window_searched_unsorted() {
    let once = EnforceSorting::new().enforce_and_parallelize(linear_window_over_a_sort(), false).unwrap();
    assert!(!redundant_sort(&once));
    let twice = EnforceSorting::new().enforce_and_parallelize(once.clone(), false).unwrap();
    assert!(!same(&once, &twice));
    assert!(orderings_met(&twice));
    let thrice = EnforceSorting::new().enforce_and_parallelize(twice.clone(), false).unwrap();
    assert!(same(&twice, &thrice));
}

#[test]
fn single_partition_survives_below_a_sort_over_an_unkeyed_window() {
    let merged = node(
        Operator::SortPreservingMerge { expr: vec![asc(1)], fetch: None },
        vec![node(
            Operator::Sort { expr: vec![asc(1)], fetch: None, preserve_partitioning: true },
            vec![source(3, None)],
        )],
    );
    let window = window_over(vec![], vec![], vec![asc(0)], merged);
    let plan = node(
        Operator::Sort { expr: vec![asc(2)], fetch: None, preserve_partitioning: false },
        vec![window],
    );
    assert!(distribution_met(&plan));
    let once = EnforceSorting::new().enforce_and_parallelize(plan.clone(), false).unwrap();
    assert!(distribution_met(&once));
    assert!(orderings_met(&once));
    let parallel = EnforceSorting::new().enforce_and_parallelize(plan, true).unwrap();
    assert!(distribution_met(&parallel));
}

fn coalesces(plan: &PlanNode) -> usize {
    let here = if matches!(&*plan.op, Operator::CoalescePartitions) { 1 } else { 0 };
    here + plan.children.iter().map(|c| coalesces(c)).sum::<usize>()
}

#[test]
fn parallelization_takes_the_tracked_coalesces_out_of_the_plan() {
    let coalesced = node(
        Operator::CoalescePartitions,
        vec![other(None, Distribution::UnspecifiedDistribution, true, source(3, None))],
    );
    let plan = node(
        Operator::Sort { expr: vec![asc(0)], fetch: None, preserve_partitioning: false },
        vec![other(None, Distribution::UnspecifiedDistribution, true, coalesced)],
    );
    assert_eq!(coalesces(&plan), 1);
    let parallel = EnforceSorting::new().enforce_and_parallelize(plan.clone(), true).unwrap();
    assert!(parallel.is_sort_preserving_merge());
    assert_eq!(coalesces(&parallel), 0);
    let mut dice = Dice(67);
    let mut fewer = 0;
    for _ in 0..2000 {
        let plan = some_plan(&mut dice, 4);
        let sorted = EnforceSorting::new().enforce_and_parallelize(plan.clone(), false).unwrap();
        let parallel = EnforceSorting::new().enforce_and_parallelize(plan, true).unwrap();
        assert!(coalesces(&parallel) <= coalesces(&sorted));
        if coalesces(&parallel) < coalesces(&sorted) {
            fewer += 1;
        }
    }
    assert!(fewer > 20);
}

fn over_bounded_sources(plan: &Arc<PlanNode>) -> Arc<PlanNode> {
    match &*plan.op {
        Operator::Source { label, ordering, partitions, .. } => node(
            Operator::Source {
                label: *label,
                ordering: ordering.clone(),
                partitions: *partitions,
                unbounded: false,
            },
            vec![],
        ),
        _ => Arc::new(PlanNode {
            op: plan.op.clone(),
            children: plan.children.iter().map(over_bounded_sources).collect(),
        }),
    }
}

#[test]
fn every_requirement_is_met_after_the_rewrite_of_plans_with_sorted_windows_over_bounded_sources() {
    let mut dice = Dice(73);
    let mut with_windows = 0;
    for _ in 0..3000 {
        let plan = over_bounded_sources(&some_plan_with_windows(&mut dice, 3));
        assert!(sorted_windows(&plan));
        for flag in [false, true] {
            let out = EnforceSorting::new().enforce_and_parallelize(plan.clone(), flag).unwrap();
            assert!(sorted_windows(&out));
            assert!(orderings_met(&out));
            if out.is_window() {
                with_windows += 1;
            }
        }
    }
    assert!(with_windows > 500);
}

#[test]
fn parallelization_can_cost_a_single_partition_where_a_source_has_no_partitions() {
    let contract = InputContract {
        required_ordering: None,
        distribution: Distribution::UnspecifiedDistribution,
        maintains_order: false,
    };
    let joined = node(
        Operator::Other {
            label: 1,
            inputs: vec![contract.clone(), contract],
            ordering_from: None,
            partitions: PartitionSource::Input(1),
        },
        vec![node(Operator::CoalescePartitions, vec![source(3, None)]), source(0, None)],
    );
    assert_eq!(joined.partition_count(), 0);
    let sorted = node(
        Operator::Sort { expr: vec![asc(0)], fetch: None, preserve_partitioning: true },
        vec![joined],
    );
    let limited = node(Operator::LocalLimit { fetch: 10 }, vec![sorted]);
    let union = node(Operator::Union, vec![limited, source(1, None)]);
    let plan = node(Operator::GlobalLimit { skip: 0, fetch: Some(10) }, vec![union]);
    assert!(distribution_met(&plan));
    let sorted_only = EnforceSorting::new().enforce_and_parallelize(plan.clone(), false).unwrap();
    assert!(distribution_met(&sorted_only));
    let parallel = EnforceSorting::new().enforce_and_parallelize(plan, true).unwrap();
    assert_eq!(parallel.children[0].partition_count(), 2);
    assert!(!distribution_met(&parallel));
}

#[test]
fn parallelization_can_cost_an_ordering_where_a_source_has_no_partitions() {
    let contract = InputContract {
        required_ordering: None,
        distribution: Distribution::UnspecifiedDistribution,
        maintains_order: false,
    };
    let joined = node(
        Operator::Other {
            label: 1,
            inputs: vec![contract.clone(), contract],
            ordering_from: None,
            partitions: PartitionSource::Input(1),
        },
        vec![node(Operator::CoalescePartitions, vec![source(3, None)]), source(0, None)],
    );
    let sorted = node(
        Operator::Sort { expr: vec![asc(0)], fetch: None, preserve_partitioning: true },
        vec![joined],
    );
    let limited = node(Operator::LocalLimit { fetch: 10 }, vec![sorted]);
    let union = node(Operator::Union, vec![limited, source(1, Some(vec![asc(0)]))]);
    let spread = node(
        Operator::Repartition { partitioning: Partitioning::RoundRobinBatch(4), preserve_order: false },
        vec![union],
    );
    let plan = other(
        Some(SortRequirement::from_sort_exprs(&vec![asc(0)])),
        Distribution::UnspecifiedDistribution,
        false,
        spread,
    );
    assert!(orderings_met(&plan));
    let sorted_only = EnforceSorting::new().enforce_and_parallelize(plan.clone(), false).unwrap();
    assert!(same(&plan, &sorted_only));
    let parallel = EnforceSorting::new().enforce_and_parallelize(plan, true).unwrap();
    assert_eq!(parallel.children[0].output_ordering(), None);
    assert!(!orderings_met(&parallel));
}
