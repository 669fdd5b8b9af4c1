use datafusion_common::arrow::compute::SortOptions as EngineSortOptions;
use datafusion_common::arrow::datatypes::Schema;
use datafusion_physical_expr::expressions::Column;
use datafusion_physical_expr::PhysicalSortExpr;
use datafusion_physical_plan::coalesce_partitions::CoalescePartitionsExec;
use datafusion_physical_plan::limit::{GlobalLimitExec, LocalLimitExec};
use datafusion_physical_plan::memory::MemoryExec;
use datafusion_physical_plan::repartition::RepartitionExec;
use datafusion_physical_plan::sorts::sort::SortExec;
use datafusion_physical_plan::sorts::sort_preserving_merge::SortPreservingMergeExec;
use datafusion_physical_plan::union::UnionExec;
use datafusion_physical_plan::{Distribution as EngineDistribution, ExecutionPlan};
use datafusion_physical_plan::Partitioning as EnginePartitioning;
use sort_enforcement::error::PlanError;
use sort_enforcement::model::{Distribution, PartitionSource};
use sort_enforcement::ordering::{SortKey, SortOptions, SortRequirement};
use sort_enforcement::plan::{InputContract, Operator, Partitioning, PlanNode, WindowFunction, SearchMode};
use std::sync::Arc;

fn asc(expr: usize) -> SortKey {
    SortKey { expr, options: SortOptions { descending: false, nulls_first: true } }
}

fn node(op: Operator, children: Vec<Arc<PlanNode>>) -> Arc<PlanNode> {
    Arc::new(PlanNode { op: Arc::new(op), children })
}

fn source(partitions: usize, ordering: Option<Vec<SortKey>>) -> Arc<PlanNode> {
    node(Operator::Source { label: 0, ordering, partitions, unbounded: false }, vec![])
}

fn unbounded_source() -> Arc<PlanNode> {
    node(Operator::Source { label: 0, ordering: None, partitions: 1, unbounded: true }, vec![])
}

fn sort(keys: Vec<SortKey>, preserve_partitioning: bool, input: Arc<PlanNode>) -> Arc<PlanNode> {
    node(Operator::Sort { expr: keys, fetch: None, preserve_partitioning }, vec![input])
}

fn merge(keys: Vec<SortKey>, input: Arc<PlanNode>) -> Arc<PlanNode> {
    node(Operator::SortPreservingMerge { expr: keys, fetch: None }, vec![input])
}

fn repartition(n: usize, preserve_order: bool, input: Arc<PlanNode>) -> Arc<PlanNode> {
    node(
        Operator::Repartition { partitioning: Partitioning::RoundRobinBatch(n), preserve_order },
        vec![input],
    )
}

fn window(partition_by: Vec<usize>, order_by: Vec<SortKey>, keys: Vec<usize>, input: Arc<PlanNode>) -> Arc<PlanNode> {
    node(
        Operator::Window {
            window_expr: vec![WindowFunction {
                label: 0,
                partition_by,
                order_by,
                uses_bounded_memory: true,
                reversible: false,
                reverse_uses_bounded_memory: false,
                reversed: false,
            }],
            partition_keys: keys,
            bounded: true,
            mode: SearchMode::Sorted,
        },
        vec![input],
    )
}

fn join(left: Arc<PlanNode>, right: Arc<PlanNode>) -> Arc<PlanNode> {
    node(
        Operator::Other {
            label: 9,
            inputs: vec![
                InputContract {
                    required_ordering: Some(vec![SortRequirement { expr: 0, options: None }]),
                    distribution: Distribution::HashPartitioned,
                    maintains_order: true,
                },
                InputContract {
                    required_ordering: None,
                    distribution: Distribution::SinglePartition,
                    maintains_order: false,
                },
            ],
            ordering_from: Some(0),
            partitions: PartitionSource::Input(0),
        },
        vec![left, right],
    )
}

#[test]
fn kinds_are_recognized() {
    let s = source(1, None);
    assert!(sort(vec![asc(0)], false, s.clone()).is_sort());
    assert!(merge(vec![asc(0)], s.clone()).is_sort_preserving_merge());
    assert!(node(Operator::CoalescePartitions, vec![s.clone()]).is_coalesce_partitions());
    assert!(repartition(4, false, s.clone()).is_repartition());
    assert!(node(Operator::GlobalLimit { skip: 0, fetch: None }, vec![s.clone()]).is_limit());
    assert!(node(Operator::LocalLimit { fetch: 3 }, vec![s.clone()]).is_limit());
    assert!(node(Operator::Union, vec![s.clone()]).is_union());
    assert!(window(vec![], vec![], vec![], s.clone()).is_window());
    assert!(!s.is_sort() && !s.is_limit() && !s.is_union() && !s.is_window());
    assert!(!s.is_repartition() && !s.is_coalesce_partitions() && !s.is_sort_preserving_merge());
}

#[test]
fn partition_counts_follow_the_operators() {
    let four = source(4, None);
    assert_eq!(four.partition_count(), 4);
    assert_eq!(sort(vec![asc(0)], false, four.clone()).partition_count(), 1);
    assert_eq!(sort(vec![asc(0)], true, four.clone()).partition_count(), 4);
    assert_eq!(merge(vec![asc(0)], four.clone()).partition_count(), 1);
    assert_eq!(node(Operator::CoalescePartitions, vec![four.clone()]).partition_count(), 1);
    assert_eq!(repartition(7, false, four.clone()).partition_count(), 7);
    assert_eq!(node(Operator::GlobalLimit { skip: 0, fetch: None }, vec![four.clone()]).partition_count(), 1);
    assert_eq!(node(Operator::LocalLimit { fetch: 1 }, vec![four.clone()]).partition_count(), 4);
    assert_eq!(window(vec![], vec![], vec![], four.clone()).partition_count(), 4);
    assert_eq!(node(Operator::Union, vec![four.clone(), source(3, None), source(0, None)]).partition_count(), 7);
    assert_eq!(join(source(2, None), four).partition_count(), 2);
}

#[test]
fn union_partition_count_is_capped() {
    let big = node(Operator::Union, vec![source(usize::MAX, None), source(2, None)]);
    assert_eq!(big.partition_count(), usize::MAX);
    assert_eq!(Partitioning::Hash(vec![1], 12).partition_count(), 12);
    assert_eq!(Partitioning::UnknownPartitioning(5).partition_count(), 5);
}

#[test]
fn partitionings_compare_as_the_engine_compares_them() {
    assert!(Partitioning::RoundRobinBatch(10).same_as(&Partitioning::RoundRobinBatch(10)));
    assert!(!Partitioning::RoundRobinBatch(10).same_as(&Partitioning::RoundRobinBatch(8)));
    assert!(Partitioning::Hash(vec![1, 2], 4).same_as(&Partitioning::Hash(vec![1, 2], 4)));
    assert!(!Partitioning::Hash(vec![1, 2], 4).same_as(&Partitioning::Hash(vec![2, 1], 4)));
    assert!(!Partitioning::Hash(vec![1], 4).same_as(&Partitioning::Hash(vec![1], 5)));
    assert!(!Partitioning::Hash(vec![1], 4).same_as(&Partitioning::RoundRobinBatch(4)));
    assert!(!Partitioning::UnknownPartitioning(1).same_as(&Partitioning::UnknownPartitioning(1)));
    let copy = Partitioning::Hash(vec![3, 1], 6).duplicate();
    assert!(copy.same_as(&Partitioning::Hash(vec![3, 1], 6)));
}

#[test]
fn output_orderings_follow_the_operators() {
    let sorted = source(1, Some(vec![asc(0), asc(1)]));
    assert_eq!(sorted.output_ordering(), Some(vec![asc(0), asc(1)]));
    assert_eq!(source(1, None).output_ordering(), None);
    assert_eq!(sort(vec![asc(2)], false, sorted.clone()).output_ordering(), Some(vec![asc(2)]));
    assert_eq!(merge(vec![asc(0)], sorted.clone()).output_ordering(), Some(vec![asc(0)]));
    assert_eq!(node(Operator::CoalescePartitions, vec![sorted.clone()]).output_ordering(), None);
    assert_eq!(repartition(5, false, sorted.clone()).output_ordering(), Some(vec![asc(0), asc(1)]));
    let many = source(3, Some(vec![asc(0)]));
    assert_eq!(repartition(5, false, many.clone()).output_ordering(), None);
    assert_eq!(repartition(5, true, many.clone()).output_ordering(), Some(vec![asc(0)]));
    assert_eq!(node(Operator::LocalLimit { fetch: 1 }, vec![many.clone()]).output_ordering(), Some(vec![asc(0)]));
    assert_eq!(window(vec![], vec![], vec![], many.clone()).output_ordering(), Some(vec![asc(0)]));
    assert_eq!(join(many.clone(), sorted.clone()).output_ordering(), Some(vec![asc(0)]));
}

#[test]
fn union_is_ordered_by_what_its_inputs_share() {
    let a = source(1, Some(vec![asc(0), asc(1), asc(2)]));
    let b = source(1, Some(vec![asc(0), asc(1)]));
    let c = source(1, Some(vec![asc(3)]));
    assert_eq!(node(Operator::Union, vec![a.clone(), b.clone()]).output_ordering(), Some(vec![asc(0), asc(1)]));
    assert_eq!(node(Operator::Union, vec![a.clone()]).output_ordering(), Some(vec![asc(0), asc(1), asc(2)]));
    assert_eq!(node(Operator::Union, vec![a.clone(), c]).output_ordering(), None);
    assert_eq!(node(Operator::Union, vec![a.clone(), source(1, None)]).output_ordering(), None);
    let u = node(Operator::Union, vec![a, b]);
    assert!(!u.maintains_input_order(0));
    assert!(u.maintains_input_order(1));
    assert!(!u.maintains_input_order(2));
}

#[test]
fn order_is_maintained_as_the_operators_say() {
    let one = source(1, None);
    let many = source(3, None);
    assert!(!sort(vec![asc(0)], false, one.clone()).maintains_input_order(0));
    assert!(merge(vec![asc(0)], one.clone()).maintains_input_order(0));
    assert!(!node(Operator::CoalescePartitions, vec![one.clone()]).maintains_input_order(0));
    assert!(repartition(4, false, one.clone()).maintains_input_order(0));
    assert!(!repartition(4, false, many.clone()).maintains_input_order(0));
    assert!(!repartition(4, true, many.clone()).maintains_input_order(0));
    assert!(repartition(4, true, source(3, Some(vec![asc(0)]))).maintains_input_order(0));
    assert!(node(Operator::GlobalLimit { skip: 0, fetch: None }, vec![one.clone()]).maintains_input_order(0));
    assert!(window(vec![], vec![], vec![], one.clone()).maintains_input_order(0));
    let j = join(one.clone(), many);
    assert!(j.maintains_input_order(0));
    assert!(!j.maintains_input_order(1));
    assert!(!j.maintains_input_order(2));
}

#[test]
fn requirements_follow_the_operators() {
    let one = source(1, None);
    let exact = |expr: usize| SortRequirement { expr, options: Some(asc(expr).options) };
    assert_eq!(merge(vec![asc(0), asc(1)], one.clone()).required_input_ordering(0), Some(vec![exact(0), exact(1)]));
    assert_eq!(sort(vec![asc(0)], false, one.clone()).required_input_ordering(0), None);
    assert_eq!(
        window(vec![4], vec![asc(4), asc(1)], vec![4], one.clone()).required_input_ordering(0),
        Some(vec![SortRequirement { expr: 4, options: None }, exact(1)])
    );
    assert_eq!(window(vec![], vec![], vec![], one.clone()).required_input_ordering(0), None);
    let j = join(one.clone(), one.clone());
    assert_eq!(j.required_input_ordering(0), Some(vec![SortRequirement { expr: 0, options: None }]));
    assert_eq!(j.required_input_ordering(1), None);
    assert_eq!(j.required_input_ordering(5), None);

    assert_eq!(sort(vec![asc(0)], false, one.clone()).required_input_distribution(0), Distribution::SinglePartition);
    assert_eq!(sort(vec![asc(0)], true, one.clone()).required_input_distribution(0), Distribution::UnspecifiedDistribution);
    assert_eq!(merge(vec![asc(0)], one.clone()).required_input_distribution(0), Distribution::UnspecifiedDistribution);
    assert!(node(Operator::GlobalLimit { skip: 0, fetch: None }, vec![one.clone()]).requires_single_partition(0));
    assert!(!node(Operator::LocalLimit { fetch: 1 }, vec![one.clone()]).requires_single_partition(0));
    assert!(window(vec![], vec![], vec![], one.clone()).requires_single_partition(0));
    assert_eq!(window(vec![1], vec![], vec![1], one.clone()).required_input_distribution(0), Distribution::HashPartitioned);
    assert_eq!(j.required_input_distribution(0), Distribution::HashPartitioned);
    assert!(j.requires_single_partition(1));
    assert!(!j.requires_single_partition(2));
}

#[test]
fn unbounded_sources_make_the_plan_unbounded() {
    assert!(!source(1, None).unbounded_output());
    assert!(unbounded_source().unbounded_output());
    assert!(node(Operator::Union, vec![source(1, None), repartition(2, false, unbounded_source())]).unbounded_output());
    assert!(!node(Operator::Union, vec![source(1, None), source(2, None)]).unbounded_output());
    assert!(!node(Operator::LocalLimit { fetch: 1 }, vec![unbounded_source()]).unbounded_output());
    assert!(!node(Operator::GlobalLimit { skip: 0, fetch: None }, vec![unbounded_source()]).unbounded_output());
    assert!(sort(vec![asc(0)], false, unbounded_source()).unbounded_output());
}

#[test]
fn rebuilding_keeps_the_operator_and_takes_the_inputs() {
    let s = sort(vec![asc(0)], true, source(1, None));
    let rebuilt = s.with_new_children(vec![source(6, None)]).unwrap();
    assert!(rebuilt.is_sort());
    assert_eq!(rebuilt.partition_count(), 6);
    assert_eq!(rebuilt.output_ordering(), Some(vec![asc(0)]));
    let u = node(Operator::Union, vec![source(1, None)]);
    assert_eq!(u.with_new_children(vec![source(1, None), source(2, None)]).unwrap().partition_count(), 3);
}

#[test]
fn rebuilding_over_the_wrong_number_of_inputs_fails() {
    let s = sort(vec![asc(0)], true, source(1, None));
    assert_eq!(s.with_new_children(vec![]).err(), Some(PlanError::Reconstruction));
    assert_eq!(s.with_new_children(vec![source(1, None), source(1, None)]).err(), Some(PlanError::Reconstruction));
    assert_eq!(source(1, None).with_new_children(vec![source(1, None)]).err(), Some(PlanError::Reconstruction));
    assert!(source(1, None).with_new_children(vec![]).is_ok());
    assert_eq!(node(Operator::Union, vec![]).with_new_children(vec![]).err(), Some(PlanError::Reconstruction));
    assert_eq!(join(source(1, None), source(1, None)).with_new_children(vec![source(1, None)]).err(), Some(PlanError::Reconstruction));
}

#[test]
fn children_are_handed_out_in_order() {
    let u = node(Operator::Union, vec![source(1, None), source(2, None), source(3, None)]);
    let counts: Vec<usize> = u.children().iter().map(|c| c.partition_count()).collect();
    assert_eq!(counts, vec![1, 2, 3]);
    let single = PlanNode::unary(Operator::CoalescePartitions, source(9, None));
    assert_eq!(single.children.len(), 1);
    assert_eq!(single.children[0].partition_count(), 9);
    let built = PlanNode::new(Operator::Union, vec![source(2, None), source(2, None)]);
    assert_eq!(built.partition_count(), 4);
}

fn engine_source(ordering: &Option<Vec<SortKey>>) -> Arc<dyn ExecutionPlan> {
    let exec = MemoryExec::try_new(&[], Arc::new(Schema::empty()), None).unwrap();
    match ordering {
        Some(keys) => Arc::new(
            exec.with_sort_information(vec![keys
                .iter()
                .map(|k| PhysicalSortExpr {
                    expr: Arc::new(Column::new("", k.expr)),
                    options: EngineSortOptions {
                        descending: k.options.descending,
                        nulls_first: k.options.nulls_first,
                    },
                })
                .collect()]),
        ),
        None => Arc::new(exec),
    }
}

fn orderings_up_to(max_len: usize) -> Vec<Option<Vec<SortKey>>> {
    let keys = [
        SortKey { expr: 0, options: SortOptions { descending: false, nulls_first: true } },
        SortKey { expr: 0, options: SortOptions { descending: true, nulls_first: true } },
        SortKey { expr: 1, options: SortOptions { descending: false, nulls_first: true } },
    ];
    let mut out: Vec<Option<Vec<SortKey>>> = vec![None, Some(vec![])];
    let mut last: Vec<Vec<SortKey>> = vec![vec![]];
    for _ in 0..max_len {
        let mut next = Vec::new();
        for prefix in &last {
            for k in keys.iter() {
                let mut s = prefix.clone();
                s.push(*k);
                next.push(s);
            }
        }
        out.extend(next.iter().cloned().map(Some));
        last = next;
    }
    out
}

#[test]
fn union_is_ordered_as_the_engine_union_on_all_short_inputs() {
    let orderings = orderings_up_to(2);
    let mut compared = 0;
    for a in &orderings {
        for b in &orderings {
            for c in &orderings {
                let inputs = [a, b, c];
                for count in 1..=3 {
                    let given = &inputs[..count];
                    let engine = UnionExec::new(given.iter().map(|o| engine_source(o)).collect());
                    let expected: Option<Vec<SortKey>> = engine.output_ordering().map(|o| {
                        o.iter()
                            .map(|k| SortKey {
                                expr: k.expr.as_any().downcast_ref::<Column>().unwrap().index(),
                                options: SortOptions {
                                    descending: k.options.descending,
                                    nulls_first: k.options.nulls_first,
                                },
                            })
                            .collect()
                    });
                    let library = PlanNode {
                        op: Arc::new(Operator::Union),
                        children: given
                            .iter()
                            .map(|o| {
                                Arc::new(PlanNode {
                                    op: Arc::new(Operator::Source {
                                        label: 0,
                                        ordering: (*o).clone(),
                                        partitions: 1,
                                        unbounded: false,
                                    }),
                                    children: vec![],
                                })
                            })
                            .collect(),
                    };
                    assert_eq!(library.output_ordering(), expected, "{:?}", given);
                    let keeps: Vec<bool> = (0..count).map(|i| library.maintains_input_order(i)).collect();
                    assert_eq!(keeps, engine.maintains_input_order(), "{:?}", given);
                    compared += 1;
                }
            }
        }
    }
    assert!(compared > 5000);
}

struct Dice(u64);

impl Dice {
    fn roll(&mut self, sides: u64) -> u64 {
        self.0 = self.0.wrapping_mul(6364136223846793005).wrapping_add(1442695040888963407);
        (self.0 >> 33) % sides
    }
}

fn engine_keys(keys: &[SortKey]) -> Vec<PhysicalSortExpr> {
    keys.iter()
        .map(|k| PhysicalSortExpr {
            expr: Arc::new(Column::new("", k.expr)),
            options: EngineSortOptions {
                descending: k.options.descending,
                nulls_first: k.options.nulls_first,
            },
        })
        .collect()
}

fn some_ordering(dice: &mut Dice) -> Vec<SortKey> {
    let length = 1 + dice.roll(2) as usize;
    (0..length)
        .map(|_| SortKey {
            expr: dice.roll(2) as usize,
            options: SortOptions { descending: dice.roll(2) == 0, nulls_first: true },
        })
        .collect()
}

/// A plan of the library together with the engine plan that it describes.
fn some_pair(dice: &mut Dice, depth: u32) -> (Arc<PlanNode>, Arc<dyn ExecutionPlan>) {
    if depth == 0 {
        let partitions = dice.roll(4) as usize;
        let ordering = if dice.roll(2) == 0 { None } else { Some(some_ordering(dice)) };
        let exec = MemoryExec::try_new(&vec![vec![]; partitions], Arc::new(Schema::empty()), None).unwrap();
        let exec = match &ordering {
            Some(keys) => exec.with_sort_information(vec![engine_keys(keys)]),
            None => exec,
        };
        let described = node(Operator::Source { label: 0, ordering, partitions, unbounded: false }, vec![]);
        return (described, Arc::new(exec));
    }
    let (input, engine_input) = some_pair(dice, depth - 1);
    match dice.roll(7) {
        0 => {
            let keys = some_ordering(dice);
            let preserve = dice.roll(2) == 0;
            (
                node(
                    Operator::Sort { expr: keys.clone(), fetch: None, preserve_partitioning: preserve },
                    vec![input],
                ),
                Arc::new(SortExec::new(engine_keys(&keys), engine_input).with_preserve_partitioning(preserve)),
            )
        }
        1 => match input.output_ordering() {
            Some(keys) => (
                node(Operator::SortPreservingMerge { expr: keys.clone(), fetch: None }, vec![input]),
                Arc::new(SortPreservingMergeExec::new(engine_keys(&keys), engine_input)),
            ),
            None => (
                node(Operator::CoalescePartitions, vec![input]),
                Arc::new(CoalescePartitionsExec::new(engine_input)),
            ),
        },
        2 => (
            node(Operator::CoalescePartitions, vec![input]),
            Arc::new(CoalescePartitionsExec::new(engine_input)),
        ),
        3 => {
            let count = 1 + dice.roll(3) as usize;
            let preserve = dice.roll(2) == 0;
            let exec = RepartitionExec::try_new(engine_input, EnginePartitioning::RoundRobinBatch(count)).unwrap();
            let exec = if preserve { exec.with_preserve_order() } else { exec };
            (
                node(
                    Operator::Repartition {
                        partitioning: Partitioning::RoundRobinBatch(count),
                        preserve_order: preserve,
                    },
                    vec![input],
                ),
                Arc::new(exec),
            )
        }
        4 => (
            node(Operator::GlobalLimit { skip: 0, fetch: Some(5) }, vec![input]),
            Arc::new(GlobalLimitExec::new(engine_input, 0, Some(5))),
        ),
        5 => (
            node(Operator::LocalLimit { fetch: 5 }, vec![input]),
            Arc::new(LocalLimitExec::new(engine_input, 5)),
        ),
        _ => {
            let (other, engine_other) = some_pair(dice, depth - 1);
            (
                node(Operator::Union, vec![input, other]),
                Arc::new(UnionExec::new(vec![engine_input, engine_other])),
            )
        }
    }
}

fn described_keys(keys: &[PhysicalSortExpr]) -> Vec<SortKey> {
    keys.iter()
        .map(|k| SortKey {
            expr: k.expr.as_any().downcast_ref::<Column>().unwrap().index(),
            options: SortOptions {
                descending: k.options.descending,
                nulls_first: k.options.nulls_first,
            },
        })
        .collect()
}

fn compare_attributes(described: &PlanNode, engine: &Arc<dyn ExecutionPlan>) -> usize {
    assert_eq!(
        described.output_ordering(),
        engine.output_ordering().map(described_keys),
        "{:?} over {:?}",
        described.op,
        described.children.iter().map(|c| (c.partition_count(), c.output_ordering())).collect::<Vec<_>>()
    );
    assert_eq!(
        described.partition_count(),
        engine.output_partitioning().partition_count(),
        "{:?}",
        described.op
    );
    let keeps = engine.maintains_input_order();
    let asked = engine.required_input_ordering();
    let distribution = engine.required_input_distribution();
    let inputs = engine.children();
    assert_eq!(described.children.len(), inputs.len());
    let mut compared = 1;
    for i in 0..inputs.len() {
        assert_eq!(described.maintains_input_order(i), keeps[i], "{:?}", described.op);
        let expected: Option<Vec<SortRequirement>> = asked[i].as_ref().map(|requirements| {
            requirements
                .iter()
                .map(|r| SortRequirement {
                    expr: r.expr.as_any().downcast_ref::<Column>().unwrap().index(),
                    options: r.options.map(|o| SortOptions {
                        descending: o.descending,
                        nulls_first: o.nulls_first,
                    }),
                })
                .collect()
        });
        assert_eq!(described.required_input_ordering(i), expected, "{:?}", described.op);
        assert_eq!(
            described.requires_single_partition(i),
            matches!(distribution[i], EngineDistribution::SinglePartition)
        );
        compared += compare_attributes(&described.children[i], &inputs[i]);
    }
    compared
}

#[test]
fn attributes_are_those_of_the_engine_operators_on_sampled_plans() {
    let mut dice = Dice(71);
    let mut compared = 0;
    for _ in 0..3000 {
        let depth = 1 + dice.roll(4) as u32;
        let (described, engine) = some_pair(&mut dice, depth);
        compared += compare_attributes(&described, &engine);
    }
    assert!(compared > 10000);
}
