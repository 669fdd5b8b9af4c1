use sort_enforcement::error::PlanError;
use sort_enforcement::model::{Distribution, PartitionSource};
use sort_enforcement::optimizer::EnforceSorting;
use sort_enforcement::ordering::{SortKey, SortOptions};
use sort_enforcement::plan::{InputContract, Operator, Partitioning, PlanNode, WindowFunction, SearchMode};
use std::sync::Arc;

const MEMORY: usize = 0;
const PARQUET: usize = 1;
const CSV: usize = 2;
const FILTER: usize = 1;
const AGGREGATE: usize = 2;

const SCHEMA: [&str; 2] = ["nullable_col", "non_nullable_col"];
const SCHEMA3: [&str; 5] = ["a", "b", "c", "d", "e"];

fn sort_expr(name: &str, schema: &[&str]) -> SortKey {
    sort_expr_options(name, schema, false, true)
}

fn sort_expr_options(name: &str, schema: &[&str], descending: bool, nulls_first: bool) -> SortKey {
    let expr = schema.iter().position(|c| *c == name).unwrap();
    SortKey { expr, options: SortOptions { descending, nulls_first } }
}

fn node(op: Operator, children: Vec<Arc<PlanNode>>) -> Arc<PlanNode> {
    Arc::new(PlanNode { op: Arc::new(op), children })
}

fn source(label: usize, ordering: Option<Vec<SortKey>>) -> Arc<PlanNode> {
    node(Operator::Source { label, ordering, partitions: 1, unbounded: false }, vec![])
}

fn memory_exec() -> Arc<PlanNode> {
    source(MEMORY, None)
}

fn parquet_exec() -> Arc<PlanNode> {
    source(PARQUET, None)
}

fn parquet_exec_sorted(keys: Vec<SortKey>) -> Arc<PlanNode> {
    source(PARQUET, Some(keys))
}

fn csv_exec_sorted(keys: Vec<SortKey>) -> Arc<PlanNode> {
    source(CSV, Some(keys))
}

fn sort_exec(keys: Vec<SortKey>, input: Arc<PlanNode>) -> Arc<PlanNode> {
    node(Operator::Sort { expr: keys, fetch: None, preserve_partitioning: false }, vec![input])
}

fn sort_exec_preserving(keys: Vec<SortKey>, input: Arc<PlanNode>) -> Arc<PlanNode> {
    node(Operator::Sort { expr: keys, fetch: None, preserve_partitioning: true }, vec![input])
}

fn sort_preserving_merge_exec(keys: Vec<SortKey>, input: Arc<PlanNode>) -> Arc<PlanNode> {
    node(Operator::SortPreservingMerge { expr: keys, fetch: None }, vec![input])
}

fn repartition_exec(input: Arc<PlanNode>) -> Arc<PlanNode> {
    node(
        Operator::Repartition {
            partitioning: Partitioning::RoundRobinBatch(10),
            preserve_order: false,
        },
        vec![input],
    )
}

fn hash_repartition_exec(column: usize, input: Arc<PlanNode>) -> Arc<PlanNode> {
    node(
        Operator::Repartition {
            partitioning: Partitioning::Hash(vec![column], 10),
            preserve_order: false,
        },
        vec![input],
    )
}

fn coalesce_partitions_exec(input: Arc<PlanNode>) -> Arc<PlanNode> {
    node(Operator::CoalescePartitions, vec![input])
}

fn union_exec(inputs: Vec<Arc<PlanNode>>) -> Arc<PlanNode> {
    node(Operator::Union, inputs)
}

fn filter_exec(input: Arc<PlanNode>) -> Arc<PlanNode> {
    node(
        Operator::Other {
            label: FILTER,
            inputs: vec![InputContract {
                required_ordering: None,
                distribution: Distribution::UnspecifiedDistribution,
                maintains_order: true,
            }],
            ordering_from: Some(0),
            partitions: PartitionSource::Input(0),
        },
        vec![input],
    )
}

fn aggregate_exec(input: Arc<PlanNode>) -> Arc<PlanNode> {
    node(
        Operator::Other {
            label: AGGREGATE,
            inputs: vec![InputContract {
                required_ordering: None,
                distribution: Distribution::SinglePartition,
                maintains_order: false,
            }],
            ordering_from: None,
            partitions: PartitionSource::Fixed(1),
        },
        vec![input],
    )
}

fn local_limit_exec(input: Arc<PlanNode>) -> Arc<PlanNode> {
    node(Operator::LocalLimit { fetch: 100 }, vec![input])
}

fn global_limit_exec(input: Arc<PlanNode>) -> Arc<PlanNode> {
    node(Operator::GlobalLimit { skip: 0, fetch: Some(100) }, vec![input])
}

fn limit_exec(input: Arc<PlanNode>) -> Arc<PlanNode> {
    global_limit_exec(local_limit_exec(input))
}

fn bounded_window_exec(order_by: Vec<SortKey>, input: Arc<PlanNode>) -> Arc<PlanNode> {
    node(
        Operator::Window {
            window_expr: vec![WindowFunction {
                label: 0,
                partition_by: vec![],
                order_by,
                uses_bounded_memory: true,
                reversible: true,
                reverse_uses_bounded_memory: false,
                reversed: false,
            }],
            partition_keys: vec![],
            bounded: true,
            mode: SearchMode::Sorted,
        },
        vec![input],
    )
}

fn key_text(k: &SortKey, schema: &[&str]) -> String {
    let options = match (k.options.descending, k.options.nulls_first) {
        (true, true) => "DESC",
        (true, false) => "DESC NULLS LAST",
        (false, true) => "ASC",
        (false, false) => "ASC NULLS LAST",
    };
    format!("{}@{} {}", schema[k.expr], k.expr, options)
}

fn keys_text(keys: &[SortKey], schema: &[&str], separator: &str) -> String {
    let parts: Vec<String> = keys.iter().map(|k| key_text(k, schema)).collect();
    parts.join(separator)
}

fn line(plan: &PlanNode, schema: &[&str]) -> String {
    match &*plan.op {
        Operator::Source { label, ordering, .. } => {
            let ordering = match ordering {
                Some(keys) if !keys.is_empty() => {
                    format!(", output_ordering=[{}]", keys_text(keys, schema, ", "))
                }
                _ => String::new(),
            };
            let projection = schema.join(", ");
            match *label {
                MEMORY => "MemoryExec: partitions=1, partition_sizes=[0]".to_string(),
                PARQUET => format!(
                    "ParquetExec: file_groups={{1 group: [[x]]}}, projection=[{}]{}",
                    projection, ordering
                ),
                _ => format!(
                    "CsvExec: file_groups={{1 group: [[x]]}}, projection=[{}]{}, has_header=false",
                    projection, ordering
                ),
            }
        }
        Operator::Sort { expr, .. } => format!("SortExec: expr=[{}]", keys_text(expr, schema, ",")),
        Operator::SortPreservingMerge { expr, .. } => {
            format!("SortPreservingMergeExec: [{}]", keys_text(expr, schema, ","))
        }
        Operator::CoalescePartitions => "CoalescePartitionsExec".to_string(),
        Operator::Repartition { partitioning, preserve_order } => {
            let p = match partitioning {
                Partitioning::RoundRobinBatch(n) => format!("RoundRobinBatch({})", n),
                Partitioning::Hash(cols, n) => {
                    let cols: Vec<String> =
                        cols.iter().map(|c| format!("{}@{}", schema[*c], c)).collect();
                    format!("Hash([{}], {})", cols.join(", "), n)
                }
                Partitioning::UnknownPartitioning(n) => format!("UnknownPartitioning({})", n),
            };
            let name = if *preserve_order { "SortPreservingRepartitionExec" } else { "RepartitionExec" };
            format!("{}: partitioning={}, input_partitions={}", name, p, plan.children[0].partition_count())
        }
        Operator::GlobalLimit { skip, fetch } => {
            format!("GlobalLimitExec: skip={}, fetch={}", skip, fetch.unwrap())
        }
        Operator::LocalLimit { fetch } => format!("LocalLimitExec: fetch={}", fetch),
        Operator::Union => "UnionExec".to_string(),
        Operator::Window { window_expr, bounded, mode, .. } => {
            let field = "count: Ok(Field { name: \"count\", data_type: Int64, nullable: true, dict_id: 0, dict_is_ordered: false, metadata: {} })";
            let frame = if window_expr[0].reversed {
                "start_bound: CurrentRow, end_bound: Following(NULL)"
            } else {
                "start_bound: Preceding(NULL), end_bound: CurrentRow"
            };
            if *bounded {
                format!(
                    "BoundedWindowAggExec: wdw=[{}, frame: WindowFrame {{ units: Range, {} }}], mode=[{:?}]",
                    field, frame, mode
                )
            } else {
                format!("WindowAggExec: wdw=[{}, frame: WindowFrame {{ units: Range, {} }}]", field, frame)
            }
        }
        Operator::Other { label, .. } => match *label {
            FILTER => "FilterExec: NOT non_nullable_col@1".to_string(),
            _ => "AggregateExec: mode=Final, gby=[], aggr=[]".to_string(),
        },
    }
}

fn render_into(plan: &PlanNode, schema: &[&str], depth: usize, out: &mut Vec<String>) {
    out.push(format!("{}{}", "  ".repeat(depth), line(plan, schema)));
    for child in plan.children.iter() {
        render_into(child, schema, depth + 1, out);
    }
}

fn get_plan_string(plan: &PlanNode, schema: &[&str]) -> Vec<String> {
    let mut out = Vec::new();
    render_into(plan, schema, 0, &mut out);
    out
}

fn unchanged(plan: Arc<PlanNode>) -> Result<Arc<PlanNode>, PlanError> {
    Ok(plan)
}

fn assert_optimized(
    expected_input: &[&str],
    expected_optimized: &[&str],
    plan: Arc<PlanNode>,
    schema: &[&str],
    repartition_sorts: bool,
) {
    let actual = get_plan_string(&plan, schema);
    assert_eq!(expected_input.to_vec(), actual);
    let optimized =
        match EnforceSorting::new().optimize(plan, repartition_sorts, &unchanged, &unchanged) {
            Ok(p) => p,
            Err(e) => panic!("rewrite failed: {:?}", e),
        };
    assert_eq!(expected_optimized.to_vec(), get_plan_string(&optimized, schema));
}

#[test]
fn test_remove_unnecessary_sort() {
    let source = memory_exec();
    let input = sort_exec(vec![sort_expr("non_nullable_col", &SCHEMA)], source);
    let physical_plan = sort_exec(vec![sort_expr("nullable_col", &SCHEMA)], input);

    let expected_input = [
        "SortExec: expr=[nullable_col@0 ASC]",
        "  SortExec: expr=[non_nullable_col@1 ASC]",
        "    MemoryExec: partitions=1, partition_sizes=[0]",
    ];
    let expected_optimized = [
        "SortExec: expr=[nullable_col@0 ASC]",
        "  MemoryExec: partitions=1, partition_sizes=[0]",
    ];
    assert_optimized(&expected_input, &expected_optimized, physical_plan, &SCHEMA, true);
}

#[test]
fn test_add_required_sort() {
    let source = memory_exec();
    let sort_exprs = vec![sort_expr("nullable_col", &SCHEMA)];
    let physical_plan = sort_preserving_merge_exec(sort_exprs, source);

    let expected_input = [
        "SortPreservingMergeExec: [nullable_col@0 ASC]",
        "  MemoryExec: partitions=1, partition_sizes=[0]",
    ];
    let expected_optimized = [
        "SortExec: expr=[nullable_col@0 ASC]",
        "  MemoryExec: partitions=1, partition_sizes=[0]",
    ];
    assert_optimized(&expected_input, &expected_optimized, physical_plan, &SCHEMA, true);
}

#[test]
fn test_remove_unnecessary_sort1() {
    let source = memory_exec();
    let sort_exprs = vec![sort_expr("nullable_col", &SCHEMA)];
    let sort = sort_exec(sort_exprs.clone(), source);
    let spm = sort_preserving_merge_exec(sort_exprs, sort);

    let sort_exprs = vec![sort_expr("nullable_col", &SCHEMA)];
    let sort = sort_exec(sort_exprs.clone(), spm);
    let physical_plan = sort_preserving_merge_exec(sort_exprs, sort);
    let expected_input = [
        "SortPreservingMergeExec: [nullable_col@0 ASC]",
        "  SortExec: expr=[nullable_col@0 ASC]",
        "    SortPreservingMergeExec: [nullable_col@0 ASC]",
        "      SortExec: expr=[nullable_col@0 ASC]",
        "        MemoryExec: partitions=1, partition_sizes=[0]",
    ];
    let expected_optimized = [
        "SortExec: expr=[nullable_col@0 ASC]",
        "  MemoryExec: partitions=1, partition_sizes=[0]",
    ];
    assert_optimized(&expected_input, &expected_optimized, physical_plan, &SCHEMA, true);
}

#[test]
fn test_remove_unnecessary_sort2() {
    let source = memory_exec();
    let sort_exprs = vec![sort_expr("non_nullable_col", &SCHEMA)];
    let sort = sort_exec(sort_exprs.clone(), source);
    let spm = sort_preserving_merge_exec(sort_exprs, sort);

    let sort_exprs =
        vec![sort_expr("nullable_col", &SCHEMA), sort_expr("non_nullable_col", &SCHEMA)];
    let sort2 = sort_exec(sort_exprs.clone(), spm);
    let spm2 = sort_preserving_merge_exec(sort_exprs, sort2);

    let sort_exprs = vec![sort_expr("nullable_col", &SCHEMA)];
    let sort3 = sort_exec(sort_exprs, spm2);
    let physical_plan = repartition_exec(repartition_exec(sort3));

    let expected_input = [
        "RepartitionExec: partitioning=RoundRobinBatch(10), input_partitions=10",
        "  RepartitionExec: partitioning=RoundRobinBatch(10), input_partitions=1",
        "    SortExec: expr=[nullable_col@0 ASC]",
        "      SortPreservingMergeExec: [nullable_col@0 ASC,non_nullable_col@1 ASC]",
        "        SortExec: expr=[nullable_col@0 ASC,non_nullable_col@1 ASC]",
        "          SortPreservingMergeExec: [non_nullable_col@1 ASC]",
        "            SortExec: expr=[non_nullable_col@1 ASC]",
        "              MemoryExec: partitions=1, partition_sizes=[0]",
    ];

    let expected_optimized = [
        "RepartitionExec: partitioning=RoundRobinBatch(10), input_partitions=10",
        "  RepartitionExec: partitioning=RoundRobinBatch(10), input_partitions=1",
        "    MemoryExec: partitions=1, partition_sizes=[0]",
    ];
    assert_optimized(&expected_input, &expected_optimized, physical_plan, &SCHEMA, true);
}

#[test]
fn test_remove_unnecessary_sort3() {
    let source = memory_exec();
    let sort_exprs = vec![sort_expr("non_nullable_col", &SCHEMA)];
    let sort = sort_exec(sort_exprs.clone(), source);
    let spm = sort_preserving_merge_exec(sort_exprs, sort);

    let sort_exprs =
        vec![sort_expr("nullable_col", &SCHEMA), sort_expr("non_nullable_col", &SCHEMA)];
    let repartition_exec = repartition_exec(spm);
    let sort2 = sort_exec_preserving(sort_exprs.clone(), repartition_exec);
    let spm2 = sort_preserving_merge_exec(sort_exprs, sort2);

    let physical_plan = aggregate_exec(spm2);

    let expected_input = [
        "AggregateExec: mode=Final, gby=[], aggr=[]",
        "  SortPreservingMergeExec: [nullable_col@0 ASC,non_nullable_col@1 ASC]",
        "    SortExec: expr=[nullable_col@0 ASC,non_nullable_col@1 ASC]",
        "      RepartitionExec: partitioning=RoundRobinBatch(10), input_partitions=1",
        "        SortPreservingMergeExec: [non_nullable_col@1 ASC]",
        "          SortExec: expr=[non_nullable_col@1 ASC]",
        "            MemoryExec: partitions=1, partition_sizes=[0]",
    ];

    let expected_optimized = [
        "AggregateExec: mode=Final, gby=[], aggr=[]",
        "  CoalescePartitionsExec",
        "    RepartitionExec: partitioning=RoundRobinBatch(10), input_partitions=1",
        "      MemoryExec: partitions=1, partition_sizes=[0]",
    ];
    assert_optimized(&expected_input, &expected_optimized, physical_plan, &SCHEMA, true);
}

#[test]
fn test_remove_unnecessary_sort4() {
    let source1 = repartition_exec(memory_exec());
    let source2 = repartition_exec(memory_exec());
    let union = union_exec(vec![source1, source2]);

    let sort_exprs = vec![sort_expr("non_nullable_col", &SCHEMA)];
    let sort = sort_exec_preserving(sort_exprs.clone(), union);
    let spm = sort_preserving_merge_exec(sort_exprs, sort);

    let filter = filter_exec(spm);

    let sort_exprs =
        vec![sort_expr("nullable_col", &SCHEMA), sort_expr("non_nullable_col", &SCHEMA)];
    let physical_plan = sort_exec(sort_exprs, filter);

    let expected_input = [
        "SortExec: expr=[nullable_col@0 ASC,non_nullable_col@1 ASC]",
        "  FilterExec: NOT non_nullable_col@1",
        "    SortPreservingMergeExec: [non_nullable_col@1 ASC]",
        "      SortExec: expr=[non_nullable_col@1 ASC]",
        "        UnionExec",
        "          RepartitionExec: partitioning=RoundRobinBatch(10), input_partitions=1",
        "            MemoryExec: partitions=1, partition_sizes=[0]",
        "          RepartitionExec: partitioning=RoundRobinBatch(10), input_partitions=1",
        "            MemoryExec: partitions=1, partition_sizes=[0]",
    ];

    let expected_optimized = [
        "SortPreservingMergeExec: [nullable_col@0 ASC,non_nullable_col@1 ASC]",
        "  SortExec: expr=[nullable_col@0 ASC,non_nullable_col@1 ASC]",
        "    FilterExec: NOT non_nullable_col@1",
        "      UnionExec",
        "        RepartitionExec: partitioning=RoundRobinBatch(10), input_partitions=1",
        "          MemoryExec: partitions=1, partition_sizes=[0]",
        "        RepartitionExec: partitioning=RoundRobinBatch(10), input_partitions=1",
        "          MemoryExec: partitions=1, partition_sizes=[0]",
    ];
    assert_optimized(&expected_input, &expected_optimized, physical_plan, &SCHEMA, true);
}

#[test]
fn test_remove_unnecessary_spm1() {
    let source = memory_exec();
    let input = sort_preserving_merge_exec(vec![sort_expr("non_nullable_col", &SCHEMA)], source);
    let input2 = sort_preserving_merge_exec(vec![sort_expr("non_nullable_col", &SCHEMA)], input);
    let physical_plan =
        sort_preserving_merge_exec(vec![sort_expr("nullable_col", &SCHEMA)], input2);

    let expected_input = [
        "SortPreservingMergeExec: [nullable_col@0 ASC]",
        "  SortPreservingMergeExec: [non_nullable_col@1 ASC]",
        "    SortPreservingMergeExec: [non_nullable_col@1 ASC]",
        "      MemoryExec: partitions=1, partition_sizes=[0]",
    ];
    let expected_optimized = [
        "SortExec: expr=[nullable_col@0 ASC]",
        "  MemoryExec: partitions=1, partition_sizes=[0]",
    ];
    assert_optimized(&expected_input, &expected_optimized, physical_plan, &SCHEMA, true);
}

#[test]
fn test_do_not_remove_sort_with_limit() {
    let source1 = parquet_exec();
    let sort_exprs =
        vec![sort_expr("nullable_col", &SCHEMA), sort_expr("non_nullable_col", &SCHEMA)];
    let sort = sort_exec(sort_exprs.clone(), source1);
    let limit = limit_exec(sort);

    let parquet_sort_exprs = vec![sort_expr("nullable_col", &SCHEMA)];
    let source2 = parquet_exec_sorted(parquet_sort_exprs);

    let union = union_exec(vec![source2, limit]);
    let repartition = repartition_exec(union);
    let physical_plan = sort_preserving_merge_exec(sort_exprs, repartition);

    let expected_input = [
        "SortPreservingMergeExec: [nullable_col@0 ASC,non_nullable_col@1 ASC]",
        "  RepartitionExec: partitioning=RoundRobinBatch(10), input_partitions=2",
        "    UnionExec",
        "      ParquetExec: file_groups={1 group: [[x]]}, projection=[nullable_col, non_nullable_col], output_ordering=[nullable_col@0 ASC]",
        "      GlobalLimitExec: skip=0, fetch=100",
        "        LocalLimitExec: fetch=100",
        "          SortExec: expr=[nullable_col@0 ASC,non_nullable_col@1 ASC]",
        "            ParquetExec: file_groups={1 group: [[x]]}, projection=[nullable_col, non_nullable_col]",
    ];

    let expected_optimized = [
        "SortPreservingMergeExec: [nullable_col@0 ASC,non_nullable_col@1 ASC]",
        "  SortExec: expr=[nullable_col@0 ASC,non_nullable_col@1 ASC]",
        "    RepartitionExec: partitioning=RoundRobinBatch(10), input_partitions=2",
        "      UnionExec",
        "        ParquetExec: file_groups={1 group: [[x]]}, projection=[nullable_col, non_nullable_col], output_ordering=[nullable_col@0 ASC]",
        "        GlobalLimitExec: skip=0, fetch=100",
        "          LocalLimitExec: fetch=100",
        "            SortExec: expr=[nullable_col@0 ASC,non_nullable_col@1 ASC]",
        "              ParquetExec: file_groups={1 group: [[x]]}, projection=[nullable_col, non_nullable_col]",
    ];
    assert_optimized(&expected_input, &expected_optimized, physical_plan, &SCHEMA, true);
}

#[test]
fn test_change_wrong_sorting() {
    let source = memory_exec();
    let sort_exprs =
        vec![sort_expr("nullable_col", &SCHEMA), sort_expr("non_nullable_col", &SCHEMA)];
    let sort = sort_exec(vec![sort_exprs[0]], source);
    let physical_plan = sort_preserving_merge_exec(sort_exprs, sort);
    let expected_input = [
        "SortPreservingMergeExec: [nullable_col@0 ASC,non_nullable_col@1 ASC]",
        "  SortExec: expr=[nullable_col@0 ASC]",
        "    MemoryExec: partitions=1, partition_sizes=[0]",
    ];
    let expected_optimized = [
        "SortExec: expr=[nullable_col@0 ASC,non_nullable_col@1 ASC]",
        "  MemoryExec: partitions=1, partition_sizes=[0]",
    ];
    assert_optimized(&expected_input, &expected_optimized, physical_plan, &SCHEMA, true);
}

#[test]
fn test_change_wrong_sorting2() {
    let source = memory_exec();
    let sort_exprs =
        vec![sort_expr("nullable_col", &SCHEMA), sort_expr("non_nullable_col", &SCHEMA)];
    let spm1 = sort_preserving_merge_exec(sort_exprs.clone(), source);
    let sort2 = sort_exec(vec![sort_exprs[0]], spm1);
    let physical_plan = sort_preserving_merge_exec(vec![sort_exprs[1]], sort2);

    let expected_input = [
        "SortPreservingMergeExec: [non_nullable_col@1 ASC]",
        "  SortExec: expr=[nullable_col@0 ASC]",
        "    SortPreservingMergeExec: [nullable_col@0 ASC,non_nullable_col@1 ASC]",
        "      MemoryExec: partitions=1, partition_sizes=[0]",
    ];
    let expected_optimized = [
        "SortExec: expr=[non_nullable_col@1 ASC]",
        "  MemoryExec: partitions=1, partition_sizes=[0]",
    ];
    assert_optimized(&expected_input, &expected_optimized, physical_plan, &SCHEMA, true);
}

#[test]
fn test_union_inputs_different_sorted8() {
    let source1 = parquet_exec();
    let sort_exprs1 =
        vec![sort_expr("nullable_col", &SCHEMA), sort_expr("non_nullable_col", &SCHEMA)];
    let sort_exprs2 = vec![
        sort_expr_options("nullable_col", &SCHEMA, true, false),
        sort_expr_options("non_nullable_col", &SCHEMA, true, false),
    ];
    let sort1 = sort_exec(sort_exprs1, source1.clone());
    let sort2 = sort_exec(sort_exprs2, source1);

    let physical_plan = union_exec(vec![sort1, sort2]);

    let expected_input = [
        "UnionExec",
        "  SortExec: expr=[nullable_col@0 ASC,non_nullable_col@1 ASC]",
        "    ParquetExec: file_groups={1 group: [[x]]}, projection=[nullable_col, non_nullable_col]",
        "  SortExec: expr=[nullable_col@0 DESC NULLS LAST,non_nullable_col@1 DESC NULLS LAST]",
        "    ParquetExec: file_groups={1 group: [[x]]}, projection=[nullable_col, non_nullable_col]",
    ];
    let expected_optimized = [
        "UnionExec",
        "  ParquetExec: file_groups={1 group: [[x]]}, projection=[nullable_col, non_nullable_col]",
        "  ParquetExec: file_groups={1 group: [[x]]}, projection=[nullable_col, non_nullable_col]",
    ];
    assert_optimized(&expected_input, &expected_optimized, physical_plan, &SCHEMA, true);
}

#[test]
fn test_multilayer_coalesce_partitions() {
    let source1 = parquet_exec();
    let repartition = repartition_exec(source1);
    let coalesce = coalesce_partitions_exec(repartition);
    let filter = filter_exec(coalesce);
    let sort_exprs = vec![sort_expr("nullable_col", &SCHEMA)];
    let physical_plan = sort_exec(sort_exprs, filter);

    let expected_input = [
        "SortExec: expr=[nullable_col@0 ASC]",
        "  FilterExec: NOT non_nullable_col@1",
        "    CoalescePartitionsExec",
        "      RepartitionExec: partitioning=RoundRobinBatch(10), input_partitions=1",
        "        ParquetExec: file_groups={1 group: [[x]]}, projection=[nullable_col, non_nullable_col]",
    ];
    let expected_optimized = [
        "SortPreservingMergeExec: [nullable_col@0 ASC]",
        "  SortExec: expr=[nullable_col@0 ASC]",
        "    FilterExec: NOT non_nullable_col@1",
        "      RepartitionExec: partitioning=RoundRobinBatch(10), input_partitions=1",
        "        ParquetExec: file_groups={1 group: [[x]]}, projection=[nullable_col, non_nullable_col]",
    ];
    assert_optimized(&expected_input, &expected_optimized, physical_plan, &SCHEMA, true);
}

#[test]
fn test_coalesce_propagate() {
    let source = memory_exec();
    let repartition = repartition_exec(source);
    let coalesce_partitions = coalesce_partitions_exec(repartition);
    let repartition = repartition_exec(coalesce_partitions);
    let sort_exprs = vec![sort_expr("nullable_col", &SCHEMA)];
    let sort = sort_exec_preserving(sort_exprs.clone(), repartition);
    let spm = sort_preserving_merge_exec(sort_exprs.clone(), sort);
    let physical_plan = sort_exec(sort_exprs, spm);

    let expected_input = [
        "SortExec: expr=[nullable_col@0 ASC]",
        "  SortPreservingMergeExec: [nullable_col@0 ASC]",
        "    SortExec: expr=[nullable_col@0 ASC]",
        "      RepartitionExec: partitioning=RoundRobinBatch(10), input_partitions=1",
        "        CoalescePartitionsExec",
        "          RepartitionExec: partitioning=RoundRobinBatch(10), input_partitions=1",
        "            MemoryExec: partitions=1, partition_sizes=[0]",
    ];
    let expected_optimized = [
        "SortPreservingMergeExec: [nullable_col@0 ASC]",
        "  SortExec: expr=[nullable_col@0 ASC]",
        "    RepartitionExec: partitioning=RoundRobinBatch(10), input_partitions=1",
        "      MemoryExec: partitions=1, partition_sizes=[0]",
    ];
    assert_optimized(&expected_input, &expected_optimized, physical_plan, &SCHEMA, true);
}

#[test]
fn test_with_lost_ordering_bounded() {
    let sort_exprs = vec![sort_expr("a", &SCHEMA3)];
    let source = csv_exec_sorted(sort_exprs);
    let repartition_rr = repartition_exec(source);
    let repartition_hash = hash_repartition_exec(2, repartition_rr);
    let coalesce_partitions = coalesce_partitions_exec(repartition_hash);
    let physical_plan = sort_exec(vec![sort_expr("a", &SCHEMA3)], coalesce_partitions);

    let expected_input = [
        "SortExec: expr=[a@0 ASC]",
        "  CoalescePartitionsExec",
        "    RepartitionExec: partitioning=Hash([c@2], 10), input_partitions=10",
        "      RepartitionExec: partitioning=RoundRobinBatch(10), input_partitions=1",
        "        CsvExec: file_groups={1 group: [[x]]}, projection=[a, b, c, d, e], output_ordering=[a@0 ASC], has_header=false",
    ];
    let expected_optimized = [
        "SortPreservingMergeExec: [a@0 ASC]",
        "  SortExec: expr=[a@0 ASC]",
        "    RepartitionExec: partitioning=Hash([c@2], 10), input_partitions=10",
        "      RepartitionExec: partitioning=RoundRobinBatch(10), input_partitions=1",
        "        CsvExec: file_groups={1 group: [[x]]}, projection=[a, b, c, d, e], output_ordering=[a@0 ASC], has_header=false",
    ];
    assert_optimized(&expected_input, &expected_optimized, physical_plan, &SCHEMA3, true);
}

#[test]
fn test_do_not_pushdown_through_spm() {
    let sort_exprs = vec![sort_expr("a", &SCHEMA3), sort_expr("b", &SCHEMA3)];
    let source = csv_exec_sorted(sort_exprs.clone());
    let repartition_rr = repartition_exec(source);
    let spm = sort_preserving_merge_exec(sort_exprs, repartition_rr);
    let physical_plan = sort_exec(vec![sort_expr("b", &SCHEMA3)], spm);

    let expected_input = [
        "SortExec: expr=[b@1 ASC]",
        "  SortPreservingMergeExec: [a@0 ASC,b@1 ASC]",
        "    RepartitionExec: partitioning=RoundRobinBatch(10), input_partitions=1",
        "      CsvExec: file_groups={1 group: [[x]]}, projection=[a, b, c, d, e], output_ordering=[a@0 ASC, b@1 ASC], has_header=false",
    ];
    let expected_optimized = [
        "SortExec: expr=[b@1 ASC]",
        "  SortPreservingMergeExec: [a@0 ASC,b@1 ASC]",
        "    RepartitionExec: partitioning=RoundRobinBatch(10), input_partitions=1",
        "      CsvExec: file_groups={1 group: [[x]]}, projection=[a, b, c, d, e], output_ordering=[a@0 ASC, b@1 ASC], has_header=false",
    ];
    assert_optimized(&expected_input, &expected_optimized, physical_plan, &SCHEMA3, false);
}

#[test]
fn merge_over_repartitioned_sorted_source_needs_no_sort() {
    let source = parquet_exec_sorted(vec![sort_expr("nullable_col", &SCHEMA)]);
    let plan = sort_exec(
        vec![sort_expr("nullable_col", &SCHEMA)],
        coalesce_partitions_exec(repartition_exec(source)),
    );
    let expected_input = [
        "SortExec: expr=[nullable_col@0 ASC]",
        "  CoalescePartitionsExec",
        "    RepartitionExec: partitioning=RoundRobinBatch(10), input_partitions=1",
        "      ParquetExec: file_groups={1 group: [[x]]}, projection=[nullable_col, non_nullable_col], output_ordering=[nullable_col@0 ASC]",
    ];
    let expected_optimized = [
        "SortPreservingMergeExec: [nullable_col@0 ASC]",
        "  RepartitionExec: partitioning=RoundRobinBatch(10), input_partitions=1",
        "    ParquetExec: file_groups={1 group: [[x]]}, projection=[nullable_col, non_nullable_col], output_ordering=[nullable_col@0 ASC]",
    ];
    assert_optimized(&expected_input, &expected_optimized, plan.clone(), &SCHEMA, true);
    assert_optimized(&expected_input, &expected_input, plan, &SCHEMA, false);
}

#[test]
fn sort_above_union_replaces_sorts_below_it() {
    let sort_exprs = vec![sort_expr("nullable_col", &SCHEMA)];
    let sort = sort_exec(sort_exprs.clone(), parquet_exec());
    let source2 = parquet_exec_sorted(sort_exprs.clone());
    let union = union_exec(vec![source2, sort]);
    let physical_plan = sort_preserving_merge_exec(sort_exprs, union);

    let expected_input = [
        "SortPreservingMergeExec: [nullable_col@0 ASC]",
        "  UnionExec",
        "    ParquetExec: file_groups={1 group: [[x]]}, projection=[nullable_col, non_nullable_col], output_ordering=[nullable_col@0 ASC]",
        "    SortExec: expr=[nullable_col@0 ASC]",
        "      ParquetExec: file_groups={1 group: [[x]]}, projection=[nullable_col, non_nullable_col]",
    ];
    let expected_optimized = [
        "SortPreservingMergeExec: [nullable_col@0 ASC]",
        "  SortExec: expr=[nullable_col@0 ASC]",
        "    UnionExec",
        "      ParquetExec: file_groups={1 group: [[x]]}, projection=[nullable_col, non_nullable_col], output_ordering=[nullable_col@0 ASC]",
        "      ParquetExec: file_groups={1 group: [[x]]}, projection=[nullable_col, non_nullable_col]",
    ];
    assert_optimized(&expected_input, &expected_optimized, physical_plan, &SCHEMA, true);
}

#[test]
fn window_over_opposite_order_runs_in_reverse() {
    let descending = vec![sort_expr_options("non_nullable_col", &SCHEMA, true, true)];
    let source = parquet_exec_sorted(vec![sort_expr_options("non_nullable_col", &SCHEMA, false, false)]);
    let plan = bounded_window_exec(descending.clone(), sort_exec(descending, source));
    let optimized = EnforceSorting::new().enforce_and_parallelize(plan, true).unwrap();
    assert_eq!(
        get_plan_string(&optimized, &SCHEMA),
        vec![
            "WindowAggExec: wdw=[count: Ok(Field { name: \"count\", data_type: Int64, nullable: true, dict_id: 0, dict_is_ordered: false, metadata: {} }), frame: WindowFrame { units: Range, start_bound: CurrentRow, end_bound: Following(NULL) }]",
            "  ParquetExec: file_groups={1 group: [[x]]}, projection=[nullable_col, non_nullable_col], output_ordering=[non_nullable_col@1 ASC NULLS LAST]",
        ]
    );
    match &*optimized.op {
        Operator::Window { window_expr, bounded, .. } => {
            assert!(!*bounded);
            assert!(window_expr[0].reversed);
            assert_eq!(
                window_expr[0].order_by,
                vec![sort_expr_options("non_nullable_col", &SCHEMA, false, false)]
            );
        }
        _ => panic!("not a window"),
    }
}

#[test]
fn upper_window_runs_in_reverse_over_lower_window() {
    let descending = vec![sort_expr_options("non_nullable_col", &SCHEMA, true, true)];
    let ascending = vec![sort_expr_options("non_nullable_col", &SCHEMA, false, false)];
    let sort = sort_exec(descending.clone(), memory_exec());
    let window_agg = bounded_window_exec(descending, filter_exec(sort));
    let sort = sort_exec(ascending.clone(), window_agg);
    let plan = bounded_window_exec(ascending, filter_exec(sort));
    let declared = "BoundedWindowAggExec: wdw=[count: Ok(Field { name: \"count\", data_type: Int64, nullable: true, dict_id: 0, dict_is_ordered: false, metadata: {} }), frame: WindowFrame { units: Range, start_bound: Preceding(NULL), end_bound: CurrentRow }], mode=[Sorted]";
    let reversed = "WindowAggExec: wdw=[count: Ok(Field { name: \"count\", data_type: Int64, nullable: true, dict_id: 0, dict_is_ordered: false, metadata: {} }), frame: WindowFrame { units: Range, start_bound: CurrentRow, end_bound: Following(NULL) }]";
    let optimized = EnforceSorting::new().enforce_and_parallelize(plan, true).unwrap();
    assert_eq!(
        get_plan_string(&optimized, &SCHEMA),
        vec![
            reversed.to_string(),
            "  FilterExec: NOT non_nullable_col@1".to_string(),
            format!("    {}", declared),
            "      SortExec: expr=[non_nullable_col@1 DESC]".to_string(),
            "        FilterExec: NOT non_nullable_col@1".to_string(),
            "          MemoryExec: partitions=1, partition_sizes=[0]".to_string(),
        ]
    );
}

#[test]
fn second_run_changes_nothing_on_these_plans() {
    let plans = vec![
        sort_exec(
            vec![sort_expr("nullable_col", &SCHEMA)],
            sort_exec(vec![sort_expr("non_nullable_col", &SCHEMA)], memory_exec()),
        ),
        sort_preserving_merge_exec(vec![sort_expr("nullable_col", &SCHEMA)], memory_exec()),
        aggregate_exec(sort_preserving_merge_exec(
            vec![sort_expr("nullable_col", &SCHEMA)],
            sort_exec_preserving(
                vec![sort_expr("nullable_col", &SCHEMA)],
                repartition_exec(memory_exec()),
            ),
        )),
        sort_preserving_merge_exec(
            vec![sort_expr("nullable_col", &SCHEMA)],
            union_exec(vec![
                parquet_exec_sorted(vec![sort_expr("nullable_col", &SCHEMA)]),
                sort_exec(vec![sort_expr("nullable_col", &SCHEMA)], parquet_exec()),
            ]),
        ),
    ];
    for plan in plans {
        let once = EnforceSorting::new().enforce_and_parallelize(plan, false).unwrap();
        let twice = EnforceSorting::new().enforce_and_parallelize(once.clone(), false).unwrap();
        assert_eq!(get_plan_string(&once, &SCHEMA), get_plan_string(&twice, &SCHEMA));
    }
}

#[test]
fn second_run_removes_sort_over_source_that_the_first_run_uncovered() {
    let source = parquet_exec_sorted(vec![sort_expr("nullable_col", &SCHEMA)]);
    let inner = sort_exec(vec![sort_expr("non_nullable_col", &SCHEMA)], source);
    let plan = sort_exec(vec![sort_expr("nullable_col", &SCHEMA)], inner);
    let once = EnforceSorting::new().enforce_and_parallelize(plan, false).unwrap();
    assert_eq!(
        get_plan_string(&once, &SCHEMA),
        vec![
            "SortExec: expr=[nullable_col@0 ASC]",
            "  ParquetExec: file_groups={1 group: [[x]]}, projection=[nullable_col, non_nullable_col], output_ordering=[nullable_col@0 ASC]",
        ]
    );
    let twice = EnforceSorting::new().enforce_and_parallelize(once, false).unwrap();
    assert_eq!(
        get_plan_string(&twice, &SCHEMA),
        vec!["ParquetExec: file_groups={1 group: [[x]]}, projection=[nullable_col, non_nullable_col], output_ordering=[nullable_col@0 ASC]"]
    );
}

#[test]
fn rule_hands_the_rewritten_plan_through_both_later_passes() {
    let plan = sort_preserving_merge_exec(vec![sort_expr("nullable_col", &SCHEMA)], memory_exec());
    let substitution = |p: Arc<PlanNode>| -> Result<Arc<PlanNode>, PlanError> { Ok(filter_exec(p)) };
    let pushdown = |p: Arc<PlanNode>| -> Result<Arc<PlanNode>, PlanError> { Ok(limit_exec(p)) };
    let out = EnforceSorting::new().optimize(plan, true, &substitution, &pushdown).unwrap();
    assert_eq!(
        get_plan_string(&out, &SCHEMA),
        vec![
            "GlobalLimitExec: skip=0, fetch=100",
            "  LocalLimitExec: fetch=100",
            "    FilterExec: NOT non_nullable_col@1",
            "      SortExec: expr=[nullable_col@0 ASC]",
            "        MemoryExec: partitions=1, partition_sizes=[0]",
        ]
    );
}

#[test]
fn rule_stops_at_the_first_failure() {
    let plan = sort_preserving_merge_exec(vec![sort_expr("nullable_col", &SCHEMA)], memory_exec());
    let failing = |_: Arc<PlanNode>| -> Result<Arc<PlanNode>, PlanError> { Err(PlanError::KindMismatch) };
    let pushdown = |p: Arc<PlanNode>| -> Result<Arc<PlanNode>, PlanError> { Ok(limit_exec(p)) };
    let r = EnforceSorting::new().optimize(plan.clone(), true, &failing, &pushdown);
    assert_eq!(r.err(), Some(PlanError::KindMismatch));
    let r = EnforceSorting::new().optimize(plan, true, &unchanged, &failing);
    assert_eq!(r.err(), Some(PlanError::KindMismatch));
    let malformed = node(Operator::CoalescePartitions, vec![]);
    let top = sort_exec(vec![sort_expr("nullable_col", &SCHEMA)], node(Operator::Union, vec![malformed]));
    let r = EnforceSorting::new().optimize(top, true, &unchanged, &unchanged);
    assert!(r.is_ok());
}
