use std::cell::Cell;
use std::rc::Rc;

use polars_exec::agg::{AggExpr, AggOp};
use polars_exec::column::Column;
use polars_exec::context::ExecutionState;
use polars_exec::error::ExecError;
use polars_exec::exec::{
    evaluate_physical_expressions, execute, groupby_helper, join_tables, partition_groupby,
    JoinType, NoUdf, Op, TableUdf,
};
use polars_exec::expr::Expr;
use polars_exec::groupby::assemble_groupby_output;
use polars_exec::table::Table;
use polars_exec::categorical::{CategoricalChunkedBuilder, StringCache};
use polars_exec::value::{value_eq, Scalar, Value};

fn int_col_op(name: &str, vals: &[i64]) -> Column {
    Column {
        name: name.to_string(),
        values: vals.iter().map(|v| Value::Int(*v)).collect(),
        cat: None,
    }
}

fn table_op(cols: Vec<Column>) -> Table {
    Table { cols }
}

fn get_ints_op(t: &Table, name: &str) -> Vec<Option<i64>> {
    let i = t
        .cols
        .iter()
        .position(|c| c.name == name)
        .unwrap_or_else(|| panic!("missing column"));
    t.cols[i]
        .values
        .iter()
        .map(|v| match v {
            Value::Int(x) => Some(*x),
            _ => None,
        })
        .collect()
}

struct CountingUdf {
    count: Rc<Cell<u32>>,
}

impl TableUdf for CountingUdf {
    fn call_udf(&self, df: Table) -> Result<Table, ExecError> {
        self.count.set(self.count.get() + 1);
        Ok(df)
    }
}

fn counting_tree(count: &Rc<Cell<u32>>) -> Op<CountingUdf> {
    Op::Cache {
        key: "fixed-key".to_string(),
        input: Box::new(Op::Udf {
            input: Box::new(Op::DataFrame {
                df: table_op(vec![int_col_op("a", &[1, 2, 3])]),
                projection: None,
                selection: None,
            }),
            function: CountingUdf { count: count.clone() },
        }),
    }
}

#[test]
fn cache_returns_same_table_without_reinvoking_child() {
    let count = Rc::new(Cell::new(0u32));
    let mut state = ExecutionState::new(None);
    let first = execute(counting_tree(&count), &mut state).unwrap();
    assert_eq!(count.get(), 1);
    let second = execute(counting_tree(&count), &mut state).unwrap();
    // the child was not invoked again
    assert_eq!(count.get(), 1);
    // and the second result is structurally equal to the first
    assert_eq!(first.cols.len(), second.cols.len());
    for (c1, c2) in first.cols.iter().zip(second.cols.iter()) {
        assert_eq!(c1.name, c2.name);
        assert_eq!(c1.values.len(), c2.values.len());
        for (v1, v2) in c1.values.iter().zip(c2.values.iter()) {
            assert!(value_eq(v1, v2));
        }
    }
}

#[test]
fn broadcast_single_row_to_table_height() {
    let df = table_op(vec![int_col_op("a", &[10, 20, 30])]);
    let state = ExecutionState::new(None);
    let exprs = vec![Expr::Col("a".to_string()), Expr::Alias(
        Box::new(Expr::LitInt(7)),
        "b".to_string(),
    )];
    let out = evaluate_physical_expressions(&df, &exprs, &state).unwrap();
    assert_eq!(get_ints_op(&out, "a"), vec![Some(10), Some(20), Some(30)]);
    // the single-row literal was broadcast: every value equals it
    assert_eq!(get_ints_op(&out, "b"), vec![Some(7), Some(7), Some(7)]);
}

#[test]
fn aggregation_length_mismatch_is_internal_error() {
    // inject a malformed aggregation column: 2 values for 3 groups
    let keys = vec![int_col_op("k", &[1, 2, 3])];
    let bad = vec![int_col_op("s", &[1, 2])];
    let r = assemble_groupby_output(keys, bad, 3);
    match r {
        Err(e) => assert!(e.is_internal()),
        Ok(_) => panic!("malformed aggregation must be an internal error"),
    }
}

#[test]
fn aggregation_length_equals_group_count() {
    let df = table_op(vec![int_col_op("k", &[1, 1, 2, 2, 2]), int_col_op("v", &[5, 7, 1, 1, 1])]);
    let keys = vec![int_col_op("k", &[1, 1, 2, 2, 2])];
    let aggs = vec![AggExpr { op: AggOp::Sum, col: "v".to_string(), out_name: "v_sum".to_string() }];
    let out = groupby_helper::<NoUdf>(&df, keys, &aggs, None, &ExecutionState::new(None)).unwrap();
    assert_eq!(out.height(), 2);
    assert_eq!(get_ints_op(&out, "v_sum"), vec![Some(12), Some(3)]);
}

fn rows_as_pairs_op(t: &Table, a: &str, b: &str) -> Vec<(Option<i64>, Option<i64>)> {
    let ka = get_ints_op(t, a);
    let kb = get_ints_op(t, b);
    ka.into_iter().zip(kb.into_iter()).collect()
}

#[test]
fn partitioned_and_single_pass_agree_as_multisets() {
    let key_vals: Vec<i64> = vec![1, 2, 1, 3, 2, 1, 3, 3, 3, 1];
    let vals: Vec<i64> = vec![10, 20, 30, 40, 50, 60, 70, 80, 90, 100];
    let df = table_op(vec![int_col_op("k", &key_vals), int_col_op("v", &vals)]);
    let aggs = vec![
        AggExpr { op: AggOp::Sum, col: "v".to_string(), out_name: "v_sum".to_string() },
        AggExpr { op: AggOp::Count, col: "v".to_string(), out_name: "v_count".to_string() },
        AggExpr { op: AggOp::Min, col: "v".to_string(), out_name: "v_min".to_string() },
    ];
    let state = ExecutionState::new(None);
    let keys = vec![Expr::Col("k".to_string())];
    let single = groupby_helper::<NoUdf>(
        &df,
        vec![int_col_op("k", &key_vals)],
        &aggs,
        None,
        &state,
    )
    .unwrap();
    let parted = partition_groupby(&df, &keys, &aggs, 3, &state).unwrap();
    for name in ["v_sum", "v_count", "v_min"] {
        let mut a = rows_as_pairs_op(&single, "k", name);
        let mut b = rows_as_pairs_op(&parted, "k", name);
        a.sort();
        b.sort();
        assert_eq!(a, b);
    }
}

#[test]
fn filter_keeps_only_true_rows() {
    let df = table_op(vec![int_col_op("a", &[1, 5, 2, 8])]);
    let op: Op<NoUdf> = Op::Filter {
        predicate: Expr::LtCmp(Box::new(Expr::Col("a".to_string())), Box::new(Expr::LitInt(5))),
        input: Box::new(Op::DataFrame { df, projection: None, selection: None }),
    };
    let out = execute(op, &mut ExecutionState::new(None)).unwrap();
    assert_eq!(get_ints_op(&out, "a"), vec![Some(1), Some(2)]);
}

#[test]
fn filter_rejects_non_boolean_predicate() {
    let df = table_op(vec![int_col_op("a", &[1, 2])]);
    let op: Op<NoUdf> = Op::Filter {
        predicate: Expr::Col("a".to_string()),
        input: Box::new(Op::DataFrame { df, projection: None, selection: None }),
    };
    let r = execute(op, &mut ExecutionState::new(None));
    assert!(matches!(r, Err(ExecError::TypeMismatch(_))));
}

#[test]
fn row_limit_override_takes_precedence() {
    let state = ExecutionState::new(Some(2));
    assert_eq!(state.effective_row_limit(Some(10)), Some(2));
    assert_eq!(state.effective_row_limit(None), Some(2));
    let no_override = ExecutionState::new(None);
    assert_eq!(no_override.effective_row_limit(Some(10)), Some(10));
    assert_eq!(no_override.effective_row_limit(None), None);
}

#[test]
fn join_operator_inner_end_to_end() {
    let left = table_op(vec![int_col_op("a", &[1, 1, 2]), int_col_op("b", &[10, 11, 12])]);
    let right = table_op(vec![int_col_op("a", &[1, 2, 2]), int_col_op("c", &[100, 200, 300])]);
    let out = join_tables(
        &left,
        &right,
        JoinType::Inner,
        &vec![Expr::Col("a".to_string())],
        &vec![Expr::Col("a".to_string())],
        2,
        &ExecutionState::new(None),
    )
    .unwrap();
    let mut rows: Vec<(Option<i64>, Option<i64>, Option<i64>)> = Vec::new();
    let ka = get_ints_op(&out, "a");
    let kb = get_ints_op(&out, "b");
    let kc = get_ints_op(&out, "c");
    for i in 0..out.height() {
        rows.push((ka[i], kb[i], kc[i]));
    }
    rows.sort();
    assert_eq!(
        rows,
        vec![
            (Some(1), Some(10), Some(100)),
            (Some(1), Some(11), Some(100)),
            (Some(2), Some(12), Some(200)),
            (Some(2), Some(12), Some(300)),
        ],
    );
}

#[test]
fn join_operator_left_keeps_unmatched() {
    let left = table_op(vec![int_col_op("a", &[1, 9]), int_col_op("b", &[10, 20])]);
    let right = table_op(vec![int_col_op("a", &[1]), int_col_op("c", &[100])]);
    let out = join_tables(
        &left,
        &right,
        JoinType::Left,
        &vec![Expr::Col("a".to_string())],
        &vec![Expr::Col("a".to_string())],
        1,
        &ExecutionState::new(None),
    )
    .unwrap();
    let mut rows: Vec<(Option<i64>, Option<i64>)> = get_ints_op(&out, "a")
        .into_iter()
        .zip(get_ints_op(&out, "c").into_iter())
        .collect();
    rows.sort();
    assert_eq!(rows, vec![(Some(1), Some(100)), (Some(9), None)]);
}

#[test]
fn stack_replaces_and_appends_columns() {
    let df = table_op(vec![int_col_op("a", &[1, 2])]);
    let op: Op<NoUdf> = Op::Stack {
        input: Box::new(Op::DataFrame { df, projection: None, selection: None }),
        exprs: vec![
            Expr::Alias(Box::new(Expr::LitInt(5)), "b".to_string()),
            Expr::Alias(Box::new(Expr::Col("b".to_string())), "a".to_string()),
        ],
    };
    let out = execute(op, &mut ExecutionState::new(None)).unwrap();
    // "b" was appended and broadcast; "a" was replaced from the updated table
    assert_eq!(get_ints_op(&out, "b"), vec![Some(5), Some(5)]);
    assert_eq!(get_ints_op(&out, "a"), vec![Some(5), Some(5)]);
}

#[test]
fn slice_negative_offset_counts_from_end() {
    let df = table_op(vec![int_col_op("a", &[1, 2, 3, 4, 5])]);
    let op: Op<NoUdf> = Op::Slice {
        input: Box::new(Op::DataFrame { df, projection: None, selection: None }),
        offset: -2,
        len: 10,
    };
    let out = execute(op, &mut ExecutionState::new(None)).unwrap();
    assert_eq!(get_ints_op(&out, "a"), vec![Some(4), Some(5)]);
}

#[test]
fn sort_orders_and_keeps_ties_stable() {
    let df = table_op(vec![int_col_op("k", &[3, 1, 3, 2]), int_col_op("pos", &[0, 1, 2, 3])]);
    let op: Op<NoUdf> = Op::Sort {
        input: Box::new(Op::DataFrame { df, projection: None, selection: None }),
        by_column: "k".to_string(),
        reverse: false,
    };
    let out = execute(op, &mut ExecutionState::new(None)).unwrap();
    assert_eq!(get_ints_op(&out, "k"), vec![Some(1), Some(2), Some(3), Some(3)]);
    assert_eq!(get_ints_op(&out, "pos"), vec![Some(1), Some(3), Some(0), Some(2)]);
}

#[test]
fn drop_duplicates_keeps_first_occurrences() {
    let df = table_op(vec![int_col_op("k", &[1, 2, 1, 3, 2]), int_col_op("v", &[9, 8, 7, 6, 5])]);
    let op: Op<NoUdf> = Op::DropDuplicates {
        input: Box::new(Op::DataFrame { df, projection: None, selection: None }),
        maintain_order: true,
        subset: Some(vec!["k".to_string()]),
    };
    let out = execute(op, &mut ExecutionState::new(None)).unwrap();
    assert_eq!(get_ints_op(&out, "k"), vec![Some(1), Some(2), Some(3)]);
    assert_eq!(get_ints_op(&out, "v"), vec![Some(9), Some(8), Some(6)]);
}

#[test]
fn melt_unpivots_blocks_in_order() {
    let df = table_op(vec![
        int_col_op("id", &[1, 2]),
        int_col_op("x", &[10, 20]),
        int_col_op("y", &[30, 40]),
    ]);
    let op: Op<NoUdf> = Op::Melt {
        input: Box::new(Op::DataFrame { df, projection: None, selection: None }),
        id_vars: vec!["id".to_string()],
        value_vars: vec!["x".to_string(), "y".to_string()],
    };
    let out = execute(op, &mut ExecutionState::new(None)).unwrap();
    assert_eq!(out.height(), 4);
    assert_eq!(get_ints_op(&out, "id"), vec![Some(1), Some(2), Some(1), Some(2)]);
    assert_eq!(get_ints_op(&out, "value"), vec![Some(10), Some(20), Some(30), Some(40)]);
    let vars: Vec<String> = out.cols[1]
        .values
        .iter()
        .map(|v| match v {
            Value::Str(s) => s.clone(),
            _ => panic!("variable column must hold strings"),
        })
        .collect();
    assert_eq!(vars, vec!["x", "x", "y", "y"]);
}

#[test]
fn explode_expands_list_rows() {
    let df = table_op(vec![
        Column {
            name: "l".to_string(),
            values: vec![
                Value::List(vec![Scalar::Int(1), Scalar::Int(2)]),
                Value::List(vec![]),
                Value::Int(9),
            ],
            cat: None,
        },
        int_col_op("id", &[7, 8, 9]),
    ]);
    let op: Op<NoUdf> = Op::Explode {
        input: Box::new(Op::DataFrame { df, projection: None, selection: None }),
        columns: vec!["l".to_string()],
    };
    let out = execute(op, &mut ExecutionState::new(None)).unwrap();
    assert_eq!(out.height(), 4);
    assert_eq!(get_ints_op(&out, "id"), vec![Some(7), Some(7), Some(8), Some(9)]);
    assert_eq!(get_ints_op(&out, "l"), vec![Some(1), Some(2), None, Some(9)]);
}

#[test]
fn scan_caches_by_path_and_predicate() {
    let mut state = ExecutionState::new(None);
    let scan1: Op<NoUdf> = Op::Scan {
        source: table_op(vec![int_col_op("a", &[1, 2, 3])]),
        path: "data.csv".to_string(),
        predicate: None,
        with_columns: None,
        stop_after_n_rows: None,
        aggregate: vec![],
        cache: true,
    };
    let first = execute(scan1, &mut state).unwrap();
    assert_eq!(first.height(), 3);
    // a second scan of the same path with a different source: the cache answers
    let scan2: Op<NoUdf> = Op::Scan {
        source: table_op(vec![int_col_op("a", &[99])]),
        path: "data.csv".to_string(),
        predicate: None,
        with_columns: None,
        stop_after_n_rows: None,
        aggregate: vec![],
        cache: true,
    };
    let second = execute(scan2, &mut state).unwrap();
    assert_eq!(get_ints_op(&second, "a"), vec![Some(1), Some(2), Some(3)]);
    // a different predicate makes a different key: the new source is read
    let scan3: Op<NoUdf> = Op::Scan {
        source: table_op(vec![int_col_op("a", &[99])]),
        path: "data.csv".to_string(),
        predicate: Some(Expr::LitBool(true)),
        with_columns: None,
        stop_after_n_rows: None,
        aggregate: vec![],
        cache: true,
    };
    let third = execute(scan3, &mut state).unwrap();
    assert_eq!(get_ints_op(&third, "a"), vec![Some(99)]);
}

#[test]
fn groupby_udf_concatenates_group_results() {
    struct HeadOne {}
    impl TableUdf for HeadOne {
        fn call_udf(&self, df: Table) -> Result<Table, ExecError> {
            Ok(df.head(1))
        }
    }
    let df = table_op(vec![int_col_op("k", &[1, 1, 2]), int_col_op("v", &[10, 11, 12])]);
    let out = groupby_helper(
        &df,
        vec![int_col_op("k", &[1, 1, 2])],
        &vec![],
        Some(&HeadOne {}),
        &ExecutionState::new(None),
    )
    .unwrap();
    assert_eq!(get_ints_op(&out, "k"), vec![Some(1), Some(2)]);
    assert_eq!(get_ints_op(&out, "v"), vec![Some(10), Some(12)]);
}

#[test]
fn ineligible_aggregation_is_dropped() {
    let df = table_op(vec![
        int_col_op("k", &[1, 1]),
        Column {
            name: "s".to_string(),
            values: vec![Value::Str("x".to_string()), Value::Str("y".to_string())],
            cat: None,
        },
    ]);
    let aggs = vec![AggExpr { op: AggOp::Sum, col: "s".to_string(), out_name: "s_sum".to_string() }];
    let out = groupby_helper::<NoUdf>(
        &df,
        vec![int_col_op("k", &[1, 1])],
        &aggs,
        None,
        &ExecutionState::new(None),
    )
    .unwrap();
    // the string sum is silently dropped, not an error
    assert_eq!(out.cols.len(), 1);
    assert_eq!(get_ints_op(&out, "k"), vec![Some(1)]);
}

#[test]
fn sort_orders_strings_lexicographically() {
    let df = table_op(vec![
        Column {
            name: "s".to_string(),
            values: vec![
                Value::Str("pear".to_string()),
                Value::Str("apple".to_string()),
                Value::Str("app".to_string()),
            ],
            cat: None,
        },
        int_col_op("pos", &[0, 1, 2]),
    ]);
    let op: Op<NoUdf> = Op::Sort {
        input: Box::new(Op::DataFrame { df, projection: None, selection: None }),
        by_column: "s".to_string(),
        reverse: false,
    };
    let out = execute(op, &mut ExecutionState::new(None)).unwrap();
    assert_eq!(get_ints_op(&out, "pos"), vec![Some(2), Some(1), Some(0)]);
}

#[test]
fn callback_groupby_rejects_misfit_keys() {
    struct PassThrough {}
    impl TableUdf for PassThrough {
        fn call_udf(&self, df: Table) -> Result<Table, ExecError> {
            Ok(df)
        }
    }
    let df = table_op(vec![int_col_op("v", &[1, 2, 3])]);
    // a key column of the wrong height is rejected before any call
    let short_keys = vec![int_col_op("k", &[1])];
    let r = groupby_helper(&df, short_keys, &vec![], Some(&PassThrough {}), &ExecutionState::new(None));
    assert!(r.is_err());
}

#[test]
fn categorical_key_falls_back_to_single_pass() {
    // four distinct categories over five rows: the fraction exceeds the
    // threshold, so the adaptive strategy takes the single pass
    let items: Vec<Option<String>> = ["a", "b", "c", "d", "a"]
        .iter()
        .map(|s| Some(s.to_string()))
        .collect();
    let mut b = CategoricalChunkedBuilder::new("k", 5, None);
    let mut unused = StringCache::new(0);
    b.from_iter(&items, &mut unused);
    let mut key_col = b.finish();
    key_col.name = "k".to_string();
    let df = table_op(vec![key_col, int_col_op("v", &[10, 20, 30, 40, 50])]);
    let aggs = vec![AggExpr { op: AggOp::Sum, col: "v".to_string(), out_name: "v_sum".to_string() }];
    let out = partition_groupby(
        &df,
        &vec![Expr::Col("k".to_string())],
        &aggs,
        3,
        &ExecutionState::new(None),
    )
    .unwrap();
    // codes 0..3 with "a" twice: group sums in first-occurrence order
    assert_eq!(get_ints_op(&out, "v_sum"), vec![Some(60), Some(20), Some(30), Some(40)]);
}
