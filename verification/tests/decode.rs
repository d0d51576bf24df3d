use polars_exec::categorical::{RevMapping, StringCache};
use polars_exec::column::Column;
use polars_exec::csvbuf::{
    buffers_to_series, field_to_builder, init_buffers, parse_bool_bytes, parse_i64_bytes,
    parse_u64_bytes, Buffer, DType, SchemaField, Utf8Field,
};
use polars_exec::error::ExecError;
use polars_exec::expr::{expr_repr, i64_to_string, scan_cache_key, u64_to_string, Expr};
use polars_exec::objarr::{ObjectArray, PolarsObject};
use polars_exec::scanproj::{AggScanProjection, LogicalPlan, ScanColumns};
use polars_exec::exec::{execute, NoUdf, Op};
use polars_exec::expr::{cmp_columns, eval};
use polars_exec::value::Value;

fn opt_strs_dc(items: &[Option<&str>]) -> Vec<Option<String>> {
    items.iter().map(|o| o.map(|s| s.to_string())).collect()
}

#[test]
fn test_categorical_rev() {
    let items = opt_strs_dc(&[
        Some("foo"),
        None,
        Some("bar"),
        Some("foo"),
        Some("foo"),
        Some("bar"),
    ]);
    // local dictionary
    let mut local = polars_exec::categorical::CategoricalChunkedBuilder::new("a", 6, None);
    let mut unused = StringCache::new(1);
    local.from_iter(&items, &mut unused);
    let out = local.finish();
    assert_eq!(out.cat.as_ref().map(|r| r.len()), Some(2));

    // the global branch, against an empty cache
    let mut cache = StringCache::new(7);
    let mut global = polars_exec::categorical::CategoricalChunkedBuilder::new("a", 6, Some(7));
    global.from_iter(&items, &mut cache);
    let out = global.finish();
    assert_eq!(out.cat.as_ref().map(|r| r.len()), Some(2));

    // and against the now-full cache
    let mut global2 = polars_exec::categorical::CategoricalChunkedBuilder::new("a", 6, Some(7));
    global2.from_iter(&items, &mut cache);
    let out = global2.finish();
    assert_eq!(out.cat.as_ref().map(|r| r.len()), Some(2));
}

#[test]
fn categorical_codes_decode_back() {
    let items = opt_strs_dc(&[Some("x"), Some("y"), Some("x"), None]);
    let mut b = polars_exec::categorical::CategoricalChunkedBuilder::new("c", 4, None);
    let mut unused = StringCache::new(0);
    b.from_iter(&items, &mut unused);
    let col = b.finish();
    let rev = col.cat.as_ref().unwrap();
    let decoded: Vec<Option<String>> = col
        .values
        .iter()
        .map(|v| match v {
            Value::Int(g) => Some(rev.get(*g as u32).clone()),
            _ => None,
        })
        .collect();
    assert_eq!(decoded, opt_strs_dc(&[Some("x"), Some("y"), Some("x"), None]));
}

#[test]
fn same_src_is_the_shared_cache_token() {
    let a = RevMapping::Global(vec![], vec![], 11);
    let b = RevMapping::Global(vec![], vec![], 11);
    let c = RevMapping::Global(vec![], vec![], 12);
    let l = RevMapping::Local(vec![]);
    assert!(a.same_src(&b));
    assert!(!a.same_src(&c));
    assert!(!a.same_src(&l));
}

#[test]
fn signed_parse_exact_values() {
    assert_eq!(parse_i64_bytes(b"0"), Some(0));
    assert_eq!(parse_i64_bytes(b"123"), Some(123));
    assert_eq!(parse_i64_bytes(b"+123"), Some(123));
    assert_eq!(parse_i64_bytes(b"-123"), Some(-123));
    assert_eq!(parse_i64_bytes(b"9223372036854775807"), Some(i64::MAX));
    assert_eq!(parse_i64_bytes(b"-9223372036854775808"), Some(i64::MIN));
    assert_eq!(parse_i64_bytes(b"9223372036854775808"), None);
    assert_eq!(parse_i64_bytes(b"-9223372036854775809"), None);
    assert_eq!(parse_i64_bytes(b""), None);
    assert_eq!(parse_i64_bytes(b"-"), None);
    assert_eq!(parse_i64_bytes(b"12a"), None);
    assert_eq!(parse_i64_bytes(b" 1"), None);
}

#[test]
fn unsigned_parse_exact_values() {
    assert_eq!(parse_u64_bytes(b"18446744073709551615"), Some(u64::MAX));
    assert_eq!(parse_u64_bytes(b"18446744073709551616"), None);
    assert_eq!(parse_u64_bytes(b"-1"), None);
    assert_eq!(parse_u64_bytes(b"+7"), Some(7));
}

#[test]
fn boolean_parse_is_case_insensitive() {
    assert_eq!(parse_bool_bytes(b"true"), Some(true));
    assert_eq!(parse_bool_bytes(b"TRUE"), Some(true));
    assert_eq!(parse_bool_bytes(b"False"), Some(false));
    assert_eq!(parse_bool_bytes(b"niet"), None);
    assert_eq!(parse_bool_bytes(b""), None);
}

#[test]
fn utf8_field_decodes_its_range() {
    let bytes = b"abc,def";
    let f = Utf8Field { start_pos: 4, len: 3 };
    assert_eq!(f.parse_str(bytes).unwrap(), "def");
    let bad = Utf8Field { start_pos: 0, len: 2 };
    let invalid: &[u8] = &[0xff, 0xfe];
    assert!(matches!(bad.parse_str(invalid), Err(ExecError::ParseError(_))));
}

#[test]
fn buffers_decode_a_column() {
    let schema = vec![
        SchemaField { name: "n".to_string(), dtype: DType::Int64 },
        SchemaField { name: "s".to_string(), dtype: DType::Utf8 },
    ];
    let projection: Vec<usize> = vec![0, 1];
    let mut bufs = init_buffers(&projection, 4, &schema).unwrap();
    let record = b"42,hi";
    bufs[0].add(&record[0..2], false, 0).unwrap();
    bufs[1].add(&record[3..5], false, 3).unwrap();
    let sbuf = bufs.pop().unwrap();
    let nbuf = bufs.pop().unwrap();
    let ncol = buffers_to_series(vec![nbuf], record, false).unwrap();
    assert!(matches!(ncol.values[0], Value::Int(42)));
    let scol = buffers_to_series(vec![sbuf], record, false).unwrap();
    match &scol.values[0] {
        Value::Str(s) => assert_eq!(s, "hi"),
        _ => panic!("expected a string"),
    }
}

#[test]
fn buffer_add_respects_ignore_errors() {
    let mut b = Buffer::Int64(vec![]);
    assert!(b.add(b"oops", false, 0).is_err());
    assert!(b.add(b"oops", true, 0).is_ok());
    let col = buffers_to_series(vec![b], b"", false).unwrap();
    assert!(matches!(col.values[0], Value::Null));
}

#[test]
fn float_columns_are_not_decoded_here() {
    let schema = vec![SchemaField { name: "f".to_string(), dtype: DType::Float64 }];
    let r = field_to_builder(0, 4, &schema);
    assert!(matches!(r, Err(ExecError::ParseError(_))));
}

#[test]
fn integer_rendering_is_decimal() {
    assert_eq!(u64_to_string(0), "0");
    assert_eq!(u64_to_string(907), "907");
    assert_eq!(i64_to_string(-45), "-45");
    assert_eq!(i64_to_string(i64::MIN), "-9223372036854775808");
}

#[test]
fn cache_keys_separate_predicates() {
    let path = "p.csv".to_string();
    let k0 = scan_cache_key(&path, &None);
    let k1 = scan_cache_key(
        &path,
        &Some(Expr::LtCmp(Box::new(Expr::Col("a".to_string())), Box::new(Expr::LitInt(5)))),
    );
    let k2 = scan_cache_key(
        &path,
        &Some(Expr::LtCmp(Box::new(Expr::Col("a".to_string())), Box::new(Expr::LitInt(6)))),
    );
    assert_eq!(k0, "p.csv");
    assert_ne!(k1, k2);
    assert!(k1.starts_with("p.csv"));
    assert_eq!(expr_repr(&Expr::LitInt(-3)), "int(-3)");
}

#[test]
fn scan_projections_are_aggregated_per_path() {
    let scan = |cols: &[&str]| LogicalPlan::CsvScan {
        path: "one.csv".to_string(),
        schema: vec![],
        has_header: true,
        delimiter: b',',
        ignore_errors: false,
        skip_rows: 0,
        stop_after_n_rows: None,
        with_columns: Some(cols.iter().map(|c| c.to_string()).collect()),
        predicate: None,
    };
    let plan = LogicalPlan::Join {
        input_left: Box::new(scan(&["a", "b"])),
        input_right: Box::new(scan(&["a"])),
        how: polars_exec::exec::JoinType::Inner,
        left_on: vec![],
        right_on: vec![],
    };
    let opt = AggScanProjection {};
    let out = opt.optimize(plan).unwrap();
    match out {
        LogicalPlan::Join { input_left, input_right, .. } => {
            // the wide scan keeps its projection, now the union
            match *input_left {
                LogicalPlan::CsvScan { with_columns, .. } => {
                    let mut cols = with_columns.unwrap();
                    cols.sort();
                    assert_eq!(cols, vec!["a".to_string(), "b".to_string()]);
                },
                _ => panic!("left scan vanished"),
            }
            // the narrow scan reads the union under a local projection
            match *input_right {
                LogicalPlan::LocalProjection { expr, input } => {
                    assert_eq!(expr.len(), 1);
                    match *input {
                        LogicalPlan::CsvScan { with_columns, .. } => {
                            let mut cols = with_columns.unwrap();
                            cols.sort();
                            assert_eq!(cols, vec!["a".to_string(), "b".to_string()]);
                        },
                        _ => panic!("right scan vanished"),
                    }
                },
                _ => panic!("narrow scan must gain a local projection"),
            }
        },
        _ => panic!("join vanished"),
    }
}

#[test]
fn scan_columns_union_is_deduplicated() {
    let mut m = ScanColumns::new();
    m.extend_path(&"p".to_string(), &vec!["a".to_string(), "b".to_string()]);
    m.extend_path(&"p".to_string(), &vec!["b".to_string(), "c".to_string()]);
    let mut cols = m.columns_for(&"p".to_string());
    cols.sort();
    assert_eq!(cols, vec!["a".to_string(), "b".to_string(), "c".to_string()]);
    assert_eq!(m.columns_for(&"q".to_string()), Vec::<String>::new());
}

#[derive(Clone)]
struct Payload {
    tag: i64,
}

impl PolarsObject for Payload {
    fn kind_name() -> &'static str {
        "payload"
    }
}

#[test]
fn object_array_windows_and_nulls() {
    let arr = ObjectArray::from_values(vec![
        Payload { tag: 1 },
        Payload { tag: 2 },
        Payload { tag: 3 },
    ]);
    assert_eq!(arr.len(), 3);
    assert!(!arr.is_empty());
    assert!(arr.is_valid(1));
    assert!(!arr.is_null(1));
    assert_eq!(arr.null_count(), 0);
    assert_eq!(arr.value(2).tag, 3);
    let s = arr.slice(1, 5);
    assert_eq!(s.len(), 2);
    assert_eq!(s.value(0).tag, 2);
    assert_eq!(Payload::kind_name(), "payload");
}

#[test]
fn expression_errors_are_schema_errors() {
    let t = polars_exec::table::Table {
        cols: vec![Column { name: "a".to_string(), values: vec![Value::Int(1)], cat: None }],
    };
    let state = polars_exec::context::ExecutionState::new(None);
    let r = polars_exec::expr::eval(&Expr::Col("missing".to_string()), &t, &state);
    assert!(matches!(r, Err(ExecError::SchemaError(_))));
}

#[test]
fn concat_requires_matching_schemas() {
    let t1 = polars_exec::table::Table {
        cols: vec![Column { name: "a".to_string(), values: vec![Value::Int(1)], cat: None }],
    };
    let t2 = polars_exec::table::Table {
        cols: vec![Column { name: "b".to_string(), values: vec![Value::Int(2)], cat: None }],
    };
    let r = polars_exec::table::concat_tables(&vec![t1, t2]);
    assert!(matches!(r, Err(ExecError::SchemaError(_))));
    let none = polars_exec::table::concat_tables(&Vec::new());
    assert!(matches!(none, Err(ExecError::SchemaError(_))));
}

#[test]
fn context_cache_is_exact_key_and_overwriting() {
    let mut state = polars_exec::context::ExecutionState::new(None);
    let t1 = polars_exec::table::Table {
        cols: vec![Column { name: "a".to_string(), values: vec![Value::Int(1)], cat: None }],
    };
    state.store_cache("k".to_string(), t1);
    assert!(state.cache_hit(&"k".to_string()).is_some());
    assert!(state.cache_hit(&"k2".to_string()).is_none());
    let t2 = polars_exec::table::Table {
        cols: vec![Column { name: "a".to_string(), values: vec![Value::Int(9)], cat: None }],
    };
    state.store_cache("k".to_string(), t2);
    let got = state.cache_hit(&"k".to_string()).unwrap();
    assert!(matches!(got.cols[0].values[0], Value::Int(9)));
}

#[test]
fn global_row_limit_caps_in_memory_tables() {
    let df = polars_exec::table::Table {
        cols: vec![Column {
            name: "a".to_string(),
            values: (0..5).map(Value::Int).collect(),
            cat: None,
        }],
    };
    let op: Op<NoUdf> = Op::DataFrame { df, projection: None, selection: None };
    let mut state = polars_exec::context::ExecutionState::new(Some(2));
    let out = execute(op, &mut state).unwrap();
    assert_eq!(out.height(), 2);
}

#[test]
fn equality_comparison_broadcasts_and_handles_nulls() {
    let t = polars_exec::table::Table {
        cols: vec![Column {
            name: "a".to_string(),
            values: vec![Value::Int(1), Value::Null, Value::Int(3)],
            cat: None,
        }],
    };
    let state = polars_exec::context::ExecutionState::new(None);
    let e = Expr::EqCmp(Box::new(Expr::Col("a".to_string())), Box::new(Expr::LitInt(1)));
    let c = eval(&e, &t, &state).unwrap();
    // exact equality: null does not equal an integer
    assert!(matches!(c.values[0], Value::Bool(true)));
    assert!(matches!(c.values[1], Value::Bool(false)));
    assert!(matches!(c.values[2], Value::Bool(false)));
    // less-than yields null for a row without two integers
    let lt = Expr::LtCmp(Box::new(Expr::Col("a".to_string())), Box::new(Expr::LitInt(2)));
    let c2 = eval(&lt, &t, &state).unwrap();
    assert!(matches!(c2.values[0], Value::Bool(true)));
    assert!(matches!(c2.values[1], Value::Null));
    assert!(matches!(c2.values[2], Value::Bool(false)));
}

#[test]
fn incompatible_comparison_lengths_fail() {
    let two = Column { name: "x".to_string(), values: vec![Value::Int(1), Value::Int(2)], cat: None };
    let three = Column {
        name: "y".to_string(),
        values: vec![Value::Int(1), Value::Int(2), Value::Int(3)],
        cat: None,
    };
    assert!(cmp_columns(&two, &three, true).is_none());
    assert!(cmp_columns(&three, &two, false).is_none());
}
