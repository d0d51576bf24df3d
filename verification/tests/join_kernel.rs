use polars_exec::column::Column;
use polars_exec::join::{
    create_build_table_worker, get_offsets, inner_join_multiple_keys, left_join_multiple_keys,
    probe_inner, probe_left, rows_match_exec, this_thread,
};
use polars_exec::table::Table;
use polars_exec::value::Value;

fn int_col_jk(name: &str, vals: &[i64]) -> Column {
    Column {
        name: name.to_string(),
        values: vals.iter().map(|v| Value::Int(*v)).collect(),
        cat: None,
    }
}

fn keys_table_jk(name: &str, vals: &[i64]) -> Table {
    Table { cols: vec![int_col_jk(name, vals)] }
}

#[test]
fn inner_join_exact_pairs() {
    // A: a=[1,1,2]  B: a=[1,2,2]  joined on a
    let a = keys_table_jk("a", &[1, 1, 2]);
    let b = keys_table_jk("a", &[1, 2, 2]);
    let mut pairs = inner_join_multiple_keys(&a, &b, false, 2);
    pairs.sort();
    assert_eq!(pairs, vec![(0, 0), (1, 0), (2, 1), (2, 2)]);
}

#[test]
fn inner_join_swap_reports_swapped_pairs() {
    let a = keys_table_jk("a", &[1, 2]);
    let b = keys_table_jk("a", &[2]);
    let mut pairs = inner_join_multiple_keys(&a, &b, true, 1);
    pairs.sort();
    // swap=true reports (build, probe)
    assert_eq!(pairs, vec![(0, 1)]);
}

#[test]
fn left_join_preserves_probe_rows() {
    let a = keys_table_jk("a", &[1, 2, 9]);
    let b = keys_table_jk("a", &[1, 1]);
    let pairs = left_join_multiple_keys(&a, &b, 2);
    // every probe row appears at least once
    for i in 0..3u32 {
        assert!(pairs.iter().any(|p| p.0 == i));
    }
    // matched rows appear once per match
    let mut m0: Vec<Option<u32>> = pairs.iter().filter(|p| p.0 == 0).map(|p| p.1).collect();
    m0.sort();
    assert_eq!(m0, vec![Some(0), Some(1)]);
    // the unmatched row appears exactly once, with an absent right value
    let m2: Vec<Option<u32>> = pairs.iter().filter(|p| p.0 == 2).map(|p| p.1).collect();
    assert_eq!(m2, vec![None]);
}

#[test]
fn nulls_never_match() {
    let a = Table {
        cols: vec![Column {
            name: "a".to_string(),
            values: vec![Value::Null],
            cat: None,
        }],
    };
    let b = Table {
        cols: vec![Column {
            name: "a".to_string(),
            values: vec![Value::Null],
            cat: None,
        }],
    };
    assert!(!rows_match_exec(&a, 0, &b, 0));
    let pairs = inner_join_multiple_keys(&a, &b, false, 1);
    assert!(pairs.is_empty());
    let lpairs = left_join_multiple_keys(&a, &b, 1);
    assert_eq!(lpairs, vec![(0, None)]);
}

#[test]
fn hash_collision_does_not_match() {
    // two distinct key tuples forced to share a row hash
    let b = keys_table_jk("a", &[1]);
    let a = keys_table_jk("a", &[2]);
    let bh: Vec<u64> = vec![7];
    let ah: Vec<u64> = vec![7];
    let tables = vec![create_build_table_worker(&b, &bh, 0, 1)];
    let out = probe_inner(&a, &ah, 0, 1, &tables, &b, &bh, false);
    assert!(out.is_empty());
}

#[test]
fn multi_key_second_column_must_match() {
    // same first key and same hash, differing second key: no match
    let b = Table { cols: vec![int_col_jk("a", &[1]), int_col_jk("b", &[5])] };
    let a = Table { cols: vec![int_col_jk("a", &[1]), int_col_jk("b", &[6])] };
    let bh: Vec<u64> = vec![42];
    let ah: Vec<u64> = vec![42];
    let tables = vec![create_build_table_worker(&b, &bh, 0, 1)];
    let out = probe_inner(&a, &ah, 0, 1, &tables, &b, &bh, false);
    assert!(out.is_empty());
    // and with the second key equal, the pair is found
    let a2 = Table { cols: vec![int_col_jk("a", &[1]), int_col_jk("b", &[5])] };
    let out2 = probe_inner(&a2, &ah, 0, 1, &tables, &b, &bh, false);
    assert_eq!(out2, vec![(0, 0)]);
}

#[test]
fn probe_order_is_non_decreasing_within_partition() {
    // one probe partition: pairs must come in non-decreasing probe order
    let b = keys_table_jk("a", &[1, 1, 2]);
    let a = keys_table_jk("a", &[2, 1, 2, 1]);
    let bh: Vec<u64> = vec![10, 10, 20];
    let ah: Vec<u64> = vec![20, 10, 20, 10];
    let mut tables = Vec::new();
    for w in 0..2u64 {
        tables.push(create_build_table_worker(&b, &bh, w, 2));
    }
    let out = probe_inner(&a, &ah, 0, 4, &tables, &b, &bh, false);
    for win in out.windows(2) {
        assert!(win[0].0 <= win[1].0);
    }
    // and the match set is complete
    let mut sorted = out.clone();
    sorted.sort();
    assert_eq!(sorted, vec![(0, 2), (1, 0), (1, 1), (2, 2), (3, 0), (3, 1)]);
}

#[test]
fn left_probe_with_given_hashes() {
    let b = keys_table_jk("a", &[5]);
    let a = keys_table_jk("a", &[5, 6]);
    let bh: Vec<u64> = vec![3];
    let ah: Vec<u64> = vec![3, 3];
    let tables = vec![create_build_table_worker(&b, &bh, 0, 1)];
    let out = probe_left(&a, &ah, 0, 2, &tables, &b, &bh);
    assert_eq!(out, vec![(0, Some(0)), (1, None)]);
}

#[test]
fn offsets_are_prefix_sums() {
    let lens: Vec<usize> = vec![3, 0, 2, 5];
    let offs = get_offsets(&lens);
    assert_eq!(offs, vec![0, 3, 3, 5]);
}

#[test]
fn thread_assignment_is_modular() {
    assert!(this_thread(10, 0, 5));
    assert!(!this_thread(10, 1, 5));
    assert!(this_thread(13, 3, 5));
}

#[test]
fn duplicate_build_keys_all_match() {
    let a = keys_table_jk("k", &[4]);
    let b = keys_table_jk("k", &[4, 4, 4]);
    let mut pairs = inner_join_multiple_keys(&a, &b, false, 3);
    pairs.sort();
    assert_eq!(pairs, vec![(0, 0), (0, 1), (0, 2)]);
}

#[test]
fn string_keys_join_by_value() {
    let mk = |vals: &[&str]| Table {
        cols: vec![Column {
            name: "s".to_string(),
            values: vals.iter().map(|v| Value::Str(v.to_string())).collect(),
            cat: None,
        }],
    };
    let a = mk(&["x", "y"]);
    let b = mk(&["y", "z"]);
    let pairs = inner_join_multiple_keys(&a, &b, false, 2);
    assert_eq!(pairs, vec![(1, 0)]);
}
