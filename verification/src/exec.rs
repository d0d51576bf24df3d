//! The physical operator tree and its interpreter: a closed set of operator
//! variants evaluated top-down by demand. Each operator pulls tables from
//! its children, applies its transformation, and every table an evaluation
//! returns is well-formed. The cache operator guarantees at-most-one
//! materialization per key: a hit returns the stored table without touching
//! the child.

use vstd::prelude::*;
use itertools::Itertools;
use crate::agg::{eval_agg, merge_op, AggExpr};
use crate::column::Column;
use crate::context::ExecutionState;
use crate::error::ExecError;
use crate::expr::{eval, scan_cache_key, Expr};
use crate::groupby::{assemble_groupby_output, check_table_wf, groups_of};
use crate::join::{inner_join_multiple_keys, left_join_multiple_keys};
use crate::table::{concat_tables, table_like, Table};
use crate::value::Value;

verus! {

/// An opaque user-supplied table-to-table transformation. Nothing is
/// promised of an implementation: the interpreter validates whatever it
/// returns.
pub trait TableUdf: Sized {
    fn call_udf(&self, df: Table) -> Result<Table, ExecError>;
}

/// The do-nothing transformation, for trees without user functions.
pub struct NoUdf {}

impl TableUdf for NoUdf {
    fn call_udf(&self, df: Table) -> Result<Table, ExecError> {
        Ok(df)
    }
}

/// The adaptive aggregation threshold, as a fraction: when a dictionary
/// key's distinct-value count exceeds three tenths of the rows, the
/// partitioned strategy falls back to the single pass. A tunable heuristic,
/// kept as a named constant.
pub const PARTITION_FRACTION_NUM: usize = 3;

/// The denominator of the adaptive aggregation threshold.
pub const PARTITION_FRACTION_DEN: usize = 10;

/// The join kinds the kernel computes.
#[derive(Clone, Copy, Debug, PartialEq, Eq, Structural)]
pub enum JoinType {
    Inner,
    Left,
}

/// A physical operator. Every operator owns its child operator(s); the tree
/// is strict, shared only through the execution state's cache.
pub enum Op<U: TableUdf> {
    /// On a cache hit under `key`, returns the stored table without running
    /// the child; on a miss, runs the child and stores the result.
    Cache { key: String, input: Box<Op<U>> },
    /// A source scan. The caller decodes the source into `source`; the
    /// operator owns the caching (keyed by path and predicate), the column
    /// projection, the row predicate, the row limit, and any pre-aggregation
    /// pushed down by the optimizer.
    Scan {
        source: Table,
        path: String,
        predicate: Option<Expr>,
        with_columns: Option<Vec<String>>,
        stop_after_n_rows: Option<usize>,
        aggregate: Vec<AggExpr>,
        cache: bool,
    },
    /// An in-memory table, with an optional projection applied before an
    /// optional row predicate, then the global row limit.
    DataFrame { df: Table, projection: Option<Vec<Expr>>, selection: Option<Expr> },
    /// Keeps the rows on which the boolean predicate holds.
    Filter { predicate: Expr, input: Box<Op<U>> },
    /// Evaluates a list of expressions into a new table, broadcasting
    /// single-row results against the input height.
    Standard { input: Box<Op<U>>, exprs: Vec<Expr> },
    /// Evaluates each expression and replaces-or-appends its column, left to
    /// right, against the progressively updated table.
    Stack { input: Box<Op<U>>, exprs: Vec<Expr> },
    /// Single-pass grouped aggregation, or a per-group callback.
    GroupBy { input: Box<Op<U>>, keys: Vec<Expr>, aggs: Vec<AggExpr>, apply: Option<U> },
    /// Adaptive two-phase aggregation: partition, aggregate partitions
    /// independently, merge; falls back to the single pass when a
    /// dictionary-encoded key looks too fine-grained.
    PartitionGroupBy { input: Box<Op<U>>, keys: Vec<Expr>, aggs: Vec<AggExpr>, n_partitions: usize },
    /// A join of two subtrees over key expressions. The `parallel` flag
    /// records that a driver may realize the children concurrently, each
    /// with its own state; this interpreter realizes them in order.
    Join {
        input_left: Box<Op<U>>,
        input_right: Box<Op<U>>,
        how: JoinType,
        left_on: Vec<Expr>,
        right_on: Vec<Expr>,
        parallel: bool,
        n_workers: usize,
    },
    /// A row slice of the child.
    Slice { input: Box<Op<U>>, offset: i64, len: usize },
    /// Unpivots the child.
    Melt { input: Box<Op<U>>, id_vars: Vec<String>, value_vars: Vec<String> },
    /// Explodes the listed columns of the child, one after the other.
    Explode { input: Box<Op<U>>, columns: Vec<String> },
    /// Sorts the child by one column.
    Sort { input: Box<Op<U>>, by_column: String, reverse: bool },
    /// Keeps the first occurrence of each distinct key tuple.
    DropDuplicates { input: Box<Op<U>>, maintain_order: bool, subset: Option<Vec<String>> },
    /// Applies an opaque table-to-table transformation.
    Udf { input: Box<Op<U>>, function: U },
}

/// Turns a boolean column into a row mask: true keeps the row, false and
/// null drop it, and anything else is a type mismatch.
#[verifier::loop_isolation(false)]
pub fn mask_from_column(col: &Column) -> (r: Result<Vec<bool>, ExecError>)
    ensures
        r is Ok <==> (forall|i: int|
            0 <= i < col.values@.len() ==> (#[trigger] col.values@[i]) is Bool
                || col.values@[i] is Null),
        r matches Ok(m) ==> m@.len() == col.values@.len() && forall|i: int|
            0 <= i < m@.len() ==> #[trigger] m@[i] == (col.values@[i] matches Value::Bool(true)),
        r matches Err(e) ==> e is TypeMismatch,
{
    let mut out: Vec<bool> = Vec::new();
    let mut i: usize = 0;
    while i < col.values.len()
        invariant
            i <= col.values@.len(),
            out@.len() == i as int,
            forall|k: int|
                0 <= k < i as int ==> (#[trigger] col.values@[k]) is Bool || col.values@[k] is Null,
            forall|k: int|
                0 <= k < i as int ==> #[trigger] out@[k] == (col.values@[k] matches Value::Bool(
                    true,
                )),
        decreases col.values@.len() - i,
    {
        match &col.values[i] {
            Value::Bool(b) => out.push(*b),
            Value::Null => out.push(false),
            _ => {
                return Err(
                    ExecError::TypeMismatch("filter predicate was not of type boolean".to_owned()),
                );
            },
        }
        i = i + 1;
    }
    Ok(out)
}

/// Every value is a boolean or a null, as a filter mask requires.
pub open spec fn bool_mask_ok(vals: Seq<Value>) -> bool {
    forall|i: int| 0 <= i < vals.len() ==> (#[trigger] vals[i]) is Bool || vals[i] is Null
}

/// The rows a predicate column keeps: exactly the true entries.
pub open spec fn mask_of(vals: Seq<Value>) -> Seq<bool> {
    Seq::new(vals.len(), |i: int| vals[i] == Value::Bool(true))
}

/// Applies a boolean predicate to a table: succeeds exactly when the
/// predicate denotes a column of the table's height holding only booleans
/// and nulls, and then keeps exactly the rows on which it is true, in their
/// original order, under the unchanged schema. A well-typed predicate of
/// the wrong kind is a type mismatch; everything else that fails is a
/// schema error.
#[verifier::spinoff_prover]
#[verifier::loop_isolation(false)]
#[verifier::rlimit(60)]
pub fn filter_table(df: &Table, predicate: &Expr, state: &ExecutionState) -> (r: Result<
    Table,
    ExecError,
>)
    requires
        df.wf(),
    ensures
        r is Ok <==> (crate::expr::sem(*predicate, *df) matches Some(p) && p.1.len()
            == df.height_spec() && bool_mask_ok(p.1)),
        r matches Ok(t) ==> {
            let p = crate::expr::sem(*predicate, *df).unwrap();
            &&& t.wf()
            &&& t.cols@.len() == df.cols@.len()
            &&& forall|c: int| 0 <= c < t.cols@.len() ==> (#[trigger] t.cols@[c]).name@
                == df.cols@[c].name@
            &&& forall|c: int|
                0 <= c < t.cols@.len() ==> crate::column::seq_veq(
                    (#[trigger] t.cols@[c]).values@,
                    crate::table::filtered(df.cols@[c].values@, mask_of(p.1)),
                )
        },
        r matches Err(e) ==> ((e is TypeMismatch) <==> (crate::expr::sem(*predicate, *df)
            matches Some(p) && p.1.len() == df.height_spec() && !bool_mask_ok(p.1))),
{
    let mask_col = match eval(predicate, df, state) {
        Ok(c) => c,
        Err(_) => {
            return Err(ExecError::SchemaError("filter predicate does not evaluate".to_owned()));
        },
    };
    if mask_col.len() != df.height() {
        return Err(ExecError::SchemaError("predicate length does not fit the table".to_owned()));
    }
    let ghost p = crate::expr::sem(*predicate, *df).unwrap();
    proof {
        assert forall|i: int| 0 <= i < p.1.len() implies ((#[trigger] p.1[i]) is Bool
            || p.1[i] is Null) == (mask_col.values@[i] is Bool || mask_col.values@[i]
            is Null) by {
            assert(crate::value::veq(mask_col.values@[i], p.1[i]));
        }
    }
    let mask = match mask_from_column(&mask_col) {
        Ok(m) => m,
        Err(e) => {
            proof {
                assert(!bool_mask_ok(p.1));
            }
            return Err(e);
        },
    };
    proof {
        assert(bool_mask_ok(p.1));
        assert forall|i: int| 0 <= i < mask@.len() implies mask@[i] == mask_of(p.1)[i] by {
            assert(crate::value::veq(mask_col.values@[i], p.1[i]));
            assert(mask@[i] == (mask_col.values@[i] matches Value::Bool(true)));
        }
        assert(mask@ =~= mask_of(p.1));
    }
    Ok(df.filter_rows(&mask))
}

/// Relies on itertools' all_equal: whether every listed length equals every
/// other.
#[verifier::external_body]
fn lens_all_equal(lens: &Vec<usize>) -> (r: bool)
    ensures
        r == (forall|i: int, j: int|
            0 <= i < lens@.len() && 0 <= j < lens@.len() ==> lens@[i] == lens@[j]),
{
    lens.iter().all_equal()
}

/// Every expression denotes a column against the table.
pub open spec fn all_sem_ok(exprs: Seq<Expr>, df: Table) -> bool {
    forall|k: int| 0 <= k < exprs.len() ==> (#[trigger] crate::expr::sem(exprs[k], df)) is Some
}

/// All denoted columns have one length.
pub open spec fn sem_lens_all_equal(exprs: Seq<Expr>, df: Table) -> bool {
    forall|i: int, j: int|
        0 <= i < exprs.len() && 0 <= j < exprs.len() ==> (#[trigger] crate::expr::sem(
            exprs[i],
            df,
        )).unwrap().1.len() == (#[trigger] crate::expr::sem(exprs[j], df)).unwrap().1.len()
}

/// What column `k` of the expression list's output is: the denoted column,
/// except that when there is more than one expression and the lengths
/// differ, a single-row result is broadcast to the input table's height.
pub open spec fn epe_col(exprs: Seq<Expr>, df: Table, k: int) -> (Seq<char>, Seq<Value>) {
    let p = crate::expr::sem(exprs[k], df).unwrap();
    if exprs.len() > 1 && !sem_lens_all_equal(exprs, df) && p.1.len() == 1 && df.height_spec()
        > 1 {
        (p.0, Seq::new(df.height_spec() as nat, |i: int| p.1[0]))
    } else {
        p
    }
}

/// When the expression list succeeds: every expression denotes, and the
/// output columns (after broadcasting) carry distinct names and one common
/// length — a non-single-row mismatch is a defect, never silently kept.
pub open spec fn epe_ok(exprs: Seq<Expr>, df: Table) -> bool {
    &&& all_sem_ok(exprs, df)
    &&& forall|i: int, j: int|
        0 <= i < j < exprs.len() ==> epe_col(exprs, df, i).0 != epe_col(exprs, df, j).0
    &&& forall|i: int, j: int|
        0 <= i < exprs.len() && 0 <= j < exprs.len() ==> epe_col(exprs, df, i).1.len() == epe_col(
            exprs,
            df,
            j,
        ).1.len()
}

/// Evaluates a list of expressions against a table and assembles the
/// resulting columns into a new table: one output column per expression,
/// single-row results broadcast to the input table's height when the
/// lengths differ. Succeeds exactly when every expression denotes and the
/// output columns form a valid table.
#[verifier::spinoff_prover]
#[verifier::loop_isolation(false)]
#[verifier::rlimit(100)]
pub fn evaluate_physical_expressions(
    df: &Table,
    exprs: &Vec<Expr>,
    state: &ExecutionState,
) -> (r: Result<Table, ExecError>)
    requires
        df.wf(),
    ensures
        r is Ok <==> epe_ok(exprs@, *df),
        r matches Ok(t) ==> {
            &&& t.wf()
            &&& t.cols@.len() == exprs@.len()
            &&& forall|k: int|
                0 <= k < exprs@.len() ==> (#[trigger] t.cols@[k]).name@ == epe_col(
                    exprs@,
                    *df,
                    k,
                ).0
            &&& forall|k: int|
                0 <= k < exprs@.len() ==> crate::column::seq_veq(
                    (#[trigger] t.cols@[k]).values@,
                    epe_col(exprs@, *df, k).1,
                )
        },
{
    let height = df.height();
    let mut selected: Vec<Column> = Vec::new();
    let mut k: usize = 0;
    while k < exprs.len()
        invariant
            k <= exprs@.len(),
            selected@.len() == k as int,
            forall|m: int|
                0 <= m < k as int ==> (#[trigger] crate::expr::sem(exprs@[m], *df)) is Some,
            forall|m: int|
                0 <= m < k as int ==> crate::expr::col_denotes(
                    #[trigger] selected@[m],
                    crate::expr::sem(exprs@[m], *df).unwrap(),
                ),
            forall|m: int|
                0 <= m < k as int ==> (#[trigger] selected@[m]).len_spec() == crate::expr::sem(
                    exprs@[m],
                    *df,
                ).unwrap().1.len(),
        decreases exprs@.len() - k,
    {
        match eval(&exprs[k], df, state) {
            Ok(c) => selected.push(c),
            Err(_) => {
                proof {
                    assert(!all_sem_ok(exprs@, *df));
                }
                return Err(
                    ExecError::SchemaError("an expression does not evaluate".to_owned()),
                );
            },
        }
        k = k + 1;
    }
    let mut lens_differ: bool = false;
    if selected.len() > 1 {
        let mut lens: Vec<usize> = Vec::new();
        let mut k2: usize = 0;
        while k2 < selected.len()
            invariant
                k2 <= selected@.len(),
                lens@.len() == k2 as int,
                forall|m: int|
                    0 <= m < k2 as int ==> (#[trigger] lens@[m]) as int
                        == selected@[m].len_spec(),
            decreases selected@.len() - k2,
        {
            lens.push(selected[k2].len());
            k2 = k2 + 1;
        }
        lens_differ = !lens_all_equal(&lens);
        proof {
            assert(lens_differ == !sem_lens_all_equal(exprs@, *df)) by {
                if lens_differ {
                    let (i, j) = choose|i: int, j: int|
                        0 <= i < lens@.len() && 0 <= j < lens@.len() && lens@[i] != lens@[j];
                    assert(crate::expr::sem(exprs@[i], *df).unwrap().1.len()
                        != crate::expr::sem(exprs@[j], *df).unwrap().1.len());
                } else {
                    assert forall|i: int, j: int|
                        0 <= i < exprs@.len() && 0 <= j < exprs@.len() implies (
                    #[trigger] crate::expr::sem(exprs@[i], *df)).unwrap().1.len() == (
                    #[trigger] crate::expr::sem(exprs@[j], *df)).unwrap().1.len() by {
                        assert(lens@[i] == lens@[j]);
                    }
                }
            }
        }
    }
    let broadcasting = selected.len() > 1 && lens_differ;
    proof {
        assert(broadcasting == (exprs@.len() > 1 && !sem_lens_all_equal(exprs@, *df)));
    }
    let cols: Vec<Column> = if broadcasting {
        let mut expanded: Vec<Column> = Vec::new();
        let mut k3: usize = 0;
        while k3 < selected.len()
            invariant
                broadcasting == (exprs@.len() > 1 && !sem_lens_all_equal(exprs@, *df)),
                broadcasting,
                height as int == df.height_spec(),
                k3 <= selected@.len(),
                expanded@.len() == k3 as int,
                forall|m: int|
                    0 <= m < k3 as int ==> (#[trigger] expanded@[m]).name@ == epe_col(
                        exprs@,
                        *df,
                        m,
                    ).0,
                forall|m: int|
                    0 <= m < k3 as int ==> crate::column::seq_veq(
                        (#[trigger] expanded@[m]).values@,
                        epe_col(exprs@, *df, m).1,
                    ),
            decreases selected@.len() - k3,
        {
            let ghost p = crate::expr::sem(exprs@[k3 as int], *df).unwrap();
            if selected[k3].len() == 1 && height > 1 {
                let c = selected[k3].expand_at_index(height);
                proof {
                    assert forall|i: int|
                        0 <= i < c.values@.len() implies crate::value::veq(
                        c.values@[i],
                        epe_col(exprs@, *df, k3 as int).1[i],
                    ) by {
                        assert(crate::value::veq(c.values@[i], selected@[k3 as int].values@[0]));
                        assert(crate::value::veq(selected@[k3 as int].values@[0], p.1[0]));
                        crate::value::lemma_veq_trans(
                            c.values@[i],
                            selected@[k3 as int].values@[0],
                            p.1[0],
                        );
                    }
                }
                expanded.push(c);
            } else {
                let c = selected[k3].dup();
                proof {
                    assert(epe_col(exprs@, *df, k3 as int) == p);
                    assert forall|i: int|
                        0 <= i < c.values@.len() implies crate::value::veq(
                        c.values@[i],
                        p.1[i],
                    ) by {
                        crate::value::lemma_veq_trans(
                            c.values@[i],
                            selected@[k3 as int].values@[i],
                            p.1[i],
                        );
                    }
                }
                expanded.push(c);
            }
            k3 = k3 + 1;
        }
        expanded
    } else {
        proof {
            assert forall|m: int| 0 <= m < selected@.len() implies epe_col(exprs@, *df, m)
                == crate::expr::sem(exprs@[m], *df).unwrap() by {}
        }
        selected
    };
    let t = Table::new_no_checks(cols);
    proof {
        assert(t.cols@.len() == exprs@.len());
        assert(forall|m: int|
            0 <= m < exprs@.len() ==> (#[trigger] t.cols@[m]).name@ == epe_col(exprs@, *df, m).0);
        assert(forall|m: int|
            0 <= m < exprs@.len() ==> crate::column::seq_veq(
                (#[trigger] t.cols@[m]).values@,
                epe_col(exprs@, *df, m).1,
            ));
    }
    if !check_table_wf(&t) {
        proof {
            assert(!epe_ok(exprs@, *df)) by {
                if epe_ok(exprs@, *df) {
                    assert forall|i: int, j: int|
                        0 <= i < j < t.cols@.len() implies t.cols@[i].name@ != t.cols@[
                    j].name@ by {
                        assert(t.cols@[i].name@ == epe_col(exprs@, *df, i).0);
                        assert(t.cols@[j].name@ == epe_col(exprs@, *df, j).0);
                    }
                    assert forall|i: int|
                        0 <= i < t.cols@.len() implies (#[trigger] t.cols@[i]).len_spec()
                        == t.height_spec() by {
                        if t.cols@.len() > 0 {
                            assert(epe_col(exprs@, *df, i).1.len() == epe_col(
                                exprs@,
                                *df,
                                0,
                            ).1.len());
                        }
                    }
                    assert(t.wf());
                    assert(false);
                }
            }
        }
        return Err(
            ExecError::SchemaError("expression results do not form a valid table".to_owned()),
        );
    }
    proof {
        assert(epe_ok(exprs@, *df)) by {
            assert forall|i: int, j: int|
                0 <= i < j < exprs@.len() implies epe_col(exprs@, *df, i).0 != epe_col(
                exprs@,
                *df,
                j,
            ).0 by {
                assert(t.cols@[i].name@ != t.cols@[j].name@);
            }
            assert forall|i: int, j: int|
                0 <= i < exprs@.len() && 0 <= j < exprs@.len() implies epe_col(
                exprs@,
                *df,
                i,
            ).1.len() == epe_col(exprs@, *df, j).1.len() by {
                assert(t.cols@[i].len_spec() == t.height_spec());
                assert(t.cols@[j].len_spec() == t.height_spec());
            }
        }
    }
    Ok(t)
}

/// The columns of `t` that are not named in `names`, in order: each keeps
/// its name and values, no kept name is listed, and no kept name repeats.
#[verifier::loop_isolation(false)]
#[verifier::rlimit(60)]
fn drop_columns(t: &Table, names: &Vec<String>) -> (r: Vec<Column>)
    requires
        t.wf(),
    ensures
        forall|k: int| 0 <= k < r@.len() ==> (#[trigger] r@[k]).len_spec() == t.height_spec(),
        forall|k: int, j: int|
            0 <= k < r@.len() && 0 <= j < names@.len() ==> (#[trigger] r@[k]).name@ != (
            #[trigger] names@[j])@,
        forall|k1: int, k2: int| 0 <= k1 < k2 < r@.len() ==> r@[k1].name@ != r@[k2].name@,
        forall|k: int| 0 <= k < r@.len() ==> exists|c: int|
            0 <= c < t.cols@.len() && (#[trigger] r@[k]).name@ == (
            #[trigger] t.cols@[c]).name@ && crate::column::seq_veq(
                r@[k].values@,
                t.cols@[c].values@,
            ),
{
    let mut out: Vec<Column> = Vec::new();
    let mut c: usize = 0;
    while c < t.cols.len()
        invariant
            c <= t.cols@.len(),
            forall|k: int|
                0 <= k < out@.len() ==> (#[trigger] out@[k]).len_spec() == t.height_spec(),
            forall|k: int, j: int|
                0 <= k < out@.len() && 0 <= j < names@.len() ==> (#[trigger] out@[k]).name@ != (
                #[trigger] names@[j])@,
            forall|k1: int, k2: int| 0 <= k1 < k2 < out@.len() ==> out@[k1].name@ != out@[k2].name@,
            forall|k: int| 0 <= k < out@.len() ==> exists|c2: int|
                0 <= c2 < c as int && (#[trigger] out@[k]).name@ == (
                #[trigger] t.cols@[c2]).name@ && crate::column::seq_veq(
                    out@[k].values@,
                    t.cols@[c2].values@,
                ),
        decreases t.cols@.len() - c,
    {
        let mut listed: bool = false;
        let mut k: usize = 0;
        while k < names.len()
            invariant
                k <= names@.len(),
                c < t.cols@.len(),
                !listed ==> forall|j: int|
                    0 <= j < k as int ==> t.cols@[c as int].name@ != (#[trigger] names@[j])@,
                listed ==> exists|j: int|
                    0 <= j < names@.len() && t.cols@[c as int].name@ == (#[trigger] names@[j])@,
            decreases names@.len() - k,
        {
            if crate::categorical::compare_str(&t.cols[c].name, &names[k]) {
                listed = true;
            }
            k = k + 1;
        }
        if !listed {
            let col = t.cols[c].dup();
            proof {
                assert(col.len_spec() == t.cols@[c as int].len_spec());
                assert forall|k2: int| 0 <= k2 < out@.len() implies (#[trigger] out@[k2]).name@
                    != col.name@ by {
                    let c2 = choose|c2: int|
                        0 <= c2 < c as int && (#[trigger] out@[k2]).name@ == (
                        #[trigger] t.cols@[c2]).name@ && crate::column::seq_veq(
                            out@[k2].values@,
                            t.cols@[c2].values@,
                        );
                    assert(t.cols@[c2].name@ != t.cols@[c as int].name@);
                }
            }
            out.push(col);
        }
        c = c + 1;
    }
    out
}

/// The height fits a 32-bit row index, the kernel's numeric policy.
fn check_height(t: &Table) -> (r: bool)
    ensures
        r == (t.height_spec() <= u32::MAX as int),
{
    (t.height() as u64) <= (u32::MAX as u64)
}

/// The values of the column an aggregation reads.
pub open spec fn agg_src_vals(df: Table, a: AggExpr) -> Seq<Value> {
    df.cols@[crate::expr::col_ix(df, a.col@)].values@
}

/// The aggregation contributes an output column: its column exists and its
/// operation can reduce those values (an ineligible one is silently
/// dropped).
pub open spec fn agg_keeps(df: Table, a: AggExpr) -> bool {
    df.has_col(a.col@) && crate::agg::agg_eligible(a.op, agg_src_vals(df, a))
}

/// How many of the first `k` aggregations contribute a column.
pub open spec fn kept_before(aggs: Seq<AggExpr>, df: Table, k: int) -> int
    decreases k,
{
    if k <= 0 {
        0
    } else {
        kept_before(aggs, df, k - 1) + if agg_keeps(df, aggs[k - 1]) {
            1int
        } else {
            0int
        }
    }
}

pub proof fn lemma_kept_mono(aggs: Seq<AggExpr>, df: Table, k1: int, k2: int)
    requires
        0 <= k1 < k2 <= aggs.len(),
        agg_keeps(df, aggs[k1]),
    ensures
        kept_before(aggs, df, k1) < kept_before(aggs, df, k2),
    decreases k2 - k1,
{
    if k1 + 1 < k2 {
        lemma_kept_mono(aggs, df, k1, k2 - 1);
    }
}

pub proof fn lemma_kept_nonneg(aggs: Seq<AggExpr>, df: Table, k1: int, k2: int)
    requires
        0 <= k1 <= k2,
    ensures
        kept_before(aggs, df, k1) <= kept_before(aggs, df, k2),
    decreases k2 - k1,
{
    if k1 < k2 {
        lemma_kept_nonneg(aggs, df, k1, k2 - 1);
    }
}

/// Every output position comes from some kept aggregation.
pub proof fn lemma_kept_surjective(aggs: Seq<AggExpr>, df: Table, p: int, n: int)
    requires
        0 <= n <= aggs.len(),
        0 <= p < kept_before(aggs, df, n),
    ensures
        exists|k: int|
            0 <= k < n && agg_keeps(df, #[trigger] aggs[k]) && kept_before(aggs, df, k) == p,
    decreases n,
{
    if p < kept_before(aggs, df, n - 1) {
        lemma_kept_surjective(aggs, df, p, n - 1);
        let k = choose|k: int|
            0 <= k < n - 1 && agg_keeps(df, #[trigger] aggs[k]) && kept_before(aggs, df, k) == p;
        assert(agg_keeps(df, aggs[k]));
    } else {
        lemma_kept_nonneg(aggs, df, 0, n - 1);
        assert(agg_keeps(df, aggs[n - 1]) && kept_before(aggs, df, n - 1) == p);
    }
}

/// The shape of a grouped-aggregation output: one row per group of the key
/// table, the key columns at the group representatives, then one column per
/// kept aggregation holding its per-group value under the requested name.
pub open spec fn grouped_output_ok(
    df: Table,
    kt: Table,
    aggs: Seq<AggExpr>,
    gs: Seq<(u32, Vec<u32>)>,
    t: Table,
) -> bool {
    &&& crate::groupby::groups_ok(gs, kt, kt.height_spec())
    &&& forall|i: int|
        0 <= i < kt.height_spec() ==> #[trigger] crate::groupby::grouped(gs, i as u32)
    &&& t.wf()
    &&& t.cols@.len() == kt.cols@.len() + kept_before(aggs, df, aggs.len() as int)
    &&& t.height_spec() == (if t.cols@.len() == 0 {
        0int
    } else {
        gs.len() as int
    })
    &&& forall|c: int|
        0 <= c < kt.cols@.len() ==> (#[trigger] t.cols@[c]).name@ == kt.cols@[c].name@
    &&& forall|c: int, g: int|
        0 <= c < kt.cols@.len() && 0 <= g < gs.len() ==> crate::value::veq(
            #[trigger] t.cols@[c].values@[g],
            kt.cols@[c].values@[gs[g].0 as int],
        )
    &&& forall|k: int|
        0 <= k < aggs.len() && agg_keeps(df, #[trigger] aggs[k]) ==> t.cols@[kt.cols@.len()
            + kept_before(aggs, df, k)].name@ == aggs[k].out_name@ && (forall|g: int|
            0 <= g < gs.len() ==> crate::value::veq(
                #[trigger] t.cols@[kt.cols@.len() + kept_before(aggs, df, k)].values@[g],
                crate::agg::agg_value(aggs[k].op, agg_src_vals(df, aggs[k]), gs[g].1@),
            ))
}

/// The kept output names collide nowhere: not among themselves and not
/// with the key columns.
pub open spec fn gb_names_ok(df: Table, kt: Table, aggs: Seq<AggExpr>) -> bool {
    &&& forall|k1: int, k2: int|
        0 <= k1 < k2 < aggs.len() && agg_keeps(df, #[trigger] aggs[k1]) && agg_keeps(
            df,
            #[trigger] aggs[k2],
        ) ==> aggs[k1].out_name@ != aggs[k2].out_name@
    &&& forall|c: int, k: int|
        0 <= c < kt.cols@.len() && 0 <= k < aggs.len() && agg_keeps(df, #[trigger] aggs[k]) ==> (
        #[trigger] kt.cols@[c]).name@ != aggs[k].out_name@
}

/// When a single-pass grouped aggregation succeeds.
pub open spec fn gb_ok(df: Table, kt: Table, aggs: Seq<AggExpr>) -> bool {
    &&& kt.wf()
    &&& kt.height_spec() == df.height_spec()
    &&& kt.height_spec() <= u32::MAX as int
    &&& forall|k: int| 0 <= k < aggs.len() ==> df.has_col((#[trigger] aggs[k]).col@)
    &&& gb_names_ok(df, kt, aggs)
}

/// Distinct kept output names give a collision-free assembled schema.
#[verifier::spinoff_prover]
#[verifier::rlimit(100)]
proof fn lemma_gb_names_fwd(
    df: Table,
    ktv: Table,
    aggs: Seq<AggExpr>,
    key_cols: Seq<Column>,
    agg_cols: Seq<Column>,
)
    requires
        ktv.wf(),
        key_cols.len() == ktv.cols@.len(),
        forall|c: int|
            0 <= c < key_cols.len() ==> (#[trigger] key_cols[c]).name@ == ktv.cols@[c].name@,
        agg_cols.len() == kept_before(aggs, df, aggs.len() as int),
        forall|k: int|
            0 <= k < aggs.len() && agg_keeps(df, #[trigger] aggs[k]) ==> agg_cols[kept_before(
                aggs,
                df,
                k,
            )].name@ == aggs[k].out_name@,
        gb_names_ok(df, ktv, aggs),
    ensures
        crate::groupby::out_names_unique(key_cols, agg_cols),
{
    assert forall|i: int, j: int|
        0 <= i < j < agg_cols.len() implies agg_cols[i].name@ != agg_cols[j].name@ by {
        lemma_kept_surjective(aggs, df, i, aggs.len() as int);
        lemma_kept_surjective(aggs, df, j, aggs.len() as int);
        let k1 = choose|k: int|
            0 <= k < aggs.len() && agg_keeps(df, #[trigger] aggs[k]) && kept_before(aggs, df, k)
                == i;
        let k2 = choose|k: int|
            0 <= k < aggs.len() && agg_keeps(df, #[trigger] aggs[k]) && kept_before(aggs, df, k)
                == j;
        if k2 <= k1 {
            if k2 < k1 {
                lemma_kept_mono(aggs, df, k2, k1);
            }
            assert(false);
        }
        assert(aggs[k1].out_name@ != aggs[k2].out_name@);
        assert(agg_cols[i].name@ == aggs[k1].out_name@);
        assert(agg_cols[j].name@ == aggs[k2].out_name@);
    }
    assert forall|i: int, j: int|
        0 <= i < key_cols.len() && 0 <= j < agg_cols.len() implies key_cols[i].name@
        != agg_cols[j].name@ by {
        lemma_kept_surjective(aggs, df, j, aggs.len() as int);
        let k2 = choose|k: int|
            0 <= k < aggs.len() && agg_keeps(df, #[trigger] aggs[k]) && kept_before(aggs, df, k)
                == j;
        assert(ktv.cols@[i].name@ != aggs[k2].out_name@);
        assert(agg_cols[j].name@ == aggs[k2].out_name@);
    }
    assert(forall|i: int, j: int|
        0 <= i < j < key_cols.len() ==> key_cols[i].name@ != key_cols[j].name@);
}

/// A collision-free assembled schema gives distinct kept output names.
#[verifier::spinoff_prover]
#[verifier::rlimit(100)]
proof fn lemma_gb_names_rev(
    df: Table,
    ktv: Table,
    aggs: Seq<AggExpr>,
    key_cols: Seq<Column>,
    agg_cols: Seq<Column>,
)
    requires
        ktv.wf(),
        key_cols.len() == ktv.cols@.len(),
        forall|c: int|
            0 <= c < key_cols.len() ==> (#[trigger] key_cols[c]).name@ == ktv.cols@[c].name@,
        agg_cols.len() == kept_before(aggs, df, aggs.len() as int),
        forall|k: int|
            0 <= k < aggs.len() && agg_keeps(df, #[trigger] aggs[k]) ==> agg_cols[kept_before(
                aggs,
                df,
                k,
            )].name@ == aggs[k].out_name@,
        crate::groupby::out_names_unique(key_cols, agg_cols),
    ensures
        gb_names_ok(df, ktv, aggs),
{
    assert forall|k1: int, k2: int|
        0 <= k1 < k2 < aggs.len() && agg_keeps(df, #[trigger] aggs[k1]) && agg_keeps(
            df,
            #[trigger] aggs[k2],
        ) implies aggs[k1].out_name@ != aggs[k2].out_name@ by {
        lemma_kept_mono(aggs, df, k1, k2);
        lemma_kept_mono(aggs, df, k2, aggs.len() as int);
        lemma_kept_nonneg(aggs, df, 0, k1);
        let p1 = kept_before(aggs, df, k1);
        let p2 = kept_before(aggs, df, k2);
        assert(0 <= p1 < p2 < agg_cols.len());
        assert(agg_cols[p1].name@ != agg_cols[p2].name@);
        assert(agg_cols[p1].name@ == aggs[k1].out_name@);
        assert(agg_cols[p2].name@ == aggs[k2].out_name@);
    }
    assert forall|c: int, k: int|
        0 <= c < ktv.cols@.len() && 0 <= k < aggs.len() && agg_keeps(
            df,
            #[trigger] aggs[k],
        ) implies (#[trigger] ktv.cols@[c]).name@ != aggs[k].out_name@ by {
        lemma_kept_mono(aggs, df, k, aggs.len() as int);
        lemma_kept_nonneg(aggs, df, 0, k);
        let p = kept_before(aggs, df, k);
        assert(0 <= p < agg_cols.len());
        assert(key_cols[c].name@ != agg_cols[p].name@);
        assert(agg_cols[p].name@ == aggs[k].out_name@);
    }
}

/// Executes grouped aggregation or the per-group callback on an already
/// realized table: the single-pass strategy.
#[verifier::loop_isolation(false)]
#[verifier::rlimit(60)]
pub fn groupby_helper<U: TableUdf>(
    df: &Table,
    keys: Vec<Column>,
    aggs: &Vec<AggExpr>,
    apply: Option<&U>,
    state: &ExecutionState,
) -> (r: Result<Table, ExecError>)
    requires
        df.wf(),
    ensures
        r matches Ok(t) ==> t.wf(),
        apply is None ==> (r is Ok <==> gb_ok(*df, (Table { cols: keys }), aggs@)),
        apply is None ==> (r matches Ok(t) ==> exists|gs: Seq<(u32, Vec<u32>)>|
            grouped_output_ok(*df, (Table { cols: keys }), aggs@, gs, t)),
        apply is Some ==> (!((Table { cols: keys }).wf() && (Table {
            cols: keys,
        }).height_spec() == df.height_spec() && df.height_spec() <= u32::MAX as int) ==> r
            is Err),
        apply is Some ==> (r matches Ok(t) ==> exists|gs: Seq<(u32, Vec<u32>)>, parts: Seq<Table>|
            crate::groupby::groups_ok(gs, (Table { cols: keys }), df.height_spec()) && (forall|
                i: int,
            |
                0 <= i < df.height_spec() ==> #[trigger] crate::groupby::grouped(gs, i as u32))
                && #[trigger] stacked_of_parts_ok(parts, gs.len() as int, t)),
{
    let kt = Table::new_no_checks(keys);
    match apply {
        Some(f) => {
            if !check_table_wf(&kt) {
                return Err(
                    ExecError::SchemaError("group keys do not form a valid table".to_owned()),
                );
            }
            if kt.height() != df.height() || !check_height(&kt) {
                return Err(ExecError::SchemaError("group keys do not fit the table".to_owned()));
            }
            let groups = groups_of(&kt);
            let mut parts: Vec<Table> = Vec::new();
            let mut g: usize = 0;
            while g < groups.len()
                invariant
                    g <= groups@.len(),
                    df.wf(),
                    crate::groupby::groups_ok(groups@, kt, kt.height_spec()),
                    kt.height_spec() == df.height_spec(),
                    parts@.len() == g as int,
                    forall|k: int| 0 <= k < parts@.len() ==> (#[trigger] parts@[k]).wf(),
                decreases groups@.len() - g,
            {
                proof {
                    assert(crate::agg::groups_in_bounds(groups@, kt.height_spec()));
                }
                let sub = df.take_rows(&groups[g].1);
                let out = f.call_udf(sub)?;
                if !check_table_wf(&out) {
                    return Err(
                        ExecError::Internal("group callback returned a corrupt table".to_owned()),
                    );
                }
                parts.push(out);
                g = g + 1;
            }
            let total_ok = check_stack_bound(&parts);
            if !total_ok {
                return Err(ExecError::SchemaError("concatenated output is too tall".to_owned()));
            }
            let r = concat_tables(&parts);
            proof {
                if r is Ok {
                    let t = r.unwrap();
                    assert(stacked_of_parts_ok(parts@, groups@.len() as int, t));
                }
            }
            r
        },
        None => groupby_single_pass(df, kt, aggs),
    }
}

/// Reduces every aggregation over the groups, collecting the kept columns
/// in order. Succeeds exactly when every aggregation names a present
/// column.
#[verifier::spinoff_prover]
#[verifier::loop_isolation(false)]
#[verifier::rlimit(60)]
fn collect_agg_columns(df: &Table, aggs: &Vec<AggExpr>, groups: &Vec<(u32, Vec<u32>)>) -> (r:
    Result<Vec<Column>, ExecError>)
    requires
        df.wf(),
        df.height_spec() <= u32::MAX as int,
        crate::agg::groups_in_bounds(groups@, df.height_spec()),
        crate::agg::groups_nonempty(groups@),
        crate::agg::groups_counts_bounded(groups@),
    ensures
        r is Ok <==> (forall|k: int| 0 <= k < aggs@.len() ==> df.has_col(
            (#[trigger] aggs@[k]).col@,
        )),
        r matches Ok(cols) ==> {
            &&& cols@.len() == kept_before(aggs@, *df, aggs@.len() as int)
            &&& forall|i: int|
                0 <= i < cols@.len() ==> (#[trigger] cols@[i]).len_spec() == groups@.len()
            &&& forall|k: int|
                0 <= k < aggs@.len() && agg_keeps(*df, #[trigger] aggs@[k]) ==> cols@[kept_before(
                    aggs@,
                    *df,
                    k,
                )].name@ == aggs@[k].out_name@ && (forall|g2: int|
                    0 <= g2 < groups@.len() ==> crate::value::veq(
                        #[trigger] cols@[kept_before(aggs@, *df, k)].values@[g2],
                        crate::agg::agg_value(
                            aggs@[k].op,
                            agg_src_vals(*df, aggs@[k]),
                            groups@[g2].1@,
                        ),
                    ))
        },
{
    let mut agg_cols: Vec<Column> = Vec::new();
    let mut a: usize = 0;
    while a < aggs.len()
        invariant
            a <= aggs@.len(),
            forall|k: int|
                0 <= k < agg_cols@.len() ==> (#[trigger] agg_cols@[k]).len_spec()
                    == groups@.len(),
            forall|k: int| 0 <= k < a as int ==> df.has_col((#[trigger] aggs@[k]).col@),
            agg_cols@.len() == kept_before(aggs@, *df, a as int),
            forall|k: int|
                0 <= k < a as int && agg_keeps(*df, #[trigger] aggs@[k]) ==> agg_cols@[
                    kept_before(aggs@, *df, k)].name@ == aggs@[k].out_name@ && (forall|g2: int|
                    0 <= g2 < groups@.len() ==> crate::value::veq(
                        #[trigger] agg_cols@[kept_before(aggs@, *df, k)].values@[g2],
                        crate::agg::agg_value(
                            aggs@[k].op,
                            agg_src_vals(*df, aggs@[k]),
                            groups@[g2].1@,
                        ),
                    )),
        decreases aggs@.len() - a,
    {
        match eval_agg(&aggs[a], df, groups) {
            Err(e) => {
                proof {
                    assert(!df.has_col(aggs@[a as int].col@));
                }
                return Err(e);
            },
            Ok(Some(c)) => {
                let ghost c_snap = c;
                let ghost prev = agg_cols@;
                let ghost pos = agg_cols@.len();
                agg_cols.push(c);
                proof {
                    assert(agg_keeps(*df, aggs@[a as int]));
                    assert(kept_before(aggs@, *df, a as int + 1) == kept_before(
                        aggs@,
                        *df,
                        a as int,
                    ) + 1);
                    assert(agg_cols@[pos as int] == c_snap);
                    assert(pos as int == kept_before(aggs@, *df, a as int));
                    assert forall|k: int|
                        0 <= k < a as int + 1 && agg_keeps(
                            *df,
                            #[trigger] aggs@[k],
                        ) implies agg_cols@[kept_before(aggs@, *df, k)].name@ == aggs@[
                    k].out_name@ && (forall|g2: int|
                        0 <= g2 < groups@.len() ==> crate::value::veq(
                            #[trigger] agg_cols@[kept_before(aggs@, *df, k)].values@[g2],
                            crate::agg::agg_value(
                                aggs@[k].op,
                                agg_src_vals(*df, aggs@[k]),
                                groups@[g2].1@,
                            ),
                        )) by {
                        if k < a as int {
                            lemma_kept_mono(aggs@, *df, k, a as int);
                            lemma_kept_nonneg(aggs@, *df, 0, k);
                            let p = kept_before(aggs@, *df, k);
                            assert(agg_cols@[p] == prev[p]);
                            assert(prev[p].name@ == aggs@[k].out_name@);
                            assert forall|g2: int|
                                0 <= g2 < groups@.len() implies crate::value::veq(
                                #[trigger] agg_cols@[p].values@[g2],
                                crate::agg::agg_value(
                                    aggs@[k].op,
                                    agg_src_vals(*df, aggs@[k]),
                                    groups@[g2].1@,
                                ),
                            ) by {
                                assert(crate::value::veq(
                                    prev[p].values@[g2],
                                    crate::agg::agg_value(
                                        aggs@[k].op,
                                        agg_src_vals(*df, aggs@[k]),
                                        groups@[g2].1@,
                                    ),
                                ));
                            }
                        } else {
                            assert forall|g2: int|
                                0 <= g2 < groups@.len() implies crate::value::veq(
                                #[trigger] agg_cols@[pos as int].values@[g2],
                                crate::agg::agg_value(
                                    aggs@[a as int].op,
                                    agg_src_vals(*df, aggs@[a as int]),
                                    groups@[g2].1@,
                                ),
                            ) by {
                                assert(crate::value::veq(
                                    c_snap.values@[g2],
                                    crate::agg::agg_value(
                                        aggs@[a as int].op,
                                        agg_src_vals(*df, aggs@[a as int]),
                                        groups@[g2].1@,
                                    ),
                                ));
                            }
                        }
                    }
                }
            },
            Ok(None) => {
                proof {
                    assert(!agg_keeps(*df, aggs@[a as int]));
                }
            },
        }
        a = a + 1;
    }
    Ok(agg_cols)
}

/// The assembled table has the grouped-output shape, given what each part
/// of the pipeline established.
#[verifier::spinoff_prover]
#[verifier::rlimit(100)]
proof fn lemma_grouped_output(
    df: Table,
    ktv: Table,
    aggs: Seq<AggExpr>,
    gs: Seq<(u32, Vec<u32>)>,
    reps: Seq<u32>,
    key_cols: Seq<Column>,
    agg_cols: Seq<Column>,
    t: Table,
)
    requires
        crate::groupby::groups_ok(gs, ktv, ktv.height_spec()),
        forall|i: int|
            0 <= i < ktv.height_spec() ==> #[trigger] crate::groupby::grouped(gs, i as u32),
        t.wf(),
        reps.len() == gs.len(),
        forall|g: int| 0 <= g < gs.len() ==> (#[trigger] reps[g]) == gs[g].0,
        key_cols.len() == ktv.cols@.len(),
        forall|c: int|
            0 <= c < key_cols.len() ==> (#[trigger] key_cols[c]).name@ == ktv.cols@[c].name@,
        forall|c: int, g: int|
            0 <= c < key_cols.len() && 0 <= g < gs.len() ==> crate::value::veq(
                #[trigger] key_cols[c].values@[g],
                ktv.cols@[c].values@[reps[g] as int],
            ),
        agg_cols.len() == kept_before(aggs, df, aggs.len() as int),
        forall|k: int|
            0 <= k < aggs.len() && agg_keeps(df, #[trigger] aggs[k]) ==> agg_cols[kept_before(
                aggs,
                df,
                k,
            )].name@ == aggs[k].out_name@ && (forall|g2: int|
                0 <= g2 < gs.len() ==> crate::value::veq(
                    #[trigger] agg_cols[kept_before(aggs, df, k)].values@[g2],
                    crate::agg::agg_value(aggs[k].op, agg_src_vals(df, aggs[k]), gs[g2].1@),
                )),
        t.cols@.len() == key_cols.len() + agg_cols.len(),
        forall|i: int| 0 <= i < key_cols.len() ==> t.cols@[i] == key_cols[i],
        forall|i: int| 0 <= i < agg_cols.len() ==> t.cols@[key_cols.len() + i] == agg_cols[i],
        t.height_spec() == (if t.cols@.len() == 0 {
            0int
        } else {
            gs.len() as int
        }),
    ensures
        grouped_output_ok(df, ktv, aggs, gs, t),
{
    assert forall|c: int, g2: int|
        0 <= c < ktv.cols@.len() && 0 <= g2 < gs.len() implies crate::value::veq(
        #[trigger] t.cols@[c].values@[g2],
        ktv.cols@[c].values@[gs[g2].0 as int],
    ) by {
        assert(t.cols@[c] == key_cols[c]);
        assert(crate::value::veq(key_cols[c].values@[g2], ktv.cols@[c].values@[reps[g2] as int]));
    }
    assert forall|c: int| 0 <= c < ktv.cols@.len() implies (#[trigger] t.cols@[c]).name@
        == ktv.cols@[c].name@ by {
        assert(t.cols@[c] == key_cols[c]);
    }
    assert forall|k: int|
        0 <= k < aggs.len() && agg_keeps(df, #[trigger] aggs[k]) implies t.cols@[ktv.cols@.len()
        + kept_before(aggs, df, k)].name@ == aggs[k].out_name@ && (forall|g2: int|
        0 <= g2 < gs.len() ==> crate::value::veq(
            #[trigger] t.cols@[ktv.cols@.len() + kept_before(aggs, df, k)].values@[g2],
            crate::agg::agg_value(aggs[k].op, agg_src_vals(df, aggs[k]), gs[g2].1@),
        )) by {
        lemma_kept_mono(aggs, df, k, aggs.len() as int);
        lemma_kept_nonneg(aggs, df, 0, k);
        let p = kept_before(aggs, df, k);
        assert(t.cols@[ktv.cols@.len() + p] == agg_cols[p]);
    }
}

/// The single-pass grouped aggregation: groups the key table's rows by
/// exact key-tuple equality, reduces every aggregation over each group, and
/// assembles the per-group keys beside the kept aggregation columns.
/// Succeeds exactly when the keys form a well-formed table of the input's
/// height and every aggregation names a present column without a name
/// collision; the result then has the grouped-output shape.
#[verifier::spinoff_prover]
#[verifier::loop_isolation(false)]
#[verifier::rlimit(100)]
pub fn groupby_single_pass(df: &Table, kt: Table, aggs: &Vec<AggExpr>) -> (r: Result<
    Table,
    ExecError,
>)
    requires
        df.wf(),
    ensures
        r matches Ok(t) ==> t.wf(),
        r is Ok <==> gb_ok(*df, kt, aggs@),
        r matches Ok(t) ==> exists|gs: Seq<(u32, Vec<u32>)>|
            grouped_output_ok(*df, kt, aggs@, gs, t),
{
    if !check_table_wf(&kt) {
        return Err(ExecError::SchemaError("group keys do not form a valid table".to_owned()));
    }
    if kt.height() != df.height() || !check_height(&kt) {
        return Err(ExecError::SchemaError("group keys do not fit the table".to_owned()));
    }
    let groups = groups_of(&kt);
    let mut reps: Vec<u32> = Vec::new();
    let mut g: usize = 0;
    while g < groups.len()
        invariant
            g <= groups@.len(),
            crate::groupby::groups_ok(groups@, kt, kt.height_spec()),
            reps@.len() == g as int,
            forall|k: int| 0 <= k < g as int ==> (#[trigger] reps@[k] as int) < kt.height_spec(),
            forall|k: int| 0 <= k < g as int ==> (#[trigger] reps@[k]) == groups@[k].0,
        decreases groups@.len() - g,
    {
        proof {
            assert(groups@[g as int].1@[0] == groups@[g as int].0);
        }
        reps.push(groups[g].0);
        g = g + 1;
    }
    let key_out = kt.take_rows(&reps);
    let agg_cols = collect_agg_columns(df, aggs, &groups)?;
    proof {
        if gb_names_ok(*df, kt, aggs@) {
            lemma_gb_names_fwd(*df, kt, aggs@, key_out.cols@, agg_cols@);
        }
        if crate::groupby::out_names_unique(key_out.cols@, agg_cols@) {
            lemma_gb_names_rev(*df, kt, aggs@, key_out.cols@, agg_cols@);
        }
    }
    let ghost key_snap = key_out.cols@;
    let ghost agg_snap = agg_cols@;
    let n_groups = groups.len();
    let r = assemble_groupby_output(key_out.cols, agg_cols, n_groups);
    proof {
        if r is Ok {
            let t = r.unwrap();
            lemma_grouped_output(
                *df,
                kt,
                aggs@,
                groups@,
                reps@,
                key_snap,
                agg_snap,
                t,
            );
        }
    }
    r
}

/// Whether the stacked height of the tables fits an address.
#[verifier::loop_isolation(false)]
fn check_stack_bound(ts: &Vec<Table>) -> (r: bool)
    requires
        forall|k: int| 0 <= k < ts@.len() ==> (#[trigger] ts@[k]).wf(),
    ensures
        r == (crate::table::stack_offset(ts@, ts@.len() as int) <= usize::MAX as int),
{
    let mut total: usize = 0;
    let mut k: usize = 0;
    while k < ts.len()
        invariant
            k <= ts@.len(),
            total as int == crate::table::stack_offset(ts@, k as int),
        decreases ts@.len() - k,
    {
        let h = ts[k].height();
        if usize::MAX - total < h {
            proof {
                crate::table::lemma_stack_offset_mono(ts@, k as int + 1, ts@.len() as int);
            }
            return false;
        }
        total = total + h;
        k = k + 1;
    }
    true
}

/// Evaluates the operator tree against the execution state and realizes its
/// table. Any returned table is well-formed; the row-limit override is
/// never altered, and every cached entry survives untouched, on the error
/// path as well — the cache only grows. A cache operator is at-most-one
/// materialization: a hit succeeds without running the child and leaves the
/// state untouched, and any success leaves the key serving a table
/// structurally equal to the result; a caching scan behaves the same way
/// under its path-and-predicate key. An in-memory table is capped by an
/// active row-limit override.
#[verifier::spinoff_prover]
#[verifier::loop_isolation(false)]
#[verifier::rlimit(100)]
pub fn execute<U: TableUdf>(op: Op<U>, state: &mut ExecutionState) -> (r: Result<Table, ExecError>)
    requires
        old(state).cache_wf(),
        old(state).tables_wf(),
    ensures
        final(state).cache_wf(),
        final(state).tables_wf(),
        final(state).fetch_rows == old(state).fetch_rows,
        forall|k: Seq<char>, t: Table|
            old(state).cache_maps(k, t) ==> final(state).cache_maps(k, t),
        r matches Ok(t) ==> t.wf(),
        op matches Op::Cache { key, .. } ==> (old(state).cache_has(key@) ==> r is Ok
            && *final(state) == *old(state)),
        op matches Op::Cache { key, .. } ==> (r matches Ok(t) ==> final(state).serves(key@, t)),
        op matches Op::Scan { path, predicate, cache, .. } ==> (cache && old(state).cache_has(
            crate::expr::scan_key_spec(path@, predicate),
        ) ==> r is Ok && *final(state) == *old(state)),
        op matches Op::Scan { path, predicate, cache, .. } ==> (cache ==> (r matches Ok(t)
            ==> final(state).serves(crate::expr::scan_key_spec(path@, predicate), t))),
        op matches Op::DataFrame { .. } ==> (old(state).fetch_rows matches Some(l) ==> (r
            matches Ok(t) ==> t.height_spec() <= l as int)),
        op matches Op::DataFrame { df, projection, selection } ==> (r matches Ok(t) ==> df.wf()
            && exists|t1: Table, t2: Table|
            #[trigger] proj_stage_ok(df, projection, t1) && #[trigger] sel_stage_ok(
                t1,
                selection,
                t2,
            ) && cap_stage_ok(t2, old(state).fetch_rows, t)),
        op matches Op::DataFrame { df, projection, selection } ==> (df.wf() && df_arm_ok(
            df,
            projection,
            selection,
        ) ==> r is Ok),
        op matches Op::Standard { exprs, .. } ==> (r matches Ok(t) ==> exists|src: Table|
            src.wf() && epe_ok(exprs@, src) && #[trigger] epe_result_ok(exprs@, src, t)),
        op matches Op::Stack { exprs, .. } ==> (r matches Ok(t) ==> exists|src: Table|
            src.wf() && #[trigger] stack_chain_ok(
                src,
                exprs@,
                exprs@.len() as int,
                src.height_spec(),
                t,
            )),
        op matches Op::Standard { .. } ==> (r is Ok ==> final(state).expr_cache@.len() == 0),
        op matches Op::Scan { path, predicate, stop_after_n_rows, aggregate, cache, .. } ==> ((
        cache ==> !old(state).cache_has(crate::expr::scan_key_spec(path@, predicate)))
            && aggregate@.len() == 0 ==> (old(state).effective_limit_spec(stop_after_n_rows)
            matches Some(l) ==> (r matches Ok(t) ==> t.height_spec() <= l as int))),
    decreases op,
{
    match op {
        Op::Cache { key, input } => {
            match state.cache_hit(&key) {
                Some(df) => {
                    proof {
                        assert(state.cache_has(key@));
                        let st = choose|st: int|
                            0 <= st < state.cache@.len() && (#[trigger] state.cache@[st]).0@
                                == key@ && table_like(df, state.cache@[st].1);
                        let w = state.cache@[st].1;
                        crate::table::lemma_table_like_sym(df, w);
                        assert(state.cache_maps(key@, w) && table_like(w, df));
                        assert(state.serves(key@, df));
                    }
                    Ok(df)
                },
                None => {
                    let ghost pre = *state;
                    let df = execute(*input, state)?;
                    let ghost mid = *state;
                    let stored = df.dup();
                    let ghost stored_snap = stored;
                    proof {
                        crate::table::lemma_table_like_sym(stored, df);
                        crate::table::lemma_table_like_wf(stored, df);
                    }
                    state.store_cache(key, stored);
                    proof {
                        assert(state.cache_maps(key@, stored_snap) && table_like(
                            stored_snap,
                            df,
                        ));
                        assert(state.serves(key@, df));
                        assert forall|k2: Seq<char>, t2: Table|
                            pre.cache_maps(k2, t2) implies state.cache_maps(k2, t2) by {
                            assert(mid.cache_maps(k2, t2));
                            if k2 == key@ {
                                let i = choose|i: int|
                                    0 <= i < pre.cache@.len() && (#[trigger] pre.cache@[i]).0@
                                        == key@ && pre.cache@[i].1 == t2;
                                assert(pre.cache_has(key@));
                                assert(false);
                            }
                        }
                    }
                    Ok(df)
                },
            }
        },
        Op::Scan { source, path, predicate, with_columns, stop_after_n_rows, aggregate, cache } => {
            let state_key = scan_cache_key(&path, &predicate);
            if cache {
                if let Some(df) = state.cache_hit(&state_key) {
                    proof {
                        let st = choose|st: int|
                            0 <= st < state.cache@.len() && (#[trigger] state.cache@[st]).0@
                                == state_key@ && table_like(df, state.cache@[st].1);
                        let w = state.cache@[st].1;
                        crate::table::lemma_table_like_sym(df, w);
                        assert(state.cache_maps(state_key@, w) && table_like(w, df));
                        assert(state.serves(state_key@, df));
                    }
                    return Ok(df);
                }
            }
            let ghost pre_scan = *state;
            if !check_table_wf(&source) {
                return Err(ExecError::SchemaError("scanned source is not a valid table".to_owned()));
            }
            let mut df = match with_columns {
                Some(names) => {
                    if names.len() > 0 {
                        source.select_columns(&names)?
                    } else {
                        source
                    }
                },
                None => source,
            };
            if !check_table_wf(&df) {
                return Err(ExecError::SchemaError("projection broke the table".to_owned()));
            }
            if let Some(pred) = &predicate {
                df = filter_table(&df, pred, state)?;
            }
            if let Some(limit) = state.effective_row_limit(stop_after_n_rows) {
                let capped = df.head(limit);
                proof {
                    if capped.cols@.len() > 0 {
                        assert(capped.cols@[0].len_spec() <= limit as int);
                    }
                }
                df = capped;
            }
            if aggregate.len() > 0 {
                if !check_height(&df) {
                    return Err(ExecError::SchemaError("relation is too tall".to_owned()));
                }
                let height = df.height();
                let mut rows: Vec<u32> = Vec::new();
                let mut i: usize = 0;
                while i < height
                    invariant
                        i <= height,
                        height as int <= u32::MAX as int,
                        rows@.len() == i as int,
                        forall|k: int| 0 <= k < i as int ==> (#[trigger] rows@[k] as int) < height as int,
                        forall|k: int| 0 <= k < i as int ==> rows@[k] as int == k,
                    decreases height - i,
                {
                    rows.push(i as u32);
                    i = i + 1;
                }
                if rows.len() == 0 {
                    return Err(
                        ExecError::SchemaError("nothing to pre-aggregate in the scan".to_owned()),
                    );
                }
                let mut groups: Vec<(u32, Vec<u32>)> = Vec::new();
                groups.push((0, rows));
                proof {
                    assert(crate::agg::groups_in_bounds(groups@, df.height_spec()));
                    assert(crate::agg::groups_nonempty(groups@));
                    assert(crate::agg::groups_counts_bounded(groups@));
                }
                let mut agg_cols: Vec<Column> = Vec::new();
                let mut a: usize = 0;
                while a < aggregate.len()
                    invariant
                        a <= aggregate@.len(),
                        df.wf(),
                        df.height_spec() <= u32::MAX as int,
                        crate::agg::groups_in_bounds(groups@, df.height_spec()),
                        crate::agg::groups_nonempty(groups@),
                        crate::agg::groups_counts_bounded(groups@),
                        forall|k: int|
                            0 <= k < agg_cols@.len() ==> (#[trigger] agg_cols@[k]).len_spec() == 1,
                    decreases aggregate@.len() - a,
                {
                    match eval_agg(&aggregate[a], &df, &groups)? {
                        Some(c) => {
                            proof {
                                assert(c.len_spec() == groups@.len());
                            }
                            agg_cols.push(c);
                        },
                        None => {},
                    }
                    a = a + 1;
                }
                df = assemble_groupby_output(Vec::new(), agg_cols, 1)?;
            }
            if cache {
                let stored = df.dup();
                let ghost stored_snap = stored;
                proof {
                    crate::table::lemma_table_like_sym(stored, df);
                    crate::table::lemma_table_like_wf(stored, df);
                }
                state.store_cache(state_key, stored);
                proof {
                    assert(state.cache_maps(state_key@, stored_snap) && table_like(
                        stored_snap,
                        df,
                    ));
                    assert(state.serves(state_key@, df));
                    assert forall|k2: Seq<char>, t2: Table|
                        pre_scan.cache_maps(k2, t2) implies state.cache_maps(k2, t2) by {
                        if k2 == state_key@ {
                            let i = choose|i: int|
                                0 <= i < pre_scan.cache@.len() && (#[trigger] pre_scan.cache@[
                            i]).0@ == state_key@ && pre_scan.cache@[i].1 == t2;
                            assert(pre_scan.cache_has(state_key@));
                            assert(false);
                        }
                    }
                }
            }
            Ok(df)
        },
        Op::DataFrame { df, projection, selection } => {
            let ghost src = df;
            if !check_table_wf(&df) {
                return Err(ExecError::SchemaError("input is not a valid table".to_owned()));
            }
            let mut df = df;
            if let Some(exprs) = &projection {
                df = evaluate_physical_expressions(&df, exprs, state)?;
            }
            let ghost t1 = df;
            proof {
                assert(proj_stage_ok(src, projection, t1));
                if src.wf() && df_arm_ok(src, projection, selection) {
                    assert(sel_ok_cond(t1, selection));
                }
            }
            if let Some(sel) = &selection {
                df = filter_table(&df, sel, state)?;
            }
            let ghost t2 = df;
            proof {
                assert(sel_stage_ok(t1, selection, t2));
            }
            if let Some(limit) = state.effective_row_limit(None) {
                let capped = df.head(limit);
                proof {
                    if capped.cols@.len() > 0 {
                        assert(capped.cols@[0].len_spec() <= limit as int);
                    }
                }
                df = capped;
            }
            proof {
                assert(cap_stage_ok(t2, state.fetch_rows, df));
            }
            Ok(df)
        },
        Op::Filter { predicate, input } => {
            let df = execute(*input, state)?;
            filter_table(&df, &predicate, state)
        },
        Op::Standard { input, exprs } => {
            let df = execute(*input, state)?;
            let out = evaluate_physical_expressions(&df, &exprs, state);
            state.clear_expr_cache();
            proof {
                if out is Ok {
                    assert(epe_result_ok(exprs@, df, out.unwrap()));
                }
            }
            out
        },
        Op::Stack { input, exprs } => {
            let mut df = execute(*input, state)?;
            let ghost src = df;
            let height = df.height();
            let mut k: usize = 0;
            while k < exprs.len()
                invariant
                    k <= exprs@.len(),
                    df.wf(),
                    src.wf(),
                    height as int == src.height_spec(),
                    stack_chain_ok(src, exprs@, k as int, src.height_spec(), df),
                decreases exprs@.len() - k,
            {
                let c0 = eval(&exprs[k], &df, state)?;
                let c = if c0.len() == 1 && height > 1 {
                    let expanded = c0.expand_at_index(height);
                    proof {
                        let p = crate::expr::sem(exprs@[k as int], df).unwrap();
                        assert forall|i: int|
                            0 <= i < height as int implies crate::value::veq(
                            #[trigger] expanded.values@[i],
                            p.1[0],
                        ) by {
                            crate::value::lemma_veq_trans(
                                expanded.values@[i],
                                c0.values@[0],
                                p.1[0],
                            );
                        }
                    }
                    expanded
                } else {
                    c0
                };
                let ghost mid = df;
                let ghost c_snap = c;
                proof {
                    assert(stacked_col_ok(mid, exprs@[k as int], src.height_spec(), c_snap));
                }
                match df.replace_or_add(c) {
                    Ok(_) => {},
                    Err(e) => {
                        return Err(e);
                    },
                }
                proof {
                    assert(replace_shape_ok(mid, c_snap, df));
                    lemma_stack_chain_snoc(
                        src,
                        exprs@,
                        k as int,
                        src.height_spec(),
                        mid,
                        df,
                    );
                }
                k = k + 1;
            }
            state.clear_expr_cache();
            Ok(df)
        },
        Op::GroupBy { input, keys, aggs, apply } => {
            let df = execute(*input, state)?;
            let mut key_cols: Vec<Column> = Vec::new();
            let mut k: usize = 0;
            while k < keys.len()
                invariant
                    k <= keys@.len(),
                    df.wf(),
                decreases keys@.len() - k,
            {
                key_cols.push(eval(&keys[k], &df, state)?);
                k = k + 1;
            }
            match &apply {
                Some(f) => groupby_helper(&df, key_cols, &aggs, Some(f), state),
                None => groupby_helper::<U>(&df, key_cols, &aggs, None, state),
            }
        },
        Op::PartitionGroupBy { input, keys, aggs, n_partitions } => {
            let df = execute(*input, state)?;
            partition_groupby(&df, &keys, &aggs, n_partitions, state)
        },
        Op::Join { input_left, input_right, how, left_on, right_on, parallel: _, n_workers } => {
            let df_left = execute(*input_left, state)?;
            let df_right = execute(*input_right, state)?;
            join_tables(&df_left, &df_right, how, &left_on, &right_on, n_workers, state)
        },
        Op::Slice { input, offset, len } => {
            let df = execute(*input, state)?;
            if (df.height() as u64) > (i64::MAX as u64) {
                return Err(ExecError::SchemaError("relation is too tall to slice".to_owned()));
            }
            Ok(df.slice(offset, len))
        },
        Op::Melt { input, id_vars, value_vars } => {
            let df = execute(*input, state)?;
            let h = df.height();
            if h.checked_mul(value_vars.len()).is_none() {
                return Err(ExecError::SchemaError("melt output is too tall".to_owned()));
            }
            crate::transforms::melt_table(&df, &id_vars, &value_vars)
        },
        Op::Explode { input, columns } => {
            let mut df = execute(*input, state)?;
            let mut k: usize = 0;
            while k < columns.len()
                invariant
                    k <= columns@.len(),
                    df.wf(),
                decreases columns@.len() - k,
            {
                df = crate::transforms::explode_one(&df, &columns[k])?;
                k = k + 1;
            }
            Ok(df)
        },
        Op::Sort { input, by_column, reverse } => {
            let df = execute(*input, state)?;
            if !check_height(&df) {
                return Err(ExecError::SchemaError("relation is too tall to sort".to_owned()));
            }
            crate::transforms::sort_table(&df, &by_column, reverse)
        },
        Op::DropDuplicates { input, maintain_order: _, subset } => {
            let df = execute(*input, state)?;
            if !check_height(&df) {
                return Err(ExecError::SchemaError("relation is too tall".to_owned()));
            }
            let kt = match &subset {
                Some(names) => df.select_columns(names)?,
                None => df.dup(),
            };
            if !check_table_wf(&kt) {
                return Err(ExecError::SchemaError("key selection is not a valid table".to_owned()));
            }
            if kt.height() != df.height() {
                return Err(ExecError::Internal("key selection changed the height".to_owned()));
            }
            let reps = crate::transforms::distinct_row_reps(&kt);
            Ok(df.take_rows(&reps))
        },
        Op::Udf { input, function } => {
            let df = execute(*input, state)?;
            let out = function.call_udf(df)?;
            if !check_table_wf(&out) {
                return Err(ExecError::Internal("user function returned a corrupt table".to_owned()));
            }
            Ok(out)
        },
    }
}

/// The evaluated expression list's output: one column per expression in
/// `epe_col` shape, a well-formed table.
pub open spec fn epe_result_ok(exprs: Seq<Expr>, src: Table, t: Table) -> bool {
    &&& t.wf()
    &&& t.cols@.len() == exprs.len()
    &&& forall|k: int|
        0 <= k < exprs.len() ==> (#[trigger] t.cols@[k]).name@ == epe_col(exprs, src, k).0
    &&& forall|k: int|
        0 <= k < exprs.len() ==> crate::column::seq_veq(
            (#[trigger] t.cols@[k]).values@,
            epe_col(exprs, src, k).1,
        )
}

/// The projection stage of the in-memory operator: the expression list's
/// output, or the table unchanged when no projection is given.
pub open spec fn proj_stage_ok(src: Table, projection: Option<Vec<Expr>>, t1: Table) -> bool {
    match projection {
        Some(exprs) => epe_ok(exprs@, src) && epe_result_ok(exprs@, src, t1),
        None => t1 == src,
    }
}

/// A selection predicate applies to the table: it denotes a boolean/null
/// column of the table's height.
pub open spec fn sel_ok_cond(t: Table, selection: Option<Expr>) -> bool {
    match selection {
        Some(p) => crate::expr::sem(p, t) matches Some(sp) && sp.1.len() == t.height_spec()
            && bool_mask_ok(sp.1),
        None => true,
    }
}

/// The selection stage: the rows the predicate keeps, or the table
/// unchanged when no selection is given.
pub open spec fn sel_stage_ok(t1: Table, selection: Option<Expr>, t2: Table) -> bool {
    match selection {
        Some(p) => crate::expr::sem(p, t1) matches Some(sp) && sp.1.len() == t1.height_spec()
            && bool_mask_ok(sp.1) && t2.wf() && t2.cols@.len() == t1.cols@.len() && (forall|
            c: int,
        |
            0 <= c < t2.cols@.len() ==> (#[trigger] t2.cols@[c]).name@ == t1.cols@[c].name@) && (
        forall|c: int|
            0 <= c < t2.cols@.len() ==> crate::column::seq_veq(
                (#[trigger] t2.cols@[c]).values@,
                crate::table::filtered(t1.cols@[c].values@, mask_of(sp.1)),
            )),
        None => t2 == t1,
    }
}

/// The cap stage: at most the first `limit` rows, or the table unchanged
/// when no limit is active.
pub open spec fn cap_stage_ok(t2: Table, limit: Option<usize>, t: Table) -> bool {
    match limit {
        Some(l) => t.wf() && t.cols@.len() == t2.cols@.len() && (forall|c: int|
            0 <= c < t.cols@.len() ==> (#[trigger] t.cols@[c]).name@ == t2.cols@[c].name@) && (
        forall|c: int|
            0 <= c < t.cols@.len() ==> crate::column::seq_veq(
                (#[trigger] t.cols@[c]).values@,
                t2.cols@[c].values@.subrange(
                    0,
                    crate::table::min_int(l as int, t2.height_spec()),
                ),
            )),
        None => t == t2,
    }
}

/// When the in-memory operator is owed success: the table is valid, the
/// projection (if any) evaluates, and the selection (if any) applies to the
/// projected table.
pub open spec fn df_arm_ok(src: Table, projection: Option<Vec<Expr>>, selection: Option<Expr>) -> bool {
    match projection {
        None => sel_ok_cond(src, selection),
        Some(exprs) => epe_ok(exprs@, src) && (forall|t1: Table|
            #[trigger] epe_result_ok(exprs@, src, t1) ==> sel_ok_cond(t1, selection)),
    }
}

/// One stacking step: the expression's column (broadcast to the height
/// when it is a single row) replaces its namesake or is appended.
pub open spec fn stacked_col_ok(prev: Table, e: Expr, height: int, c: Column) -> bool {
    &&& crate::expr::sem(e, prev) matches Some(p) && c.name@ == p.0 && (if p.1.len() == 1
        && height > 1 {
        c.len_spec() == height && forall|i: int|
            0 <= i < height ==> crate::value::veq(#[trigger] c.values@[i], p.1[0])
    } else {
        crate::column::seq_veq(c.values@, p.1)
    })
}

/// The column lands in the table: replacing the column of its name, or
/// appended when the name is new.
pub open spec fn replace_shape_ok(prev: Table, c: Column, next: Table) -> bool {
    if prev.has_col(c.name@) {
        exists|i: int|
            0 <= i < prev.cols@.len() && (#[trigger] prev.cols@[i]).name@ == c.name@
                && next.cols@ == prev.cols@.update(i, c)
    } else {
        next.cols@ == prev.cols@.push(c)
    }
}

/// One stacking step of the stack operator.
pub open spec fn stack_step_ok(prev: Table, e: Expr, height: int, next: Table) -> bool {
    exists|c: Column| #[trigger] stacked_col_ok(prev, e, height, c) && replace_shape_ok(
        prev,
        c,
        next,
    )
}

/// The first `k` expressions stacked left to right onto `src`, each against
/// the progressively updated table.
pub open spec fn stack_chain_ok(src: Table, exprs: Seq<Expr>, k: int, height: int, t: Table) -> bool
    decreases k,
{
    if k <= 0 {
        t == src
    } else {
        exists|mid: Table|
            stack_chain_ok(src, exprs, k - 1, height, mid) && #[trigger] stack_step_ok(
                mid,
                exprs[k - 1],
                height,
                t,
            )
    }
}

/// Extends a stacking chain by one step.
pub proof fn lemma_stack_chain_snoc(
    src: Table,
    exprs: Seq<Expr>,
    k: int,
    height: int,
    mid: Table,
    t: Table,
)
    requires
        0 <= k < exprs.len(),
        stack_chain_ok(src, exprs, k, height, mid),
        stack_step_ok(mid, exprs[k], height, t),
    ensures
        stack_chain_ok(src, exprs, k + 1, height, t),
{
    let k1 = k + 1;
    assert(stack_chain_ok(src, exprs, k1 - 1, height, mid));
    assert(stack_step_ok(mid, exprs[k1 - 1], height, t));
    assert(stack_chain_ok(src, exprs, k1, height, t)) by {
        assert(stack_chain_ok(src, exprs, k1 - 1, height, mid) && stack_step_ok(
            mid,
            exprs[k1 - 1],
            height,
            t,
        ));
    }
}

/// `chunk` is the `len` rows of `df` starting at `start`, names and order
/// kept.
pub open spec fn slice_of_ok(df: Table, start: int, len: int, chunk: Table) -> bool {
    &&& chunk.wf()
    &&& chunk.cols@.len() == df.cols@.len()
    &&& forall|c: int|
        0 <= c < df.cols@.len() ==> (#[trigger] chunk.cols@[c]).name@ == df.cols@[c].name@
    &&& forall|c: int|
        0 <= c < df.cols@.len() ==> crate::column::seq_veq(
            (#[trigger] chunk.cols@[c]).values@,
            df.cols@[c].values@.subrange(start, start + len),
        )
}

/// The table is a single-pass grouped output of the given slice of `df`.
pub open spec fn partial_of_slice_ok(
    df: Table,
    key: Expr,
    aggs: Seq<AggExpr>,
    start: int,
    len: int,
    part: Table,
) -> bool {
    exists|chunk: Table|
        slice_of_ok(df, start, len, chunk) && #[trigger] keyed_output_shape(
            chunk,
            key,
            aggs,
            part,
        )
}

/// `stacked` is the block-by-block vertical stack of `parts`.
pub open spec fn stacked_of_parts_ok(parts: Seq<Table>, n: int, stacked: Table) -> bool {
    &&& parts.len() == n
    &&& forall|p: int| 0 <= p < n ==> (#[trigger] parts[p]).wf()
    &&& stacked.cols@.len() == parts[0].cols@.len()
    &&& forall|c: int|
        0 <= c < stacked.cols@.len() ==> (#[trigger] stacked.cols@[c]).name@
            == parts[0].cols@[c].name@
    &&& stacked.height_spec() == (if stacked.cols@.len() == 0 {
        0int
    } else {
        crate::table::stack_offset(parts, n)
    })
    &&& forall|p: int, c: int, i: int|
        0 <= p < n && 0 <= c < stacked.cols@.len() && 0 <= i < (
        #[trigger] parts[p]).height_spec() ==> crate::value::veq(
            #[trigger] stacked.cols@[c].values@[crate::table::stack_offset(parts, p) + i],
            parts[p].cols@[c].values@[i],
        )
}

/// The partitioned strategy's result: the input splits into contiguous
/// slices covering every row; each slice is grouped and partially
/// aggregated on its own (a single-pass grouped output of the slice); the
/// partials are stacked block by block; and the result is the grouped
/// output of the merge forms over that stack.
pub open spec fn partitioned_output_ok(
    df: Table,
    key: Expr,
    aggs: Seq<AggExpr>,
    n_partitions: int,
    t: Table,
) -> bool {
    exists|lens: Seq<usize>, parts: Seq<Table>, stacked: Table|
        {
            &&& lens.len() == n_partitions
            &&& n_partitions >= 1
            &&& #[trigger] crate::join::sum_lens(lens, n_partitions) == df.height_spec()
            &&& forall|p: int|
                0 <= p < n_partitions ==> #[trigger] partial_of_slice_ok(
                    df,
                    key,
                    aggs,
                    crate::join::sum_lens(lens, p),
                    lens[p] as int,
                    parts[p],
                )
            &&& #[trigger] stacked_of_parts_ok(parts, n_partitions, stacked)
            &&& keyed_output_shape(stacked, key, merge_aggs_spec(aggs), t)
        }
}

/// When the partitioned strategy is owed success: the key is a present
/// column, every aggregation can reduce its (present) column, and no output
/// name collides with another or with the key — conditions every slice
/// inherits, so no partial can fail.
pub open spec fn part_gb_ok(df: Table, key: Expr, aggs: Seq<AggExpr>) -> bool {
    &&& key matches Expr::Col(n) && df.has_col(n@)
    &&& df.height_spec() <= u32::MAX as int
    &&& forall|k: int| 0 <= k < aggs.len() ==> agg_keeps(df, #[trigger] aggs[k])
    &&& forall|k1: int, k2: int|
        0 <= k1 < k2 < aggs.len() ==> aggs[k1].out_name@ != aggs[k2].out_name@
    &&& key matches Expr::Col(n) ==> (forall|k: int|
        0 <= k < aggs.len() ==> n@ != (#[trigger] aggs[k]).out_name@)
}

/// A grouping has at most as many groups as rows: the representatives
/// increase strictly below the limit.
proof fn lemma_groups_count_bound(gs: Seq<(u32, Vec<u32>)>, kt: Table, limit: int)
    requires
        crate::groupby::groups_ok(gs, kt, limit),
        limit >= 0,
    ensures
        gs.len() <= limit,
{
    if gs.len() > limit {
        lemma_reps_at_least(gs, limit as int);
        assert(crate::agg::groups_in_bounds(gs, limit));
        assert((gs[limit as int].1@[0] as int) < limit);
        assert(gs[limit as int].0 == gs[limit as int].1@[0]);
        assert(false);
    }
}

proof fn lemma_reps_at_least(gs: Seq<(u32, Vec<u32>)>, g: int)
    requires
        forall|g1: int, g2: int| 0 <= g1 < g2 < gs.len() ==> (#[trigger] gs[g1]).0 < (
        #[trigger] gs[g2]).0,
        0 <= g < gs.len(),
    ensures
        gs[g].0 as int >= g,
    decreases g,
{
    if g > 0 {
        lemma_reps_at_least(gs, g - 1);
    }
}

/// When every aggregation is kept, positions and indices coincide.
proof fn lemma_all_keep_positions(aggs: Seq<AggExpr>, df: Table, k: int)
    requires
        0 <= k <= aggs.len(),
        forall|k2: int| 0 <= k2 < aggs.len() ==> agg_keeps(df, #[trigger] aggs[k2]),
    ensures
        kept_before(aggs, df, k) == k,
    decreases k,
{
    if k > 0 {
        lemma_all_keep_positions(aggs, df, k - 1);
    }
}

/// Structurally equal values keep the integer-or-null shape.
proof fn lemma_int_or_null_like(a: Seq<Value>, b: Seq<Value>)
    requires
        crate::column::seq_veq(a, b),
        crate::agg::all_int_or_null(b),
    ensures
        crate::agg::all_int_or_null(a),
{
    assert forall|i: int| 0 <= i < a.len() implies (#[trigger] a[i]) is Int || a[i] is Null by {
        assert(crate::value::veq(a[i], b[i]));
        assert(b[i] is Int || b[i] is Null);
    }
}

/// A subrange keeps the integer-or-null shape.
proof fn lemma_int_or_null_subrange(b: Seq<Value>, start: int, end: int)
    requires
        crate::agg::all_int_or_null(b),
        0 <= start <= end <= b.len(),
    ensures
        crate::agg::all_int_or_null(b.subrange(start, end)),
{
    assert forall|i: int| 0 <= i < end - start implies ((#[trigger] b.subrange(start, end)[i])
        is Int || b.subrange(start, end)[i] is Null) by {
        assert(b.subrange(start, end)[i] == b[start + i]);
    }
}

/// The merge-phase forms of the requested aggregations: each reads the
/// column its partition-local form wrote, merges with the merge operation,
/// and keeps the originally requested output name.
pub open spec fn merge_aggs_spec(aggs: Seq<AggExpr>) -> Seq<AggExpr> {
    Seq::new(
        aggs.len(),
        |k: int|
            AggExpr {
                op: crate::agg::merge_op_spec(aggs[k].op),
                col: aggs[k].out_name,
                out_name: aggs[k].out_name,
            },
    )
}

/// The adaptive decision: a dictionary-encoded key whose distinct-value
/// count is too large a share of the rows (or too large to compare safely)
/// sends execution to the single pass.
pub open spec fn falls_back(df: Table, key: Expr) -> bool {
    match crate::expr::sem_cat(key, df) {
        Some(rv) => {
            let d = rv.cats().len() as int;
            let n = crate::expr::sem(key, df).unwrap().1.len() as int;
            ||| d > (usize::MAX / PARTITION_FRACTION_DEN) as int
            ||| n > (usize::MAX / PARTITION_FRACTION_DEN) as int
            ||| PARTITION_FRACTION_DEN * d > PARTITION_FRACTION_NUM * n
        },
        None => false,
    }
}

/// When a single-key grouped aggregation succeeds: the key denotes a column
/// of the input's height, every aggregation names a present column, and no
/// kept output name collides with another or with the key.
pub open spec fn gb1_ok(df: Table, key: Expr, aggs: Seq<AggExpr>) -> bool {
    &&& crate::expr::sem(key, df) is Some
    &&& crate::expr::sem(key, df).unwrap().1.len() == df.height_spec()
    &&& df.height_spec() <= u32::MAX as int
    &&& forall|k: int| 0 <= k < aggs.len() ==> df.has_col((#[trigger] aggs[k]).col@)
    &&& forall|k1: int, k2: int|
        0 <= k1 < k2 < aggs.len() && agg_keeps(df, #[trigger] aggs[k1]) && agg_keeps(
            df,
            #[trigger] aggs[k2],
        ) ==> aggs[k1].out_name@ != aggs[k2].out_name@
    &&& forall|k: int|
        0 <= k < aggs.len() && agg_keeps(df, #[trigger] aggs[k]) ==> crate::expr::sem(
            key,
            df,
        ).unwrap().0 != aggs[k].out_name@
}

/// The result is a grouped-output over the single evaluated key: some key
/// table denoting the key expression, and some grouping of it, shape the
/// table.
pub open spec fn keyed_output_shape(df: Table, key: Expr, aggs: Seq<AggExpr>, t: Table) -> bool {
    exists|kt: Table, gs: Seq<(u32, Vec<u32>)>|
        {
            &&& kt.cols@.len() == 1
            &&& crate::expr::sem(key, df) matches Some(p) && kt.cols@[0].name@ == p.0
                && crate::column::seq_veq(kt.cols@[0].values@, p.1)
            &&& #[trigger] grouped_output_ok(df, kt, aggs, gs, t)
        }
}

/// A one-column key table denoting the key makes the single-pass success
/// condition and the single-key one coincide.
proof fn lemma_gb1_equiv(df: Table, key: Expr, kt: Table, aggs: Seq<AggExpr>)
    requires
        kt.cols@.len() == 1,
        crate::expr::sem(key, df) is Some,
        kt.cols@[0].name@ == crate::expr::sem(key, df).unwrap().0,
        kt.cols@[0].len_spec() == crate::expr::sem(key, df).unwrap().1.len(),
    ensures
        gb_ok(df, kt, aggs) == gb1_ok(df, key, aggs),
{
    assert(kt.wf());
    assert(kt.height_spec() == kt.cols@[0].len_spec());
    assert forall|c: int, k: int|
        0 <= c < kt.cols@.len() && 0 <= k < aggs.len() && agg_keeps(
            df,
            #[trigger] aggs[k],
        ) && crate::expr::sem(key, df).unwrap().0 != aggs[k].out_name@ implies (
    #[trigger] kt.cols@[c]).name@ != aggs[k].out_name@ by {
        assert(c == 0);
    }
}

/// Reduces every aggregation over the groups, keeping the columns that can
/// be produced and silently dropping the rest — an absent column is
/// dropped too, as the merge pass requires.
#[verifier::spinoff_prover]
#[verifier::loop_isolation(false)]
#[verifier::rlimit(60)]
fn collect_agg_columns_lenient(
    df: &Table,
    aggs: &Vec<AggExpr>,
    groups: &Vec<(u32, Vec<u32>)>,
) -> (cols: Vec<Column>)
    requires
        df.wf(),
        df.height_spec() <= u32::MAX as int,
        crate::agg::groups_in_bounds(groups@, df.height_spec()),
        crate::agg::groups_nonempty(groups@),
        crate::agg::groups_counts_bounded(groups@),
    ensures
        cols@.len() == kept_before(aggs@, *df, aggs@.len() as int),
        forall|i: int| 0 <= i < cols@.len() ==> (#[trigger] cols@[i]).len_spec() == groups@.len(),
        forall|k: int|
            0 <= k < aggs@.len() && agg_keeps(*df, #[trigger] aggs@[k]) ==> cols@[kept_before(
                aggs@,
                *df,
                k,
            )].name@ == aggs@[k].out_name@ && (forall|g2: int|
                0 <= g2 < groups@.len() ==> crate::value::veq(
                    #[trigger] cols@[kept_before(aggs@, *df, k)].values@[g2],
                    crate::agg::agg_value(aggs@[k].op, agg_src_vals(*df, aggs@[k]), groups@[g2].1@),
                )),
{
    let mut agg_cols: Vec<Column> = Vec::new();
    let mut a: usize = 0;
    while a < aggs.len()
        invariant
            a <= aggs@.len(),
            forall|k: int|
                0 <= k < agg_cols@.len() ==> (#[trigger] agg_cols@[k]).len_spec()
                    == groups@.len(),
            agg_cols@.len() == kept_before(aggs@, *df, a as int),
            forall|k: int|
                0 <= k < a as int && agg_keeps(*df, #[trigger] aggs@[k]) ==> agg_cols@[
                    kept_before(aggs@, *df, k)].name@ == aggs@[k].out_name@ && (forall|g2: int|
                    0 <= g2 < groups@.len() ==> crate::value::veq(
                        #[trigger] agg_cols@[kept_before(aggs@, *df, k)].values@[g2],
                        crate::agg::agg_value(
                            aggs@[k].op,
                            agg_src_vals(*df, aggs@[k]),
                            groups@[g2].1@,
                        ),
                    )),
        decreases aggs@.len() - a,
    {
        match eval_agg(&aggs[a], df, groups) {
            Err(_) => {
                proof {
                    assert(!df.has_col(aggs@[a as int].col@));
                    assert(!agg_keeps(*df, aggs@[a as int]));
                }
            },
            Ok(Some(c)) => {
                let ghost c_snap = c;
                let ghost prev = agg_cols@;
                let ghost pos = agg_cols@.len();
                agg_cols.push(c);
                proof {
                    assert(agg_keeps(*df, aggs@[a as int]));
                    assert(kept_before(aggs@, *df, a as int + 1) == kept_before(
                        aggs@,
                        *df,
                        a as int,
                    ) + 1);
                    assert(agg_cols@[pos as int] == c_snap);
                    assert forall|k: int|
                        0 <= k < a as int + 1 && agg_keeps(
                            *df,
                            #[trigger] aggs@[k],
                        ) implies agg_cols@[kept_before(aggs@, *df, k)].name@ == aggs@[
                    k].out_name@ && (forall|g2: int|
                        0 <= g2 < groups@.len() ==> crate::value::veq(
                            #[trigger] agg_cols@[kept_before(aggs@, *df, k)].values@[g2],
                            crate::agg::agg_value(
                                aggs@[k].op,
                                agg_src_vals(*df, aggs@[k]),
                                groups@[g2].1@,
                            ),
                        )) by {
                        if k < a as int {
                            lemma_kept_mono(aggs@, *df, k, a as int);
                            lemma_kept_nonneg(aggs@, *df, 0, k);
                            let p = kept_before(aggs@, *df, k);
                            assert(agg_cols@[p] == prev[p]);
                            assert forall|g2: int|
                                0 <= g2 < groups@.len() implies crate::value::veq(
                                #[trigger] agg_cols@[p].values@[g2],
                                crate::agg::agg_value(
                                    aggs@[k].op,
                                    agg_src_vals(*df, aggs@[k]),
                                    groups@[g2].1@,
                                ),
                            ) by {
                                assert(crate::value::veq(
                                    prev[p].values@[g2],
                                    crate::agg::agg_value(
                                        aggs@[k].op,
                                        agg_src_vals(*df, aggs@[k]),
                                        groups@[g2].1@,
                                    ),
                                ));
                            }
                        } else {
                            assert forall|g2: int|
                                0 <= g2 < groups@.len() implies crate::value::veq(
                                #[trigger] agg_cols@[pos as int].values@[g2],
                                crate::agg::agg_value(
                                    aggs@[a as int].op,
                                    agg_src_vals(*df, aggs@[a as int]),
                                    groups@[g2].1@,
                                ),
                            ) by {
                                assert(crate::value::veq(
                                    c_snap.values@[g2],
                                    crate::agg::agg_value(
                                        aggs@[a as int].op,
                                        agg_src_vals(*df, aggs@[a as int]),
                                        groups@[g2].1@,
                                    ),
                                ));
                            }
                        }
                    }
                }
            },
            Ok(None) => {
                proof {
                    assert(!agg_keeps(*df, aggs@[a as int]));
                }
            },
        }
        a = a + 1;
    }
    agg_cols
}

/// Stacked partial heights never exceed the partition lengths' sum.
proof fn lemma_stack_le_sum(parts: Seq<Table>, lens: Seq<usize>, k: int)
    requires
        0 <= k <= parts.len(),
        k <= lens.len(),
        forall|p: int| 0 <= p < k ==> (#[trigger] parts[p]).height_spec() <= lens[p] as int,
    ensures
        crate::table::stack_offset(parts, k) <= crate::join::sum_lens(lens, k),
    decreases k,
{
    if k > 0 {
        lemma_stack_le_sum(parts, lens, k - 1);
    }
}

/// Under the partitioned success conditions, every contiguous slice admits
/// the single-pass aggregation with its one-column key table.
#[verifier::spinoff_prover]
#[verifier::rlimit(100)]
proof fn lemma_chunk_gb_ok(
    df: Table,
    key: Expr,
    aggs: Seq<AggExpr>,
    start: int,
    len: int,
    chunk: Table,
    ktp: Table,
)
    requires
        df.wf(),
        part_gb_ok(df, key, aggs),
        slice_of_ok(df, start, len, chunk),
        0 <= start,
        0 <= len,
        start + len <= df.height_spec(),
        df.height_spec() <= u32::MAX as int,
        ktp.cols@.len() == 1,
        crate::expr::sem(key, chunk) is Some,
        ktp.cols@[0].name@ == crate::expr::sem(key, chunk).unwrap().0,
        ktp.cols@[0].len_spec() == crate::expr::sem(key, chunk).unwrap().1.len(),
    ensures
        gb_ok(chunk, ktp, aggs),
        forall|k: int| 0 <= k < aggs.len() ==> agg_keeps(chunk, #[trigger] aggs[k]),
{
    let nm = key->Col_0;
    assert(df.has_col(nm@));
    let ci = crate::expr::col_ix(df, nm@);
    assert(0 <= ci < df.cols@.len() && df.cols@[ci].name@ == nm@);
    assert(chunk.cols@[ci].name@ == nm@);
    assert(chunk.has_col(nm@));
    let cci = crate::expr::col_ix(chunk, nm@);
    assert(0 <= cci < chunk.cols@.len() && chunk.cols@[cci].name@ == nm@);
    assert(crate::expr::sem(key, chunk).unwrap().0 == nm@);
    assert(crate::expr::sem(key, chunk).unwrap().1 == chunk.cols@[cci].values@);
    assert(ktp.wf());
    assert(chunk.cols@.len() > 0);
    assert(ktp.height_spec() == chunk.height_spec()) by {
        assert(chunk.cols@[cci].len_spec() == chunk.height_spec());
    }
    assert(chunk.height_spec() <= u32::MAX as int) by {
        assert(crate::column::seq_veq(
            chunk.cols@[0].values@,
            df.cols@[0].values@.subrange(start, start + len),
        ));
        assert(df.cols@[0].len_spec() == df.height_spec());
        assert(chunk.cols@[0].values@.len() == len);
    }
    assert forall|k: int| 0 <= k < aggs.len() implies agg_keeps(chunk, #[trigger] aggs[k]) by {
        assert(agg_keeps(df, aggs[k]));
        let ai = crate::expr::col_ix(df, aggs[k].col@);
        assert(0 <= ai < df.cols@.len() && df.cols@[ai].name@ == aggs[k].col@);
        assert(chunk.cols@[ai].name@ == aggs[k].col@);
        assert(chunk.has_col(aggs[k].col@));
        let aci = crate::expr::col_ix(chunk, aggs[k].col@);
        assert(0 <= aci < chunk.cols@.len() && chunk.cols@[aci].name@ == aggs[k].col@);
        assert(aci == ai) by {
            if aci != ai {
                assert(chunk.cols@[aci].name@ == chunk.cols@[ai].name@);
            }
        }
        assert(df.cols@[ai].len_spec() == df.height_spec());
        match aggs[k].op {
            crate::agg::AggOp::Sum | crate::agg::AggOp::Min | crate::agg::AggOp::Max => {
                assert(crate::agg::all_int_or_null(df.cols@[ai].values@));
                lemma_int_or_null_subrange(df.cols@[ai].values@, start, start + len);
                lemma_int_or_null_like(
                    chunk.cols@[ai].values@,
                    df.cols@[ai].values@.subrange(start, start + len),
                );
            },
            _ => {},
        }
    }
    assert forall|k: int| 0 <= k < aggs.len() implies df.has_col((#[trigger] aggs[k]).col@) by {
        assert(agg_keeps(df, aggs[k]));
    }
    assert(gb_names_ok(chunk, ktp, aggs)) by {
        assert forall|c: int, k: int|
            0 <= c < ktp.cols@.len() && 0 <= k < aggs.len() && agg_keeps(
                chunk,
                #[trigger] aggs[k],
            ) implies (#[trigger] ktp.cols@[c]).name@ != aggs[k].out_name@ by {
            assert(c == 0);
            assert(ktp.cols@[0].name@ == nm@);
        }
    }
}

/// Under the same conditions, every partial output carries the key column
/// then one column per aggregation, no taller than its slice.
#[verifier::spinoff_prover]
#[verifier::rlimit(100)]
proof fn lemma_partial_schema(chunk: Table, key: Expr, aggs: Seq<AggExpr>, part: Table, len: int)
    requires
        key is Col,
        chunk.wf(),
        keyed_output_shape(chunk, key, aggs, part),
        forall|k: int| 0 <= k < aggs.len() ==> agg_keeps(chunk, #[trigger] aggs[k]),
        chunk.height_spec() <= len,
    ensures
        part.cols@.len() == 1 + aggs.len(),
        part.cols@[0].name@ == key->Col_0@,
        forall|k: int|
            0 <= k < aggs.len() ==> part.cols@[1 + k].name@ == (#[trigger] aggs[k]).out_name@,
        part.height_spec() <= len,
        part.wf(),
{
    let (kt, gs) = choose|kt: Table, gs: Seq<(u32, Vec<u32>)>|
        kt.cols@.len() == 1 && (crate::expr::sem(key, chunk) matches Some(p2) && kt.cols@[0].name@
            == p2.0 && crate::column::seq_veq(kt.cols@[0].values@, p2.1))
            && #[trigger] grouped_output_ok(chunk, kt, aggs, gs, part);
    lemma_all_keep_positions(aggs, chunk, aggs.len() as int);
    assert(part.cols@.len() == 1 + aggs.len());
    let nm = key->Col_0;
    assert(crate::expr::sem(key, chunk).unwrap().0 == nm@);
    assert(part.cols@[0].name@ == kt.cols@[0].name@);
    assert forall|k: int| 0 <= k < aggs.len() implies part.cols@[1 + k].name@ == (
    #[trigger] aggs[k]).out_name@ by {
        lemma_all_keep_positions(aggs, chunk, k);
        assert(part.cols@[kt.cols@.len() + kept_before(aggs, chunk, k)].name@
            == aggs[k].out_name@);
    }
    assert(part.height_spec() <= len) by {
        assert(part.height_spec() == gs.len() as int);
        assert(kt.height_spec() == kt.cols@[0].len_spec());
        assert(kt.cols@[0].len_spec() == crate::expr::sem(key, chunk).unwrap().1.len());
        assert(crate::expr::sem(key, chunk).unwrap().1.len() == chunk.height_spec()) by {
            assert(chunk.has_col(nm@));
            let cci = crate::expr::col_ix(chunk, nm@);
            assert(0 <= cci < chunk.cols@.len() && chunk.cols@[cci].name@ == nm@);
            assert(chunk.cols@[cci].len_spec() == chunk.height_spec());
            assert(crate::expr::sem(key, chunk).unwrap().1 == chunk.cols@[cci].values@);
        }
        lemma_groups_count_bound(gs, kt, kt.height_spec());
    }
}

/// The adaptive two-phase aggregation. When the sole key is dictionary
/// encoded and its distinct-value share of the rows exceeds the threshold
/// (three tenths), the single pass wins and is used instead, with its full
/// guarantee. Otherwise the input splits into row-contiguous partitions,
/// each is grouped and partially aggregated on its own, the partials are
/// stacked, and one final group-and-merge pass combines partitions that
/// share a key under the originally requested output names: the result is
/// then a grouped-output of the merge forms over the stacked partials.
#[verifier::spinoff_prover]
#[verifier::loop_isolation(false)]
#[verifier::rlimit(100)]
pub fn partition_groupby(
    df: &Table,
    keys: &Vec<Expr>,
    aggs: &Vec<AggExpr>,
    n_partitions: usize,
    state: &ExecutionState,
) -> (r: Result<Table, ExecError>)
    requires
        df.wf(),
    ensures
        r matches Ok(t) ==> t.wf(),
        keys@.len() != 1 ==> r is Err,
        keys@.len() == 1 && n_partitions >= 1 && falls_back(*df, keys@[0]) ==> (r is Ok
            <==> gb1_ok(*df, keys@[0], aggs@)),
        keys@.len() == 1 && falls_back(*df, keys@[0]) ==> (r matches Ok(t)
            ==> keyed_output_shape(*df, keys@[0], aggs@, t)),
        keys@.len() == 1 && !falls_back(*df, keys@[0]) ==> (r matches Ok(t)
            ==> partitioned_output_ok(*df, keys@[0], aggs@, n_partitions as int, t)),
        keys@.len() == 1 && n_partitions >= 1 && !falls_back(*df, keys@[0]) && part_gb_ok(
            *df,
            keys@[0],
            aggs@,
        ) ==> r is Ok,
{
    if keys.len() != 1 {
        return Err(
            ExecError::Internal("partitioned grouping expects a single key expression".to_owned()),
        );
    }
    if n_partitions == 0 {
        return Err(ExecError::Internal("no partitions to aggregate over".to_owned()));
    }
    let key_col = eval(&keys[0], df, state)?;
    // the last-minute strategy decision: a dictionary-encoded key with too
    // many distinct values makes partition-and-merge pointless
    let mut fall_back: bool = false;
    if let Some(rev) = &key_col.cat {
        let distinct = rev.len();
        let n = key_col.len();
        if distinct > usize::MAX / PARTITION_FRACTION_DEN || n > usize::MAX
            / PARTITION_FRACTION_DEN {
            fall_back = true;
        } else if PARTITION_FRACTION_DEN * distinct > PARTITION_FRACTION_NUM * n {
            fall_back = true;
        }
    }
    proof {
        let kc = key_col;
        match (kc.cat, crate::expr::sem_cat(keys@[0], *df)) {
            (Some(x), Some(y)) => {
                crate::categorical::lemma_rev_like_props(x, y);
            },
            _ => {},
        }
        assert(fall_back == falls_back(*df, keys@[0]));
    }
    if fall_back {
        let ghost key_snap = key_col;
        let mut key_cols: Vec<Column> = Vec::new();
        key_cols.push(key_col);
        let kt = Table::new_no_checks(key_cols);
        proof {
            assert(kt.cols@.len() == 1 && kt.cols@[0] == key_snap);
            lemma_gb1_equiv(*df, keys@[0], kt, aggs@);
        }
        let r = groupby_single_pass(df, kt, aggs);
        proof {
            if r is Ok {
                let t = r.unwrap();
                let gs = choose|gs: Seq<(u32, Vec<u32>)>|
                    grouped_output_ok(*df, kt, aggs@, gs, t);
                assert(keyed_output_shape(*df, keys@[0], aggs@, t));
            }
        }
        return r;
    }
    let ghost pre = part_gb_ok(*df, keys@[0], aggs@);
    if !check_height(df) {
        return Err(ExecError::SchemaError("relation is too tall".to_owned()));
    }
    // first phase: split, group and partially aggregate each partition
    let height = df.height();
    let lens = crate::join::partition_lens(height, n_partitions);
    let offsets = crate::join::get_offsets(&lens);
    let mut parts: Vec<Table> = Vec::new();
    let mut p: usize = 0;
    while p < n_partitions
        invariant
            p <= n_partitions,
            df.wf(),
            pre == part_gb_ok(*df, keys@[0], aggs@),
            keys@.len() == 1,
            height as int == df.height_spec(),
            height as int <= u32::MAX as int,
            lens@.len() == n_partitions as int,
            offsets@.len() == n_partitions as int,
            crate::join::sum_lens(lens@, n_partitions as int) == height as int,
            forall|k: int|
                0 <= k < n_partitions as int ==> offsets@[k] as int == crate::join::sum_lens(
                    lens@,
                    k,
                ),
            parts@.len() == p as int,
            forall|k: int| 0 <= k < parts@.len() ==> (#[trigger] parts@[k]).wf(),
            forall|k: int|
                0 <= k < parts@.len() ==> #[trigger] partial_of_slice_ok(
                    *df,
                    keys@[0],
                    aggs@,
                    crate::join::sum_lens(lens@, k),
                    lens@[k] as int,
                    parts@[k],
                ),
            pre ==> forall|k: int|
                0 <= k < parts@.len() ==> (#[trigger] parts@[k]).cols@.len() == 1 + aggs@.len()
                    && parts@[k].cols@[0].name@ == (keys@[0])->Col_0@ && (forall|k2: int|
                    0 <= k2 < aggs@.len() ==> parts@[k].cols@[1 + k2].name@ == (
                    #[trigger] aggs@[k2]).out_name@) && parts@[k].height_spec()
                    <= lens@[k] as int,
        decreases n_partitions - p,
    {
        proof {
            crate::join::lemma_sum_lens_mono(lens@, 0, p as int);
            crate::join::lemma_sum_lens_mono(lens@, p as int + 1, n_partitions as int);
        }
        let chunk = df.slice_range(offsets[p], lens[p]);
        proof {
            assert(slice_of_ok(
                *df,
                crate::join::sum_lens(lens@, p as int),
                lens@[p as int] as int,
                chunk,
            ));
            if pre {
                let nm = (keys@[0])->Col_0;
                let ci = crate::expr::col_ix(*df, nm@);
                assert(0 <= ci < df.cols@.len() && df.cols@[ci].name@ == nm@);
                assert(chunk.cols@[ci].name@ == nm@);
                assert(chunk.has_col(nm@));
                assert(crate::expr::sem(keys@[0], chunk) is Some);
            }
        }
        let kc = eval(&keys[0], &chunk, state)?;
        let ghost kc_snap = kc;
        let mut key_cols: Vec<Column> = Vec::new();
        key_cols.push(kc);
        let ktp = Table::new_no_checks(key_cols);
        proof {
            assert(ktp.cols@.len() == 1 && ktp.cols@[0] == kc_snap);
            if pre {
                lemma_chunk_gb_ok(
                    *df,
                    keys@[0],
                    aggs@,
                    crate::join::sum_lens(lens@, p as int),
                    lens@[p as int] as int,
                    chunk,
                    ktp,
                );
            }
        }
        let part = groupby_single_pass(&chunk, ktp, aggs)?;
        proof {
            let gs = choose|gs: Seq<(u32, Vec<u32>)>|
                grouped_output_ok(chunk, ktp, aggs@, gs, part);
            assert(keyed_output_shape(chunk, keys@[0], aggs@, part));
            assert(partial_of_slice_ok(
                *df,
                keys@[0],
                aggs@,
                crate::join::sum_lens(lens@, p as int),
                lens@[p as int] as int,
                part,
            ));
            if pre {
                assert(chunk.height_spec() <= lens@[p as int] as int) by {
                    let nm = (keys@[0])->Col_0;
                    let ci = crate::expr::col_ix(*df, nm@);
                    assert(crate::column::seq_veq(
                        chunk.cols@[ci].values@,
                        df.cols@[ci].values@.subrange(
                            crate::join::sum_lens(lens@, p as int),
                            crate::join::sum_lens(lens@, p as int) + lens@[p as int] as int,
                        ),
                    ));
                    assert(df.cols@[ci].len_spec() == df.height_spec());
                    assert(chunk.cols@[ci].len_spec() == chunk.height_spec());
                }
                lemma_partial_schema(chunk, keys@[0], aggs@, part, lens@[p as int] as int);
            }
        }
        parts.push(part);
        p = p + 1;
    }
    proof {
        if pre {
            lemma_stack_le_sum(parts@, lens@, n_partitions as int);
        }
    }
    if !check_stack_bound(&parts) {
        return Err(ExecError::SchemaError("stacked partials are too tall".to_owned()));
    }
    proof {
        if pre && n_partitions >= 1 {
            assert forall|k: int|
                0 <= k < parts@.len() implies crate::table::schema_eq(
                #[trigger] parts@[k],
                parts@[0],
            ) by {
                assert(parts@[k].cols@.len() == 1 + aggs@.len());
                assert(parts@[0].cols@.len() == 1 + aggs@.len());
                assert forall|c: int|
                    0 <= c < parts@[k].cols@.len() implies (#[trigger] parts@[k].cols@[c]).name@
                    == parts@[0].cols@[c].name@ by {
                    if c == 0 {
                    } else {
                        assert(parts@[k].cols@[1 + (c - 1)].name@ == aggs@[c - 1].out_name@);
                        assert(parts@[0].cols@[1 + (c - 1)].name@ == aggs@[c - 1].out_name@);
                    }
                }
            }
        }
    }
    let stacked = concat_tables(&parts)?;
    // second phase: group the stacked partials again and merge with each
    // aggregation's merge form, under the originally requested names
    proof {
        if pre {
            let nm = (keys@[0])->Col_0;
            assert(stacked.cols@[0].name@ == parts@[0].cols@[0].name@);
            assert(stacked.has_col(nm@));
            assert(crate::expr::sem(keys@[0], stacked) is Some);
        }
    }
    let key_col2 = eval(&keys[0], &stacked, state)?;
    let ghost key2_snap = key_col2;
    let mut key_cols2: Vec<Column> = Vec::new();
    key_cols2.push(key_col2);
    let kt2 = Table::new_no_checks(key_cols2);
    proof {
        assert(kt2.cols@.len() == 1 && kt2.cols@[0] == key2_snap);
        assert(kt2.wf());
        if pre {
            let nm = (keys@[0])->Col_0;
            let sci = crate::expr::col_ix(stacked, nm@);
            assert(0 <= sci < stacked.cols@.len() && stacked.cols@[sci].name@ == nm@);
            assert(stacked.cols@[sci].len_spec() == stacked.height_spec());
            assert(kt2.height_spec() == stacked.height_spec());
            assert(stacked.height_spec() <= height as int) by {
                assert(stacked.height_spec() == crate::table::stack_offset(
                    parts@,
                    parts@.len() as int,
                ));
            }
        }
    }
    if kt2.height() != stacked.height() || !check_height(&kt2) {
        return Err(ExecError::SchemaError("group keys do not fit the table".to_owned()));
    }
    let groups = groups_of(&kt2);
    let mut reps: Vec<u32> = Vec::new();
    let mut g: usize = 0;
    while g < groups.len()
        invariant
            g <= groups@.len(),
            crate::groupby::groups_ok(groups@, kt2, kt2.height_spec()),
            reps@.len() == g as int,
            forall|k: int| 0 <= k < g as int ==> (#[trigger] reps@[k] as int) < kt2.height_spec(),
            forall|k: int| 0 <= k < g as int ==> (#[trigger] reps@[k]) == groups@[k].0,
        decreases groups@.len() - g,
    {
        proof {
            assert(groups@[g as int].1@[0] == groups@[g as int].0);
        }
        reps.push(groups[g].0);
        g = g + 1;
    }
    let key_out = kt2.take_rows(&reps);
    let mut merged: Vec<AggExpr> = Vec::new();
    let mut a: usize = 0;
    while a < aggs.len()
        invariant
            a <= aggs@.len(),
            merged@.len() == a as int,
            forall|k: int| 0 <= k < a as int ==> merged@[k] == merge_aggs_spec(aggs@)[k],
        decreases aggs@.len() - a,
    {
        let m = AggExpr {
            op: merge_op(aggs[a].op),
            col: aggs[a].out_name.clone(),
            out_name: aggs[a].out_name.clone(),
        };
        merged.push(m);
        a = a + 1;
    }
    proof {
        assert(merged@ =~= merge_aggs_spec(aggs@));
    }
    let agg_cols = collect_agg_columns_lenient(&stacked, &merged, &groups);
    let ghost key_snap2 = key_out.cols@;
    let ghost agg_snap2 = agg_cols@;
    proof {
        if pre {
            assert(gb_names_ok(stacked, kt2, merged@)) by {
                let nm = (keys@[0])->Col_0;
                assert forall|k1: int, k2: int|
                    0 <= k1 < k2 < merged@.len() && agg_keeps(stacked, #[trigger] merged@[k1])
                        && agg_keeps(stacked, #[trigger] merged@[k2]) implies merged@[
                k1].out_name@ != merged@[k2].out_name@ by {
                    assert(merged@[k1].out_name == aggs@[k1].out_name);
                    assert(merged@[k2].out_name == aggs@[k2].out_name);
                }
                assert forall|c: int, k: int|
                    0 <= c < kt2.cols@.len() && 0 <= k < merged@.len() && agg_keeps(
                        stacked,
                        #[trigger] merged@[k],
                    ) implies (#[trigger] kt2.cols@[c]).name@ != merged@[k].out_name@ by {
                    assert(c == 0);
                    assert(kt2.cols@[0].name@ == nm@);
                    assert(merged@[k].out_name == aggs@[k].out_name);
                }
            }
            lemma_gb_names_fwd(stacked, kt2, merged@, key_out.cols@, agg_cols@);
        }
    }
    let n_groups = groups.len();
    let r = assemble_groupby_output(key_out.cols, agg_cols, n_groups);
    proof {
        if r is Ok {
            let t = r.unwrap();
            lemma_grouped_output(
                stacked,
                kt2,
                merged@,
                groups@,
                reps@,
                key_snap2,
                agg_snap2,
                t,
            );
            assert(keyed_output_shape(stacked, keys@[0], merge_aggs_spec(aggs@), t));
            assert(stacked_of_parts_ok(parts@, n_partitions as int, stacked));
            assert(partitioned_output_ok(*df, keys@[0], aggs@, n_partitions as int, t));
        }
    }
    r
}

/// A key selection with distinct key names over a well-formed table is a
/// well-formed table of the same height.
proof fn lemma_key_table_wf(df: Table, on: Seq<Expr>, kt: Table)
    requires
        df.wf(),
        on.len() >= 1,
        key_sel_ok(df, on, kt),
        forall|k1: int, k2: int|
            0 <= k1 < k2 < on.len() ==> (#[trigger] crate::expr::sem(on[k1], df)).unwrap().0 != (
            #[trigger] crate::expr::sem(on[k2], df)).unwrap().0,
    ensures
        kt.wf(),
        kt.height_spec() == df.height_spec(),
{
    assert forall|k: int| 0 <= k < kt.cols@.len() implies (#[trigger] kt.cols@[k]).len_spec()
        == df.height_spec() by {
        let c = choose|c: int|
            0 <= c < df.cols@.len() && (#[trigger] kt.cols@[k]).name@ == (
            #[trigger] df.cols@[c]).name@ && crate::column::seq_veq(
                kt.cols@[k].values@,
                df.cols@[c].values@,
            );
    }
}

/// The key table a join side selects: one column per key expression, named
/// by the expression's result and holding the table's column of that name.
pub open spec fn key_sel_ok(df: Table, on: Seq<Expr>, kt: Table) -> bool {
    &&& kt.cols@.len() == on.len()
    &&& forall|k: int| 0 <= k < on.len() ==> (#[trigger] crate::expr::sem(on[k], df)) is Some
    &&& forall|k: int|
        0 <= k < on.len() ==> (#[trigger] kt.cols@[k]).name@ == crate::expr::sem(
            on[k],
            df,
        ).unwrap().0
    &&& forall|k: int| 0 <= k < on.len() ==> exists|c: int|
        0 <= c < df.cols@.len() && (#[trigger] kt.cols@[k]).name@ == (
        #[trigger] df.cols@[c]).name@ && crate::column::seq_veq(
            kt.cols@[k].values@,
            df.cols@[c].values@,
        )
}

/// Exactly the matching row pairs, each once: sound, complete and
/// duplicate-free over the two key tables.
pub open spec fn inner_pairs_ok(lk: Table, rk: Table, pairs: Seq<(u32, u32)>) -> bool {
    &&& forall|m: int|
        0 <= m < pairs.len() ==> ((#[trigger] pairs[m]).0 as int) < lk.height_spec() && (
        pairs[m].1 as int) < rk.height_spec() && crate::join::rows_match(
            lk,
            pairs[m].0 as int,
            rk,
            pairs[m].1 as int,
        )
    &&& forall|i: int, j: int|
        0 <= i < lk.height_spec() && 0 <= j < rk.height_spec() && #[trigger] crate::join::rows_match(
            lk,
            i,
            rk,
            j,
        ) ==> exists|m: int| 0 <= m < pairs.len() && #[trigger] pairs[m] == (i as u32, j as u32)
    &&& forall|m1: int, m2: int| 0 <= m1 < m2 < pairs.len() ==> pairs[m1] != pairs[m2]
}

/// The gathered join output: the left table's columns taken at the pairs'
/// left rows, then the right table's non-key columns taken at the right
/// rows (null where the right row is absent).
pub open spec fn join_gather_ok(
    df_left: Table,
    df_right: Table,
    right_on: Seq<Expr>,
    lrows: Seq<u32>,
    rrows: Seq<Option<u32>>,
    t: Table,
) -> bool {
    &&& t.wf()
    &&& rrows.len() == lrows.len()
    &&& t.cols@.len() >= df_left.cols@.len()
    &&& t.height_spec() == (if t.cols@.len() == 0 {
        0int
    } else {
        lrows.len() as int
    })
    &&& forall|c: int|
        0 <= c < df_left.cols@.len() ==> (#[trigger] t.cols@[c]).name@ == df_left.cols@[c].name@
    &&& forall|c: int, m: int|
        0 <= c < df_left.cols@.len() && 0 <= m < lrows.len() ==> crate::value::veq(
            #[trigger] t.cols@[c].values@[m],
            df_left.cols@[c].values@[lrows[m] as int],
        )
    &&& forall|c: int|
        df_left.cols@.len() <= c < t.cols@.len() ==> exists|rc: int|
            0 <= rc < df_right.cols@.len() && (#[trigger] t.cols@[c]).name@ == (
            #[trigger] df_right.cols@[rc]).name@ && (forall|m: int|
                0 <= m < rrows.len() ==> crate::value::veq(
                    t.cols@[c].values@[m],
                    match rrows[m] {
                        Some(x) => df_right.cols@[rc].values@[x as int],
                        None => Value::Null,
                    },
                ))
    &&& forall|c: int, j: int|
        df_left.cols@.len() <= c < t.cols@.len() && 0 <= j < right_on.len() ==> (
        #[trigger] t.cols@[c]).name@ != (#[trigger] crate::expr::sem(
            right_on[j],
            df_right,
        )).unwrap().0
}

/// What the left-join kernel promises of its pairs over the whole probe
/// range: sound pairs only, every match listed, every non-match listed once
/// with an absent side, every probe row listed, no duplicates.
pub open spec fn left_join_pairs_ok(lk: Table, rk: Table, pairs: Seq<(u32, Option<u32>)>) -> bool {
    &&& forall|m: int|
        0 <= m < pairs.len() ==> ((#[trigger] pairs[m]).0 as int) < lk.height_spec()
            && match pairs[m].1 {
            Some(j) => (j as int) < rk.height_spec() && crate::join::rows_match(
                lk,
                pairs[m].0 as int,
                rk,
                j as int,
            ),
            None => forall|j: int|
                0 <= j < rk.height_spec() ==> !crate::join::rows_match(lk, pairs[m].0 as int, rk, j),
        }
    &&& forall|i: int, j: int|
        0 <= i < lk.height_spec() && 0 <= j < rk.height_spec() && #[trigger] crate::join::rows_match(
            lk,
            i,
            rk,
            j,
        ) ==> crate::join::has_lpair(pairs, i, j)
    &&& forall|i: int|
        0 <= i < lk.height_spec() && (forall|j: int|
            0 <= j < rk.height_spec() ==> !crate::join::rows_match(lk, i, rk, j))
            ==> #[trigger] crate::join::has_none_pair(pairs, i)
    &&& forall|i: int| 0 <= i < lk.height_spec() ==> #[trigger] crate::join::probe_listed(pairs, i)
    &&& forall|m1: int, m2: int| 0 <= m1 < m2 < pairs.len() ==> pairs[m1] != pairs[m2]
}

/// When a join is owed success: the key expressions pair up and name
/// present columns, the key names are distinct on each side, both sides fit
/// 32-bit rows, and no kept right column shares a name with a left column.
pub open spec fn join_ok(
    df_left: Table,
    df_right: Table,
    left_on: Seq<Expr>,
    right_on: Seq<Expr>,
) -> bool {
    &&& left_on.len() == right_on.len()
    &&& left_on.len() >= 1
    &&& df_left.height_spec() <= u32::MAX as int
    &&& df_right.height_spec() <= u32::MAX as int
    &&& forall|k: int|
        0 <= k < left_on.len() ==> (#[trigger] crate::expr::sem(left_on[k], df_left)) is Some
            && df_left.has_col(crate::expr::sem(left_on[k], df_left).unwrap().0)
    &&& forall|k: int|
        0 <= k < right_on.len() ==> (#[trigger] crate::expr::sem(right_on[k], df_right)) is Some
            && df_right.has_col(crate::expr::sem(right_on[k], df_right).unwrap().0)
    &&& forall|k1: int, k2: int|
        0 <= k1 < k2 < left_on.len() ==> (#[trigger] crate::expr::sem(
            left_on[k1],
            df_left,
        )).unwrap().0 != (#[trigger] crate::expr::sem(left_on[k2], df_left)).unwrap().0
    &&& forall|k1: int, k2: int|
        0 <= k1 < k2 < right_on.len() ==> (#[trigger] crate::expr::sem(
            right_on[k1],
            df_right,
        )).unwrap().0 != (#[trigger] crate::expr::sem(right_on[k2], df_right)).unwrap().0
    &&& forall|lc: int, rc: int|
        0 <= lc < df_left.cols@.len() && 0 <= rc < df_right.cols@.len() && (forall|j: int|
            0 <= j < right_on.len() ==> (#[trigger] df_right.cols@[rc]).name@
                != crate::expr::sem(right_on[j], df_right).unwrap().0) ==> (
        #[trigger] df_left.cols@[lc]).name@ != df_right.cols@[rc].name@
}

/// Realizes a join of two tables over evaluated key expressions: the key
/// columns name the join keys, the kernel computes the matching row pairs
/// (building on the smaller side for an inner join), and the result gathers
/// the left rows beside the right rows minus the join keys. On the inputs
/// `join_ok` admits, success is owed; an inner-join success is exactly the
/// matching pairs of some key selection, a left-join success lists every
/// left row, non-matches once with nulls.
#[verifier::spinoff_prover]
#[verifier::loop_isolation(false)]
#[verifier::rlimit(100)]
pub fn join_tables(
    df_left: &Table,
    df_right: &Table,
    how: JoinType,
    left_on: &Vec<Expr>,
    right_on: &Vec<Expr>,
    n_workers: usize,
    state: &ExecutionState,
) -> (r: Result<Table, ExecError>)
    requires
        df_left.wf(),
        df_right.wf(),
    ensures
        r matches Ok(t) ==> t.wf(),
        left_on@.len() != right_on@.len() || left_on@.len() == 0 ==> r is Err,
        n_workers >= 1 && join_ok(*df_left, *df_right, left_on@, right_on@) ==> r is Ok,
        how is Inner ==> (r matches Ok(t) ==> exists|
            lk: Table,
            rk: Table,
            pairs: Seq<(u32, u32)>,
            lrows: Seq<u32>,
            rrows: Seq<Option<u32>>,
        |
            {
                &&& key_sel_ok(*df_left, left_on@, lk)
                &&& key_sel_ok(*df_right, right_on@, rk)
                &&& #[trigger] inner_pairs_ok(lk, rk, pairs)
                &&& lrows.len() == pairs.len()
                &&& forall|m: int| 0 <= m < pairs.len() ==> (#[trigger] lrows[m]) == pairs[m].0
                &&& forall|m: int| 0 <= m < pairs.len() ==> (#[trigger] rrows[m]) == Some(
                    pairs[m].1,
                )
                &&& #[trigger] join_gather_ok(*df_left, *df_right, right_on@, lrows, rrows, t)
            }),
        how is Left ==> (r matches Ok(t) ==> exists|
            lk: Table,
            rk: Table,
            pairs: Seq<(u32, Option<u32>)>,
            lrows: Seq<u32>,
            rrows: Seq<Option<u32>>,
        |
            {
                &&& key_sel_ok(*df_left, left_on@, lk)
                &&& key_sel_ok(*df_right, right_on@, rk)
                &&& #[trigger] left_join_pairs_ok(lk, rk, pairs)
                &&& lrows.len() == pairs.len()
                &&& forall|m: int| 0 <= m < pairs.len() ==> (#[trigger] lrows[m]) == pairs[m].0
                &&& forall|m: int| 0 <= m < pairs.len() ==> (#[trigger] rrows[m]) == pairs[m].1
                &&& #[trigger] join_gather_ok(*df_left, *df_right, right_on@, lrows, rrows, t)
            }),
{
    if left_on.len() != right_on.len() || left_on.len() == 0 {
        return Err(ExecError::SchemaError("join keys do not pair up".to_owned()));
    }
    if n_workers == 0 {
        return Err(ExecError::Internal("no workers for the join".to_owned()));
    }
    if !check_height(df_left) || !check_height(df_right) {
        return Err(ExecError::SchemaError("relation is too tall to join".to_owned()));
    }
    let mut left_names: Vec<String> = Vec::new();
    let mut k: usize = 0;
    while k < left_on.len()
        invariant
            k <= left_on@.len(),
            df_left.wf(),
            left_names@.len() == k as int,
            forall|m: int|
                0 <= m < k as int ==> (#[trigger] crate::expr::sem(left_on@[m], *df_left)) is Some,
            forall|m: int|
                0 <= m < k as int ==> (#[trigger] left_names@[m])@ == crate::expr::sem(
                    left_on@[m],
                    *df_left,
                ).unwrap().0,
        decreases left_on@.len() - k,
    {
        let c = eval(&left_on[k], df_left, state)?;
        left_names.push(c.name);
        k = k + 1;
    }
    let mut right_names: Vec<String> = Vec::new();
    let mut k2: usize = 0;
    while k2 < right_on.len()
        invariant
            k2 <= right_on@.len(),
            df_right.wf(),
            right_names@.len() == k2 as int,
            forall|m: int|
                0 <= m < k2 as int ==> (#[trigger] crate::expr::sem(
                    right_on@[m],
                    *df_right,
                )) is Some,
            forall|m: int|
                0 <= m < k2 as int ==> (#[trigger] right_names@[m])@ == crate::expr::sem(
                    right_on@[m],
                    *df_right,
                ).unwrap().0,
        decreases right_on@.len() - k2,
    {
        let c = eval(&right_on[k2], df_right, state)?;
        right_names.push(c.name);
        k2 = k2 + 1;
    }
    let lk = df_left.select_columns(&left_names)?;
    let rk = df_right.select_columns(&right_names)?;
    proof {
        assert(key_sel_ok(*df_left, left_on@, lk));
        assert(key_sel_ok(*df_right, right_on@, rk));
        if join_ok(*df_left, *df_right, left_on@, right_on@) {
            lemma_key_table_wf(*df_left, left_on@, lk);
            lemma_key_table_wf(*df_right, right_on@, rk);
        }
    }
    if !check_table_wf(&lk) || !check_table_wf(&rk) {
        return Err(ExecError::SchemaError("join keys do not form valid tables".to_owned()));
    }
    if lk.height() != df_left.height() || rk.height() != df_right.height() {
        return Err(ExecError::SchemaError("join keys do not fit their tables".to_owned()));
    }
    let rt_cols_src = drop_columns(df_right, &right_names);
    let rkept = Table { cols: rt_cols_src };
    proof {
        assert(rkept.wf());
        assert(rkept.cols@.len() > 0 ==> rkept.height_spec() == df_right.height_spec());
        if join_ok(*df_left, *df_right, left_on@, right_on@) {
            assert forall|lc: int, rc: int|
                0 <= lc < df_left.cols@.len() && 0 <= rc < rkept.cols@.len() implies (
            #[trigger] df_left.cols@[lc]).name@ != (#[trigger] rkept.cols@[rc]).name@ by {
                let c2 = choose|c2: int|
                    0 <= c2 < df_right.cols@.len() && (#[trigger] rkept.cols@[rc]).name@ == (
                    #[trigger] df_right.cols@[c2]).name@ && crate::column::seq_veq(
                        rkept.cols@[rc].values@,
                        df_right.cols@[c2].values@,
                    );
                assert forall|j: int|
                    0 <= j < right_on@.len() implies (#[trigger] df_right.cols@[c2]).name@
                    != crate::expr::sem(right_on@[j], *df_right).unwrap().0 by {
                    assert(rkept.cols@[rc].name@ != right_names@[j]@);
                }
                assert(df_left.cols@[lc].name@ != df_right.cols@[c2].name@);
            }
        }
    }
    match how {
        JoinType::Inner => {
            // build on the smaller side
            let (pairs, probe_is_left) = if rk.height() <= lk.height() {
                (inner_join_multiple_keys(&lk, &rk, false, n_workers), true)
            } else {
                (inner_join_multiple_keys(&rk, &lk, true, n_workers), false)
            };
            proof {
                assert(inner_pairs_ok(lk, rk, pairs@)) by {
                    if probe_is_left {
                        assert forall|i: int, j: int|
                            0 <= i < lk.height_spec() && 0 <= j < rk.height_spec()
                                && #[trigger] crate::join::rows_match(lk, i, rk, j) implies exists|
                            m: int,
                        |
                            0 <= m < pairs@.len() && #[trigger] pairs@[m] == (
                            i as u32,
                            j as u32,
                        ) by {
                            assert(crate::join::has_pair(pairs@, false, i, j));
                            let m = choose|m: int|
                                0 <= m < pairs@.len() && crate::join::probe_of(
                                    #[trigger] pairs@[m],
                                    false,
                                ) == i && crate::join::build_of(pairs@[m], false) == j;
                            assert(pairs@[m] == (i as u32, j as u32));
                        }
                    } else {
                        assert forall|m: int|
                            0 <= m < pairs@.len() implies ((#[trigger] pairs@[m]).0 as int)
                            < lk.height_spec() && (pairs@[m].1 as int) < rk.height_spec()
                            && crate::join::rows_match(
                            lk,
                            pairs@[m].0 as int,
                            rk,
                            pairs@[m].1 as int,
                        ) by {
                            assert(crate::join::rows_match(
                                rk,
                                crate::join::probe_of(pairs@[m], true) as int,
                                lk,
                                crate::join::build_of(pairs@[m], true) as int,
                            ));
                            crate::join::lemma_rows_match_sym(
                                rk,
                                pairs@[m].1 as int,
                                lk,
                                pairs@[m].0 as int,
                            );
                        }
                        assert forall|i: int, j: int|
                            0 <= i < lk.height_spec() && 0 <= j < rk.height_spec()
                                && #[trigger] crate::join::rows_match(lk, i, rk, j) implies exists|
                            m: int,
                        |
                            0 <= m < pairs@.len() && #[trigger] pairs@[m] == (
                            i as u32,
                            j as u32,
                        ) by {
                            crate::join::lemma_rows_match_sym(lk, i, rk, j);
                            assert(crate::join::has_pair(pairs@, true, j, i));
                            let m = choose|m: int|
                                0 <= m < pairs@.len() && crate::join::probe_of(
                                    #[trigger] pairs@[m],
                                    true,
                                ) == j && crate::join::build_of(pairs@[m], true) == i;
                            assert(pairs@[m] == (i as u32, j as u32));
                        }
                    }
                }
            }
            let mut left_rows: Vec<u32> = Vec::new();
            let mut right_rows: Vec<Option<u32>> = Vec::new();
            let mut i: usize = 0;
            while i < pairs.len()
                invariant
                    i <= pairs@.len(),
                    inner_pairs_ok(lk, rk, pairs@),
                    lk.height_spec() == df_left.height_spec(),
                    rk.height_spec() == df_right.height_spec(),
                    left_rows@.len() == i as int,
                    right_rows@.len() == i as int,
                    forall|m: int| 0 <= m < i as int ==> (#[trigger] left_rows@[m]) == pairs@[m].0,
                    forall|m: int|
                        0 <= m < i as int ==> (#[trigger] right_rows@[m]) == Some(pairs@[m].1),
                decreases pairs@.len() - i,
            {
                let (a, b) = pairs[i];
                left_rows.push(a);
                right_rows.push(Some(b));
                i = i + 1;
            }
            let out = gather_join_output(df_left, df_right, &rkept, &left_rows, &right_rows)?;
            proof {
                assert(join_gather_ok(
                    *df_left,
                    *df_right,
                    right_on@,
                    left_rows@,
                    right_rows@,
                    out,
                )) by {
                    lemma_gather_names(
                        *df_left,
                        *df_right,
                        right_on@,
                        right_names@,
                        rkept,
                        left_rows@,
                        right_rows@,
                        out,
                    );
                }
            }
            Ok(out)
        },
        JoinType::Left => {
            let pairs = left_join_multiple_keys(&lk, &rk, n_workers);
            let mut left_rows: Vec<u32> = Vec::new();
            let mut right_rows: Vec<Option<u32>> = Vec::new();
            let mut i: usize = 0;
            while i < pairs.len()
                invariant
                    i <= pairs@.len(),
                    lk.height_spec() == df_left.height_spec(),
                    rk.height_spec() == df_right.height_spec(),
                    left_join_pairs_ok(lk, rk, pairs@),
                    left_rows@.len() == i as int,
                    right_rows@.len() == i as int,
                    forall|m: int| 0 <= m < i as int ==> (#[trigger] left_rows@[m]) == pairs@[m].0,
                    forall|m: int| 0 <= m < i as int ==> (#[trigger] right_rows@[m]) == pairs@[m].1,
                decreases pairs@.len() - i,
            {
                let (a, b) = pairs[i];
                left_rows.push(a);
                right_rows.push(b);
                i = i + 1;
            }
            let out = gather_join_output(df_left, df_right, &rkept, &left_rows, &right_rows)?;
            proof {
                assert(join_gather_ok(
                    *df_left,
                    *df_right,
                    right_on@,
                    left_rows@,
                    right_rows@,
                    out,
                )) by {
                    lemma_gather_names(
                        *df_left,
                        *df_right,
                        right_on@,
                        right_names@,
                        rkept,
                        left_rows@,
                        right_rows@,
                        out,
                    );
                }
            }
            Ok(out)
        },
    }
}

/// Gathers the join output: the left table's columns at the left rows, then
/// the kept right columns at the right rows, nulls where absent. Fails only
/// on a name collision between the two halves.
#[verifier::spinoff_prover]
#[verifier::loop_isolation(false)]
#[verifier::rlimit(100)]
fn gather_join_output(
    df_left: &Table,
    df_right: &Table,
    rkept: &Table,
    left_rows: &Vec<u32>,
    right_rows: &Vec<Option<u32>>,
) -> (r: Result<Table, ExecError>)
    requires
        df_left.wf(),
        df_right.wf(),
        rkept.wf(),
        rkept.cols@.len() > 0 ==> rkept.height_spec() == df_right.height_spec(),
        right_rows@.len() == left_rows@.len(),
        forall|m: int|
            0 <= m < left_rows@.len() ==> ((#[trigger] left_rows@[m]) as int)
                < df_left.height_spec(),
        forall|m: int|
            0 <= m < right_rows@.len() ==> ((#[trigger] right_rows@[m]) matches Some(x) ==> (
            x as int) < df_right.height_spec()),
        forall|k: int| 0 <= k < rkept.cols@.len() ==> exists|c: int|
            0 <= c < df_right.cols@.len() && (#[trigger] rkept.cols@[k]).name@ == (
            #[trigger] df_right.cols@[c]).name@ && crate::column::seq_veq(
                rkept.cols@[k].values@,
                df_right.cols@[c].values@,
            ),
    ensures
        r matches Ok(t) ==> {
            &&& t.wf()
            &&& t.cols@.len() == df_left.cols@.len() + rkept.cols@.len()
            &&& t.height_spec() == (if t.cols@.len() == 0 {
                0int
            } else {
                left_rows@.len() as int
            })
            &&& forall|c: int|
                0 <= c < df_left.cols@.len() ==> (#[trigger] t.cols@[c]).name@
                    == df_left.cols@[c].name@
            &&& forall|c: int, m: int|
                0 <= c < df_left.cols@.len() && 0 <= m < left_rows@.len() ==> crate::value::veq(
                    #[trigger] t.cols@[c].values@[m],
                    df_left.cols@[c].values@[left_rows@[m] as int],
                )
            &&& forall|c: int|
                df_left.cols@.len() <= c < t.cols@.len() ==> (#[trigger] t.cols@[c]).name@
                    == rkept.cols@[c - df_left.cols@.len()].name@
            &&& forall|c: int, m: int|
                df_left.cols@.len() <= c < t.cols@.len() && 0 <= m
                    < right_rows@.len() ==> crate::value::veq(
                    #[trigger] t.cols@[c].values@[m],
                    match right_rows@[m] {
                        Some(x) => rkept.cols@[c - df_left.cols@.len()].values@[x as int],
                        None => Value::Null,
                    },
                )
        },
        r is Ok <==> (forall|lc: int, rc: int|
            0 <= lc < df_left.cols@.len() && 0 <= rc < rkept.cols@.len() ==> (
            #[trigger] df_left.cols@[lc]).name@ != (#[trigger] rkept.cols@[rc]).name@),
{
    let lt = df_left.take_rows(left_rows);
    let rt = if rkept.cols.len() == 0 {
        Table::empty()
    } else {
        rkept.take_opt_rows(right_rows)
    };
    let ghost lt_snap = lt;
    let ghost rt_snap = rt;
    let mut cols = lt.cols;
    let mut rcols = rt.cols;
    cols.append(&mut rcols);
    let t = Table { cols };
    proof {
        assert(t.cols@ == lt_snap.cols@ + rt_snap.cols@);
        assert forall|c: int| 0 <= c < t.cols@.len() implies (#[trigger] t.cols@[c]).len_spec()
            == left_rows@.len() as int by {
            if c < lt_snap.cols@.len() {
                assert(t.cols@[c] == lt_snap.cols@[c]);
            } else {
                assert(t.cols@[c] == rt_snap.cols@[c - lt_snap.cols@.len()]);
            }
        }
    }
    if !check_table_wf(&t) {
        proof {
            assert(!(forall|lc: int, rc: int|
                0 <= lc < df_left.cols@.len() && 0 <= rc < rkept.cols@.len() ==> (
                #[trigger] df_left.cols@[lc]).name@ != (#[trigger] rkept.cols@[rc]).name@)) by {
                if (forall|lc: int, rc: int|
                    0 <= lc < df_left.cols@.len() && 0 <= rc < rkept.cols@.len() ==> (
                    #[trigger] df_left.cols@[lc]).name@ != (#[trigger] rkept.cols@[rc]).name@) {
                    assert forall|i: int, j: int|
                        0 <= i < j < t.cols@.len() implies t.cols@[i].name@ != t.cols@[
                    j].name@ by {
                        let lw = lt_snap.cols@.len() as int;
                        if j < lw {
                            assert(t.cols@[i].name@ == df_left.cols@[i].name@);
                            assert(t.cols@[j].name@ == df_left.cols@[j].name@);
                        } else if i < lw {
                            assert(t.cols@[i].name@ == df_left.cols@[i].name@);
                            assert(t.cols@[j].name@ == rkept.cols@[j - lw].name@);
                        } else {
                            assert(t.cols@[i].name@ == rkept.cols@[i - lw].name@);
                            assert(t.cols@[j].name@ == rkept.cols@[j - lw].name@);
                        }
                    }
                    assert(t.wf());
                    assert(false);
                }
            }
        }
        return Err(
            ExecError::SchemaError("joined tables share a non-key column name".to_owned()),
        );
    }
    proof {
        assert forall|lc: int, rc: int|
            0 <= lc < df_left.cols@.len() && 0 <= rc < rkept.cols@.len() implies (
        #[trigger] df_left.cols@[lc]).name@ != (#[trigger] rkept.cols@[rc]).name@ by {
            let lw = lt_snap.cols@.len() as int;
            assert(t.cols@[lc].name@ == df_left.cols@[lc].name@);
            assert(t.cols@[lw + rc].name@ == rkept.cols@[rc].name@);
            assert(t.cols@[lc].name@ != t.cols@[lw + rc].name@);
        }
    }
    Ok(t)
}

/// Transfers the gathered output's right-half facts from the kept columns
/// to the right table they came from.
#[verifier::spinoff_prover]
#[verifier::rlimit(100)]
proof fn lemma_gather_names(
    df_left: Table,
    df_right: Table,
    right_on: Seq<Expr>,
    right_names: Seq<String>,
    rkept: Table,
    lrows: Seq<u32>,
    rrows: Seq<Option<u32>>,
    t: Table,
)
    requires
        t.wf(),
        df_right.wf(),
        forall|m: int|
            0 <= m < rrows.len() ==> ((#[trigger] rrows[m]) matches Some(x) ==> (x as int)
                < df_right.height_spec()),
        rrows.len() == lrows.len(),
        right_names.len() == right_on.len(),
        forall|m: int|
            0 <= m < right_on.len() ==> (#[trigger] crate::expr::sem(
                right_on[m],
                df_right,
            )) is Some,
        forall|m: int|
            0 <= m < right_on.len() ==> (#[trigger] right_names[m])@ == crate::expr::sem(
                right_on[m],
                df_right,
            ).unwrap().0,
        forall|k: int, j: int|
            0 <= k < rkept.cols@.len() && 0 <= j < right_names.len() ==> (
            #[trigger] rkept.cols@[k]).name@ != (#[trigger] right_names[j])@,
        forall|k: int| 0 <= k < rkept.cols@.len() ==> exists|c: int|
            0 <= c < df_right.cols@.len() && (#[trigger] rkept.cols@[k]).name@ == (
            #[trigger] df_right.cols@[c]).name@ && crate::column::seq_veq(
                rkept.cols@[k].values@,
                df_right.cols@[c].values@,
            ),
        t.cols@.len() == df_left.cols@.len() + rkept.cols@.len(),
        t.height_spec() == (if t.cols@.len() == 0 {
            0int
        } else {
            lrows.len() as int
        }),
        forall|c: int|
            0 <= c < df_left.cols@.len() ==> (#[trigger] t.cols@[c]).name@
                == df_left.cols@[c].name@,
        forall|c: int, m: int|
            0 <= c < df_left.cols@.len() && 0 <= m < lrows.len() ==> crate::value::veq(
                #[trigger] t.cols@[c].values@[m],
                df_left.cols@[c].values@[lrows[m] as int],
            ),
        forall|c: int|
            df_left.cols@.len() <= c < t.cols@.len() ==> (#[trigger] t.cols@[c]).name@
                == rkept.cols@[c - df_left.cols@.len()].name@,
        forall|c: int, m: int|
            df_left.cols@.len() <= c < t.cols@.len() && 0 <= m < rrows.len()
                ==> crate::value::veq(
                #[trigger] t.cols@[c].values@[m],
                match rrows[m] {
                    Some(x) => rkept.cols@[c - df_left.cols@.len()].values@[x as int],
                    None => Value::Null,
                },
            ),
    ensures
        join_gather_ok(df_left, df_right, right_on, lrows, rrows, t),
{
    assert forall|c: int| df_left.cols@.len() <= c < t.cols@.len() implies exists|rc: int|
        0 <= rc < df_right.cols@.len() && (#[trigger] t.cols@[c]).name@ == (
        #[trigger] df_right.cols@[rc]).name@ && (forall|m: int|
            0 <= m < rrows.len() ==> crate::value::veq(
                t.cols@[c].values@[m],
                match rrows[m] {
                    Some(x) => df_right.cols@[rc].values@[x as int],
                    None => Value::Null,
                },
            )) by {
        let k = c - df_left.cols@.len();
        let rc = choose|rc: int|
            0 <= rc < df_right.cols@.len() && (#[trigger] rkept.cols@[k]).name@ == (
            #[trigger] df_right.cols@[rc]).name@ && crate::column::seq_veq(
                rkept.cols@[k].values@,
                df_right.cols@[rc].values@,
            );
        assert forall|m: int| 0 <= m < rrows.len() implies crate::value::veq(
            t.cols@[c].values@[m],
            match rrows[m] {
                Some(x) => df_right.cols@[rc].values@[x as int],
                None => Value::Null,
            },
        ) by {
            match rrows[m] {
                Some(x) => {
                    assert(crate::value::veq(
                        t.cols@[c].values@[m],
                        rkept.cols@[k].values@[x as int],
                    ));
                    assert(crate::value::veq(
                        rkept.cols@[k].values@[x as int],
                        df_right.cols@[rc].values@[x as int],
                    ));
                    crate::value::lemma_veq_trans(
                        t.cols@[c].values@[m],
                        rkept.cols@[k].values@[x as int],
                        df_right.cols@[rc].values@[x as int],
                    );
                },
                None => {
                    assert(crate::value::veq(t.cols@[c].values@[m], Value::Null));
                },
            }
        }
    }
    assert forall|c: int, j: int|
        df_left.cols@.len() <= c < t.cols@.len() && 0 <= j < right_on.len() implies (
    #[trigger] t.cols@[c]).name@ != (#[trigger] crate::expr::sem(
        right_on[j],
        df_right,
    )).unwrap().0 by {
        let k = c - df_left.cols@.len();
        assert(rkept.cols@[k].name@ != right_names[j]@);
    }
}

} // verus!

