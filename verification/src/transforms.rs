//! Single-table transformations behind the corresponding operators: melt
//! (unpivot), explode of a list column, a stable sort by one column, and
//! first-occurrence deduplication.

use vstd::prelude::*;
use vstd::string::StrSliceExecFns;
use crate::column::Column;
use crate::error::ExecError;
use crate::groupby::{groups_of, keys_eq};
use crate::table::Table;
use crate::value::{veq, Scalar, Value};

verus! {

/// All named columns exist and the id names can stand beside the two melt
/// columns: when a melt succeeds.
pub open spec fn melt_ok(df: Table, id_vars: Seq<String>, value_vars: Seq<String>) -> bool {
    &&& forall|k: int| 0 <= k < id_vars.len() ==> df.has_col((#[trigger] id_vars[k])@)
    &&& forall|k: int| 0 <= k < value_vars.len() ==> df.has_col((#[trigger] value_vars[k])@)
    &&& forall|i: int, j: int| 0 <= i < j < id_vars.len() ==> id_vars[i]@ != id_vars[j]@
    &&& forall|k: int| 0 <= k < id_vars.len() ==> (#[trigger] id_vars[k])@ != "variable"@
    &&& forall|k: int| 0 <= k < id_vars.len() ==> (#[trigger] id_vars[k])@ != "value"@
}

/// Unpivots: for each value variable, a block of the table's rows with the
/// id columns repeated, a `variable` column naming the value variable, and
/// a `value` column carrying its values. Succeeds exactly when every named
/// column exists and no id name collides.
#[verifier::spinoff_prover]
#[verifier::loop_isolation(false)]
#[verifier::rlimit(100)]
pub fn melt_table(df: &Table, id_vars: &Vec<String>, value_vars: &Vec<String>) -> (r: Result<
    Table,
    ExecError,
>)
    requires
        df.wf(),
        df.height_spec() * value_vars@.len() <= usize::MAX as int,
    ensures
        r is Ok <==> melt_ok(*df, id_vars@, value_vars@),
        r matches Ok(t) ==> {
            &&& t.wf()
            &&& t.cols@.len() == id_vars@.len() + 2
            &&& t.height_spec() == (df.height_spec() * value_vars@.len())
            &&& forall|c: int|
                0 <= c < id_vars@.len() ==> (#[trigger] t.cols@[c]).name@ == id_vars@[c]@
            &&& t.cols@[id_vars@.len() as int].name@ == "variable"@
            &&& t.cols@[id_vars@.len() as int + 1].name@ == "value"@
            &&& forall|c: int, b: int, i: int|
                0 <= c < id_vars@.len() && 0 <= b < value_vars@.len() && 0 <= i
                    < df.height_spec() ==> crate::value::veq(
                    #[trigger] t.cols@[c].values@[b * df.height_spec() + i],
                    df.cols@[crate::expr::col_ix(*df, id_vars@[c]@)].values@[i],
                )
            &&& forall|b: int, i: int|
                0 <= b < value_vars@.len() && 0 <= i < df.height_spec() ==> ((#[trigger] t.cols@[
                id_vars@.len() as int].values@[b * df.height_spec() + i]) matches Value::Str(s)
                    && s@ == value_vars@[b]@)
            &&& forall|b: int, i: int|
                0 <= b < value_vars@.len() && 0 <= i < df.height_spec() ==> crate::value::veq(
                    #[trigger] t.cols@[id_vars@.len() as int + 1].values@[b * df.height_spec()
                        + i],
                    df.cols@[crate::expr::col_ix(*df, value_vars@[b]@)].values@[i],
                )
        },
{
    let height = df.height();
    // gather the id columns and the value columns up front, so a missing
    // name fails before anything is built
    let id_tbl = match df.select_columns(id_vars) {
        Ok(t) => t,
        Err(e) => {
            return Err(e);
        },
    };
    let val_tbl = match df.select_columns(value_vars) {
        Ok(t) => t,
        Err(e) => {
            return Err(e);
        },
    };
    proof {
        assert forall|k: int| 0 <= k < id_vars@.len() implies crate::column::seq_veq(
            (#[trigger] id_tbl.cols@[k]).values@,
            df.cols@[crate::expr::col_ix(*df, id_vars@[k]@)].values@,
        ) by {
            let c = choose|c: int|
                0 <= c < df.cols@.len() && (#[trigger] df.cols@[c]).name@ == id_vars@[k]@
                    && crate::column::seq_veq(id_tbl.cols@[k].values@, df.cols@[c].values@);
            let ix = crate::expr::col_ix(*df, id_vars@[k]@);
            assert(0 <= ix < df.cols@.len() && df.cols@[ix].name@ == id_vars@[k]@);
            assert(c == ix);
        }
        assert forall|k: int| 0 <= k < value_vars@.len() implies crate::column::seq_veq(
            (#[trigger] val_tbl.cols@[k]).values@,
            df.cols@[crate::expr::col_ix(*df, value_vars@[k]@)].values@,
        ) by {
            let c = choose|c: int|
                0 <= c < df.cols@.len() && (#[trigger] df.cols@[c]).name@ == value_vars@[k]@
                    && crate::column::seq_veq(val_tbl.cols@[k].values@, df.cols@[c].values@);
            let ix = crate::expr::col_ix(*df, value_vars@[k]@);
            assert(0 <= ix < df.cols@.len() && df.cols@[ix].name@ == value_vars@[k]@);
            assert(c == ix);
        }
    }
    let n_blocks = value_vars.len();
    let total = height * n_blocks;
    // id columns: each block repeats the column's values
    let mut cols: Vec<Column> = Vec::new();
    let mut c: usize = 0;
    while c < id_tbl.cols.len()
        invariant
            c <= id_tbl.cols@.len(),
            cols@.len() == c as int,
            total as int == height as int * n_blocks as int,
            height as int == df.height_spec(),
            n_blocks as int == value_vars@.len(),
            forall|m: int| 0 <= m < c as int ==> (#[trigger] cols@[m]).name@ == id_tbl.cols@[m].name@,
            forall|m: int| 0 <= m < c as int ==> (#[trigger] cols@[m]).len_spec() == total as int,
            forall|m: int, b: int, i: int|
                0 <= m < c as int && 0 <= b < n_blocks as int && 0 <= i
                    < height as int ==> crate::value::veq(
                    #[trigger] cols@[m].values@[b * height as int + i],
                    id_tbl.cols@[m].values@[i],
                ),
        decreases id_tbl.cols@.len() - c,
    {
        let src = &id_tbl.cols[c];
        let mut vals: Vec<Value> = Vec::new();
        let mut b: usize = 0;
        while b < n_blocks
            invariant
                b <= n_blocks,
                src.len_spec() == height as int,
                vals@.len() == b as int * height as int,
                total as int == height as int * n_blocks as int,
                forall|b2: int, i: int|
                    0 <= b2 < b as int && 0 <= i < height as int ==> crate::value::veq(
                        #[trigger] vals@[b2 * height as int + i],
                        src.values@[i],
                    ),
            decreases n_blocks - b,
        {
            let ghost snap = vals@;
            let mut i: usize = 0;
            while i < height
                invariant
                    i <= height,
                    b < n_blocks,
                    src.len_spec() == height as int,
                    snap.len() == b as int * height as int,
                    vals@.len() == snap.len() + i as int,
                    forall|idx: int| 0 <= idx < snap.len() ==> vals@[idx] == snap[idx],
                    forall|ii: int|
                        0 <= ii < i as int ==> crate::value::veq(
                            #[trigger] vals@[snap.len() + ii],
                            src.values@[ii],
                        ),
                decreases height - i,
            {
                vals.push(src.values[i].dup());
                i = i + 1;
            }
            proof {
                assert forall|b2: int, i: int|
                    0 <= b2 < b as int + 1 && 0 <= i < height as int implies crate::value::veq(
                    #[trigger] vals@[b2 * height as int + i],
                    src.values@[i],
                ) by {
                    if b2 < b as int {
                        assert((b2 + 1) * height as int == b2 * height as int + height as int)
                            by (nonlinear_arith);
                        assert(b2 * height as int >= 0) by (nonlinear_arith)
                            requires
                                b2 >= 0,
                                height as int >= 0,
                        ;
                        assert((b2 + 1) * height as int <= b as int * height as int)
                            by (nonlinear_arith)
                            requires
                                b2 + 1 <= b as int,
                                height as int >= 0,
                        ;
                        assert(vals@[b2 * height as int + i] == snap[b2 * height as int + i]);
                    } else {
                        assert(crate::value::veq(vals@[snap.len() + i], src.values@[i]));
                    }
                }
                assert((b as int + 1) * height as int == b as int * height as int + height as int)
                    by (nonlinear_arith);
            }
            b = b + 1;
        }
        proof {
            assert(vals@.len() == n_blocks as int * height as int);
            assert(n_blocks as int * height as int == height as int * n_blocks as int)
                by (nonlinear_arith);
        }
        cols.push(Column { name: src.name.clone(), values: vals, cat: None });
        c = c + 1;
    }
    // the `variable` column: block b repeats the b-th value variable's name
    let mut var_vals: Vec<Value> = Vec::new();
    let mut b: usize = 0;
    while b < n_blocks
        invariant
            b <= n_blocks,
            var_vals@.len() == b as int * height as int,
            total as int == height as int * n_blocks as int,
            forall|b2: int, i: int|
                0 <= b2 < b as int && 0 <= i < height as int ==> ((#[trigger] var_vals@[b2
                    * height as int + i]) matches Value::Str(s) && s@ == value_vars@[b2]@),
        decreases n_blocks - b,
    {
        let ghost snap = var_vals@;
        let mut i: usize = 0;
        while i < height
            invariant
                i <= height,
                b < n_blocks,
                snap.len() == b as int * height as int,
                var_vals@.len() == snap.len() + i as int,
                forall|idx: int| 0 <= idx < snap.len() ==> var_vals@[idx] == snap[idx],
                forall|ii: int|
                    0 <= ii < i as int ==> ((#[trigger] var_vals@[snap.len() + ii])
                        matches Value::Str(s) && s@ == value_vars@[b as int]@),
            decreases height - i,
        {
            var_vals.push(Value::Str(value_vars[b].clone()));
            i = i + 1;
        }
        proof {
            assert forall|b2: int, i: int|
                0 <= b2 < b as int + 1 && 0 <= i < height as int implies ((#[trigger] var_vals@[b2
                * height as int + i]) matches Value::Str(s) && s@ == value_vars@[b2]@) by {
                if b2 < b as int {
                    assert((b2 + 1) * height as int == b2 * height as int + height as int)
                        by (nonlinear_arith);
                    assert(b2 * height as int >= 0) by (nonlinear_arith)
                        requires
                            b2 >= 0,
                            height as int >= 0,
                    ;
                    assert((b2 + 1) * height as int <= b as int * height as int)
                        by (nonlinear_arith)
                        requires
                            b2 + 1 <= b as int,
                            height as int >= 0,
                    ;
                    assert(var_vals@[b2 * height as int + i] == snap[b2 * height as int + i]);
                } else {
                    assert((var_vals@[snap.len() + i] matches Value::Str(s) && s@ == value_vars@[
                    b as int]@));
                }
            }
            assert((b as int + 1) * height as int == b as int * height as int + height as int)
                by (nonlinear_arith);
        }
        b = b + 1;
    }
    proof {
        assert(var_vals@.len() == n_blocks as int * height as int);
        assert(n_blocks as int * height as int == height as int * n_blocks as int)
            by (nonlinear_arith);
    }
    // the `value` column: block b carries the b-th value column's values
    let mut val_vals: Vec<Value> = Vec::new();
    let mut b2: usize = 0;
    while b2 < val_tbl.cols.len()
        invariant
            b2 <= val_tbl.cols@.len(),
            val_tbl.cols@.len() == n_blocks as int,
            forall|m: int| 0 <= m < n_blocks as int ==> (#[trigger] val_tbl.cols@[m]).len_spec()
                == height as int,
            val_vals@.len() == b2 as int * height as int,
            total as int == height as int * n_blocks as int,
            forall|b3: int, i: int|
                0 <= b3 < b2 as int && 0 <= i < height as int ==> crate::value::veq(
                    #[trigger] val_vals@[b3 * height as int + i],
                    val_tbl.cols@[b3].values@[i],
                ),
        decreases val_tbl.cols@.len() - b2,
    {
        let src = &val_tbl.cols[b2];
        let ghost snap = val_vals@;
        let mut i: usize = 0;
        while i < height
            invariant
                i <= height,
                (b2 as int) < n_blocks as int,
                src.len_spec() == height as int,
                snap.len() == b2 as int * height as int,
                val_vals@.len() == snap.len() + i as int,
                forall|idx: int| 0 <= idx < snap.len() ==> val_vals@[idx] == snap[idx],
                forall|ii: int|
                    0 <= ii < i as int ==> crate::value::veq(
                        #[trigger] val_vals@[snap.len() + ii],
                        src.values@[ii],
                    ),
            decreases height - i,
        {
            val_vals.push(src.values[i].dup());
            i = i + 1;
        }
        proof {
            assert forall|b3: int, i: int|
                0 <= b3 < b2 as int + 1 && 0 <= i < height as int implies crate::value::veq(
                #[trigger] val_vals@[b3 * height as int + i],
                val_tbl.cols@[b3].values@[i],
            ) by {
                if b3 < b2 as int {
                    assert((b3 + 1) * height as int == b3 * height as int + height as int)
                        by (nonlinear_arith);
                    assert(b3 * height as int >= 0) by (nonlinear_arith)
                        requires
                            b3 >= 0,
                            height as int >= 0,
                    ;
                    assert((b3 + 1) * height as int <= b2 as int * height as int)
                        by (nonlinear_arith)
                        requires
                            b3 + 1 <= b2 as int,
                            height as int >= 0,
                    ;
                    assert(val_vals@[b3 * height as int + i] == snap[b3 * height as int + i]);
                } else {
                    assert(crate::value::veq(val_vals@[snap.len() + i], src.values@[i]));
                }
            }
            assert((b2 as int + 1) * height as int == b2 as int * height as int + height as int)
                by (nonlinear_arith);
        }
        b2 = b2 + 1;
    }
    proof {
        assert(val_vals@.len() == n_blocks as int * height as int);
        assert(n_blocks as int * height as int == height as int * n_blocks as int)
            by (nonlinear_arith);
    }
    cols.push(Column { name: "variable".to_owned(), values: var_vals, cat: None });
    cols.push(Column { name: "value".to_owned(), values: val_vals, cat: None });
    let t = Table { cols };
    proof {
        reveal_strlit("variable");
        reveal_strlit("value");
        assert("variable"@.len() == 8);
        assert("value"@.len() == 5);
        assert("variable"@ != "value"@);
    }
    if !crate::groupby::check_table_wf(&t) {
        proof {
            assert(!melt_ok(*df, id_vars@, value_vars@)) by {
                if melt_ok(*df, id_vars@, value_vars@) {
                    assert forall|i: int, j: int|
                        0 <= i < j < t.cols@.len() implies t.cols@[i].name@ != t.cols@[
                    j].name@ by {
                        let idn = id_vars@.len() as int;
                        if j < idn {
                            assert(t.cols@[i].name@ == id_vars@[i]@);
                            assert(t.cols@[j].name@ == id_vars@[j]@);
                        } else if i < idn {
                            assert(t.cols@[i].name@ == id_vars@[i]@);
                        }
                    }
                    assert(t.wf());
                    assert(false);
                }
            }
        }
        return Err(ExecError::SchemaError("melt output has an invalid schema".to_owned()));
    }
    proof {
        assert(melt_ok(*df, id_vars@, value_vars@)) by {
            let idn = id_vars@.len() as int;
            assert forall|i: int, j: int|
                0 <= i < j < id_vars@.len() implies id_vars@[i]@ != id_vars@[j]@ by {
                assert(t.cols@[i].name@ != t.cols@[j].name@);
            }
            assert forall|k: int| 0 <= k < id_vars@.len() implies (#[trigger] id_vars@[k])@
                != "variable"@ by {
                assert(t.cols@[k].name@ != t.cols@[idn].name@);
            }
            assert forall|k: int| 0 <= k < id_vars@.len() implies (#[trigger] id_vars@[k])@
                != "value"@ by {
                assert(t.cols@[k].name@ != t.cols@[idn + 1].name@);
            }
        }
        let idn = id_vars@.len() as int;
        assert forall|c: int, b3: int, i: int|
            0 <= c < id_vars@.len() && 0 <= b3 < value_vars@.len() && 0 <= i
                < df.height_spec() implies crate::value::veq(
            #[trigger] t.cols@[c].values@[b3 * df.height_spec() + i],
            df.cols@[crate::expr::col_ix(*df, id_vars@[c]@)].values@[i],
        ) by {
            assert(crate::value::veq(
                t.cols@[c].values@[b3 * (height as int) + i],
                id_tbl.cols@[c].values@[i],
            ));
            crate::value::lemma_veq_trans(
                t.cols@[c].values@[b3 * df.height_spec() + i],
                id_tbl.cols@[c].values@[i],
                df.cols@[crate::expr::col_ix(*df, id_vars@[c]@)].values@[i],
            );
        }
        assert forall|b3: int, i: int|
            0 <= b3 < value_vars@.len() && 0 <= i < df.height_spec() implies crate::value::veq(
            #[trigger] t.cols@[idn + 1].values@[b3 * df.height_spec() + i],
            df.cols@[crate::expr::col_ix(*df, value_vars@[b3]@)].values@[i],
        ) by {
            assert(crate::value::veq(
                t.cols@[idn + 1].values@[b3 * (height as int) + i],
                val_tbl.cols@[b3].values@[i],
            ));
            crate::value::lemma_veq_trans(
                t.cols@[idn + 1].values@[b3 * df.height_spec() + i],
                val_tbl.cols@[b3].values@[i],
                df.cols@[crate::expr::col_ix(*df, value_vars@[b3]@)].values@[i],
            );
        }
    }
    Ok(t)
}

/// How many output rows one cell yields under explode: each list element
/// becomes a row, an empty list keeps one (null) row, and any other value
/// keeps its single row.
pub open spec fn explode_count(v: Value) -> int {
    match v {
        Value::List(l) => if l@.len() == 0 {
            1
        } else {
            l@.len() as int
        },
        _ => 1,
    }
}

/// The total output height of exploding the first `k` cells.
pub open spec fn explode_total(vals: Seq<Value>, k: int) -> int
    decreases k,
{
    if k <= 0 {
        0
    } else {
        explode_total(vals, k - 1) + explode_count(vals[k - 1])
    }
}

/// A list element lifted back to a cell value.
pub open spec fn scalar_to_value(s: Scalar) -> Value {
    match s {
        Scalar::Null => Value::Null,
        Scalar::Bool(b) => Value::Bool(b),
        Scalar::Int(i) => Value::Int(i),
        Scalar::Str(st) => Value::Str(st),
    }
}

/// Explodes one column: each list element of the exploded column becomes a
/// row of its own, with every other column's value repeated; an empty list
/// yields one null row, and a non-list value keeps its row. Fails exactly
/// when the column is absent.
#[verifier::spinoff_prover]
#[verifier::loop_isolation(false)]
#[verifier::rlimit(100)]
pub fn explode_one(df: &Table, column: &String) -> (r: Result<Table, ExecError>)
    requires
        df.wf(),
    ensures
        r is Ok <==> df.has_col(column@),
        r matches Ok(t) ==> {
            &&& t.wf()
            &&& t.cols@.len() == df.cols@.len()
            &&& forall|c: int| 0 <= c < t.cols@.len() ==> (#[trigger] t.cols@[c]).name@
                == df.cols@[c].name@
            &&& t.height_spec() == (if df.cols@.len() == 0 {
                0int
            } else {
                explode_total(
                    df.cols@[crate::expr::col_ix(*df, column@)].values@,
                    df.height_spec(),
                )
            })
        },
{
    let ci = match df.find_column(column) {
        Some(i) => i,
        None => {
            return Err(ExecError::SchemaError("exploded column is absent".to_owned()));
        },
    };
    proof {
        assert(df.has_col(column@));
        let ghost ix = crate::expr::col_ix(*df, column@);
        assert(0 <= ix < df.cols@.len() && df.cols@[ix].name@ == column@);
        assert(ix == ci as int);
    }
    let height = df.height();
    let exvals = &df.cols[ci].values;
    // first pass: the exploded column's values and, per input row, its
    // output count
    let mut out_ex: Vec<Value> = Vec::new();
    let mut i: usize = 0;
    while i < height
        invariant
            i <= height,
            exvals@.len() == height as int,
            out_ex@.len() == explode_total(exvals@, i as int),
        decreases height - i,
    {
        match &exvals[i] {
            Value::List(l) => {
                if l.len() == 0 {
                    out_ex.push(Value::Null);
                } else {
                    let mut k: usize = 0;
                    while k < l.len()
                        invariant
                            k <= l@.len(),
                            l@.len() > 0,
                            exvals@[i as int] matches Value::List(l2) && l2@ == l@,
                            out_ex@.len() == explode_total(exvals@, i as int) + k as int,
                        decreases l@.len() - k,
                    {
                        out_ex.push(scalar_value(&l[k]));
                        k = k + 1;
                    }
                }
            },
            other => {
                out_ex.push(other.dup());
            },
        }
        i = i + 1;
    }
    // second pass: every other column repeats each row's value count times
    let mut cols: Vec<Column> = Vec::new();
    let mut c: usize = 0;
    while c < df.cols.len()
        invariant
            c <= df.cols@.len(),
            cols@.len() == c as int,
            exvals@.len() == height as int,
            exvals@ == df.cols@[ci as int].values@,
            out_ex@.len() == explode_total(exvals@, height as int),
            forall|m: int| 0 <= m < c as int ==> (#[trigger] cols@[m]).name@ == df.cols@[m].name@,
            forall|m: int| 0 <= m < c as int ==> (#[trigger] cols@[m]).len_spec() == explode_total(
                exvals@,
                height as int,
            ),
        decreases df.cols@.len() - c,
    {
        if c == ci {
            let mut copied: Vec<Value> = Vec::new();
            let mut k: usize = 0;
            while k < out_ex.len()
                invariant
                    k <= out_ex@.len(),
                    copied@.len() == k as int,
                decreases out_ex@.len() - k,
            {
                copied.push(out_ex[k].dup());
                k = k + 1;
            }
            cols.push(Column { name: df.cols[c].name.clone(), values: copied, cat: None });
        } else {
            let src = &df.cols[c].values;
            let mut vals: Vec<Value> = Vec::new();
            let mut i2: usize = 0;
            while i2 < height
                invariant
                    i2 <= height,
                    src@.len() == height as int,
                    exvals@.len() == height as int,
                    vals@.len() == explode_total(exvals@, i2 as int),
                decreases height - i2,
            {
                let n: usize = match &exvals[i2] {
                    Value::List(l) => {
                        if l.len() == 0 {
                            1
                        } else {
                            l.len()
                        }
                    },
                    _ => 1,
                };
                proof {
                    assert(n as int == explode_count(exvals@[i2 as int]));
                    lemma_explode_total_mono(exvals@, i2 as int + 1, height as int);
                }
                let mut k: usize = 0;
                while k < n
                    invariant
                        k <= n,
                        src@.len() == height as int,
                        i2 < height,
                        vals@.len() == explode_total(exvals@, i2 as int) + k as int,
                    decreases n - k,
                {
                    vals.push(src[i2].dup());
                    k = k + 1;
                }
                i2 = i2 + 1;
            }
            cols.push(Column { name: df.cols[c].name.clone(), values: vals, cat: None });
        }
        c = c + 1;
    }
    let t = Table { cols };
    if !crate::groupby::check_table_wf(&t) {
        return Err(ExecError::SchemaError("explode output has an invalid schema".to_owned()));
    }
    Ok(t)
}

proof fn lemma_explode_total_mono(vals: Seq<Value>, k1: int, k2: int)
    requires
        0 <= k1 <= k2,
    ensures
        explode_total(vals, k1) <= explode_total(vals, k2),
    decreases k2 - k1,
{
    if k1 < k2 {
        lemma_explode_total_mono(vals, k1, k2 - 1);
    }
}

/// Lifts a list element to a cell value.
pub fn scalar_value(s: &Scalar) -> (r: Value)
    ensures
        veq(r, scalar_to_value(*s)),
{
    match s {
        Scalar::Null => Value::Null,
        Scalar::Bool(b) => Value::Bool(*b),
        Scalar::Int(i) => Value::Int(*i),
        Scalar::Str(st) => Value::Str(st.clone()),
    }
}

/// Strict lexicographic order on character sequences, by code point.
pub open spec fn chars_lt(a: Seq<char>, b: Seq<char>) -> bool
    decreases a.len(),
{
    if b.len() == 0 {
        false
    } else if a.len() == 0 {
        true
    } else if (a[0] as u32) != (b[0] as u32) {
        (a[0] as u32) < (b[0] as u32)
    } else {
        chars_lt(a.skip(1), b.skip(1))
    }
}

/// Lexicographic order is asymmetric.
pub proof fn lemma_chars_lt_asym(a: Seq<char>, b: Seq<char>)
    requires
        chars_lt(a, b),
    ensures
        !chars_lt(b, a),
    decreases a.len(),
{
    if a.len() > 0 && b.len() > 0 && (a[0] as u32) == (b[0] as u32) {
        lemma_chars_lt_asym(a.skip(1), b.skip(1));
    }
}

/// Lexicographic order chains.
pub proof fn lemma_chars_lt_trans(a: Seq<char>, b: Seq<char>, c: Seq<char>)
    requires
        chars_lt(a, b),
        chars_lt(b, c),
    ensures
        chars_lt(a, c),
    decreases a.len(),
{
    if a.len() > 0 && b.len() > 0 && c.len() > 0 {
        if (a[0] as u32) == (b[0] as u32) && (b[0] as u32) == (c[0] as u32) {
            lemma_chars_lt_trans(a.skip(1), b.skip(1), c.skip(1));
        }
    }
}

/// Two sequences neither of which sorts before the other order alike
/// against everything.
pub proof fn lemma_chars_lt_eqv(a: Seq<char>, b: Seq<char>)
    requires
        !chars_lt(a, b),
        !chars_lt(b, a),
    ensures
        forall|c: Seq<char>| #[trigger] chars_lt(a, c) == chars_lt(b, c),
        forall|c: Seq<char>| #[trigger] chars_lt(c, a) == chars_lt(c, b),
    decreases a.len(),
{
    if a.len() > 0 && b.len() > 0 {
        lemma_chars_lt_eqv(a.skip(1), b.skip(1));
        assert forall|c: Seq<char>| #[trigger] chars_lt(a, c) == chars_lt(b, c) by {
            if c.len() > 0 {
                assert(chars_lt(a.skip(1), c.skip(1)) == chars_lt(b.skip(1), c.skip(1)));
            }
        }
        assert forall|c: Seq<char>| #[trigger] chars_lt(c, a) == chars_lt(c, b) by {
            if c.len() > 0 {
                assert(chars_lt(c.skip(1), a.skip(1)) == chars_lt(c.skip(1), b.skip(1)));
            }
        }
    }
}

/// The sort order of a value: nulls first, then booleans, then integers in
/// value order, then strings lexicographically by code point; lists keep
/// their relative order among themselves.
pub open spec fn sort_le(a: Value, b: Value) -> bool {
    rank(a) < rank(b) || (rank(a) == rank(b) && (match (a, b) {
        (Value::Int(x), Value::Int(y)) => x <= y,
        (Value::Str(x), Value::Str(y)) => !chars_lt(y@, x@),
        _ => true,
    }))
}

pub open spec fn rank(v: Value) -> int {
    match v {
        Value::Null => 0,
        Value::Bool(b) => if b {
            2
        } else {
            1
        },
        Value::Int(_) => 3,
        Value::Str(_) => 4,
        Value::List(_) => 5,
    }
}

/// Strictly before, under the requested direction.
pub open spec fn sort_before(a: Value, b: Value, reverse: bool) -> bool {
    if reverse {
        sort_le(b, a) && !sort_le(a, b)
    } else {
        sort_le(a, b) && !sort_le(b, a)
    }
}

/// Not sorting before is transitive: what the insertion step relies on to
/// carry no-inversion past the adjacent element.
pub proof fn lemma_sort_before_neg_trans(a: Value, b: Value, c: Value, rev: bool)
    requires
        !sort_before(a, b, rev),
        !sort_before(b, c, rev),
    ensures
        !sort_before(a, c, rev),
{
    let (x, y, z) = if rev {
        (c, b, a)
    } else {
        (a, b, c)
    };
    if sort_before(a, c, rev) {
        assert(sort_le(x, z) && !sort_le(z, x));
        if rank(x) == rank(z) {
            assert(rank(y) == rank(x));
            match (x, y, z) {
                (Value::Str(sx), Value::Str(sy), Value::Str(sz)) => {
                    assert(chars_lt(sx@, sz@));
                    if chars_lt(sy@, sx@) {
                        lemma_chars_lt_trans(sy@, sx@, sz@);
                        assert(chars_lt(sy@, sz@));
                        lemma_chars_lt_asym(sy@, sz@);
                        assert(!sort_le(y, z) || sort_le(z, y));
                        assert(sort_before(b, c, rev));
                    } else if chars_lt(sx@, sy@) {
                        lemma_chars_lt_asym(sx@, sy@);
                        assert(sort_before(a, b, rev));
                    } else {
                        lemma_chars_lt_eqv(sx@, sy@);
                        assert(chars_lt(sy@, sz@));
                        lemma_chars_lt_asym(sy@, sz@);
                        assert(sort_before(b, c, rev));
                    }
                    assert(false);
                },
                _ => {},
            }
        }
    }
}

/// Decides strict lexicographic order on two strings.
#[verifier::loop_isolation(false)]
pub fn str_lt_exec(a: &String, b: &String) -> (r: bool)
    ensures
        r == chars_lt(a@, b@),
{
    let sa = a.as_str();
    let sb = b.as_str();
    let na = sa.unicode_len();
    let nb = sb.unicode_len();
    proof {
        assert(a@.skip(0) =~= a@);
        assert(b@.skip(0) =~= b@);
    }
    let mut i: usize = 0;
    while i < na && i < nb
        invariant
            na as nat == a@.len(),
            nb as nat == b@.len(),
            i <= na,
            i <= nb,
            chars_lt(a@, b@) == chars_lt(a@.skip(i as int), b@.skip(i as int)),
        decreases na - i,
    {
        let ca = sa.get_char(i);
        let cb = sb.get_char(i);
        if ca != cb {
            proof {
                assert(a@.skip(i as int)[0] == a@[i as int]);
                assert(b@.skip(i as int)[0] == b@[i as int]);
            }
            return (ca as u32) < (cb as u32);
        }
        proof {
            assert(a@.skip(i as int).skip(1) =~= a@.skip(i as int + 1));
            assert(b@.skip(i as int).skip(1) =~= b@.skip(i as int + 1));
            assert(a@.skip(i as int)[0] == b@.skip(i as int)[0]);
        }
        i = i + 1;
    }
    proof {
        if nb <= na {
            assert(b@.skip(i as int).len() == 0);
        } else {
            assert(a@.skip(i as int).len() == 0 && b@.skip(i as int).len() > 0);
        }
    }
    na < nb
}

/// Decides `sort_before`.
pub fn sort_before_exec(a: &Value, b: &Value, reverse: bool) -> (r: bool)
    ensures
        r == sort_before(*a, *b, reverse),
{
    let (x, y) = if reverse {
        (b, a)
    } else {
        (a, b)
    };
    let rx = rank_exec(x);
    let ry = rank_exec(y);
    if rx != ry {
        return rx < ry;
    }
    match (x, y) {
        (Value::Int(i), Value::Int(j)) => *i < *j,
        (Value::Str(p), Value::Str(q)) => {
            let lt = str_lt_exec(p, q);
            proof {
                if chars_lt(p@, q@) {
                    lemma_chars_lt_asym(p@, q@);
                }
            }
            lt
        },
        _ => false,
    }
}

fn rank_exec(v: &Value) -> (r: u8)
    ensures
        r as int == rank(*v),
{
    match v {
        Value::Null => 0,
        Value::Bool(b) => if *b {
            2
        } else {
            1
        },
        Value::Int(_) => 3,
        Value::Str(_) => 4,
        Value::List(_) => 5,
    }
}

/// Row `i` occurs in the permutation.
pub open spec fn perm_lists(perm: Seq<u32>, i: int) -> bool {
    exists|k: int| 0 <= k < perm.len() && (#[trigger] perm[k]) as int == i
}

/// A stable ascending (or descending) ordering of row indices by the given
/// key values: the result lists every row exactly once, no later row sorts
/// strictly before an earlier one, and rows that do not sort strictly
/// before one another keep their original relative order.
#[verifier::spinoff_prover]
#[verifier::loop_isolation(false)]
#[verifier::rlimit(100)]
pub fn argsort(keys: &Vec<Value>, reverse: bool) -> (perm: Vec<u32>)
    requires
        keys@.len() <= u32::MAX as int,
    ensures
        perm@.len() == keys@.len(),
        forall|k: int| 0 <= k < perm@.len() ==> (#[trigger] perm@[k] as int) < keys@.len(),
        forall|k1: int, k2: int| 0 <= k1 < k2 < perm@.len() ==> perm@[k1] != perm@[k2],
        forall|i: int| 0 <= i < keys@.len() ==> #[trigger] perm_lists(perm@, i),
        forall|k1: int, k2: int|
            0 <= k1 < k2 < perm@.len() ==> !sort_before(
                keys@[(#[trigger] perm@[k2]) as int],
                keys@[(#[trigger] perm@[k1]) as int],
                reverse,
            ),
        forall|k1: int, k2: int|
            0 <= k1 < k2 < perm@.len() && !sort_before(
                keys@[(#[trigger] perm@[k1]) as int],
                keys@[(#[trigger] perm@[k2]) as int],
                reverse,
            ) ==> perm@[k1] < perm@[k2],
{
    let mut perm: Vec<u32> = Vec::new();
    let mut i: usize = 0;
    while i < keys.len()
        invariant
            i <= keys@.len(),
            keys@.len() <= u32::MAX as int,
            perm@.len() == i as int,
            forall|k: int| 0 <= k < perm@.len() ==> (#[trigger] perm@[k] as int) < i as int,
            forall|k1: int, k2: int| 0 <= k1 < k2 < perm@.len() ==> perm@[k1] != perm@[k2],
            forall|ii: int| 0 <= ii < i as int ==> #[trigger] perm_lists(perm@, ii),
            forall|k1: int, k2: int|
                0 <= k1 < k2 < perm@.len() ==> !sort_before(
                    keys@[(#[trigger] perm@[k2]) as int],
                    keys@[(#[trigger] perm@[k1]) as int],
                    reverse,
                ),
            forall|k1: int, k2: int|
                0 <= k1 < k2 < perm@.len() && !sort_before(
                    keys@[(#[trigger] perm@[k1]) as int],
                    keys@[(#[trigger] perm@[k2]) as int],
                    reverse,
                ) ==> perm@[k1] < perm@[k2],
        decreases keys@.len() - i,
    {
        // scan from the end for the first position whose key does not sort
        // strictly after the new key: stable insertion
        let mut pos: usize = perm.len();
        while pos > 0 && sort_before_exec(&keys[i], &keys[perm[pos - 1] as usize], reverse)
            invariant
                pos <= perm@.len(),
                forall|k: int|
                    pos as int <= k < perm@.len() ==> sort_before(
                        keys@[i as int],
                        keys@[(#[trigger] perm@[k]) as int],
                        reverse,
                    ),
            decreases pos,
        {
            pos = pos - 1;
        }
        let ghost perm_old = perm@;
        perm.insert(pos, i as u32);
        proof {
            assert(perm@ =~= perm_old.insert(pos as int, i as u32));
            assert forall|ii: int| 0 <= ii < i as int + 1 implies #[trigger] perm_lists(
                perm@,
                ii,
            ) by {
                if ii == i as int {
                    assert(perm@[pos as int] as int == ii);
                } else {
                    assert(perm_lists(perm_old, ii));
                    let k = choose|k: int|
                        0 <= k < perm_old.len() && (#[trigger] perm_old[k]) as int == ii;
                    if k < pos as int {
                        assert(perm@[k] as int == ii);
                    } else {
                        assert(perm@[k + 1] as int == ii);
                    }
                }
            }
            assert forall|k1: int, k2: int|
                0 <= k1 < k2 < perm@.len() implies !sort_before(
                keys@[(#[trigger] perm@[k2]) as int],
                keys@[(#[trigger] perm@[k1]) as int],
                reverse,
            ) by {
                if k2 == pos as int {
                    assert(perm@[k2] == i as u32);
                    assert(perm@[k1] == perm_old[k1]);
                    if k1 < pos as int - 1 {
                        assert(!sort_before(
                            keys@[i as int],
                            keys@[perm_old[pos as int - 1] as int],
                            reverse,
                        ));
                        assert(!sort_before(
                            keys@[perm_old[pos as int - 1] as int],
                            keys@[perm_old[k1] as int],
                            reverse,
                        ));
                        lemma_sort_before_neg_trans(
                            keys@[i as int],
                            keys@[perm_old[pos as int - 1] as int],
                            keys@[perm_old[k1] as int],
                            reverse,
                        );
                    }
                } else if k1 == pos as int {
                    assert(perm@[k2] == perm_old[k2 - 1]);
                    assert(sort_before(
                        keys@[i as int],
                        keys@[perm_old[k2 - 1] as int],
                        reverse,
                    ));
                } else if k1 < pos as int && k2 > pos as int {
                    assert(perm@[k1] == perm_old[k1] && perm@[k2] == perm_old[k2 - 1]);
                } else if k2 < pos as int {
                    assert(perm@[k1] == perm_old[k1] && perm@[k2] == perm_old[k2]);
                } else {
                    assert(perm@[k1] == perm_old[k1 - 1] && perm@[k2] == perm_old[k2 - 1]);
                }
            }
        }
        i = i + 1;
    }
    perm
}

/// The output is the input's rows under the permutation `perm`, which
/// `argsort` produced for the sort column.
pub open spec fn sorted_by_perm(df: Table, ci: int, reverse: bool, perm: Seq<u32>, t: Table) -> bool {
    &&& perm.len() == df.height_spec()
    &&& forall|k: int| 0 <= k < perm.len() ==> (#[trigger] perm[k] as int) < df.height_spec()
    &&& forall|k1: int, k2: int| 0 <= k1 < k2 < perm.len() ==> perm[k1] != perm[k2]
    &&& forall|i: int| 0 <= i < df.height_spec() ==> #[trigger] perm_lists(perm, i)
    &&& forall|k1: int, k2: int|
        0 <= k1 < k2 < perm.len() ==> !sort_before(
            df.cols@[ci].values@[(#[trigger] perm[k2]) as int],
            df.cols@[ci].values@[(#[trigger] perm[k1]) as int],
            reverse,
        )
    &&& forall|k1: int, k2: int|
        0 <= k1 < k2 < perm.len() && !sort_before(
            df.cols@[ci].values@[(#[trigger] perm[k1]) as int],
            df.cols@[ci].values@[(#[trigger] perm[k2]) as int],
            reverse,
        ) ==> perm[k1] < perm[k2]
    &&& t.cols@.len() == df.cols@.len()
    &&& forall|c: int| 0 <= c < t.cols@.len() ==> (#[trigger] t.cols@[c]).name@
        == df.cols@[c].name@
    &&& forall|c: int, k: int|
        0 <= c < t.cols@.len() && 0 <= k < perm.len() ==> crate::value::veq(
            #[trigger] t.cols@[c].values@[k],
            df.cols@[c].values@[perm[k] as int],
        )
}

/// Sorts the table's rows by one column, keeping rows that do not sort
/// strictly before one another in their original order. Succeeds exactly
/// when the column is present; the output is then the input's rows under a
/// stable sorting permutation of the column.
pub fn sort_table(df: &Table, by_column: &String, reverse: bool) -> (r: Result<Table, ExecError>)
    requires
        df.wf(),
        df.height_spec() <= u32::MAX as int,
    ensures
        r is Ok <==> df.has_col(by_column@),
        r matches Ok(t) ==> t.wf() && t.height_spec() == (if df.cols@.len() == 0 {
            0int
        } else {
            df.height_spec()
        }) && exists|perm: Seq<u32>|
            #[trigger] sorted_by_perm(
                *df,
                crate::expr::col_ix(*df, by_column@),
                reverse,
                perm,
                t,
            ),
{
    let ci = match df.find_column(by_column) {
        Some(i) => i,
        None => {
            return Err(ExecError::SchemaError("sort column is absent".to_owned()));
        },
    };
    proof {
        assert(df.has_col(by_column@));
        let ix = crate::expr::col_ix(*df, by_column@);
        assert(0 <= ix < df.cols@.len() && df.cols@[ix].name@ == by_column@);
        assert(ix == ci as int);
        assert(df.cols@[ci as int].len_spec() == df.height_spec());
    }
    let perm = argsort(&df.cols[ci].values, reverse);
    let t = df.take_rows(&perm);
    proof {
        assert(sorted_by_perm(*df, ci as int, reverse, perm@, t));
    }
    Ok(t)
}

/// Some representative carries the same key tuple as row `i`.
/// Some representative carries the same key tuple as row `i`.
pub open spec fn rep_covers(t: Table, reps: Seq<u32>, i: int) -> bool {
    exists|k: int| 0 <= k < reps.len() && keys_eq(t, i, (#[trigger] reps[k]) as int)
}

/// The first-occurrence representatives of the distinct key tuples of `t`:
/// strictly increasing row indices, pairwise key-distinct, covering every
/// row's key, each the earliest row of its key.
#[verifier::spinoff_prover]
#[verifier::loop_isolation(false)]
#[verifier::rlimit(100)]
pub fn distinct_row_reps(t: &Table) -> (reps: Vec<u32>)
    requires
        t.wf(),
        t.height_spec() <= u32::MAX as int,
    ensures
        forall|k: int| 0 <= k < reps@.len() ==> (#[trigger] reps@[k] as int) < t.height_spec(),
        forall|k1: int, k2: int| 0 <= k1 < k2 < reps@.len() ==> reps@[k1] < reps@[k2],
        forall|k1: int, k2: int|
            0 <= k1 < k2 < reps@.len() ==> !keys_eq(
                *t,
                (#[trigger] reps@[k1]) as int,
                (#[trigger] reps@[k2]) as int,
            ),
        forall|i: int| 0 <= i < t.height_spec() ==> #[trigger] rep_covers(*t, reps@, i),
{
    let gs = groups_of(t);
    let mut reps: Vec<u32> = Vec::new();
    let mut g: usize = 0;
    while g < gs.len()
        invariant
            g <= gs@.len(),
            reps@.len() == g as int,
            forall|k: int| 0 <= k < g as int ==> reps@[k] == (#[trigger] gs@[k]).0,
        decreases gs@.len() - g,
    {
        reps.push(gs[g].0);
        g = g + 1;
    }
    proof {
        assert forall|k1: int, k2: int| 0 <= k1 < k2 < reps@.len() implies reps@[k1] < reps@[k2]
            && !keys_eq(*t, (#[trigger] reps@[k1]) as int, (#[trigger] reps@[k2]) as int) by {
            assert(reps@[k1] == gs@[k1].0);
            assert(reps@[k2] == gs@[k2].0);
        }
        assert forall|i: int| 0 <= i < t.height_spec() implies #[trigger] rep_covers(
            *t,
            reps@,
            i,
        ) by {
            assert(crate::groupby::grouped(gs@, i as u32));
            let (g1, k1) = choose|g1: int, k1: int|
                0 <= g1 < gs@.len() && 0 <= k1 < gs@[g1].1@.len() && #[trigger] gs@[g1].1@[k1]
                    == i as u32;
            assert(keys_eq(*t, gs@[g1].1@[k1] as int, gs@[g1].1@[0] as int));
            assert(reps@[g1] == gs@[g1].0);
            assert(keys_eq(*t, i, reps@[g1] as int));
        }
        assert forall|k: int| 0 <= k < reps@.len() implies (#[trigger] reps@[k] as int)
            < t.height_spec() by {
            assert(gs@[k].1@[0] == gs@[k].0);
        }
    }
    reps
}

} // verus!
