//! Aggregation expressions: a per-group reduction of one column. Each
//! operation has a partition-local form and a merge form, so a partitioned
//! aggregation can reduce each partition independently and merge the partial
//! results; the merge lemmas state that merging partition-local aggregates
//! equals aggregating the whole. An operation applied to a column whose
//! values it cannot reduce yields no column at all, and is silently dropped
//! by the grouped operators.

use vstd::prelude::*;
use vstd::wrapping::i64_specs;
use crate::column::Column;
use crate::error::ExecError;
use crate::table::Table;
use crate::value::{veq, Value};

verus! {

/// A per-group reduction.
#[derive(Clone, Copy, Debug, PartialEq, Eq, Structural)]
pub enum AggOp {
    /// Wrapping sum of the group's integers, nulls skipped.
    Sum,
    /// The number of rows in the group.
    Count,
    /// The least integer of the group, null when none.
    Min,
    /// The greatest integer of the group, null when none.
    Max,
    /// The group's first value.
    First,
    /// The group's last value.
    Last,
}

/// An aggregation of one column under an output name.
pub struct AggExpr {
    pub op: AggOp,
    pub col: String,
    pub out_name: String,
}

/// The partition-local form of an operation: every operation reduces a raw
/// partition with itself.
pub open spec fn partial_op_spec(op: AggOp) -> AggOp {
    op
}

/// The merge form of an operation: how partition-local results are reduced
/// into the final result. Partial counts are summed; the rest merge with
/// themselves.
pub open spec fn merge_op_spec(op: AggOp) -> AggOp {
    match op {
        AggOp::Count => AggOp::Sum,
        _ => op,
    }
}

/// The merge form, as executable code.
pub fn merge_op(op: AggOp) -> (r: AggOp)
    ensures
        r == merge_op_spec(op),
{
    match op {
        AggOp::Count => AggOp::Sum,
        _ => op,
    }
}

/// Every listed value is an integer or a null.
pub open spec fn all_int_or_null(vals: Seq<Value>) -> bool {
    forall|i: int| 0 <= i < vals.len() ==> (#[trigger] vals[i]) is Int || vals[i] is Null
}

/// Whether the operation can reduce a column of these values; an ineligible
/// pair yields no output column.
pub open spec fn agg_eligible(op: AggOp, vals: Seq<Value>) -> bool {
    match op {
        AggOp::Sum | AggOp::Min | AggOp::Max => all_int_or_null(vals),
        AggOp::Count | AggOp::First | AggOp::Last => true,
    }
}

/// The wrapping sum of the group's integer values, in row order.
pub open spec fn gsum(vals: Seq<Value>, rows: Seq<u32>) -> i64
    decreases rows.len(),
{
    if rows.len() == 0 {
        0
    } else {
        let rest = gsum(vals, rows.drop_last());
        match vals[rows.last() as int] {
            Value::Int(x) => i64_specs::wrapping_add(rest, x),
            _ => rest,
        }
    }
}

/// Folds one more value into a running minimum over integers.
pub open spec fn min_combine(acc: Value, x: Value) -> Value {
    match (acc, x) {
        (Value::Int(a), Value::Int(b)) => if b < a {
            Value::Int(b)
        } else {
            Value::Int(a)
        },
        (Value::Null, Value::Int(b)) => Value::Int(b),
        _ => acc,
    }
}

/// Folds one more value into a running maximum over integers.
pub open spec fn max_combine(acc: Value, x: Value) -> Value {
    match (acc, x) {
        (Value::Int(a), Value::Int(b)) => if b > a {
            Value::Int(b)
        } else {
            Value::Int(a)
        },
        (Value::Null, Value::Int(b)) => Value::Int(b),
        _ => acc,
    }
}

/// The least integer among the group's values, null when there is none.
pub open spec fn gmin(vals: Seq<Value>, rows: Seq<u32>) -> Value
    decreases rows.len(),
{
    if rows.len() == 0 {
        Value::Null
    } else {
        min_combine(gmin(vals, rows.drop_last()), vals[rows.last() as int])
    }
}

/// The greatest integer among the group's values, null when there is none.
pub open spec fn gmax(vals: Seq<Value>, rows: Seq<u32>) -> Value
    decreases rows.len(),
{
    if rows.len() == 0 {
        Value::Null
    } else {
        max_combine(gmax(vals, rows.drop_last()), vals[rows.last() as int])
    }
}

/// Every listed row index is below the height.
pub open spec fn groups_in_bounds(gs: Seq<(u32, Vec<u32>)>, height: int) -> bool {
    forall|g: int, k: int|
        0 <= g < gs.len() && 0 <= k < gs[g].1@.len() ==> (#[trigger] gs[g].1@[k] as int) < height
}

/// No group is empty.
pub open spec fn groups_nonempty(gs: Seq<(u32, Vec<u32>)>) -> bool {
    forall|g: int| 0 <= g < gs.len() ==> (#[trigger] gs[g]).1@.len() > 0
}

/// No group lists more rows than an index can address.
pub open spec fn groups_counts_bounded(gs: Seq<(u32, Vec<u32>)>) -> bool {
    forall|g: int| 0 <= g < gs.len() ==> (#[trigger] gs[g]).1@.len() <= u32::MAX as int
}

/// The value an operation produces for one group of rows.
pub open spec fn agg_value(op: AggOp, vals: Seq<Value>, rows: Seq<u32>) -> Value {
    match op {
        AggOp::Sum => Value::Int(gsum(vals, rows)),
        AggOp::Count => Value::Int(rows.len() as i64),
        AggOp::Min => gmin(vals, rows),
        AggOp::Max => gmax(vals, rows),
        AggOp::First => vals[rows[0] as int],
        AggOp::Last => vals[rows.last() as int],
    }
}

/// Reduces one column over every group. Fails exactly when the column is
/// absent; yields no column exactly when the operation cannot reduce the
/// column's values; and otherwise yields one value per group — the result's
/// length always equals the number of groups — holding exactly the
/// operation's per-group value, under the requested output name.
#[verifier::loop_isolation(false)]
#[verifier::rlimit(60)]
pub fn eval_agg(agg: &AggExpr, df: &Table, groups: &Vec<(u32, Vec<u32>)>) -> (r: Result<
    Option<Column>,
    ExecError,
>)
    requires
        df.wf(),
        df.height_spec() <= u32::MAX as int,
        groups_in_bounds(groups@, df.height_spec()),
        groups_nonempty(groups@),
        groups_counts_bounded(groups@),
    ensures
        r is Err <==> !df.has_col(agg.col@),
        r matches Ok(opt) ==> {
            let vals = df.cols@[crate::expr::col_ix(*df, agg.col@)].values@;
            match opt {
                Some(c) => {
                    &&& agg_eligible(agg.op, vals)
                    &&& c.name@ == agg.out_name@
                    &&& c.len_spec() == groups@.len()
                    &&& forall|g: int|
                        0 <= g < groups@.len() ==> veq(
                            #[trigger] c.values@[g],
                            agg_value(agg.op, vals, groups@[g].1@),
                        )
                },
                None => !agg_eligible(agg.op, vals),
            }
        },
{
    let ci = match df.find_column(&agg.col) {
        Some(i) => i,
        None => {
            return Err(ExecError::SchemaError("aggregated column is absent".to_owned()));
        },
    };
    proof {
        assert(df.has_col(agg.col@));
        let ghost ix = crate::expr::col_ix(*df, agg.col@);
        assert(0 <= ix < df.cols@.len() && df.cols@[ix].name@ == agg.col@);
        assert(ix == ci as int);
    }
    let col = &df.cols[ci];
    let eligible = match agg.op {
        AggOp::Sum | AggOp::Min | AggOp::Max => check_int_or_null(&col.values),
        _ => true,
    };
    if !eligible {
        return Ok(None);
    }
    let mut out: Vec<Value> = Vec::new();
    let mut g: usize = 0;
    while g < groups.len()
        invariant
            g <= groups@.len(),
            out@.len() == g as int,
            agg_eligible(agg.op, col.values@),
            forall|m: int|
                0 <= m < g as int ==> veq(
                    #[trigger] out@[m],
                    agg_value(agg.op, col.values@, groups@[m].1@),
                ),
        decreases groups@.len() - g,
    {
        let rows = &groups[g].1;
        proof {
            assert(groups@[g as int].1@.len() > 0);
            assert forall|k: int|
                0 <= k < groups@[g as int].1@.len() implies (#[trigger] groups@[
            g as int].1@[k] as int) < col.values@.len() by {
                assert((groups@[g as int].1@[k] as int) < df.height_spec());
            }
        }
        let v: Value = match agg.op {
            AggOp::Sum => Value::Int(sum_rows(&col.values, rows)),
            AggOp::Count => Value::Int(rows.len() as i64),
            AggOp::Min => min_rows(&col.values, rows, true),
            AggOp::Max => min_rows(&col.values, rows, false),
            AggOp::First => col.values[rows[0] as usize].dup(),
            AggOp::Last => col.values[rows[rows.len() - 1] as usize].dup(),
        };
        proof {
            if agg.op is Last {
                assert(groups@[g as int].1@.last() == rows@[rows@.len() - 1]);
            }
            if agg.op is Count {
                assert(rows@.len() <= u32::MAX as int);
            }
            crate::value::lemma_veq_refl(agg_value(agg.op, col.values@, groups@[g as int].1@));
        }
        out.push(v);
        g = g + 1;
    }
    Ok(Some(Column { name: agg.out_name.clone(), values: out, cat: None }))
}

/// Decides whether every value is an integer or a null.
#[verifier::loop_isolation(false)]
pub fn check_int_or_null(vals: &Vec<Value>) -> (r: bool)
    ensures
        r == all_int_or_null(vals@),
{
    let mut i: usize = 0;
    while i < vals.len()
        invariant
            i <= vals@.len(),
            forall|k: int| 0 <= k < i as int ==> (#[trigger] vals@[k]) is Int || vals@[k] is Null,
        decreases vals@.len() - i,
    {
        match &vals[i] {
            Value::Int(_) => {},
            Value::Null => {},
            _ => {
                return false;
            },
        }
        i = i + 1;
    }
    true
}

/// The wrapping sum of the listed rows' integer values.
#[verifier::loop_isolation(false)]
pub fn sum_rows(vals: &Vec<Value>, rows: &Vec<u32>) -> (r: i64)
    requires
        forall|k: int| 0 <= k < rows@.len() ==> (#[trigger] rows@[k] as int) < vals@.len(),
    ensures
        r == gsum(vals@, rows@),
{
    let mut acc: i64 = 0;
    let mut k: usize = 0;
    while k < rows.len()
        invariant
            k <= rows@.len(),
            acc == gsum(vals@, rows@.take(k as int)),
        decreases rows@.len() - k,
    {
        proof {
            assert(rows@.take(k as int + 1).drop_last() =~= rows@.take(k as int));
        }
        match &vals[rows[k] as usize] {
            Value::Int(x) => {
                acc = acc.wrapping_add(*x);
            },
            _ => {},
        }
        k = k + 1;
    }
    proof {
        assert(rows@.take(rows@.len() as int) =~= rows@);
    }
    acc
}

/// The least (or, with `least` unset, greatest) integer of the listed rows,
/// null when no row holds an integer.
#[verifier::loop_isolation(false)]
pub fn min_rows(vals: &Vec<Value>, rows: &Vec<u32>, least: bool) -> (r: Value)
    requires
        forall|k: int| 0 <= k < rows@.len() ==> (#[trigger] rows@[k] as int) < vals@.len(),
    ensures
        least ==> r == gmin(vals@, rows@),
        !least ==> r == gmax(vals@, rows@),
{
    let mut acc: Value = Value::Null;
    let mut k: usize = 0;
    while k < rows.len()
        invariant
            k <= rows@.len(),
            least ==> acc == gmin(vals@, rows@.take(k as int)),
            !least ==> acc == gmax(vals@, rows@.take(k as int)),
        decreases rows@.len() - k,
    {
        proof {
            assert(rows@.take(k as int + 1).drop_last() =~= rows@.take(k as int));
        }
        match &vals[rows[k] as usize] {
            Value::Int(x) => {
                acc = match acc {
                    Value::Int(a) => {
                        if (least && *x < a) || (!least && *x > a) {
                            Value::Int(*x)
                        } else {
                            Value::Int(a)
                        }
                    },
                    _ => Value::Int(*x),
                };
            },
            _ => {},
        }
        proof {
            assert(rows@.take(k as int + 1).last() == rows@[k as int]);
            lemma_gminmax_shape(vals@, rows@.take(k as int));
        }
        k = k + 1;
    }
    proof {
        assert(rows@.take(rows@.len() as int) =~= rows@);
    }
    acc
}

/// Summing two partitions' rows and merging their wrapping sums agree: the
/// partition-local form followed by the merge form equals the single pass.
pub proof fn lemma_gsum_concat(vals: Seq<Value>, r1: Seq<u32>, r2: Seq<u32>)
    ensures
        gsum(vals, r1 + r2) == i64_specs::wrapping_add(gsum(vals, r1), gsum(vals, r2)),
    decreases r2.len(),
{
    if r2.len() == 0 {
        assert(r1 + r2 =~= r1);
    } else {
        lemma_gsum_concat(vals, r1, r2.drop_last());
        assert((r1 + r2).drop_last() =~= r1 + r2.drop_last());
        assert((r1 + r2).last() == r2.last());
    }
}

/// Counting across two partitions equals summing the partial counts: the
/// merge form of a count is a sum.
pub proof fn lemma_gcount_concat(r1: Seq<u32>, r2: Seq<u32>)
    requires
        r1.len() + r2.len() <= u32::MAX as int,
    ensures
        (r1 + r2).len() as i64 == i64_specs::wrapping_add(r1.len() as i64, r2.len() as i64),
{
}

/// A running minimum or maximum is always a null or an integer.
pub proof fn lemma_gminmax_shape(vals: Seq<Value>, rows: Seq<u32>)
    ensures
        gmin(vals, rows) is Null || gmin(vals, rows) is Int,
        gmax(vals, rows) is Null || gmax(vals, rows) is Int,
    decreases rows.len(),
{
    if rows.len() > 0 {
        lemma_gminmax_shape(vals, rows.drop_last());
    }
}

/// Folding is associative when the middle operand is a null or an integer,
/// as a partial minimum or maximum always is.
pub proof fn lemma_minmax_combine_assoc(a: Value, b: Value, c: Value)
    requires
        b is Null || b is Int,
    ensures
        min_combine(min_combine(a, b), c) == min_combine(a, min_combine(b, c)),
        max_combine(max_combine(a, b), c) == max_combine(a, max_combine(b, c)),
{
}

/// The minimum over two partitions equals the merge of the partial minima:
/// the merge form of a minimum is a minimum.
pub proof fn lemma_gmin_concat(vals: Seq<Value>, r1: Seq<u32>, r2: Seq<u32>)
    ensures
        gmin(vals, r1 + r2) == min_combine(gmin(vals, r1), gmin(vals, r2)),
    decreases r2.len(),
{
    if r2.len() == 0 {
        assert(r1 + r2 =~= r1);
    } else {
        lemma_gmin_concat(vals, r1, r2.drop_last());
        assert((r1 + r2).drop_last() =~= r1 + r2.drop_last());
        assert((r1 + r2).last() == r2.last());
        lemma_gminmax_shape(vals, r2.drop_last());
        lemma_minmax_combine_assoc(
            gmin(vals, r1),
            gmin(vals, r2.drop_last()),
            vals[r2.last() as int],
        );
    }
}

/// The maximum over two partitions equals the merge of the partial maxima:
/// the merge form of a maximum is a maximum.
pub proof fn lemma_gmax_concat(vals: Seq<Value>, r1: Seq<u32>, r2: Seq<u32>)
    ensures
        gmax(vals, r1 + r2) == max_combine(gmax(vals, r1), gmax(vals, r2)),
    decreases r2.len(),
{
    if r2.len() == 0 {
        assert(r1 + r2 =~= r1);
    } else {
        lemma_gmax_concat(vals, r1, r2.drop_last());
        assert((r1 + r2).drop_last() =~= r1 + r2.drop_last());
        assert((r1 + r2).last() == r2.last());
        lemma_gminmax_shape(vals, r2.drop_last());
        lemma_minmax_combine_assoc(
            gmax(vals, r1),
            gmax(vals, r2.drop_last()),
            vals[r2.last() as int],
        );
    }
}

} // verus!

verus! {

/// The first value over two partitions is the first partition's first: the
/// merge form of First is First, in partition order.
pub proof fn lemma_gfirst_concat(vals: Seq<Value>, r1: Seq<u32>, r2: Seq<u32>)
    requires
        r1.len() > 0,
    ensures
        agg_value(AggOp::First, vals, r1 + r2) == agg_value(AggOp::First, vals, r1),
{
    assert((r1 + r2)[0] == r1[0]);
}

/// The last value over two partitions is the second partition's last when
/// it has one: the merge form of Last is Last, in partition order.
pub proof fn lemma_glast_concat(vals: Seq<Value>, r1: Seq<u32>, r2: Seq<u32>)
    requires
        r2.len() > 0,
    ensures
        agg_value(AggOp::Last, vals, r1 + r2) == agg_value(AggOp::Last, vals, r2),
{
    assert((r1 + r2).last() == r2.last());
}

} // verus!
