//! Aggregates the columns every source scan projects, per path, and
//! rewrites each scan to read the union: under self-joins the same file is
//! scanned more than once, and since the first scan's result is what the
//! cache keeps, that first scan must read every column any other scan of
//! the same file needs. A scan whose own projection was narrower gets a
//! local projection wrapped around it.

use vstd::prelude::*;
use crate::csvbuf::SchemaField;
use crate::error::ExecError;
use crate::exec::JoinType;
use crate::expr::Expr;
use crate::table::Table;

verus! {

/// A logical query plan, walked by the optimizer.
pub enum LogicalPlan {
    Selection { input: Box<LogicalPlan>, predicate: Expr },
    CsvScan {
        path: String,
        schema: Vec<SchemaField>,
        has_header: bool,
        delimiter: u8,
        ignore_errors: bool,
        skip_rows: usize,
        stop_after_n_rows: Option<usize>,
        with_columns: Option<Vec<String>>,
        predicate: Option<Expr>,
    },
    DataFrameScan { df: Table },
    Projection { expr: Vec<Expr>, input: Box<LogicalPlan> },
    LocalProjection { expr: Vec<Expr>, input: Box<LogicalPlan> },
    Distinct { input: Box<LogicalPlan>, maintain_order: bool, subset: Option<Vec<String>> },
    Aggregate { input: Box<LogicalPlan>, keys: Vec<Expr>, aggs: Vec<Expr> },
    Join {
        input_left: Box<LogicalPlan>,
        input_right: Box<LogicalPlan>,
        how: JoinType,
        left_on: Vec<Expr>,
        right_on: Vec<Expr>,
    },
    HStack { input: Box<LogicalPlan>, exprs: Vec<Expr> },
}

/// The aggregated projections: for each path, the union of the column names
/// any scan of that path projects. Paths are unique, and so are the columns
/// under one path.
pub struct ScanColumns {
    pub entries: Vec<(String, Vec<String>)>,
}

/// The listed strings are pairwise distinct.
pub open spec fn names_unique(ns: Seq<String>) -> bool {
    forall|i: int, j: int| 0 <= i < j < ns.len() ==> ns[i]@ != ns[j]@
}

/// Some listed string reads `n`.
pub open spec fn names_has(ns: Seq<String>, n: Seq<char>) -> bool {
    exists|i: int| 0 <= i < ns.len() && (#[trigger] ns[i])@ == n
}

impl ScanColumns {
    pub open spec fn wf(self) -> bool {
        &&& forall|i: int, j: int|
            0 <= i < j < self.entries@.len() ==> self.entries@[i].0@ != self.entries@[j].0@
        &&& forall|i: int|
            0 <= i < self.entries@.len() ==> names_unique((#[trigger] self.entries@[i]).1@)
    }

    /// The map lists column `c` under path `p`.
    pub open spec fn maps(self, p: Seq<char>, c: Seq<char>) -> bool {
        exists|i: int|
            0 <= i < self.entries@.len() && (#[trigger] self.entries@[i]).0@ == p && names_has(
                self.entries@[i].1@,
                c,
            )
    }

    /// An empty aggregation.
    pub fn new() -> (r: ScanColumns)
        ensures
            r.wf(),
            r.entries@.len() == 0,
    {
        ScanColumns { entries: Vec::new() }
    }

    /// The position of the entry for `path`, if any.
    #[verifier::loop_isolation(false)]
    pub fn find_path(&self, path: &String) -> (r: Option<usize>)
        ensures
            match r {
                Some(i) => (i as int) < self.entries@.len() && self.entries@[i as int].0@ == path@,
                None => forall|i: int|
                    0 <= i < self.entries@.len() ==> (#[trigger] self.entries@[i]).0@ != path@,
            },
    {
        let mut i: usize = 0;
        while i < self.entries.len()
            invariant
                i <= self.entries@.len(),
                forall|k: int| 0 <= k < i as int ==> (#[trigger] self.entries@[k]).0@ != path@,
            decreases self.entries@.len() - i,
        {
            if crate::categorical::compare_str(&self.entries[i].0, path) {
                return Some(i);
            }
            i = i + 1;
        }
        None
    }

    /// Folds a scan's projected columns into the union for its path. Every
    /// column already listed stays listed, and afterwards every given
    /// column is listed under the path.
    #[verifier::loop_isolation(false)]
    #[verifier::rlimit(60)]
    pub fn extend_path(&mut self, path: &String, cols: &Vec<String>)
        requires
            old(self).wf(),
        ensures
            final(self).wf(),
            forall|p: Seq<char>, c: Seq<char>|
                old(self).maps(p, c) ==> final(self).maps(p, c),
            forall|k: int|
                0 <= k < cols@.len() ==> final(self).maps(path@, (#[trigger] cols@[k])@),
    {
        let pos = match self.find_path(path) {
            Some(i) => i,
            None => {
                let n = self.entries.len();
                self.entries.push((path.clone(), Vec::new()));
                proof {
                    assert forall|p: Seq<char>, c: Seq<char>|
                        old(self).maps(p, c) implies self.maps(p, c) by {
                        let i = choose|i: int|
                            0 <= i < old(self).entries@.len() && (#[trigger] old(
                                self,
                            ).entries@[i]).0@ == p && names_has(old(self).entries@[i].1@, c);
                        assert(self.entries@[i] == old(self).entries@[i]);
                    }
                }
                n
            },
        };
        let ghost mid = *self;
        let mut k: usize = 0;
        while k < cols.len()
            invariant
                k <= cols@.len(),
                pos < self.entries@.len(),
                self.entries@.len() == mid.entries@.len(),
                self.wf(),
                self.entries@[pos as int].0@ == path@,
                forall|i: int|
                    0 <= i < self.entries@.len() && i != pos as int ==> self.entries@[i]
                        == mid.entries@[i],
                forall|p: Seq<char>, c: Seq<char>| mid.maps(p, c) ==> self.maps(p, c),
                forall|m: int| 0 <= m < k as int ==> self.maps(path@, (#[trigger] cols@[m])@),
            decreases cols@.len() - k,
        {
            let ghost before = *self;
            let mut listed: bool = false;
            let mut j: usize = 0;
            let entry_len = self.entries[pos].1.len();
            while j < entry_len
                invariant
                    j <= entry_len,
                    *self == before,
                    pos < self.entries@.len(),
                    k < cols@.len(),
                    entry_len as int == self.entries@[pos as int].1@.len(),
                    !listed ==> forall|m: int|
                        0 <= m < j as int ==> (#[trigger] self.entries@[pos as int].1@[m])@
                            != cols@[k as int]@,
                    listed ==> names_has(self.entries@[pos as int].1@, cols@[k as int]@),
                decreases entry_len - j,
            {
                if crate::categorical::compare_str(&self.entries[pos].1[j], &cols[k]) {
                    listed = true;
                }
                j = j + 1;
            }
            if !listed {
                let mut entry = self.entries.remove(pos);
                let ghost entry_old = entry;
                entry.1.push(cols[k].clone());
                let ghost entry_new = entry;
                self.entries.insert(pos, entry);
                proof {
                    assert(self.entries@ =~= before.entries@.update(pos as int, entry_new));
                    assert(entry_new.1@ == entry_old.1@.push(cols@[k as int]));
                    assert(names_has(self.entries@[pos as int].1@, cols@[k as int]@)) by {
                        assert(self.entries@[pos as int].1@[entry_old.1@.len() as int]@ == cols@[
                        k as int]@);
                    }
                    assert forall|p: Seq<char>, c: Seq<char>|
                        before.maps(p, c) implies self.maps(p, c) by {
                        let i = choose|i: int|
                            0 <= i < before.entries@.len() && (#[trigger] before.entries@[i]).0@
                                == p && names_has(before.entries@[i].1@, c);
                        if i == pos as int {
                            let m = choose|m: int|
                                0 <= m < before.entries@[pos as int].1@.len() && (
                                #[trigger] before.entries@[pos as int].1@[m])@ == c;
                            assert(self.entries@[pos as int].1@[m]@ == c);
                            assert(names_has(self.entries@[pos as int].1@, c));
                        } else {
                            assert(self.entries@[i] == before.entries@[i]);
                        }
                    }
                    assert forall|m: int| 0 <= m < k as int + 1 implies self.maps(
                        path@,
                        (#[trigger] cols@[m])@,
                    ) by {
                        if m < k as int {
                            assert(before.maps(path@, cols@[m]@));
                        } else {
                            assert(names_has(self.entries@[pos as int].1@, cols@[k as int]@));
                        }
                    }
                }
            } else {
                proof {
                    assert(self.maps(path@, cols@[k as int]@));
                }
            }
            k = k + 1;
        }
    }

    /// An independent copy of the column list for `path`; empty when the
    /// path was never seen.
    #[verifier::loop_isolation(false)]
    pub fn columns_for(&self, path: &String) -> (r: Vec<String>)
        requires
            self.wf(),
        ensures
            names_unique(r@),
            forall|c: Seq<char>| self.maps(path@, c) <==> names_has(r@, c),
    {
        match self.find_path(path) {
            Some(i) => {
                let out = crate::categorical::dup_strings(&self.entries[i].1);
                proof {
                    assert forall|c: Seq<char>| self.maps(path@, c) implies names_has(
                        out@,
                        c,
                    ) by {
                        let m = choose|m: int|
                            0 <= m < self.entries@.len() && (#[trigger] self.entries@[m]).0@
                                == path@ && names_has(self.entries@[m].1@, c);
                        assert(m == i as int);
                        let j = choose|j: int|
                            0 <= j < self.entries@[m].1@.len() && (#[trigger] self.entries@[
                            m].1@[j])@ == c;
                        assert(out@[j]@ == c);
                    }
                    assert forall|c: Seq<char>| names_has(out@, c) implies self.maps(
                        path@,
                        c,
                    ) by {
                        let j = choose|j: int| 0 <= j < out@.len() && (#[trigger] out@[j])@ == c;
                        assert(self.entries@[i as int].1@[j]@ == c);
                        assert(names_has(self.entries@[i as int].1@, c));
                    }
                    assert forall|a: int, b: int| 0 <= a < b < out@.len() implies out@[a]@
                        != out@[b]@ by {
                        assert(out@[a]@ == self.entries@[i as int].1@[a]@);
                        assert(out@[b]@ == self.entries@[i as int].1@[b]@);
                    }
                }
                out
            },
            None => {
                let out: Vec<String> = Vec::new();
                proof {
                    assert forall|c: Seq<char>| self.maps(path@, c) implies names_has(
                        out@,
                        c,
                    ) by {
                        let m = choose|m: int|
                            0 <= m < self.entries@.len() && (#[trigger] self.entries@[m]).0@
                                == path@ && names_has(self.entries@[m].1@, c);
                    }
                }
                out
            },
        }
    }
}

/// Every column a scan of the plan projects is aggregated under its path.
pub open spec fn scans_requested_in(lp: LogicalPlan, m: ScanColumns) -> bool
    decreases lp,
{
    match lp {
        LogicalPlan::Selection { input, .. } => scans_requested_in(*input, m),
        LogicalPlan::CsvScan { path, with_columns, .. } => match with_columns {
            Some(cols) => forall|k: int|
                0 <= k < cols@.len() ==> m.maps(path@, (#[trigger] cols@[k])@),
            None => true,
        },
        LogicalPlan::DataFrameScan { .. } => true,
        LogicalPlan::Projection { input, .. } => scans_requested_in(*input, m),
        LogicalPlan::LocalProjection { input, .. } => scans_requested_in(*input, m),
        LogicalPlan::Distinct { input, .. } => scans_requested_in(*input, m),
        LogicalPlan::Aggregate { input, .. } => scans_requested_in(*input, m),
        LogicalPlan::Join { input_left, input_right, .. } => scans_requested_in(*input_left, m)
            && scans_requested_in(*input_right, m),
        LogicalPlan::HStack { input, .. } => scans_requested_in(*input, m),
    }
}

/// Every scan of the plan reads exactly the aggregated union for its path.
pub open spec fn scans_read_union(lp: LogicalPlan, m: ScanColumns) -> bool
    decreases lp,
{
    match lp {
        LogicalPlan::Selection { input, .. } => scans_read_union(*input, m),
        LogicalPlan::CsvScan { path, with_columns, .. } => with_columns matches Some(cs) && (
        forall|c: Seq<char>| m.maps(path@, c) <==> names_has(cs@, c)),
        LogicalPlan::DataFrameScan { .. } => true,
        LogicalPlan::Projection { input, .. } => scans_read_union(*input, m),
        LogicalPlan::LocalProjection { input, .. } => scans_read_union(*input, m),
        LogicalPlan::Distinct { input, .. } => scans_read_union(*input, m),
        LogicalPlan::Aggregate { input, .. } => scans_read_union(*input, m),
        LogicalPlan::Join { input_left, input_right, .. } => scans_read_union(*input_left, m)
            && scans_read_union(*input_right, m),
        LogicalPlan::HStack { input, .. } => scans_read_union(*input, m),
    }
}

/// Coverage survives growing the aggregation.
pub proof fn lemma_requested_mono(lp: LogicalPlan, m1: ScanColumns, m2: ScanColumns)
    requires
        scans_requested_in(lp, m1),
        forall|p: Seq<char>, c: Seq<char>| m1.maps(p, c) ==> m2.maps(p, c),
    ensures
        scans_requested_in(lp, m2),
    decreases lp,
{
    match lp {
        LogicalPlan::Selection { input, .. } => lemma_requested_mono(*input, m1, m2),
        LogicalPlan::CsvScan { .. } => {},
        LogicalPlan::DataFrameScan { .. } => {},
        LogicalPlan::Projection { input, .. } => lemma_requested_mono(*input, m1, m2),
        LogicalPlan::LocalProjection { input, .. } => lemma_requested_mono(*input, m1, m2),
        LogicalPlan::Distinct { input, .. } => lemma_requested_mono(*input, m1, m2),
        LogicalPlan::Aggregate { input, .. } => lemma_requested_mono(*input, m1, m2),
        LogicalPlan::Join { input_left, input_right, .. } => {
            lemma_requested_mono(*input_left, m1, m2);
            lemma_requested_mono(*input_right, m1, m2);
        },
        LogicalPlan::HStack { input, .. } => lemma_requested_mono(*input, m1, m2),
    }
}

/// How the rewrite transforms one scan: it reads its path's aggregated
/// union, and when its own projection was narrower, a local projection of
/// the original columns is wrapped around it.
pub open spec fn scan_rewrite_ok(
    path: String,
    schema: Vec<SchemaField>,
    has_header: bool,
    delimiter: u8,
    ignore_errors: bool,
    skip_rows: usize,
    stop_after_n_rows: Option<usize>,
    with_columns: Option<Vec<String>>,
    predicate: Option<Expr>,
    m: ScanColumns,
    out: LogicalPlan,
) -> bool {
    exists|agg_cols: Vec<String>|
        {
            &&& #[trigger] names_unique(agg_cols@)
            &&& forall|c: Seq<char>| m.maps(path@, c) <==> names_has(agg_cols@, c)
            &&& {
                let scan2 = (LogicalPlan::CsvScan {
                    path: path,
                    schema: schema,
                    has_header: has_header,
                    delimiter: delimiter,
                    ignore_errors: ignore_errors,
                    skip_rows: skip_rows,
                    stop_after_n_rows: stop_after_n_rows,
                    with_columns: Some(agg_cols),
                    predicate: predicate,
                });
                match with_columns {
                    Some(cols) => if cols@.len() < agg_cols@.len() {
                        out matches LogicalPlan::LocalProjection { expr, input } && *input
                            == scan2 && exprs_are_cols(expr@, cols@)
                    } else {
                        out == scan2
                    },
                    None => out == scan2,
                }
            }
        }
}

/// The expression list projects exactly the named columns, in order.
pub open spec fn exprs_are_cols(exprs: Seq<Expr>, cols: Seq<String>) -> bool {
    exprs.len() == cols.len() && forall|k: int|
        0 <= k < cols.len() ==> #[trigger] exprs[k] == Expr::Col(cols[k])
}

/// The output plan is the input plan with every scan rewritten to read its
/// path's union (wrapped in a local projection where its own projection was
/// narrower) and everything else unchanged.
pub open spec fn rewrites_to(inp: LogicalPlan, out: LogicalPlan, m: ScanColumns) -> bool
    decreases inp,
{
    match inp {
        LogicalPlan::Selection { input, predicate } => out matches LogicalPlan::Selection {
            input: oi,
            predicate: op2,
        } && op2 == predicate && rewrites_to(*input, *oi, m),
        LogicalPlan::CsvScan {
            path,
            schema,
            has_header,
            delimiter,
            ignore_errors,
            skip_rows,
            stop_after_n_rows,
            with_columns,
            predicate,
        } => scan_rewrite_ok(
            path,
            schema,
            has_header,
            delimiter,
            ignore_errors,
            skip_rows,
            stop_after_n_rows,
            with_columns,
            predicate,
            m,
            out,
        ),
        LogicalPlan::DataFrameScan { .. } => out == inp,
        LogicalPlan::Projection { expr, input } => out matches LogicalPlan::Projection {
            expr: oe,
            input: oi,
        } && oe == expr && rewrites_to(*input, *oi, m),
        LogicalPlan::LocalProjection { expr, input } => out
            matches LogicalPlan::LocalProjection { expr: oe, input: oi } && oe == expr
            && rewrites_to(*input, *oi, m),
        LogicalPlan::Distinct { input, maintain_order, subset } => out
            matches LogicalPlan::Distinct { input: oi, maintain_order: om, subset: os } && om
            == maintain_order && os == subset && rewrites_to(*input, *oi, m),
        LogicalPlan::Aggregate { input, keys, aggs } => out matches LogicalPlan::Aggregate {
            input: oi,
            keys: ok,
            aggs: oa,
        } && ok == keys && oa == aggs && rewrites_to(*input, *oi, m),
        LogicalPlan::Join { input_left, input_right, how, left_on, right_on } => out
            matches LogicalPlan::Join {
            input_left: ol,
            input_right: orr,
            how: oh,
            left_on: olo,
            right_on: oro,
        } && oh == how && olo == left_on && oro == right_on && rewrites_to(*input_left, *ol, m)
            && rewrites_to(*input_right, *orr, m),
        LogicalPlan::HStack { input, exprs } => out matches LogicalPlan::HStack {
            input: oi,
            exprs: oe,
        } && oe == exprs && rewrites_to(*input, *oi, m),
    }
}

/// Aggregates all columns used in source scans and rewrites the plan so
/// that every scan of one file reads the same, full set of columns: the
/// first scan executed, whose result the cache keeps, then has every column
/// a later scan needs.
pub struct AggScanProjection {}

impl AggScanProjection {
    /// First pass: walks the plan and folds every scan's projected columns
    /// into the union for its path. The plan comes back unchanged in
    /// structure.
    pub fn agg_projection(&self, logical_plan: LogicalPlan, columns: &mut ScanColumns) -> (r:
        Result<LogicalPlan, ExecError>)
        requires
            old(columns).wf(),
        ensures
            final(columns).wf(),
            forall|p: Seq<char>, c: Seq<char>|
                old(columns).maps(p, c) ==> final(columns).maps(p, c),
            r is Ok ==> scans_requested_in(logical_plan, *final(columns)),
            r matches Ok(p) ==> p == logical_plan,
        decreases logical_plan,
    {
        match logical_plan {
            LogicalPlan::Selection { input, predicate } => {
                let input = Box::new(self.agg_projection(*input, columns)?);
                Ok(LogicalPlan::Selection { input, predicate })
            },
            LogicalPlan::CsvScan {
                path,
                schema,
                has_header,
                delimiter,
                ignore_errors,
                skip_rows,
                stop_after_n_rows,
                with_columns,
                predicate,
            } => {
                if let Some(cols) = &with_columns {
                    columns.extend_path(&path, cols);
                }
                Ok(
                    LogicalPlan::CsvScan {
                        path,
                        schema,
                        has_header,
                        delimiter,
                        ignore_errors,
                        skip_rows,
                        stop_after_n_rows,
                        with_columns,
                        predicate,
                    },
                )
            },
            LogicalPlan::DataFrameScan { df } => Ok(LogicalPlan::DataFrameScan { df }),
            LogicalPlan::Projection { expr, input } => {
                let input = Box::new(self.agg_projection(*input, columns)?);
                Ok(LogicalPlan::Projection { expr, input })
            },
            LogicalPlan::LocalProjection { expr, input } => {
                let input = Box::new(self.agg_projection(*input, columns)?);
                Ok(LogicalPlan::LocalProjection { expr, input })
            },
            LogicalPlan::Distinct { input, maintain_order, subset } => {
                let input = Box::new(self.agg_projection(*input, columns)?);
                Ok(LogicalPlan::Distinct { input, maintain_order, subset })
            },
            LogicalPlan::Aggregate { input, keys, aggs } => {
                let input = Box::new(self.agg_projection(*input, columns)?);
                Ok(LogicalPlan::Aggregate { input, keys, aggs })
            },
            LogicalPlan::Join { input_left, input_right, how, left_on, right_on } => {
                let ghost left_snap = *input_left;
                let input_left = Box::new(self.agg_projection(*input_left, columns)?);
                let ghost mid = *columns;
                let input_right = Box::new(self.agg_projection(*input_right, columns)?);
                proof {
                    lemma_requested_mono(left_snap, mid, *columns);
                }
                Ok(LogicalPlan::Join { input_left, input_right, how, left_on, right_on })
            },
            LogicalPlan::HStack { input, exprs } => {
                let input = Box::new(self.agg_projection(*input, columns)?);
                Ok(LogicalPlan::HStack { input, exprs })
            },
        }
    }

    /// Second pass: every scan now reads the aggregated union for its path;
    /// a scan whose own projection was narrower gets a local projection
    /// wrapped around it, so its own output is unchanged.
    pub fn rewrite_plan(&self, logical_plan: LogicalPlan, columns: &ScanColumns) -> (r: Result<
        LogicalPlan,
        ExecError,
    >)
        requires
            columns.wf(),
        ensures
            r matches Ok(p) ==> scans_read_union(p, *columns),
            r matches Ok(p) ==> rewrites_to(logical_plan, p, *columns),
        decreases logical_plan,
    {
        match logical_plan {
            LogicalPlan::Selection { input, predicate } => {
                let input = Box::new(self.rewrite_plan(*input, columns)?);
                Ok(LogicalPlan::Selection { input, predicate })
            },
            LogicalPlan::CsvScan {
                path,
                schema,
                has_header,
                delimiter,
                ignore_errors,
                skip_rows,
                stop_after_n_rows,
                with_columns,
                predicate,
            } => {
                let agg = columns.columns_for(&path);
                let ghost agg_snap = agg;
                let agg_len = agg.len();
                let lp = LogicalPlan::CsvScan {
                    path,
                    schema,
                    has_header,
                    delimiter,
                    ignore_errors,
                    skip_rows,
                    stop_after_n_rows,
                    with_columns: Some(agg),
                    predicate,
                };
                let ghost lp_snap = lp;
                proof {
                    assert(scans_read_union(lp_snap, *columns));
                }
                // a narrower original projection becomes a local projection
                // on top, so this scan's own output keeps its shape
                if let Some(cols) = with_columns {
                    if cols.len() < agg_len {
                        let mut exprs: Vec<Expr> = Vec::new();
                        let mut k: usize = 0;
                        while k < cols.len()
                            invariant
                                k <= cols@.len(),
                                exprs@.len() == k as int,
                                forall|k2: int|
                                    0 <= k2 < k as int ==> #[trigger] exprs@[k2] == Expr::Col(
                                        cols@[k2],
                                    ),
                            decreases cols@.len() - k,
                        {
                            exprs.push(Expr::Col(cols[k].clone()));
                            k = k + 1;
                        }
                        let ghost exprs_snap = exprs@;
                        let out = LogicalPlan::LocalProjection { expr: exprs, input: Box::new(lp) };
                        proof {
                            assert(exprs_are_cols(exprs_snap, cols@));
                            assert(rewrites_to(logical_plan, out, *columns));
                        }
                        return Ok(out);
                    }
                }
                proof {
                    assert(rewrites_to(logical_plan, lp_snap, *columns));
                }
                Ok(lp)
            },
            LogicalPlan::DataFrameScan { df } => Ok(LogicalPlan::DataFrameScan { df }),
            LogicalPlan::Projection { expr, input } => {
                let input = Box::new(self.rewrite_plan(*input, columns)?);
                Ok(LogicalPlan::Projection { expr, input })
            },
            LogicalPlan::LocalProjection { expr, input } => {
                let input = Box::new(self.rewrite_plan(*input, columns)?);
                Ok(LogicalPlan::LocalProjection { expr, input })
            },
            LogicalPlan::Distinct { input, maintain_order, subset } => {
                let input = Box::new(self.rewrite_plan(*input, columns)?);
                Ok(LogicalPlan::Distinct { input, maintain_order, subset })
            },
            LogicalPlan::Aggregate { input, keys, aggs } => {
                let input = Box::new(self.rewrite_plan(*input, columns)?);
                Ok(LogicalPlan::Aggregate { input, keys, aggs })
            },
            LogicalPlan::Join { input_left, input_right, how, left_on, right_on } => {
                let input_left = Box::new(self.rewrite_plan(*input_left, columns)?);
                let input_right = Box::new(self.rewrite_plan(*input_right, columns)?);
                Ok(LogicalPlan::Join { input_left, input_right, how, left_on, right_on })
            },
            LogicalPlan::HStack { input, exprs } => {
                let input = Box::new(self.rewrite_plan(*input, columns)?);
                Ok(LogicalPlan::HStack { input, exprs })
            },
        }
    }

    /// Aggregates every scan's projection, then rewrites all scans of the
    /// same file to read the same full column set, so the first scan
    /// materializes everything the cache must serve: for some per-path
    /// aggregation covering every requested column, the output is the input
    /// plan with each scan rewritten to its path's union and everything
    /// else unchanged.
    pub fn optimize(&self, logical_plan: LogicalPlan) -> (r: Result<LogicalPlan, ExecError>)
        ensures
            r matches Ok(p) ==> exists|m: ScanColumns|
                m.wf() && #[trigger] scans_requested_in(logical_plan, m) && scans_read_union(
                    p,
                    m,
                ) && rewrites_to(logical_plan, p, m),
    {
        let ghost input_snap = logical_plan;
        let mut agg = ScanColumns::new();
        let logical_plan = match self.agg_projection(logical_plan, &mut agg) {
            Ok(p) => p,
            Err(e) => {
                return Err(e);
            },
        };
        let r = self.rewrite_plan(logical_plan, &agg);
        proof {
            if r is Ok {
                assert(scans_requested_in(input_snap, agg) && scans_read_union(
                    r.unwrap(),
                    agg,
                ) && rewrites_to(input_snap, r.unwrap(), agg));
            }
        }
        r
    }
}

} // verus!
