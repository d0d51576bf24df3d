//! An ordered collection of named, equal-length columns. Operators consume
//! tables and emit tables; every operation here preserves the invariant that
//! all columns share one height and no name repeats.

use vstd::prelude::*;
use crate::column::{col_like, seq_veq, Column};
use crate::error::ExecError;
use crate::value::{veq, Value};

verus! {

/// A realized table.
pub struct Table {
    pub cols: Vec<Column>,
}

/// The values of `s` that `keep` selects, in order.
pub open spec fn filtered(s: Seq<Value>, keep: Seq<bool>) -> Seq<Value>
    decreases s.len(),
{
    if s.len() == 0 || keep.len() == 0 {
        Seq::empty()
    } else {
        let rest = filtered(s.drop_last(), keep.drop_last());
        if keep.last() {
            rest.push(s.last())
        } else {
            rest
        }
    }
}

/// How many entries of `keep` are true.
pub open spec fn count_true(keep: Seq<bool>) -> int
    decreases keep.len(),
{
    if keep.len() == 0 {
        0
    } else {
        count_true(keep.drop_last()) + if keep.last() {
            1int
        } else {
            0int
        }
    }
}

pub proof fn lemma_filtered_len(s: Seq<Value>, keep: Seq<bool>)
    requires
        s.len() == keep.len(),
    ensures
        filtered(s, keep).len() == count_true(keep),
    decreases s.len(),
{
    if s.len() > 0 {
        lemma_filtered_len(s.drop_last(), keep.drop_last());
    }
}

pub proof fn lemma_filtered_step(s: Seq<Value>, keep: Seq<bool>, i: int)
    requires
        0 <= i < s.len(),
        i < keep.len(),
    ensures
        filtered(s.take(i + 1), keep.take(i + 1)) == if keep[i] {
            filtered(s.take(i), keep.take(i)).push(s[i])
        } else {
            filtered(s.take(i), keep.take(i))
        },
{
    assert(s.take(i + 1).drop_last() =~= s.take(i));
    assert(keep.take(i + 1).drop_last() =~= keep.take(i));
}

/// The two tables agree column for column.
pub open spec fn table_like(a: Table, b: Table) -> bool {
    a.cols@.len() == b.cols@.len() && forall|i: int|
        0 <= i < a.cols@.len() ==> col_like(a.cols@[i], b.cols@[i])
}

/// Structural equality preserves well-formedness: names and lengths agree.
pub proof fn lemma_table_like_wf(a: Table, b: Table)
    requires
        table_like(a, b),
        b.wf(),
    ensures
        a.wf(),
{
    assert(forall|i: int|
        0 <= i < a.cols@.len() ==> (#[trigger] a.cols@[i]).len_spec() == b.cols@[i].len_spec());
    assert(forall|i: int|
        0 <= i < a.cols@.len() ==> (#[trigger] a.cols@[i]).name@ == b.cols@[i].name@);
}

pub proof fn lemma_table_like_sym(a: Table, b: Table)
    requires
        table_like(a, b),
    ensures
        table_like(b, a),
{
    assert forall|i: int| 0 <= i < b.cols@.len() implies col_like(b.cols@[i], a.cols@[i]) by {
        crate::column::lemma_col_like_sym(a.cols@[i], b.cols@[i]);
    }
}

impl Table {
    /// The height every column must share.
    pub open spec fn height_spec(self) -> int {
        if self.cols@.len() == 0 {
            0
        } else {
            self.cols@[0].len_spec()
        }
    }

    /// Equal-length columns with pairwise distinct names.
    pub open spec fn wf(self) -> bool {
        &&& forall|i: int|
            0 <= i < self.cols@.len() ==> self.cols@[i].len_spec() == self.height_spec()
        &&& forall|i: int, j: int|
            0 <= i < j < self.cols@.len() ==> self.cols@[i].name@ != self.cols@[j].name@
    }

    /// Some column bears the name `n`.
    pub open spec fn has_col(self, n: Seq<char>) -> bool {
        exists|i: int| 0 <= i < self.cols@.len() && self.cols@[i].name@ == n
    }

    /// Wraps the columns without validating them; callers establish
    /// well-formedness where the operations need it.
    pub fn new_no_checks(cols: Vec<Column>) -> (r: Table)
        ensures
            r.cols == cols,
    {
        Table { cols }
    }

    /// The empty table.
    pub fn empty() -> (r: Table)
        ensures
            r.cols@.len() == 0,
            r.wf(),
    {
        Table { cols: Vec::new() }
    }

    /// The number of rows.
    pub fn height(&self) -> (r: usize)
        ensures
            r as int == self.height_spec(),
    {
        if self.cols.len() == 0 {
            0
        } else {
            self.cols[0].len()
        }
    }

    /// The number of columns.
    pub fn width(&self) -> (r: usize)
        ensures
            r as int == self.cols@.len(),
    {
        self.cols.len()
    }

    /// The position of the first column named `name`, if any.
    #[verifier::loop_isolation(false)]
    pub fn find_column(&self, name: &String) -> (r: Option<usize>)
        ensures
            match r {
                Some(i) => (i as int) < self.cols@.len() && self.cols@[i as int].name@ == name@
                    && forall|k: int| 0 <= k < i as int ==> self.cols@[k].name@ != name@,
                None => !self.has_col(name@),
            },
    {
        let mut i: usize = 0;
        while i < self.cols.len()
            invariant
                i <= self.cols@.len(),
                forall|k: int| 0 <= k < i as int ==> self.cols@[k].name@ != name@,
            decreases self.cols@.len() - i,
        {
            if crate::categorical::compare_str(&self.cols[i].name, name) {
                return Some(i);
            }
            i = i + 1;
        }
        None
    }

    /// An independent copy of the table.
    #[verifier::loop_isolation(false)]
    pub fn dup(&self) -> (r: Table)
        ensures
            table_like(r, *self),
    {
        let mut cols: Vec<Column> = Vec::new();
        let mut i: usize = 0;
        while i < self.cols.len()
            invariant
                i <= self.cols@.len(),
                cols@.len() == i as int,
                forall|k: int| 0 <= k < i as int ==> col_like(cols@[k], self.cols@[k]),
            decreases self.cols@.len() - i,
        {
            cols.push(self.cols[i].dup());
            i = i + 1;
        }
        Table { cols }
    }

    /// Keeps the rows whose mask entry is true, across every column.
    #[verifier::loop_isolation(false)]
    pub fn filter_rows(&self, keep: &Vec<bool>) -> (r: Table)
        requires
            self.wf(),
            keep@.len() == self.height_spec(),
        ensures
            r.wf(),
            r.cols@.len() == self.cols@.len(),
            forall|c: int| 0 <= c < r.cols@.len() ==> r.cols@[c].name@ == self.cols@[c].name@,
            forall|c: int|
                0 <= c < r.cols@.len() ==> seq_veq(
                    r.cols@[c].values@,
                    filtered(self.cols@[c].values@, keep@),
                ),
            r.height_spec() == (if self.cols@.len() == 0 {
                0int
            } else {
                count_true(keep@)
            }),
    {
        let mut cols: Vec<Column> = Vec::new();
        let mut c: usize = 0;
        while c < self.cols.len()
            invariant
                c <= self.cols@.len(),
                cols@.len() == c as int,
                forall|k: int| 0 <= k < c as int ==> cols@[k].name@ == self.cols@[k].name@,
                forall|k: int|
                    0 <= k < c as int ==> seq_veq(
                        cols@[k].values@,
                        filtered(self.cols@[k].values@, keep@),
                    ),
                forall|k: int| 0 <= k < c as int ==> cols@[k].len_spec() == count_true(keep@),
            decreases self.cols@.len() - c,
        {
            let vals = filter_values(&self.cols[c].values, keep);
            proof {
                lemma_filtered_len(self.cols@[c as int].values@, keep@);
            }
            cols.push(Column { name: self.cols[c].name.clone(), values: vals, cat: None });
            c = c + 1;
        }
        Table { cols }
    }

    /// The rows `start .. start + len`, clamped to the table.
    #[verifier::loop_isolation(false)]
    pub fn slice_range(&self, start: usize, len: usize) -> (r: Table)
        requires
            self.wf(),
            start as int + len as int <= self.height_spec(),
        ensures
            r.wf(),
            r.cols@.len() == self.cols@.len(),
            forall|c: int| 0 <= c < r.cols@.len() ==> r.cols@[c].name@ == self.cols@[c].name@,
            forall|c: int|
                0 <= c < r.cols@.len() ==> seq_veq(
                    r.cols@[c].values@,
                    self.cols@[c].values@.subrange(start as int, start as int + len as int),
                ),
            r.height_spec() == (if self.cols@.len() == 0 {
                0int
            } else {
                len as int
            }),
    {
        let mut cols: Vec<Column> = Vec::new();
        let mut c: usize = 0;
        while c < self.cols.len()
            invariant
                c <= self.cols@.len(),
                cols@.len() == c as int,
                forall|k: int| 0 <= k < c as int ==> cols@[k].name@ == self.cols@[k].name@,
                forall|k: int|
                    0 <= k < c as int ==> seq_veq(
                        cols@[k].values@,
                        self.cols@[k].values@.subrange(start as int, start as int + len as int),
                    ),
                forall|k: int| 0 <= k < c as int ==> cols@[k].len_spec() == len as int,
            decreases self.cols@.len() - c,
        {
            let vals = subrange_values(&self.cols[c].values, start, len);
            cols.push(Column { name: self.cols[c].name.clone(), values: vals, cat: None });
            c = c + 1;
        }
        Table { cols }
    }

    /// A slice under the offset convention of the slice operator: a negative
    /// offset counts back from the end, and the length is clamped to what is
    /// there.
    pub fn slice(&self, offset: i64, len: usize) -> (r: Table)
        requires
            self.wf(),
            self.height_spec() <= i64::MAX as int,
        ensures
            r.wf(),
            r.cols@.len() == self.cols@.len(),
            forall|c: int| 0 <= c < r.cols@.len() ==> r.cols@[c].name@ == self.cols@[c].name@,
            forall|c: int|
                0 <= c < r.cols@.len() ==> seq_veq(
                    r.cols@[c].values@,
                    self.cols@[c].values@.subrange(
                        slice_start(self.height_spec(), offset as int),
                        slice_start(self.height_spec(), offset as int) + slice_len(
                            self.height_spec(),
                            offset as int,
                            len as int,
                        ),
                    ),
                ),
    {
        let height = self.height();
        let start: usize = if offset >= 0 {
            if (offset as u64) < (height as u64) {
                offset as usize
            } else {
                height
            }
        } else {
            let back: i128 = -(offset as i128);
            if back < height as i128 {
                height - (back as usize)
            } else {
                0
            }
        };
        let take: usize = if len < height - start {
            len
        } else {
            height - start
        };
        self.slice_range(start, take)
    }

    /// At most the first `n` rows.
    pub fn head(&self, n: usize) -> (r: Table)
        requires
            self.wf(),
        ensures
            r.wf(),
            r.cols@.len() == self.cols@.len(),
            forall|c: int| 0 <= c < r.cols@.len() ==> r.cols@[c].name@ == self.cols@[c].name@,
            forall|c: int|
                0 <= c < r.cols@.len() ==> seq_veq(
                    r.cols@[c].values@,
                    self.cols@[c].values@.subrange(0, min_int(n as int, self.height_spec())),
                ),
    {
        let height = self.height();
        let take: usize = if n < height {
            n
        } else {
            height
        };
        self.slice_range(0, take)
    }

    /// The rows at the given positions, in that order.
    #[verifier::loop_isolation(false)]
    pub fn take_rows(&self, idxs: &Vec<u32>) -> (r: Table)
        requires
            self.wf(),
            forall|i: int| 0 <= i < idxs@.len() ==> (idxs@[i] as int) < self.height_spec(),
        ensures
            r.wf(),
            r.cols@.len() == self.cols@.len(),
            forall|c: int| 0 <= c < r.cols@.len() ==> r.cols@[c].name@ == self.cols@[c].name@,
            forall|c: int, i: int|
                0 <= c < r.cols@.len() && 0 <= i < idxs@.len() ==> veq(
                    r.cols@[c].values@[i],
                    self.cols@[c].values@[idxs@[i] as int],
                ),
            r.height_spec() == (if self.cols@.len() == 0 {
                0int
            } else {
                idxs@.len() as int
            }),
    {
        let mut cols: Vec<Column> = Vec::new();
        let mut c: usize = 0;
        while c < self.cols.len()
            invariant
                c <= self.cols@.len(),
                cols@.len() == c as int,
                forall|k: int| 0 <= k < c as int ==> cols@[k].name@ == self.cols@[k].name@,
                forall|k: int, i: int|
                    0 <= k < c as int && 0 <= i < idxs@.len() ==> veq(
                        cols@[k].values@[i],
                        self.cols@[k].values@[idxs@[i] as int],
                    ),
                forall|k: int| 0 <= k < c as int ==> cols@[k].len_spec() == idxs@.len() as int,
            decreases self.cols@.len() - c,
        {
            let vals = take_values(&self.cols[c].values, idxs);
            cols.push(Column { name: self.cols[c].name.clone(), values: vals, cat: None });
            c = c + 1;
        }
        Table { cols }
    }

    /// The rows at the given positions, with an absent position yielding a
    /// null in every column.
    #[verifier::loop_isolation(false)]
    pub fn take_opt_rows(&self, idxs: &Vec<Option<u32>>) -> (r: Table)
        requires
            self.wf(),
            forall|i: int|
                0 <= i < idxs@.len() ==> ((#[trigger] idxs@[i]) matches Some(x) ==> (x as int)
                    < self.height_spec()),
        ensures
            r.wf(),
            r.cols@.len() == self.cols@.len(),
            forall|c: int| 0 <= c < r.cols@.len() ==> r.cols@[c].name@ == self.cols@[c].name@,
            forall|c: int, i: int|
                0 <= c < r.cols@.len() && 0 <= i < idxs@.len() ==> match #[trigger] idxs@[i] {
                    Some(x) => veq(#[trigger] r.cols@[c].values@[i], self.cols@[c].values@[x as int]),
                    None => r.cols@[c].values@[i] is Null,
                },
            r.height_spec() == (if self.cols@.len() == 0 {
                0int
            } else {
                idxs@.len() as int
            }),
    {
        let mut cols: Vec<Column> = Vec::new();
        let mut c: usize = 0;
        while c < self.cols.len()
            invariant
                c <= self.cols@.len(),
                cols@.len() == c as int,
                forall|k: int| 0 <= k < c as int ==> cols@[k].name@ == self.cols@[k].name@,
                forall|k: int, i: int|
                    0 <= k < c as int && 0 <= i < idxs@.len() ==> match #[trigger] idxs@[i] {
                        Some(x) => veq(#[trigger] cols@[k].values@[i], self.cols@[k].values@[x as int]),
                        None => cols@[k].values@[i] is Null,
                    },
                forall|k: int| 0 <= k < c as int ==> cols@[k].len_spec() == idxs@.len() as int,
            decreases self.cols@.len() - c,
        {
            let vals = take_opt_values(&self.cols[c].values, idxs);
            cols.push(Column { name: self.cols[c].name.clone(), values: vals, cat: None });
            c = c + 1;
        }
        Table { cols }
    }

    /// Replaces the column of the same name, or appends the column when the
    /// name is new. Fails when the length does not fit the table.
    #[verifier::loop_isolation(false)]
    pub fn replace_or_add(&mut self, col: Column) -> (r: Result<(), ExecError>)
        requires
            old(self).wf(),
        ensures
            final(self).wf(),
            r is Ok <==> (old(self).cols@.len() == 0 || col.len_spec() == old(
                self,
            ).height_spec()),
            r is Err ==> *final(self) == *old(self),
            r is Ok ==> final(self).has_col(col.name@),
            r is Ok ==> (if old(self).has_col(col.name@) {
                final(self).cols@.len() == old(self).cols@.len() && exists|i: int|
                    0 <= i < old(self).cols@.len() && old(self).cols@[i].name@ == col.name@
                        && final(self).cols@ == old(self).cols@.update(i, col)
            } else {
                final(self).cols@ == old(self).cols@.push(col)
            }),
    {
        if self.cols.len() > 0 && col.len() != self.height() {
            return Err(ExecError::SchemaError("column length does not fit the table".to_owned()));
        }
        let ghost cname = col.name@;
        let pos = self.find_column(&col.name);
        match pos {
            Some(i) => {
                self.cols.set(i, col);
                proof {
                    assert(self.cols@[i as int].name@ == cname);
                }
            },
            None => {
                self.cols.push(col);
                proof {
                    assert(self.cols@[self.cols@.len() - 1].name@ == cname);
                }
            },
        }
        Ok(())
    }
}

/// Where a slice starts: a non-negative offset from the front, a negative
/// one from the back, clamped to the table.
pub open spec fn slice_start(height: int, offset: int) -> int {
    if offset >= 0 {
        min_int(offset, height)
    } else if height + offset >= 0 {
        height + offset
    } else {
        0
    }
}

/// How many rows a slice takes once its start is fixed.
pub open spec fn slice_len(height: int, offset: int, len: int) -> int {
    min_int(len, height - slice_start(height, offset))
}

pub open spec fn min_int(a: int, b: int) -> int {
    if a <= b {
        a
    } else {
        b
    }
}

/// Keeps the values whose mask entry is true.
#[verifier::loop_isolation(false)]
pub fn filter_values(vals: &Vec<Value>, keep: &Vec<bool>) -> (r: Vec<Value>)
    requires
        vals@.len() == keep@.len(),
    ensures
        seq_veq(r@, filtered(vals@, keep@)),
{
    let mut out: Vec<Value> = Vec::new();
    let mut i: usize = 0;
    while i < vals.len()
        invariant
            i <= vals@.len(),
            seq_veq(out@, filtered(vals@.take(i as int), keep@.take(i as int))),
        decreases vals@.len() - i,
    {
        proof {
            lemma_filtered_step(vals@, keep@, i as int);
        }
        if keep[i] {
            out.push(vals[i].dup());
        }
        i = i + 1;
    }
    proof {
        assert(vals@.take(vals@.len() as int) =~= vals@);
        assert(keep@.take(vals@.len() as int) =~= keep@);
    }
    out
}

/// The values `start .. start + len`.
#[verifier::loop_isolation(false)]
pub fn subrange_values(vals: &Vec<Value>, start: usize, len: usize) -> (r: Vec<Value>)
    requires
        start as int + len as int <= vals@.len(),
    ensures
        seq_veq(r@, vals@.subrange(start as int, start as int + len as int)),
{
    let n = vals.len();
    let mut out: Vec<Value> = Vec::new();
    let mut i: usize = 0;
    while i < len
        invariant
            i <= len,
            n == vals@.len(),
            out@.len() == i as int,
            forall|k: int| 0 <= k < i as int ==> veq(out@[k], vals@[start as int + k]),
        decreases len - i,
    {
        out.push(vals[start + i].dup());
        i = i + 1;
    }
    out
}

/// The values at the given positions.
#[verifier::loop_isolation(false)]
pub fn take_values(vals: &Vec<Value>, idxs: &Vec<u32>) -> (r: Vec<Value>)
    requires
        forall|i: int| 0 <= i < idxs@.len() ==> (idxs@[i] as int) < vals@.len(),
    ensures
        r@.len() == idxs@.len(),
        forall|i: int| 0 <= i < idxs@.len() ==> veq(r@[i], vals@[idxs@[i] as int]),
{
    let mut out: Vec<Value> = Vec::new();
    let mut i: usize = 0;
    while i < idxs.len()
        invariant
            i <= idxs@.len(),
            out@.len() == i as int,
            forall|k: int| 0 <= k < i as int ==> veq(out@[k], vals@[idxs@[k] as int]),
        decreases idxs@.len() - i,
    {
        out.push(vals[idxs[i] as usize].dup());
        i = i + 1;
    }
    out
}

/// The values at the given positions, null where the position is absent.
#[verifier::loop_isolation(false)]
pub fn take_opt_values(vals: &Vec<Value>, idxs: &Vec<Option<u32>>) -> (r: Vec<Value>)
    requires
        forall|i: int|
            0 <= i < idxs@.len() ==> ((#[trigger] idxs@[i]) matches Some(x) ==> (x as int) < vals@.len()),
    ensures
        r@.len() == idxs@.len(),
        forall|i: int|
            0 <= i < idxs@.len() ==> match #[trigger] idxs@[i] {
                Some(x) => veq(r@[i], vals@[x as int]),
                None => r@[i] is Null,
            },
{
    let mut out: Vec<Value> = Vec::new();
    let mut i: usize = 0;
    while i < idxs.len()
        invariant
            i <= idxs@.len(),
            out@.len() == i as int,
            forall|k: int|
                0 <= k < i as int ==> match #[trigger] idxs@[k] {
                    Some(x) => veq(out@[k], vals@[x as int]),
                    None => out@[k] is Null,
                },
        decreases idxs@.len() - i,
    {
        match idxs[i] {
            Some(x) => out.push(vals[x as usize].dup()),
            None => out.push(Value::Null),
        }
        i = i + 1;
    }
    out
}

} // verus!

verus! {

impl Table {
    /// The named columns, in the order requested, as independent copies.
    /// Fails exactly when some requested name is absent.
    #[verifier::loop_isolation(false)]
    pub fn select_columns(&self, names: &Vec<String>) -> (r: Result<Table, ExecError>)
        requires
            self.wf(),
        ensures
            r is Ok <==> (forall|k: int| 0 <= k < names@.len() ==> self.has_col(
                #[trigger] names@[k]@,
            )),
            r matches Ok(t) ==> t.cols@.len() == names@.len() && forall|k: int|
                0 <= k < names@.len() ==> (#[trigger] t.cols@[k]).name@ == names@[k]@ && exists|
                    c: int,
                |
                    0 <= c < self.cols@.len() && self.cols@[c].name@ == names@[k]@ && seq_veq(
                        t.cols@[k].values@,
                        (#[trigger] self.cols@[c]).values@,
                    ),
    {
        let mut cols: Vec<Column> = Vec::new();
        let mut k: usize = 0;
        while k < names.len()
            invariant
                k <= names@.len(),
                cols@.len() == k as int,
                forall|m: int| 0 <= m < k as int ==> self.has_col(#[trigger] names@[m]@),
                forall|m: int|
                    0 <= m < k as int ==> (#[trigger] cols@[m]).name@ == names@[m]@ && exists|
                        c: int,
                    |
                        0 <= c < self.cols@.len() && self.cols@[c].name@ == names@[m]@ && seq_veq(
                            cols@[m].values@,
                            (#[trigger] self.cols@[c]).values@,
                        ),
            decreases names@.len() - k,
        {
            match self.find_column(&names[k]) {
                Some(ci) => {
                    let c = self.cols[ci].dup();
                    proof {
                        crate::column::lemma_seq_veq_refl(self.cols@[ci as int].values@);
                    }
                    cols.push(c);
                },
                None => {
                    return Err(ExecError::SchemaError("selected column is absent".to_owned()));
                },
            }
            k = k + 1;
        }
        Ok(Table { cols })
    }
}

/// The height of table `k`'s block inside a vertical concatenation: the sum
/// of the heights before it.
pub open spec fn stack_offset(ts: Seq<Table>, k: int) -> int
    decreases k,
{
    if k <= 0 {
        0
    } else {
        stack_offset(ts, k - 1) + ts[k - 1].height_spec()
    }
}

/// Concatenates same-schema tables top to bottom. Succeeds exactly when at
/// least one table is given and every table carries the same column names
/// in the same order; block `k` of the result holds table `k`'s rows.
#[verifier::loop_isolation(false)]
#[verifier::rlimit(60)]
pub fn concat_tables(ts: &Vec<Table>) -> (r: Result<Table, ExecError>)
    requires
        forall|k: int| 0 <= k < ts@.len() ==> (#[trigger] ts@[k]).wf(),
        stack_offset(ts@, ts@.len() as int) <= usize::MAX as int,
    ensures
        r is Ok <==> ts@.len() > 0 && (forall|k: int|
            0 <= k < ts@.len() ==> schema_eq(#[trigger] ts@[k], ts@[0])),
        r matches Ok(t) ==> {
            &&& t.wf()
            &&& t.cols@.len() == ts@[0].cols@.len()
            &&& forall|c: int|
                0 <= c < t.cols@.len() ==> (#[trigger] t.cols@[c]).name@ == ts@[0].cols@[c].name@
            &&& t.height_spec() == (if t.cols@.len() == 0 {
                0int
            } else {
                stack_offset(ts@, ts@.len() as int)
            })
            &&& forall|k: int, c: int, i: int|
                0 <= k < ts@.len() && 0 <= c < t.cols@.len() && 0 <= i < (#[trigger] ts@[
                k]).height_spec() ==> veq(
                    #[trigger] t.cols@[c].values@[stack_offset(ts@, k) + i],
                    ts@[k].cols@[c].values@[i],
                )
        },
{
    if ts.len() == 0 {
        return Err(ExecError::SchemaError("nothing to concatenate".to_owned()));
    }
    let mut k: usize = 1;
    while k < ts.len()
        invariant
            1 <= k <= ts@.len(),
            ts@.len() > 0,
            forall|m: int| 0 <= m < k as int ==> schema_eq(#[trigger] ts@[m], ts@[0]),
        decreases ts@.len() - k,
    {
        if !check_schema_eq(&ts[k], &ts[0]) {
            return Err(ExecError::SchemaError("schemas differ across concatenation".to_owned()));
        }
        k = k + 1;
    }
    proof {
        assert(schema_eq(ts@[0], ts@[0]));
    }
    let width = ts[0].width();
    let mut cols: Vec<Column> = Vec::new();
    let mut c: usize = 0;
    while c < width
        invariant
            c <= width,
            width as int == ts@[0].cols@.len(),
            cols@.len() == c as int,
            forall|k2: int| 0 <= k2 < ts@.len() ==> schema_eq(#[trigger] ts@[k2], ts@[0]),
            forall|m: int| 0 <= m < c as int ==> (#[trigger] cols@[m]).name@ == ts@[0].cols@[m].name@,
            forall|m: int|
                0 <= m < c as int ==> (#[trigger] cols@[m]).len_spec() == stack_offset(
                    ts@,
                    ts@.len() as int,
                ),
            forall|k2: int, m: int, i: int|
                0 <= k2 < ts@.len() && 0 <= m < c as int && 0 <= i < (#[trigger] ts@[
                k2]).height_spec() ==> veq(
                    #[trigger] cols@[m].values@[stack_offset(ts@, k2) + i],
                    ts@[k2].cols@[m].values@[i],
                ),
        decreases width - c,
    {
        let mut vals: Vec<Value> = Vec::new();
        let mut k2: usize = 0;
        while k2 < ts.len()
            invariant
                k2 <= ts@.len(),
                c < width,
                width as int == ts@[0].cols@.len(),
                forall|m: int| 0 <= m < ts@.len() ==> schema_eq(#[trigger] ts@[m], ts@[0]),
                vals@.len() == stack_offset(ts@, k2 as int),
                forall|m: int, i: int|
                    0 <= m < k2 as int && 0 <= i < (#[trigger] ts@[m]).height_spec() ==> veq(
                        #[trigger] vals@[stack_offset(ts@, m) + i],
                        ts@[m].cols@[c as int].values@[i],
                    ),
            decreases ts@.len() - k2,
        {
            let ghost vals_snap = vals@;
            proof {
                lemma_stack_offset_mono(ts@, k2 as int + 1, ts@.len() as int);
            }
            let src = &ts[k2].cols[c].values;
            let mut i: usize = 0;
            while i < src.len()
                invariant
                    i <= src@.len(),
                    src@ == ts@[k2 as int].cols@[c as int].values@,
                    src@.len() == ts@[k2 as int].height_spec(),
                    vals_snap.len() == stack_offset(ts@, k2 as int),
                    vals@.len() == vals_snap.len() + i as int,
                    forall|idx: int| 0 <= idx < vals_snap.len() ==> vals@[idx] == vals_snap[idx],
                    forall|ii: int|
                        0 <= ii < i as int ==> veq(
                            #[trigger] vals@[vals_snap.len() + ii],
                            src@[ii],
                        ),
                decreases src@.len() - i,
            {
                vals.push(src[i].dup());
                i = i + 1;
            }
            proof {
                assert forall|m: int, ii: int|
                    0 <= m < k2 as int + 1 && 0 <= ii < (#[trigger] ts@[m]).height_spec()
                    implies veq(
                    #[trigger] vals@[stack_offset(ts@, m) + ii],
                    ts@[m].cols@[c as int].values@[ii],
                ) by {
                    if m == k2 as int {
                        assert(veq(
                            vals@[vals_snap.len() + ii],
                            src@[ii],
                        ));
                    } else {
                        lemma_stack_offset_mono(ts@, 0, m);
                        lemma_stack_offset_mono(ts@, m + 1, k2 as int);
                        assert(stack_offset(ts@, m + 1) == stack_offset(ts@, m)
                            + ts@[m].height_spec());
                        assert(stack_offset(ts@, m) + ii < vals_snap.len());
                        assert(vals@[stack_offset(ts@, m) + ii] == vals_snap[stack_offset(
                            ts@,
                            m,
                        ) + ii]);
                        assert(veq(
                            vals_snap[stack_offset(ts@, m) + ii],
                            ts@[m].cols@[c as int].values@[ii],
                        ));
                    }
                }
            }
            k2 = k2 + 1;
        }
        cols.push(
            Column { name: ts[0].cols[c].name.clone(), values: vals, cat: None },
        );
        c = c + 1;
    }
    Ok(Table { cols })
}

/// The two tables list the same column names in the same order.
pub open spec fn schema_eq(a: Table, b: Table) -> bool {
    a.cols@.len() == b.cols@.len() && forall|c: int|
        0 <= c < a.cols@.len() ==> (#[trigger] a.cols@[c]).name@ == b.cols@[c].name@
}

/// Decides `schema_eq` at run time.
#[verifier::loop_isolation(false)]
pub fn check_schema_eq(a: &Table, b: &Table) -> (r: bool)
    ensures
        r == schema_eq(*a, *b),
{
    if a.cols.len() != b.cols.len() {
        return false;
    }
    let mut c: usize = 0;
    while c < a.cols.len()
        invariant
            c <= a.cols@.len(),
            a.cols@.len() == b.cols@.len(),
            forall|m: int| 0 <= m < c as int ==> (#[trigger] a.cols@[m]).name@ == b.cols@[m].name@,
        decreases a.cols@.len() - c,
    {
        if !crate::categorical::compare_str(&a.cols[c].name, &b.cols[c].name) {
            return false;
        }
        c = c + 1;
    }
    true
}

pub proof fn lemma_stack_offset_mono(ts: Seq<Table>, k1: int, k2: int)
    requires
        0 <= k1 <= k2 <= ts.len(),
        forall|k: int| 0 <= k < ts.len() ==> (#[trigger] ts[k]).wf(),
    ensures
        stack_offset(ts, k1) <= stack_offset(ts, k2),
    decreases k2 - k1,
{
    if k1 < k2 {
        lemma_stack_offset_mono(ts, k1, k2 - 1);
        assert(ts[k2 - 1].height_spec() >= 0);
    }
}

} // verus!
