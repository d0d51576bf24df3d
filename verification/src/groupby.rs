//! Grouping rows by exact key-tuple equality. A group is a representative
//! row index (its first member) and the increasing list of member rows;
//! groups appear in first-occurrence order. Unlike a join probe, null key
//! tuples group together: grouping uses exact equality, not join matching.

use vstd::prelude::*;
use crate::agg::{groups_counts_bounded, groups_in_bounds, groups_nonempty};
use crate::column::Column;
use crate::error::ExecError;
use crate::table::Table;
use crate::value::{value_eq, veq};

verus! {

/// Rows `i` and `j` carry exactly equal key tuples.
pub open spec fn keys_eq(t: Table, i: int, j: int) -> bool {
    forall|c: int|
        0 <= c < t.cols@.len() ==> veq(
            #[trigger] t.cols@[c].values@[i],
            t.cols@[c].values@[j],
        )
}

pub proof fn lemma_keys_eq_refl(t: Table, i: int)
    ensures
        keys_eq(t, i, i),
{
    assert forall|c: int| 0 <= c < t.cols@.len() implies veq(
        #[trigger] t.cols@[c].values@[i],
        t.cols@[c].values@[i],
    ) by {
        crate::value::lemma_veq_refl(t.cols@[c].values@[i]);
    }
}

pub proof fn lemma_keys_eq_sym(t: Table, i: int, j: int)
    requires
        keys_eq(t, i, j),
    ensures
        keys_eq(t, j, i),
{
    assert forall|c: int| 0 <= c < t.cols@.len() implies veq(
        #[trigger] t.cols@[c].values@[j],
        t.cols@[c].values@[i],
    ) by {
        crate::value::lemma_veq_sym(t.cols@[c].values@[j], t.cols@[c].values@[i]);
    }
}

pub proof fn lemma_keys_eq_trans(t: Table, i: int, j: int, k: int)
    requires
        keys_eq(t, i, j),
        keys_eq(t, j, k),
    ensures
        keys_eq(t, i, k),
{
    assert forall|c: int| 0 <= c < t.cols@.len() implies veq(
        #[trigger] t.cols@[c].values@[i],
        t.cols@[c].values@[k],
    ) by {
        crate::value::lemma_veq_trans(
            t.cols@[c].values@[i],
            t.cols@[c].values@[j],
            t.cols@[c].values@[k],
        );
    }
}

/// Compares the full key tuples of two rows.
#[verifier::loop_isolation(false)]
pub fn keys_eq_exec(t: &Table, i: usize, j: usize) -> (r: bool)
    requires
        t.wf(),
        (i as int) < t.height_spec(),
        (j as int) < t.height_spec(),
    ensures
        r == keys_eq(*t, i as int, j as int),
{
    let mut c: usize = 0;
    while c < t.cols.len()
        invariant
            c <= t.cols@.len(),
            forall|m: int|
                0 <= m < c as int ==> veq(
                    #[trigger] t.cols@[m].values@[i as int],
                    t.cols@[m].values@[j as int],
                ),
        decreases t.cols@.len() - c,
    {
        if !value_eq(&t.cols[c].values[i], &t.cols[c].values[j]) {
            return false;
        }
        c = c + 1;
    }
    true
}

/// Row `i` is listed in some group.
pub open spec fn grouped(gs: Seq<(u32, Vec<u32>)>, i: u32) -> bool {
    exists|g: int, k: int|
        0 <= g < gs.len() && 0 <= k < gs[g].1@.len() && #[trigger] gs[g].1@[k] == i
}

/// The structural invariant of a grouping of `limit` rows of `t`: each
/// group's representative is its first, least member; members are listed in
/// increasing order and carry key tuples exactly equal to the
/// representative's; distinct groups' representatives differ in key, and
/// representatives come in first-occurrence order.
pub open spec fn groups_ok(gs: Seq<(u32, Vec<u32>)>, t: Table, limit: int) -> bool {
    &&& groups_nonempty(gs)
    &&& groups_in_bounds(gs, limit)
    &&& forall|g: int| 0 <= g < gs.len() ==> (#[trigger] gs[g]).0 == gs[g].1@[0]
    &&& forall|g: int, k1: int, k2: int|
        0 <= g < gs.len() && 0 <= k1 < k2 < gs[g].1@.len() ==> #[trigger] gs[g].1@[k1]
            < #[trigger] gs[g].1@[k2]
    &&& forall|g: int, k: int|
        0 <= g < gs.len() && 0 <= k < gs[g].1@.len() ==> keys_eq(
            t,
            #[trigger] gs[g].1@[k] as int,
            gs[g].1@[0] as int,
        )
    &&& forall|g1: int, g2: int|
        0 <= g1 < g2 < gs.len() ==> !keys_eq(
            t,
            (#[trigger] gs[g1]).0 as int,
            (#[trigger] gs[g2]).0 as int,
        ) && gs[g1].0 < gs[g2].0
}

/// Partitions the rows of `t` into groups of exactly equal key tuples, in
/// first-occurrence order: every row lands in exactly one group, and two
/// rows share a group exactly when their key tuples are equal.
#[verifier::spinoff_prover]
#[verifier::loop_isolation(false)]
#[verifier::rlimit(100)]
pub fn groups_of(t: &Table) -> (gs: Vec<(u32, Vec<u32>)>)
    requires
        t.wf(),
        t.height_spec() <= u32::MAX as int,
    ensures
        groups_ok(gs@, *t, t.height_spec()),
        forall|i: int| 0 <= i < t.height_spec() ==> #[trigger] grouped(gs@, i as u32),
        groups_counts_bounded(gs@),
{
    let height = t.height();
    let mut gs: Vec<(u32, Vec<u32>)> = Vec::new();
    let mut i: usize = 0;
    while i < height
        invariant
            i <= height,
            groups_ok(gs@, *t, i as int),
            forall|ii: int| 0 <= ii < i as int ==> #[trigger] grouped(gs@, ii as u32),
        decreases height - i,
    {
        let ghost gs_old = gs@;
        let mut g: usize = 0;
        let mut found: bool = false;
        while g < gs.len() && !found
            invariant
                g <= gs@.len(),
                gs@ == gs_old,
                !found ==> forall|m: int|
                    0 <= m < g as int ==> !keys_eq(*t, i as int, (#[trigger] gs@[m]).0 as int),
                found ==> g >= 1 && keys_eq(*t, i as int, gs@[g - 1].0 as int) && forall|m: int|
                    0 <= m < g - 1 ==> !keys_eq(*t, i as int, (#[trigger] gs@[m]).0 as int),
            decreases gs@.len() - g,
        {
            if keys_eq_exec(t, i, gs[g].0 as usize) {
                found = true;
            }
            g = g + 1;
        }
        if found {
            let pos = g - 1;
            let mut entry = gs.remove(pos);
            let ghost entry_old = entry;
            entry.1.push(i as u32);
            let ghost entry_new = entry;
            gs.insert(pos, entry);
            proof {
                assert(entry_new.1@ == entry_old.1@.push(i as u32));
                assert(entry_new.0 == entry_old.0);
                assert(gs@ =~= gs_old.update(pos as int, entry_new));
                assert(keys_eq(*t, i as int, entry_old.1@[0] as int));
                assert forall|ii: int| 0 <= ii < i as int + 1 implies #[trigger] grouped(
                    gs@,
                    ii as u32,
                ) by {
                    if ii < i as int {
                        assert(grouped(gs_old, ii as u32));
                        let (g1, k1) = choose|g1: int, k1: int|
                            0 <= g1 < gs_old.len() && 0 <= k1
                                < gs_old[g1].1@.len() && #[trigger] gs_old[g1].1@[k1]
                                == ii as u32;
                        if g1 == pos as int {
                            assert(gs@[g1].1@[k1] == ii as u32);
                        } else {
                            assert(gs@[g1].1@[k1] == ii as u32);
                        }
                    } else {
                        assert(gs@[pos as int].1@[entry_old.1@.len() as int] == i as u32);
                    }
                }
            }
        } else {
            let mut rows: Vec<u32> = Vec::new();
            rows.push(i as u32);
            let entry = (i as u32, rows);
            let ghost entry_new = entry;
            gs.push(entry);
            proof {
                assert(gs@ =~= gs_old.push(entry_new));
                lemma_keys_eq_refl(*t, i as int);
                assert forall|g1: int| 0 <= g1 < gs_old.len() implies !keys_eq(
                    *t,
                    (#[trigger] gs_old[g1]).0 as int,
                    i as int,
                ) && gs_old[g1].0 < i as u32 by {
                    if keys_eq(*t, gs_old[g1].0 as int, i as int) {
                        lemma_keys_eq_sym(*t, gs_old[g1].0 as int, i as int);
                    }
                    assert(gs_old[g1].1@[0] == gs_old[g1].0);
                }
                assert forall|ii: int| 0 <= ii < i as int + 1 implies #[trigger] grouped(
                    gs@,
                    ii as u32,
                ) by {
                    if ii < i as int {
                        assert(grouped(gs_old, ii as u32));
                        let (g1, k1) = choose|g1: int, k1: int|
                            0 <= g1 < gs_old.len() && 0 <= k1
                                < gs_old[g1].1@.len() && #[trigger] gs_old[g1].1@[k1]
                                == ii as u32;
                        assert(gs@[g1].1@[k1] == ii as u32);
                    } else {
                        assert(gs@[gs_old.len() as int].1@[0] == i as u32);
                    }
                }
            }
        }
        i = i + 1;
    }
    proof {
        lemma_groups_counts(gs@, *t, t.height_spec());
    }
    gs
}

/// In a strictly increasing group, the row at position `k` is at least `k`,
/// so a group over `limit` rows lists at most `limit` of them.
proof fn lemma_increasing_at_least(rows: Seq<u32>, k: int)
    requires
        forall|k1: int, k2: int| 0 <= k1 < k2 < rows.len() ==> rows[k1] < rows[k2],
        0 <= k < rows.len(),
    ensures
        rows[k] as int >= k,
    decreases k,
{
    if k > 0 {
        lemma_increasing_at_least(rows, k - 1);
    }
}

proof fn lemma_groups_counts(gs: Seq<(u32, Vec<u32>)>, t: Table, limit: int)
    requires
        groups_ok(gs, t, limit),
        limit <= u32::MAX as int,
    ensures
        groups_counts_bounded(gs),
{
    assert forall|g: int| 0 <= g < gs.len() implies (#[trigger] gs[g]).1@.len()
        <= u32::MAX as int by {
        let rows = gs[g].1@;
        if rows.len() > limit {
            lemma_increasing_at_least(rows, limit);
            assert((rows[limit] as int) < limit);
            assert(false);
        }
    }
}

/// No name repeats among the key columns, the aggregation columns, or
/// across the two.
pub open spec fn out_names_unique(key_cols: Seq<Column>, agg_cols: Seq<Column>) -> bool {
    &&& forall|i: int, j: int|
        0 <= i < j < key_cols.len() ==> key_cols[i].name@ != key_cols[j].name@
    &&& forall|i: int, j: int|
        0 <= i < j < agg_cols.len() ==> agg_cols[i].name@ != agg_cols[j].name@
    &&& forall|i: int, j: int|
        0 <= i < key_cols.len() && 0 <= j < agg_cols.len() ==> key_cols[i].name@
            != agg_cols[j].name@
}

/// Assembles a grouped-aggregation result: the per-group key columns
/// followed by the aggregation columns. An aggregation column whose length
/// differs from the number of groups is an internal-consistency defect and
/// is reported as such, never silently tolerated; duplicate column names or
/// ill-sized key columns are schema errors.
#[verifier::loop_isolation(false)]
pub fn assemble_groupby_output(key_cols: Vec<Column>, agg_cols: Vec<Column>, n_groups: usize) -> (r:
    Result<Table, ExecError>)
    ensures
        (r matches Err(e) && e is Internal) <==> exists|i: int|
            0 <= i < agg_cols@.len() && (#[trigger] agg_cols@[i]).len_spec() != n_groups as int,
        r is Ok <==> (forall|i: int|
            0 <= i < agg_cols@.len() ==> (#[trigger] agg_cols@[i]).len_spec() == n_groups as int)
            && (forall|i: int|
            0 <= i < key_cols@.len() ==> (#[trigger] key_cols@[i]).len_spec() == n_groups as int)
            && out_names_unique(key_cols@, agg_cols@),
        r matches Ok(t) ==> t.wf() && t.cols@.len() == key_cols@.len() + agg_cols@.len()
            && t.height_spec() == (if t.cols@.len() == 0 {
            0int
        } else {
            n_groups as int
        }) && (forall|i: int| 0 <= i < key_cols@.len() ==> t.cols@[i] == key_cols@[i]) && (
        forall|i: int|
            0 <= i < agg_cols@.len() ==> t.cols@[key_cols@.len() + i] == agg_cols@[i]),
{
    let mut i: usize = 0;
    while i < agg_cols.len()
        invariant
            i <= agg_cols@.len(),
            forall|k: int|
                0 <= k < i as int ==> (#[trigger] agg_cols@[k]).len_spec() == n_groups as int,
        decreases agg_cols@.len() - i,
    {
        if agg_cols[i].len() != n_groups {
            return Err(
                ExecError::Internal(
                    "aggregation result length differs from the number of groups".to_owned(),
                ),
            );
        }
        i = i + 1;
    }
    let mut kk: usize = 0;
    while kk < key_cols.len()
        invariant
            kk <= key_cols@.len(),
            forall|m: int|
                0 <= m < kk as int ==> (#[trigger] key_cols@[m]).len_spec() == n_groups as int,
        decreases key_cols@.len() - kk,
    {
        if key_cols[kk].len() != n_groups {
            return Err(ExecError::SchemaError("key column length differs from groups".to_owned()));
        }
        kk = kk + 1;
    }
    let mut cols: Vec<Column> = Vec::new();
    let ghost keys_snap = key_cols@;
    let ghost aggs_snap = agg_cols@;
    let mut key_cols = key_cols;
    let mut agg_cols = agg_cols;
    cols.append(&mut key_cols);
    cols.append(&mut agg_cols);
    proof {
        assert(cols@ =~= keys_snap + aggs_snap);
    }
    let t = Table { cols };
    proof {
        assert(t.cols@.len() == keys_snap.len() + aggs_snap.len());
        assert forall|i: int| 0 <= i < t.cols@.len() implies (#[trigger] t.cols@[i]).len_spec()
            == n_groups as int by {
            if i < keys_snap.len() {
                assert(t.cols@[i] == keys_snap[i]);
            } else {
                assert(t.cols@[i] == aggs_snap[i - keys_snap.len()]);
            }
        }
    }
    if !check_table_wf(&t) {
        proof {
            assert(!out_names_unique(keys_snap, aggs_snap)) by {
                if out_names_unique(keys_snap, aggs_snap) {
                    assert forall|i: int, j: int|
                        0 <= i < j < t.cols@.len() implies t.cols@[i].name@ != t.cols@[
                    j].name@ by {
                        if j < keys_snap.len() {
                            assert(t.cols@[i] == keys_snap[i] && t.cols@[j] == keys_snap[j]);
                        } else if i < keys_snap.len() {
                            assert(t.cols@[i] == keys_snap[i] && t.cols@[j] == aggs_snap[j
                                - keys_snap.len()]);
                        } else {
                            assert(t.cols@[i] == aggs_snap[i - keys_snap.len()] && t.cols@[j]
                                == aggs_snap[j - keys_snap.len()]);
                        }
                    }
                    assert(t.wf());
                    assert(false);
                }
            }
        }
        return Err(ExecError::SchemaError("grouped output has an invalid schema".to_owned()));
    }
    proof {
        assert(out_names_unique(keys_snap, aggs_snap)) by {
            assert forall|i: int, j: int|
                0 <= i < j < keys_snap.len() implies keys_snap[i].name@ != keys_snap[
            j].name@ by {
                assert(t.cols@[i] == keys_snap[i] && t.cols@[j] == keys_snap[j]);
            }
            assert forall|i: int, j: int|
                0 <= i < j < aggs_snap.len() implies aggs_snap[i].name@ != aggs_snap[
            j].name@ by {
                assert(t.cols@[keys_snap.len() + i] == aggs_snap[i]);
                assert(t.cols@[keys_snap.len() + j] == aggs_snap[j]);
            }
            assert forall|i: int, j: int|
                0 <= i < keys_snap.len() && 0 <= j < aggs_snap.len() implies keys_snap[i].name@
                != aggs_snap[j].name@ by {
                assert(t.cols@[i] == keys_snap[i]);
                assert(t.cols@[keys_snap.len() + j] == aggs_snap[j]);
            }
        }
    }
    Ok(t)
}

/// Decides a table's well-formedness at run time: equal column lengths and
/// pairwise distinct names.
#[verifier::loop_isolation(false)]
pub fn check_table_wf(t: &Table) -> (r: bool)
    ensures
        r == t.wf(),
{
    let height = t.height();
    let mut i: usize = 0;
    while i < t.cols.len()
        invariant
            i <= t.cols@.len(),
            forall|k: int| 0 <= k < i as int ==> (#[trigger] t.cols@[k]).len_spec() == height as int,
            forall|k1: int, k2: int|
                0 <= k1 < k2 < i as int ==> t.cols@[k1].name@ != t.cols@[k2].name@,
        decreases t.cols@.len() - i,
    {
        if t.cols[i].len() != height {
            return false;
        }
        let mut j: usize = 0;
        while j < i
            invariant
                j <= i,
                i < t.cols@.len(),
                forall|k: int| 0 <= k < j as int ==> t.cols@[k].name@ != t.cols@[i as int].name@,
            decreases i - j,
        {
            if crate::categorical::compare_str(&t.cols[j].name, &t.cols[i].name) {
                return false;
            }
            j = j + 1;
        }
        i = i + 1;
    }
    true
}

} // verus!
