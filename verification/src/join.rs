//! Partitioned hash join over one or more key columns. Row hashes route
//! build rows to per-worker tables without a physical shuffle; a probe never
//! trusts a hash match alone but verifies full key-tuple equality, so the
//! join stays correct under hash collisions and multi-column keys. Nulls
//! never match.

use vstd::prelude::*;
use std::collections::HashMap;
use crate::column::seq_veq;
use crate::table::Table;
use crate::value::{value_match, vmatch, Value};

verus! {

broadcast use vstd::std_specs::hash::group_hash_axioms;

/// Row `i` of `a` and row `j` of `b` agree, non-null, on every key column.
pub open spec fn rows_match(a: Table, i: int, b: Table, j: int) -> bool {
    forall|c: int|
        0 <= c < a.cols@.len() ==> vmatch(
            #[trigger] a.cols@[c].values@[i],
            b.cols@[c].values@[j],
        )
}

pub proof fn lemma_rows_match_sym(a: Table, i: int, b: Table, j: int)
    requires
        a.cols@.len() == b.cols@.len(),
        rows_match(a, i, b, j),
    ensures
        rows_match(b, j, a, i),
{
    assert forall|c: int| 0 <= c < b.cols@.len() implies vmatch(
        #[trigger] b.cols@[c].values@[j],
        a.cols@[c].values@[i],
    ) by {
        assert(vmatch(a.cols@[c].values@[i], b.cols@[c].values@[j]));
    }
}

pub proof fn lemma_rows_match_trans(a: Table, i: int, b: Table, j: int, c: Table, k: int)
    requires
        a.cols@.len() == b.cols@.len(),
        b.cols@.len() == c.cols@.len(),
        rows_match(a, i, b, j),
        rows_match(b, j, c, k),
    ensures
        rows_match(a, i, c, k),
{
    assert forall|m: int| 0 <= m < a.cols@.len() implies vmatch(
        #[trigger] a.cols@[m].values@[i],
        c.cols@[m].values@[k],
    ) by {
        assert(vmatch(a.cols@[m].values@[i], b.cols@[m].values@[j]));
        assert(vmatch(b.cols@[m].values@[j], c.cols@[m].values@[k]));
        crate::value::lemma_vmatch_trans(
            a.cols@[m].values@[i],
            b.cols@[m].values@[j],
            c.cols@[m].values@[k],
        );
    }
}

/// Compares the full key tuples of two rows, column by column.
#[verifier::loop_isolation(false)]
pub fn rows_match_exec(a: &Table, i: usize, b: &Table, j: usize) -> (r: bool)
    requires
        a.wf(),
        b.wf(),
        a.cols@.len() == b.cols@.len(),
        (i as int) < a.height_spec(),
        (j as int) < b.height_spec(),
    ensures
        r == rows_match(*a, i as int, *b, j as int),
{
    let mut c: usize = 0;
    while c < a.cols.len()
        invariant
            c <= a.cols@.len(),
            forall|m: int|
                0 <= m < c as int ==> vmatch(
                    #[trigger] a.cols@[m].values@[i as int],
                    b.cols@[m].values@[j as int],
                ),
        decreases a.cols@.len() - c,
    {
        if !value_match(&a.cols[c].values[i], &b.cols[c].values[j]) {
            return false;
        }
        c = c + 1;
    }
    true
}

/// Which worker a hash is routed to.
pub open spec fn assigned_worker(h: u64, n_workers: int) -> int {
    (h as int) % n_workers
}

/// The deterministic thread-assignment check: does this hash belong to this
/// worker.
pub fn this_thread(h: u64, worker: u64, n_workers: u64) -> (r: bool)
    requires
        n_workers > 0,
    ensures
        r == (assigned_worker(h, n_workers as int) == worker as int),
{
    h % n_workers == worker
}

/// One entry of a per-worker build table: the build rows, in increasing
/// order, whose key tuples all match the first listed row.
pub struct Bucket {
    pub rows: Vec<u32>,
}

/// What every bucket stored under hash `h` satisfies, once `limit` build
/// rows have been scanned.
pub open spec fn bucket_ok(bk: Bucket, b: Table, bh: Seq<u64>, h: u64, limit: int) -> bool {
    &&& bk.rows@.len() > 0
    &&& forall|k: int| 0 <= k < bk.rows@.len() ==> (#[trigger] bk.rows@[k] as int) < limit
    &&& forall|k1: int, k2: int| 0 <= k1 < k2 < bk.rows@.len() ==> bk.rows@[k1] < bk.rows@[k2]
    &&& forall|k: int| 0 <= k < bk.rows@.len() ==> bh[#[trigger] bk.rows@[k] as int] == h
    &&& forall|k: int|
        1 <= k < bk.rows@.len() ==> rows_match(
            b,
            #[trigger] bk.rows@[k] as int,
            b,
            bk.rows@[0] as int,
        )
}

pub proof fn lemma_bucket_ok_mono(bk: Bucket, b: Table, bh: Seq<u64>, h: u64, l1: int, l2: int)
    requires
        bucket_ok(bk, b, bh, h, l1),
        l1 <= l2,
    ensures
        bucket_ok(bk, b, bh, h, l2),
{
}

/// The invariant of one worker's build table: every key holds well-formed
/// buckets, routed to this worker, whose representative rows are pairwise
/// non-matching.
pub open spec fn tbl_ok(
    m: Map<u64, Vec<Bucket>>,
    b: Table,
    bh: Seq<u64>,
    w: int,
    nw: int,
    limit: int,
) -> bool {
    &&& forall|h: u64| m.contains_key(h) ==> assigned_worker(h, nw) == w
    &&& forall|h: u64, bi: int|
        m.contains_key(h) && 0 <= bi < m[h]@.len() ==> bucket_ok(
            #[trigger] m[h]@[bi],
            b,
            bh,
            h,
            limit,
        )
    &&& forall|h: u64, b1: int, b2: int|
        m.contains_key(h) && 0 <= b1 < b2 < m[h]@.len() ==> !rows_match(
            b,
            (#[trigger] m[h]@[b1]).rows@[0] as int,
            b,
            (#[trigger] m[h]@[b2]).rows@[0] as int,
        )
}

/// Row `j` occurs in some bucket of the list.
pub open spec fn listed(lst: Seq<Bucket>, j: u32) -> bool {
    exists|bi: int, k: int|
        0 <= bi < lst.len() && 0 <= k < lst[bi].rows@.len() && #[trigger] lst[bi].rows@[k] == j
}

/// No build row occupies two positions in the bucket list.
pub open spec fn lst_no_dup(lst: Seq<Bucket>) -> bool {
    forall|b1: int, k1: int, b2: int, k2: int|
        0 <= b1 < lst.len() && 0 <= k1 < lst[b1].rows@.len() && 0 <= b2 < lst.len() && 0 <= k2
            < lst[b2].rows@.len() && (b1 != b2 || k1 != k2) ==> #[trigger] lst[b1].rows@[k1]
            != #[trigger] lst[b2].rows@[k2]
}

/// No build row occupies two positions in the table: together with each
/// bucket's hash agreement, a row is listed in exactly one entry's list.
pub open spec fn tbl_no_dup(m: Map<u64, Vec<Bucket>>) -> bool {
    forall|h: u64| #[trigger] m.contains_key(h) ==> lst_no_dup(m[h]@)
}

/// Build row `j` is listed somewhere under hash `h`.
pub open spec fn in_tbl(m: Map<u64, Vec<Bucket>>, h: u64, j: u32) -> bool {
    m.contains_key(h) && listed(m[h]@, j)
}

/// Every scanned build row routed to worker `w` is listed under its hash.
pub open spec fn tbl_complete(
    m: Map<u64, Vec<Bucket>>,
    bh: Seq<u64>,
    w: int,
    nw: int,
    limit: int,
) -> bool {
    forall|j: int|
        0 <= j < limit && assigned_worker(#[trigger] bh[j], nw) == w ==> in_tbl(m, bh[j], j as u32)
}

/// The first bucket whose representative row's key tuple matches row `j` of
/// `probe`, if any. Never decides by hash alone.
#[verifier::loop_isolation(false)]
pub fn find_bucket(probe: &Table, j: usize, b: &Table, lst: &Vec<Bucket>) -> (r: Option<usize>)
    requires
        probe.wf(),
        b.wf(),
        probe.cols@.len() == b.cols@.len(),
        (j as int) < probe.height_spec(),
        forall|bi: int|
            0 <= bi < lst@.len() ==> (#[trigger] lst@[bi]).rows@.len() > 0 && (
            lst@[bi].rows@[0] as int) < b.height_spec(),
    ensures
        match r {
            Some(bi) => (bi as int) < lst@.len() && rows_match(
                *probe,
                j as int,
                *b,
                lst@[bi as int].rows@[0] as int,
            ) && forall|k: int|
                0 <= k < bi as int ==> !rows_match(
                    *probe,
                    j as int,
                    *b,
                    (#[trigger] lst@[k]).rows@[0] as int,
                ),
            None => forall|k: int|
                0 <= k < lst@.len() ==> !rows_match(
                    *probe,
                    j as int,
                    *b,
                    (#[trigger] lst@[k]).rows@[0] as int,
                ),
        },
{
    let mut bi: usize = 0;
    while bi < lst.len()
        invariant
            bi <= lst@.len(),
            forall|k: int|
                0 <= k < bi as int ==> !rows_match(
                    *probe,
                    j as int,
                    *b,
                    (#[trigger] lst@[k]).rows@[0] as int,
                ),
        decreases lst@.len() - bi,
    {
        let rep = lst[bi].rows[0];
        if rows_match_exec(probe, j, b, rep as usize) {
            return Some(bi);
        }
        bi = bi + 1;
    }
    None
}

/// After build row `limit` joins the matching bucket at position `bi`, the
/// bucket list keeps its invariants one row further, every earlier row stays
/// listed, and the new row is listed.
proof fn lemma_fold_into_bucket(
    lst_old: Seq<Bucket>,
    lst_new: Seq<Bucket>,
    bk_new: Bucket,
    bi: int,
    b: Table,
    bh: Seq<u64>,
    h: u64,
    limit: int,
)
    requires
        0 <= bi < lst_old.len(),
        lst_new == lst_old.update(bi, bk_new),
        bk_new.rows@ == lst_old[bi].rows@.push(limit as u32),
        0 <= limit < bh.len(),
        limit < u32::MAX as int,
        bh[limit] == h,
        forall|k: int| 0 <= k < lst_old.len() ==> bucket_ok(#[trigger] lst_old[k], b, bh, h, limit),
        forall|b1: int, b2: int|
            0 <= b1 < b2 < lst_old.len() ==> !rows_match(
                b,
                (#[trigger] lst_old[b1]).rows@[0] as int,
                b,
                (#[trigger] lst_old[b2]).rows@[0] as int,
            ),
        lst_no_dup(lst_old),
        rows_match(b, limit, b, lst_old[bi].rows@[0] as int),
    ensures
        lst_no_dup(lst_new),
        forall|k: int| 0 <= k < lst_new.len() ==> bucket_ok(#[trigger] lst_new[k], b, bh, h, limit + 1),
        forall|b1: int, b2: int|
            0 <= b1 < b2 < lst_new.len() ==> !rows_match(
                b,
                (#[trigger] lst_new[b1]).rows@[0] as int,
                b,
                (#[trigger] lst_new[b2]).rows@[0] as int,
            ),
        forall|bi2: int, k: int|
            0 <= bi2 < lst_old.len() && 0 <= k < lst_old[bi2].rows@.len() ==> listed(
                lst_new,
                #[trigger] lst_old[bi2].rows@[k],
            ),
        listed(lst_new, limit as u32),
{
    assert(bucket_ok(bk_new, b, bh, h, limit + 1));
    assert forall|k: int| 0 <= k < lst_new.len() implies bucket_ok(
        #[trigger] lst_new[k],
        b,
        bh,
        h,
        limit + 1,
    ) by {
        if k != bi {
            lemma_bucket_ok_mono(lst_old[k], b, bh, h, limit, limit + 1);
        }
    }
    assert(bk_new.rows@[0] == lst_old[bi].rows@[0]);
    assert forall|b1: int, k1: int, b2: int, k2: int|
        0 <= b1 < lst_new.len() && 0 <= k1 < lst_new[b1].rows@.len() && 0 <= b2 < lst_new.len()
            && 0 <= k2 < lst_new[b2].rows@.len() && (b1 != b2 || k1 != k2) implies (
    #[trigger] lst_new[b1].rows@[k1]) != (#[trigger] lst_new[b2].rows@[k2]) by {
        let old_len = lst_old[bi].rows@.len() as int;
        if b1 == bi && k1 == old_len {
            assert(lst_new[b1].rows@[k1] == limit as u32);
            assert((lst_new[b2].rows@[k2] as int) < limit || (b2 == bi && k2 == old_len));
        } else if b2 == bi && k2 == old_len {
            assert(lst_new[b2].rows@[k2] == limit as u32);
            assert((lst_new[b1].rows@[k1] as int) < limit);
        } else {
            assert(lst_new[b1].rows@[k1] == lst_old[b1].rows@[k1]);
            assert(lst_new[b2].rows@[k2] == lst_old[b2].rows@[k2]);
        }
    }
    assert forall|bi2: int, k: int|
        0 <= bi2 < lst_old.len() && 0 <= k < lst_old[bi2].rows@.len() implies listed(
        lst_new,
        #[trigger] lst_old[bi2].rows@[k],
    ) by {
        assert(lst_new[bi2].rows@[k] == lst_old[bi2].rows@[k]);
    }
    assert(lst_new[bi].rows@[lst_old[bi].rows@.len() as int] == limit as u32);
    assert(listed(lst_new, limit as u32));
}

/// After build row `limit` starts a bucket of its own, the bucket list
/// keeps its invariants one row further, every earlier row stays listed,
/// and the new row is listed.
proof fn lemma_fold_new_bucket(
    lst_old: Seq<Bucket>,
    lst_new: Seq<Bucket>,
    bk_new: Bucket,
    b: Table,
    bh: Seq<u64>,
    h: u64,
    limit: int,
)
    requires
        lst_new == lst_old.push(bk_new),
        bk_new.rows@ == seq![limit as u32],
        0 <= limit < bh.len(),
        limit < u32::MAX as int,
        bh[limit] == h,
        forall|k: int| 0 <= k < lst_old.len() ==> bucket_ok(#[trigger] lst_old[k], b, bh, h, limit),
        forall|b1: int, b2: int|
            0 <= b1 < b2 < lst_old.len() ==> !rows_match(
                b,
                (#[trigger] lst_old[b1]).rows@[0] as int,
                b,
                (#[trigger] lst_old[b2]).rows@[0] as int,
            ),
        b.wf(),
        lst_no_dup(lst_old),
        forall|k: int|
            0 <= k < lst_old.len() ==> !rows_match(
                b,
                limit,
                b,
                (#[trigger] lst_old[k]).rows@[0] as int,
            ),
    ensures
        lst_no_dup(lst_new),
        forall|k: int| 0 <= k < lst_new.len() ==> bucket_ok(#[trigger] lst_new[k], b, bh, h, limit + 1),
        forall|b1: int, b2: int|
            0 <= b1 < b2 < lst_new.len() ==> !rows_match(
                b,
                (#[trigger] lst_new[b1]).rows@[0] as int,
                b,
                (#[trigger] lst_new[b2]).rows@[0] as int,
            ),
        forall|bi2: int, k: int|
            0 <= bi2 < lst_old.len() && 0 <= k < lst_old[bi2].rows@.len() ==> listed(
                lst_new,
                #[trigger] lst_old[bi2].rows@[k],
            ),
        listed(lst_new, limit as u32),
{
    assert(bucket_ok(bk_new, b, bh, h, limit + 1));
    assert forall|k: int| 0 <= k < lst_new.len() implies bucket_ok(
        #[trigger] lst_new[k],
        b,
        bh,
        h,
        limit + 1,
    ) by {
        if k < lst_old.len() {
            lemma_bucket_ok_mono(lst_old[k], b, bh, h, limit, limit + 1);
        }
    }
    assert forall|k: int| 0 <= k < lst_old.len() implies !rows_match(
        b,
        (#[trigger] lst_old[k]).rows@[0] as int,
        b,
        limit,
    ) by {
        if rows_match(b, lst_old[k].rows@[0] as int, b, limit) {
            lemma_rows_match_sym(b, lst_old[k].rows@[0] as int, b, limit);
        }
    }
    assert forall|bi2: int, k: int|
        0 <= bi2 < lst_old.len() && 0 <= k < lst_old[bi2].rows@.len() implies listed(
        lst_new,
        #[trigger] lst_old[bi2].rows@[k],
    ) by {
        assert(lst_new[bi2].rows@[k] == lst_old[bi2].rows@[k]);
    }
    assert(lst_new[lst_old.len() as int].rows@[0] == limit as u32);
    assert(listed(lst_new, limit as u32));
    assert forall|b1: int, k1: int, b2: int, k2: int|
        0 <= b1 < lst_new.len() && 0 <= k1 < lst_new[b1].rows@.len() && 0 <= b2 < lst_new.len()
            && 0 <= k2 < lst_new[b2].rows@.len() && (b1 != b2 || k1 != k2) implies (
    #[trigger] lst_new[b1].rows@[k1]) != (#[trigger] lst_new[b2].rows@[k2]) by {
        if b1 == lst_old.len() as int {
            assert(lst_new[b1].rows@[k1] == limit as u32);
            assert((lst_new[b2].rows@[k2] as int) < limit);
        } else if b2 == lst_old.len() as int {
            assert(lst_new[b2].rows@[k2] == limit as u32);
            assert((lst_new[b1].rows@[k1] as int) < limit);
        } else {
            assert(lst_new[b1].rows@[k1] == lst_old[b1].rows@[k1]);
            assert(lst_new[b2].rows@[k2] == lst_old[b2].rows@[k2]);
        }
    }
}

/// Folds build row `j` into worker `w`'s table when the row is assigned to
/// this worker: the row joins the bucket whose representative's key tuple
/// matches it, or starts a bucket of its own.
#[verifier::spinoff_prover]
#[verifier::loop_isolation(false)]
#[verifier::rlimit(100)]
fn build_fold_row(b: &Table, bh: &Vec<u64>, w: u64, nw: u64, j: usize, m: &mut HashMap<
    u64,
    Vec<Bucket>,
>)
    requires
        b.wf(),
        bh@.len() == b.height_spec(),
        nw > 0,
        w < nw,
        b.height_spec() <= u32::MAX as int,
        (j as int) < bh@.len(),
        tbl_ok(old(m)@, *b, bh@, w as int, nw as int, j as int),
        tbl_complete(old(m)@, bh@, w as int, nw as int, j as int),
        tbl_no_dup(old(m)@),
    ensures
        tbl_ok(final(m)@, *b, bh@, w as int, nw as int, j as int + 1),
        tbl_complete(final(m)@, bh@, w as int, nw as int, j as int + 1),
        tbl_no_dup(final(m)@),
{
    let h = bh[j];
    if this_thread(h, w, nw) {
        let ghost m_old = m@;
        let mut lst: Vec<Bucket> = match m.remove(&h) {
            Some(l) => l,
            None => Vec::new(),
        };
        let ghost lst_old = lst@;
        proof {
            assert(m@ =~= m_old.remove(h));
            assert(m_old.contains_key(h) ==> lst@ == m_old[h]@);
            assert forall|bi: int|
                0 <= bi < lst@.len() implies (#[trigger] lst@[bi]).rows@.len() > 0 && (
            lst@[bi].rows@[0] as int) < b.height_spec() by {
                assert(bucket_ok(m_old[h]@[bi], *b, bh@, h, j as int));
            }
            assert forall|bi2: int| 0 <= bi2 < lst_old.len() implies bucket_ok(
                #[trigger] lst_old[bi2],
                *b,
                bh@,
                h,
                j as int,
            ) by {
                assert(bucket_ok(m_old[h]@[bi2], *b, bh@, h, j as int));
            }
            assert(lst_no_dup(lst_old)) by {
                if m_old.contains_key(h) {
                    assert(lst_no_dup(m_old[h]@));
                }
            }
        }
        let pos = find_bucket(b, j, b, &lst);
        match pos {
            Some(bi) => {
                let mut bk = lst.remove(bi);
                let ghost bk_old = bk;
                bk.rows.push(j as u32);
                let ghost bk_new = bk;
                lst.insert(bi, bk);
                proof {
                    assert(bk_new.rows@ == bk_old.rows@.push(j as u32));
                    assert(bk_old == lst_old[bi as int]);
                    assert(lst@ =~= lst_old.update(bi as int, bk_new));
                    lemma_fold_into_bucket(lst_old, lst@, bk_new, bi as int, *b, bh@, h, j as int);
                }
            },
            None => {
                let mut rows: Vec<u32> = Vec::new();
                rows.push(j as u32);
                let bk = Bucket { rows };
                let ghost bk_new = bk;
                lst.push(bk);
                proof {
                    assert(lst@ =~= lst_old.push(bk_new));
                    assert(bk_new.rows@ =~= seq![j as u32]);
                    lemma_fold_new_bucket(lst_old, lst@, bk_new, *b, bh@, h, j as int);
                }
            },
        }
        let ghost lst_new = lst@;
        let ghost lstv = lst;
        m.insert(h, lst);
        proof {
            assert(m@ == m_old.remove(h).insert(h, lstv));
            assert(m@.dom() =~= m_old.dom().insert(h));
            assert(m@[h]@ == lst_new);
            assert(forall|hh: u64| m_old.contains_key(hh) && hh != h ==> m@[hh] == m_old[hh]);
            lemma_rebuild_ok(
                m_old,
                m@,
                *b,
                bh@,
                h,
                lst_old,
                lst_new,
                w as int,
                nw as int,
                j as int,
            );
        }
    } else {
        proof {
            assert(tbl_no_dup(m@));
            assert(tbl_ok(m@, *b, bh@, w as int, nw as int, j as int + 1)) by {
                assert forall|hh: u64, bi: int|
                    m@.contains_key(hh) && 0 <= bi < m@[hh]@.len() implies bucket_ok(
                    #[trigger] m@[hh]@[bi],
                    *b,
                    bh@,
                    hh,
                    j as int + 1,
                ) by {
                    lemma_bucket_ok_mono(m@[hh]@[bi], *b, bh@, hh, j as int, j as int + 1);
                }
            }
        }
    }
}

/// Builds worker `w`'s hash table by scanning all build-side row hashes and
/// keeping only the rows this worker is assigned. A hash lookup never
/// assumes equality: a row joins an existing bucket only when its full key
/// tuple matches the bucket's representative row.
#[verifier::spinoff_prover]
#[verifier::loop_isolation(false)]
pub fn create_build_table_worker(b: &Table, bh: &Vec<u64>, w: u64, nw: u64) -> (m: HashMap<
    u64,
    Vec<Bucket>,
>)
    requires
        b.wf(),
        bh@.len() == b.height_spec(),
        nw > 0,
        w < nw,
        b.height_spec() <= u32::MAX as int,
    ensures
        tbl_ok(m@, *b, bh@, w as int, nw as int, bh@.len() as int),
        tbl_complete(m@, bh@, w as int, nw as int, bh@.len() as int),
        tbl_no_dup(m@),
{
    let mut m: HashMap<u64, Vec<Bucket>> = HashMap::new();
    let mut j: usize = 0;
    while j < bh.len()
        invariant
            j <= bh@.len(),
            tbl_ok(m@, *b, bh@, w as int, nw as int, j as int),
            tbl_complete(m@, bh@, w as int, nw as int, j as int),
            tbl_no_dup(m@),
        decreases bh@.len() - j,
    {
        build_fold_row(b, bh, w, nw, j, &mut m);
        j = j + 1;
    }
    m
}

/// After worker `w` folds build row `limit` (hashed to `h`) into its bucket
/// list for `h`, the table invariants advance one row.
proof fn lemma_rebuild_ok(
    m_old: Map<u64, Vec<Bucket>>,
    m_new: Map<u64, Vec<Bucket>>,
    b: Table,
    bh: Seq<u64>,
    h: u64,
    lst_old: Seq<Bucket>,
    lst_new: Seq<Bucket>,
    w: int,
    nw: int,
    limit: int,
)
    requires
        tbl_ok(m_old, b, bh, w, nw, limit),
        tbl_complete(m_old, bh, w, nw, limit),
        tbl_no_dup(m_old),
        lst_no_dup(lst_new),
        0 <= limit < bh.len(),
        bh[limit] == h,
        assigned_worker(h, nw) == w,
        m_new.dom() == m_old.dom().insert(h),
        m_new[h]@ == lst_new,
        forall|hh: u64| m_old.contains_key(hh) && hh != h ==> m_new[hh] == m_old[hh],
        m_old.contains_key(h) ==> lst_old == m_old[h]@,
        !m_old.contains_key(h) ==> lst_old.len() == 0,
        // the new list is the old one with the row folded in
        forall|bi: int|
            0 <= bi < lst_new.len() ==> bucket_ok(#[trigger] lst_new[bi], b, bh, h, limit + 1),
        forall|b1: int, b2: int|
            0 <= b1 < b2 < lst_new.len() ==> !rows_match(
                b,
                (#[trigger] lst_new[b1]).rows@[0] as int,
                b,
                (#[trigger] lst_new[b2]).rows@[0] as int,
            ),
        // membership of old rows survives, and the new row is listed
        forall|bi: int, k: int|
            0 <= bi < lst_old.len() && 0 <= k < lst_old[bi].rows@.len() ==> listed(
                lst_new,
                #[trigger] lst_old[bi].rows@[k],
            ),
        listed(lst_new, limit as u32),
    ensures
        tbl_ok(m_new, b, bh, w, nw, limit + 1),
        tbl_complete(m_new, bh, w, nw, limit + 1),
        tbl_no_dup(m_new),
{
    assert forall|hh: u64| #[trigger] m_new.contains_key(hh) implies lst_no_dup(m_new[hh]@) by {
        if hh == h {
            assert(m_new[hh]@ == lst_new);
        } else {
            assert(m_new[hh] == m_old[hh]);
            assert(lst_no_dup(m_old[hh]@));
        }
    }
    assert forall|hh: u64, bi: int|
        m_new.contains_key(hh) && 0 <= bi < m_new[hh]@.len() implies bucket_ok(
        #[trigger] m_new[hh]@[bi],
        b,
        bh,
        hh,
        limit + 1,
    ) by {
        if hh == h {
            assert(m_new[hh]@[bi] == lst_new[bi]);
        } else {
            assert(m_new[hh] == m_old[hh]);
            assert(bucket_ok(m_old[hh]@[bi], b, bh, hh, limit));
            lemma_bucket_ok_mono(m_old[hh]@[bi], b, bh, hh, limit, limit + 1);
        }
    }
    assert forall|jj: int|
        0 <= jj < limit + 1 && assigned_worker(#[trigger] bh[jj], nw) == w implies in_tbl(
        m_new,
        bh[jj],
        jj as u32,
    ) by {
        if jj == limit {
            assert(m_new.contains_key(h));
        } else {
            assert(in_tbl(m_old, bh[jj], jj as u32));
            if bh[jj] == h {
                if m_old.contains_key(h) {
                    assert(m_old[h]@ == lst_old);
                }
            } else {
                assert(m_new[bh[jj]] == m_old[bh[jj]]);
            }
        }
    }
}

} // verus!

verus! {

/// The pair emitted for probe row `i` and build row `j`, under the caller's
/// swap convention.
pub open spec fn mk_pair(i: u32, j: u32, swap: bool) -> (u32, u32) {
    if swap {
        (j, i)
    } else {
        (i, j)
    }
}

/// The probe-side index a result pair reports.
pub open spec fn probe_of(p: (u32, u32), swap: bool) -> u32 {
    if swap {
        p.1
    } else {
        p.0
    }
}

/// The build-side index a result pair reports.
pub open spec fn build_of(p: (u32, u32), swap: bool) -> u32 {
    if swap {
        p.0
    } else {
        p.1
    }
}

/// The pair (probe `i`, build `j`) occurs among the results.
pub open spec fn has_pair(r: Seq<(u32, u32)>, swap: bool, i: int, j: int) -> bool {
    exists|k: int|
        0 <= k < r.len() && probe_of(#[trigger] r[k], swap) == i && build_of(r[k], swap) == j
}

/// Probes the per-worker build tables with the probe rows `start .. end`
/// (one probe partition) and emits one pair for every true match. A hash
/// match alone is never trusted: full key tuples are compared. Within the
/// partition, pairs come in non-decreasing probe-row order.
#[verifier::spinoff_prover]
#[verifier::loop_isolation(false)]
#[verifier::rlimit(100)]
pub fn probe_inner(
    a: &Table,
    ah: &Vec<u64>,
    start: usize,
    end: usize,
    tables: &Vec<HashMap<u64, Vec<Bucket>>>,
    b: &Table,
    bh: &Vec<u64>,
    swap: bool,
) -> (r: Vec<(u32, u32)>)
    requires
        a.wf(),
        b.wf(),
        a.cols@.len() == b.cols@.len(),
        ah@.len() == a.height_spec(),
        bh@.len() == b.height_spec(),
        a.height_spec() <= u32::MAX as int,
        b.height_spec() <= u32::MAX as int,
        start <= end,
        end as int <= a.height_spec(),
        tables@.len() >= 1,
        forall|w: int|
            0 <= w < tables@.len() ==> tbl_ok(
                (#[trigger] tables@[w])@,
                *b,
                bh@,
                w,
                tables@.len() as int,
                bh@.len() as int,
            ) && tbl_complete(tables@[w]@, bh@, w, tables@.len() as int, bh@.len() as int),
        forall|i: int, j: int|
            0 <= i < ah@.len() && 0 <= j < bh@.len() && rows_match(*a, i, *b, j) ==> ah@[i]
                == bh@[j],
    ensures
        forall|k: int|
            0 <= k < r@.len() ==> start as int <= probe_of(#[trigger] r@[k], swap) as int && (probe_of(
                r@[k],
                swap,
            ) as int) < end as int && (build_of(r@[k], swap) as int) < b.height_spec()
                && rows_match(
                *a,
                probe_of(r@[k], swap) as int,
                *b,
                build_of(r@[k], swap) as int,
            ),
        forall|i: int, j: int|
            start as int <= i < end as int && 0 <= j < b.height_spec() && rows_match(
                *a,
                i,
                *b,
                j,
            ) ==> has_pair(r@, swap, i, j),
        forall|k1: int, k2: int| 0 <= k1 < k2 < r@.len() ==> r@[k1] != r@[k2],
        forall|k1: int, k2: int|
            0 <= k1 < k2 < r@.len() ==> probe_of(#[trigger] r@[k1], swap) <= probe_of(
                #[trigger] r@[k2],
                swap,
            ),
{
    let nw = tables.len();
    let mut r: Vec<(u32, u32)> = Vec::new();
    let mut i: usize = start;
    while i < end
        invariant
            start <= i <= end,
            forall|k: int|
                0 <= k < r@.len() ==> start as int <= probe_of(#[trigger] r@[k], swap) as int && (probe_of(
                    r@[k],
                    swap,
                ) as int) < i as int && (build_of(r@[k], swap) as int) < b.height_spec()
                    && rows_match(
                    *a,
                    probe_of(r@[k], swap) as int,
                    *b,
                    build_of(r@[k], swap) as int,
                ),
            forall|ii: int, j: int|
                start as int <= ii < i as int && 0 <= j < b.height_spec() && rows_match(
                    *a,
                    ii,
                    *b,
                    j,
                ) ==> has_pair(r@, swap, ii, j),
            forall|k1: int, k2: int| 0 <= k1 < k2 < r@.len() ==> r@[k1] != r@[k2],
            forall|k1: int, k2: int|
                0 <= k1 < k2 < r@.len() ==> probe_of(#[trigger] r@[k1], swap) <= probe_of(
                    #[trigger] r@[k2],
                    swap,
                ),
        decreases end - i,
    {
        let h = ah[i];
        let w = (h % (nw as u64)) as usize;
        let tbl = &tables[w];
        let ghost m = tbl@;
        proof {
            assert(assigned_worker(h, nw as int) == w as int);
            assert(tbl_ok(m, *b, bh@, w as int, nw as int, bh@.len() as int));
            assert(tbl_complete(m, bh@, w as int, nw as int, bh@.len() as int));
        }
        let entry = tbl.get(&h);
        match entry {
            None => {
                proof {
                    assert(!m.contains_key(h));
                    assert forall|j: int|
                        0 <= j < b.height_spec() implies !rows_match(*a, i as int, *b, j) by {
                        if rows_match(*a, i as int, *b, j) {
                            assert(ah@[i as int] == bh@[j]);
                            assert(in_tbl(m, h, j as u32));
                        }
                    }
                }
            },
            Some(lst) => {
                proof {
                    assert(m.contains_key(h) && lst@ == m[h]@);
                    assert forall|bi: int|
                        0 <= bi < lst@.len() implies (#[trigger] lst@[bi]).rows@.len() > 0 && (
                    lst@[bi].rows@[0] as int) < b.height_spec() by {
                        assert(bucket_ok(m[h]@[bi], *b, bh@, h, bh@.len() as int));
                    }
                }
                let fb = find_bucket(a, i, b, lst);
                match fb {
                    None => {
                        proof {
                            assert forall|j: int|
                                0 <= j < b.height_spec() implies !rows_match(
                                *a,
                                i as int,
                                *b,
                                j,
                            ) by {
                                if rows_match(*a, i as int, *b, j) {
                                    assert(ah@[i as int] == bh@[j]);
                                    assert(in_tbl(m, h, j as u32));
                                    let (bj, kj) = choose|bj: int, kj: int|
                                        0 <= bj < m[h]@.len() && 0 <= kj
                                            < m[h]@[bj].rows@.len() && #[trigger] m[h]@[
                                        bj].rows@[kj] == j as u32;
                                    assert(bucket_ok(m[h]@[bj], *b, bh@, h, bh@.len() as int));
                                    let rep = m[h]@[bj].rows@[0];
                                    if kj > 0 {
                                        assert(rows_match(*b, j, *b, rep as int));
                                        lemma_rows_match_trans(
                                            *a,
                                            i as int,
                                            *b,
                                            j,
                                            *b,
                                            rep as int,
                                        );
                                    }
                                    assert(rows_match(*a, i as int, *b, rep as int));
                                }
                            }
                        }
                    },
                    Some(bf) => {
                        let bucket = &lst[bf];
                        let ghost rep = bucket.rows@[0];
                        let ghost len0 = r@.len();
                        let ghost r_entry = r@;
                        proof {
                            assert(bucket_ok(m[h]@[bf as int], *b, bh@, h, bh@.len() as int));
                        }
                        let mut k: usize = 0;
                        while k < bucket.rows.len()
                            invariant
                                k <= bucket.rows@.len(),
                                r@.len() == len0 + k as int,
                                forall|mm: int| 0 <= mm < len0 ==> r@[mm] == r_entry[mm],
                                forall|mm: int|
                                    0 <= mm < k as int ==> r@[len0 + mm] == mk_pair(
                                        i as u32,
                                        bucket.rows@[mm],
                                        swap,
                                    ),
                            decreases bucket.rows@.len() - k,
                        {
                            let jj = bucket.rows[k];
                            if swap {
                                r.push((jj, i as u32));
                            } else {
                                r.push((i as u32, jj));
                            }
                            k = k + 1;
                        }
                        proof {
                            lemma_probe_emit(
                                *a,
                                ah@,
                                *b,
                                bh@,
                                m,
                                h,
                                w as int,
                                nw as int,
                                i as int,
                                bf as int,
                                r_entry,
                                r@,
                                swap,
                                start as int,
                            );
                        }
                    },
                }
            },
        }
        i = i + 1;
    }
    r
}

/// After probe row `i` finds its (unique) matching bucket `bf` and emits one
/// pair per listed build row, the accumulated results keep all four probe
/// contracts, now covering row `i` as well.
#[verifier::spinoff_prover]
#[verifier::rlimit(100)]
proof fn lemma_probe_emit(
    a: Table,
    ah: Seq<u64>,
    b: Table,
    bh: Seq<u64>,
    m: Map<u64, Vec<Bucket>>,
    h: u64,
    w: int,
    nw: int,
    i: int,
    bf: int,
    r_old: Seq<(u32, u32)>,
    r_new: Seq<(u32, u32)>,
    swap: bool,
    start: int,
)
    requires
        a.wf(),
        b.wf(),
        a.cols@.len() == b.cols@.len(),
        ah.len() == a.height_spec(),
        bh.len() == b.height_spec(),
        b.height_spec() <= u32::MAX as int,
        0 <= start,
        start <= i < ah.len(),
        i < u32::MAX as int,
        ah[i] == h,
        assigned_worker(h, nw) == w,
        tbl_ok(m, b, bh, w, nw, bh.len() as int),
        tbl_complete(m, bh, w, nw, bh.len() as int),
        forall|ii: int, j: int|
            0 <= ii < ah.len() && 0 <= j < bh.len() && rows_match(a, ii, b, j) ==> ah[ii] == bh[j],
        m.contains_key(h),
        0 <= bf < m[h]@.len(),
        rows_match(a, i, b, m[h]@[bf].rows@[0] as int),
        forall|k: int|
            0 <= k < bf ==> !rows_match(a, i, b, (#[trigger] m[h]@[k]).rows@[0] as int),
        // the emitted block
        r_new.len() == r_old.len() + m[h]@[bf].rows@.len(),
        forall|mm: int| 0 <= mm < r_old.len() ==> r_new[mm] == r_old[mm],
        forall|mm: int|
            0 <= mm < m[h]@[bf].rows@.len() ==> r_new[r_old.len() + mm] == mk_pair(
                i as u32,
                (#[trigger] m[h]@[bf].rows@[mm]),
                swap,
            ),
        // the accumulated prefix already satisfies the contracts below `i`
        forall|k: int|
            0 <= k < r_old.len() ==> start <= probe_of(#[trigger] r_old[k], swap) as int && (probe_of(
                r_old[k],
                swap,
            ) as int) < i && (build_of(r_old[k], swap) as int) < b.height_spec() && rows_match(
                a,
                probe_of(r_old[k], swap) as int,
                b,
                build_of(r_old[k], swap) as int,
            ),
        forall|ii: int, j: int|
            start <= ii < i && 0 <= j < b.height_spec() && rows_match(a, ii, b, j) ==> has_pair(
                r_old,
                swap,
                ii,
                j,
            ),
        forall|k1: int, k2: int| 0 <= k1 < k2 < r_old.len() ==> r_old[k1] != r_old[k2],
        forall|k1: int, k2: int|
            0 <= k1 < k2 < r_old.len() ==> probe_of(#[trigger] r_old[k1], swap) <= probe_of(
                #[trigger] r_old[k2],
                swap,
            ),
    ensures
        forall|k: int|
            0 <= k < r_new.len() ==> start <= probe_of(#[trigger] r_new[k], swap) as int && (probe_of(
                r_new[k],
                swap,
            ) as int) < i + 1 && (build_of(r_new[k], swap) as int) < b.height_spec() && rows_match(
                a,
                probe_of(r_new[k], swap) as int,
                b,
                build_of(r_new[k], swap) as int,
            ),
        forall|ii: int, j: int|
            start <= ii < i + 1 && 0 <= j < b.height_spec() && rows_match(a, ii, b, j)
                ==> has_pair(r_new, swap, ii, j),
        forall|k1: int, k2: int| 0 <= k1 < k2 < r_new.len() ==> r_new[k1] != r_new[k2],
        forall|k1: int, k2: int|
            0 <= k1 < k2 < r_new.len() ==> probe_of(#[trigger] r_new[k1], swap) <= probe_of(
                #[trigger] r_new[k2],
                swap,
            ),
{
    let bucket = m[h]@[bf];
    let rep = bucket.rows@[0] as int;
    assert(bucket_ok(bucket, b, bh, h, bh.len() as int));
    // every emitted pair is a true match of probe row i
    assert forall|mm: int| 0 <= mm < bucket.rows@.len() implies rows_match(
        a,
        i,
        b,
        bucket.rows@[mm] as int,
    ) by {
        if mm > 0 {
            lemma_rows_match_sym(b, bucket.rows@[mm] as int, b, rep);
            lemma_rows_match_trans(a, i, b, rep, b, bucket.rows@[mm] as int);
        }
    }
    // soundness of the new block
    assert forall|k: int| 0 <= k < r_new.len() implies start <= probe_of(
        #[trigger] r_new[k],
        swap,
    ) as int && (probe_of(r_new[k], swap) as int) < i + 1 && (build_of(r_new[k], swap) as int)
        < b.height_spec() && rows_match(
        a,
        probe_of(r_new[k], swap) as int,
        b,
        build_of(r_new[k], swap) as int,
    ) by {
        if k >= r_old.len() {
            let mm = k - r_old.len();
            assert(r_new[k] == mk_pair(i as u32, bucket.rows@[mm], swap));
        }
    }
    // completeness through row i: a match of row i lies in bucket bf
    assert forall|ii: int, j: int|
        start <= ii < i + 1 && 0 <= j < b.height_spec() && rows_match(a, ii, b, j) implies has_pair(
        r_new,
        swap,
        ii,
        j,
    ) by {
        if ii < i {
            assert(has_pair(r_old, swap, ii, j));
            let k = choose|k: int|
                0 <= k < r_old.len() && probe_of(#[trigger] r_old[k], swap) == ii && build_of(
                    r_old[k],
                    swap,
                ) == j;
            assert(r_new[k] == r_old[k]);
            assert(probe_of(r_new[k], swap) == ii && build_of(r_new[k], swap) == j);
        } else {
            // ii == i: locate j in the tables and show its bucket is bf
            assert(ah[i] == bh[j]);
            assert(in_tbl(m, h, j as u32));
            let (bj, kj) = choose|bj: int, kj: int|
                0 <= bj < m[h]@.len() && 0 <= kj < m[h]@[bj].rows@.len() && #[trigger] m[h]@[
            bj].rows@[kj] == j as u32;
            assert(bucket_ok(m[h]@[bj], b, bh, h, bh.len() as int));
            let repj = m[h]@[bj].rows@[0] as int;
            if kj > 0 {
                assert(rows_match(b, j, b, repj));
                lemma_rows_match_trans(a, i, b, j, b, repj);
            }
            assert(rows_match(a, i, b, repj));
            if bj != bf {
                lemma_rows_match_sym(a, i, b, repj);
                lemma_rows_match_trans(b, repj, a, i, b, rep);
                if bj < bf {
                    assert(!rows_match(b, repj, b, rep));
                } else {
                    lemma_rows_match_sym(b, repj, b, rep);
                    assert(!rows_match(b, rep, b, repj));
                }
                assert(false);
            }
            assert(r_new[r_old.len() + kj] == mk_pair(i as u32, j as u32, swap));
            assert(probe_of(r_new[r_old.len() + kj], swap) == i as u32);
            assert(build_of(r_new[r_old.len() + kj], swap) == j as u32);
        }
    }
    // distinctness and probe ordering
    assert forall|k1: int, k2: int| 0 <= k1 < k2 < r_new.len() implies r_new[k1] != r_new[k2]
        && probe_of(#[trigger] r_new[k1], swap) <= probe_of(#[trigger] r_new[k2], swap) by {
        if k2 < r_old.len() {
        } else if k1 < r_old.len() {
            let mm = k2 - r_old.len();
            assert(r_new[k2] == mk_pair(i as u32, bucket.rows@[mm], swap));
            assert((probe_of(r_new[k1], swap) as int) < i);
            assert(probe_of(r_new[k2], swap) == i as u32);
        } else {
            let m1 = k1 - r_old.len();
            let m2 = k2 - r_old.len();
            assert(r_new[k1] == mk_pair(i as u32, bucket.rows@[m1], swap));
            assert(r_new[k2] == mk_pair(i as u32, bucket.rows@[m2], swap));
            assert(bucket.rows@[m1] < bucket.rows@[m2]);
        }
    }
}

} // verus!

verus! {

/// The pair (probe `i`, build `j`) occurs among left-join results.
pub open spec fn has_lpair(r: Seq<(u32, Option<u32>)>, i: int, j: int) -> bool {
    exists|k: int| 0 <= k < r.len() && (#[trigger] r[k]).0 == i && r[k].1 == Some(j as u32)
}

/// Probe row `i` occurs with an absent build side.
pub open spec fn has_none_pair(r: Seq<(u32, Option<u32>)>, i: int) -> bool {
    exists|k: int| 0 <= k < r.len() && (#[trigger] r[k]).0 == i && r[k].1 is None
}

/// Probe row `i` occurs among the left-join results at all.
pub open spec fn probe_listed(r: Seq<(u32, Option<u32>)>, i: int) -> bool {
    exists|k: int| 0 <= k < r.len() && (#[trigger] r[k]).0 as int == i
}

/// Everything the left-join probe promises of its accumulated results once
/// the probe rows `start .. upto` have been handled: sound pairs only, every
/// match listed, every non-match listed with an absent side, no duplicate
/// pairs, and non-decreasing probe order.
pub open spec fn left_acc_ok(
    a: Table,
    b: Table,
    r: Seq<(u32, Option<u32>)>,
    start: int,
    upto: int,
) -> bool {
    &&& forall|k: int|
        0 <= k < r.len() ==> start <= (#[trigger] r[k]).0 as int && (r[k].0 as int) < upto
            && match r[k].1 {
            Some(j) => (j as int) < b.height_spec() && rows_match(a, r[k].0 as int, b, j as int),
            None => forall|j: int|
                0 <= j < b.height_spec() ==> !rows_match(a, r[k].0 as int, b, j),
        }
    &&& forall|ii: int, j: int|
        start <= ii < upto && 0 <= j < b.height_spec() && rows_match(a, ii, b, j) ==> has_lpair(
            r,
            ii,
            j,
        )
    &&& forall|ii: int|
        start <= ii < upto && (forall|j: int|
            0 <= j < b.height_spec() ==> !rows_match(a, ii, b, j)) ==> has_none_pair(r, ii)
    &&& forall|k1: int, k2: int| 0 <= k1 < k2 < r.len() ==> r[k1] != r[k2]
    &&& forall|k1: int, k2: int| 0 <= k1 < k2 < r.len() ==> r[k1].0 <= r[k2].0
}

/// What the left-join probe assumes of its inputs.
pub open spec fn left_probe_pre(
    a: Table,
    ah: Seq<u64>,
    tables: Seq<HashMap<u64, Vec<Bucket>>>,
    b: Table,
    bh: Seq<u64>,
) -> bool {
    &&& a.wf()
    &&& b.wf()
    &&& a.cols@.len() == b.cols@.len()
    &&& ah.len() == a.height_spec()
    &&& bh.len() == b.height_spec()
    &&& a.height_spec() <= u32::MAX as int
    &&& b.height_spec() <= u32::MAX as int
    &&& tables.len() >= 1
    &&& forall|w: int|
        0 <= w < tables.len() ==> tbl_ok(
            (#[trigger] tables[w])@,
            b,
            bh,
            w,
            tables.len() as int,
            bh.len() as int,
        ) && tbl_complete(tables[w]@, bh, w, tables.len() as int, bh.len() as int)
    &&& forall|i: int, j: int|
        0 <= i < ah.len() && 0 <= j < bh.len() && rows_match(a, i, b, j) ==> ah[i] == bh[j]
}

/// Handles one probe row of the left join: emits one pair per build row of
/// the row's (unique) matching bucket, or a single absent-side pair when
/// nothing matches.
#[verifier::spinoff_prover]
#[verifier::loop_isolation(false)]
#[verifier::rlimit(100)]
fn probe_left_row(
    a: &Table,
    ah: &Vec<u64>,
    i: usize,
    start: usize,
    tables: &Vec<HashMap<u64, Vec<Bucket>>>,
    b: &Table,
    bh: &Vec<u64>,
    r: &mut Vec<(u32, Option<u32>)>,
)
    requires
        left_probe_pre(*a, ah@, tables@, *b, bh@),
        start <= i,
        (i as int) < a.height_spec(),
        left_acc_ok(*a, *b, old(r)@, start as int, i as int),
    ensures
        left_acc_ok(*a, *b, final(r)@, start as int, i as int + 1),
{
    let nw = tables.len();
    let h = ah[i];
    let w = (h % (nw as u64)) as usize;
    let tbl = &tables[w];
    let ghost m = tbl@;
    proof {
        assert(assigned_worker(h, nw as int) == w as int);
        assert(tbl_ok(m, *b, bh@, w as int, nw as int, bh@.len() as int));
        assert(tbl_complete(m, bh@, w as int, nw as int, bh@.len() as int));
    }
    let ghost r_entry = r@;
    let mut matched: bool = false;
    let entry = tbl.get(&h);
    match entry {
        None => {
            proof {
                assert(!m.contains_key(h));
                assert forall|j: int|
                    0 <= j < b.height_spec() implies !rows_match(*a, i as int, *b, j) by {
                    if rows_match(*a, i as int, *b, j) {
                        assert(ah@[i as int] == bh@[j]);
                        assert(in_tbl(m, h, j as u32));
                    }
                }
            }
        },
        Some(lst) => {
            proof {
                assert(m.contains_key(h) && lst@ == m[h]@);
                assert forall|bi: int|
                    0 <= bi < lst@.len() implies (#[trigger] lst@[bi]).rows@.len() > 0 && (
                lst@[bi].rows@[0] as int) < b.height_spec() by {
                    assert(bucket_ok(m[h]@[bi], *b, bh@, h, bh@.len() as int));
                }
            }
            let fb = find_bucket(a, i, b, lst);
            match fb {
                None => {
                    proof {
                        assert forall|j: int|
                            0 <= j < b.height_spec() implies !rows_match(*a, i as int, *b, j) by {
                            if rows_match(*a, i as int, *b, j) {
                                assert(ah@[i as int] == bh@[j]);
                                assert(in_tbl(m, h, j as u32));
                                let (bj, kj) = choose|bj: int, kj: int|
                                    0 <= bj < m[h]@.len() && 0 <= kj
                                        < m[h]@[bj].rows@.len() && #[trigger] m[h]@[
                                bj].rows@[kj] == j as u32;
                                assert(bucket_ok(m[h]@[bj], *b, bh@, h, bh@.len() as int));
                                let rep = m[h]@[bj].rows@[0];
                                if kj > 0 {
                                    assert(rows_match(*b, j, *b, rep as int));
                                    lemma_rows_match_trans(*a, i as int, *b, j, *b, rep as int);
                                }
                                assert(rows_match(*a, i as int, *b, rep as int));
                            }
                        }
                    }
                },
                Some(bf) => {
                    matched = true;
                    let bucket = &lst[bf];
                    let ghost len0 = r@.len();
                    proof {
                        assert(bucket_ok(m[h]@[bf as int], *b, bh@, h, bh@.len() as int));
                    }
                    let mut k: usize = 0;
                    while k < bucket.rows.len()
                        invariant
                            k <= bucket.rows@.len(),
                            r@.len() == len0 + k as int,
                            forall|mm: int| 0 <= mm < len0 ==> r@[mm] == r_entry[mm],
                            forall|mm: int|
                                0 <= mm < k as int ==> r@[len0 + mm] == (
                                i as u32,
                                Some(bucket.rows@[mm]),
                            ),
                        decreases bucket.rows@.len() - k,
                    {
                        let jj = bucket.rows[k];
                        r.push((i as u32, Some(jj)));
                        k = k + 1;
                    }
                    proof {
                        lemma_probe_left_emit(
                            *a,
                            ah@,
                            *b,
                            bh@,
                            m,
                            h,
                            w as int,
                            nw as int,
                            i as int,
                            bf as int,
                            r_entry,
                            r@,
                            start as int,
                        );
                    }
                },
            }
        },
    }
    if !matched {
        r.push((i as u32, None));
        proof {
            lemma_probe_left_none(*a, *b, i as int, start as int, r_entry, r@);
        }
    }
}

/// Probes the per-worker build tables for a left-outer join over the probe
/// rows `start .. end`: one pair per true match, and exactly one pair with
/// an absent build index for a probe row with no match. Every probe row of
/// the partition appears at least once, in non-decreasing probe order.
#[verifier::loop_isolation(false)]
pub fn probe_left(
    a: &Table,
    ah: &Vec<u64>,
    start: usize,
    end: usize,
    tables: &Vec<HashMap<u64, Vec<Bucket>>>,
    b: &Table,
    bh: &Vec<u64>,
) -> (r: Vec<(u32, Option<u32>)>)
    requires
        left_probe_pre(*a, ah@, tables@, *b, bh@),
        start <= end,
        end as int <= a.height_spec(),
    ensures
        left_acc_ok(*a, *b, r@, start as int, end as int),
{
    let mut r: Vec<(u32, Option<u32>)> = Vec::new();
    let mut i: usize = start;
    while i < end
        invariant
            start <= i <= end,
            left_acc_ok(*a, *b, r@, start as int, i as int),
        decreases end - i,
    {
        probe_left_row(a, ah, i, start, tables, b, bh, &mut r);
        i = i + 1;
    }
    r
}

/// After a probe row `i` with no build match emits its single absent-side
/// pair, the accumulated results keep all the left-join contracts through
/// row `i`.
proof fn lemma_probe_left_none(
    a: Table,
    b: Table,
    i: int,
    start: int,
    r_old: Seq<(u32, Option<u32>)>,
    r_new: Seq<(u32, Option<u32>)>,
)
    requires
        0 <= start <= i,
        i < u32::MAX as int,
        forall|j: int| 0 <= j < b.height_spec() ==> !rows_match(a, i, b, j),
        r_new == r_old.push((i as u32, Option::<u32>::None)),
        left_acc_ok(a, b, r_old, start, i),
    ensures
        left_acc_ok(a, b, r_new, start, i + 1),
{
    assert(r_new[r_old.len() as int] == (i as u32, Option::<u32>::None));
    assert(forall|mm: int| 0 <= mm < r_old.len() ==> r_new[mm] == r_old[mm]);
    assert(has_none_pair(r_new, i));
    assert forall|ii: int, j: int|
        start <= ii < i + 1 && 0 <= j < b.height_spec() && rows_match(a, ii, b, j)
        implies has_lpair(r_new, ii, j) by {
        if ii < i {
            assert(has_lpair(r_old, ii, j));
            let k = choose|k: int|
                0 <= k < r_old.len() && (#[trigger] r_old[k]).0 == ii && r_old[k].1 == Some(
                    j as u32,
                );
            assert(r_new[k] == r_old[k]);
        }
    }
    assert forall|ii: int|
        start <= ii < i + 1 && (forall|j: int|
            0 <= j < b.height_spec() ==> !rows_match(a, ii, b, j)) implies has_none_pair(
        r_new,
        ii,
    ) by {
        if ii < i {
            assert(has_none_pair(r_old, ii));
            let k = choose|k: int|
                0 <= k < r_old.len() && (#[trigger] r_old[k]).0 == ii && r_old[k].1 is None;
            assert(r_new[k] == r_old[k]);
        }
    }
}

/// After probe row `i` of a left join emits one pair per build row of its
/// (unique) matching bucket, the accumulated results keep all the left-join
/// contracts through row `i`.
#[verifier::spinoff_prover]
#[verifier::rlimit(100)]
proof fn lemma_probe_left_emit(
    a: Table,
    ah: Seq<u64>,
    b: Table,
    bh: Seq<u64>,
    m: Map<u64, Vec<Bucket>>,
    h: u64,
    w: int,
    nw: int,
    i: int,
    bf: int,
    r_old: Seq<(u32, Option<u32>)>,
    r_new: Seq<(u32, Option<u32>)>,
    start: int,
)
    requires
        a.wf(),
        b.wf(),
        a.cols@.len() == b.cols@.len(),
        ah.len() == a.height_spec(),
        bh.len() == b.height_spec(),
        b.height_spec() <= u32::MAX as int,
        0 <= start,
        start <= i < ah.len(),
        i < u32::MAX as int,
        ah[i] == h,
        assigned_worker(h, nw) == w,
        tbl_ok(m, b, bh, w, nw, bh.len() as int),
        tbl_complete(m, bh, w, nw, bh.len() as int),
        forall|ii: int, j: int|
            0 <= ii < ah.len() && 0 <= j < bh.len() && rows_match(a, ii, b, j) ==> ah[ii] == bh[j],
        m.contains_key(h),
        0 <= bf < m[h]@.len(),
        rows_match(a, i, b, m[h]@[bf].rows@[0] as int),
        forall|k: int|
            0 <= k < bf ==> !rows_match(a, i, b, (#[trigger] m[h]@[k]).rows@[0] as int),
        r_new.len() == r_old.len() + m[h]@[bf].rows@.len(),
        forall|mm: int| 0 <= mm < r_old.len() ==> r_new[mm] == r_old[mm],
        forall|mm: int|
            0 <= mm < m[h]@[bf].rows@.len() ==> r_new[r_old.len() + mm] == (
                i as u32,
                Some(#[trigger] m[h]@[bf].rows@[mm]),
            ),
        left_acc_ok(a, b, r_old, start, i),
    ensures
        left_acc_ok(a, b, r_new, start, i + 1),
{
    let bucket = m[h]@[bf];
    let rep = bucket.rows@[0] as int;
    assert(bucket_ok(bucket, b, bh, h, bh.len() as int));
    assert forall|mm: int| 0 <= mm < bucket.rows@.len() implies rows_match(
        a,
        i,
        b,
        bucket.rows@[mm] as int,
    ) by {
        if mm > 0 {
            lemma_rows_match_sym(b, bucket.rows@[mm] as int, b, rep);
            lemma_rows_match_trans(a, i, b, rep, b, bucket.rows@[mm] as int);
        }
    }
    assert forall|k: int| 0 <= k < r_new.len() implies start <= (#[trigger] r_new[k]).0 as int && (
    r_new[k].0 as int) < i + 1 && match r_new[k].1 {
        Some(j) => (j as int) < b.height_spec() && rows_match(a, r_new[k].0 as int, b, j as int),
        None => forall|j: int|
            0 <= j < b.height_spec() ==> !rows_match(a, r_new[k].0 as int, b, j),
    } by {
        if k >= r_old.len() {
            let mm = k - r_old.len();
            assert(r_new[k] == (i as u32, Some(bucket.rows@[mm])));
        }
    }
    assert forall|ii: int, j: int|
        start <= ii < i + 1 && 0 <= j < b.height_spec() && rows_match(a, ii, b, j)
        implies has_lpair(r_new, ii, j) by {
        if ii < i {
            assert(has_lpair(r_old, ii, j));
            let k = choose|k: int|
                0 <= k < r_old.len() && (#[trigger] r_old[k]).0 == ii && r_old[k].1 == Some(
                    j as u32,
                );
            assert(r_new[k] == r_old[k]);
        } else {
            assert(ah[i] == bh[j]);
            assert(in_tbl(m, h, j as u32));
            let (bj, kj) = choose|bj: int, kj: int|
                0 <= bj < m[h]@.len() && 0 <= kj < m[h]@[bj].rows@.len() && #[trigger] m[h]@[
            bj].rows@[kj] == j as u32;
            assert(bucket_ok(m[h]@[bj], b, bh, h, bh.len() as int));
            let repj = m[h]@[bj].rows@[0] as int;
            if kj > 0 {
                assert(rows_match(b, j, b, repj));
                lemma_rows_match_trans(a, i, b, j, b, repj);
            }
            assert(rows_match(a, i, b, repj));
            if bj != bf {
                lemma_rows_match_sym(a, i, b, repj);
                lemma_rows_match_trans(b, repj, a, i, b, rep);
                if bj < bf {
                    assert(!rows_match(b, repj, b, rep));
                } else {
                    lemma_rows_match_sym(b, repj, b, rep);
                    assert(!rows_match(b, rep, b, repj));
                }
                assert(false);
            }
            assert(r_new[r_old.len() + kj] == (i as u32, Some(j as u32)));
        }
    }
    assert forall|ii: int|
        start <= ii < i + 1 && (forall|j: int|
            0 <= j < b.height_spec() ==> !rows_match(a, ii, b, j)) implies has_none_pair(
        r_new,
        ii,
    ) by {
        if ii < i {
            assert(has_none_pair(r_old, ii));
            let k = choose|k: int|
                0 <= k < r_old.len() && (#[trigger] r_old[k]).0 == ii && r_old[k].1 is None;
            assert(r_new[k] == r_old[k]);
        } else {
            assert(rows_match(a, i, b, rep));
            assert(false);
        }
    }
    assert forall|k1: int, k2: int| 0 <= k1 < k2 < r_new.len() implies r_new[k1] != r_new[k2]
        && r_new[k1].0 <= r_new[k2].0 by {
        if k2 < r_old.len() {
        } else if k1 < r_old.len() {
            let mm = k2 - r_old.len();
            assert(r_new[k2] == (i as u32, Some(bucket.rows@[mm])));
            assert((r_new[k1].0 as int) < i);
        } else {
            let m1 = k1 - r_old.len();
            let m2 = k2 - r_old.len();
            assert(r_new[k1] == (i as u32, Some(bucket.rows@[m1])));
            assert(r_new[k2] == (i as u32, Some(bucket.rows@[m2])));
            assert(bucket.rows@[m1] < bucket.rows@[m2]);
        }
    }
}

/// The sum of the first `k` partition lengths.
pub open spec fn sum_lens(lens: Seq<usize>, k: int) -> int
    decreases k,
{
    if k <= 0 {
        0
    } else {
        sum_lens(lens, k - 1) + lens[k - 1]
    }
}

pub proof fn lemma_sum_lens_mono(lens: Seq<usize>, k1: int, k2: int)
    requires
        0 <= k1 <= k2 <= lens.len(),
    ensures
        sum_lens(lens, k1) <= sum_lens(lens, k2),
    decreases k2 - k1,
{
    if k1 < k2 {
        lemma_sum_lens_mono(lens, k1, k2 - 1);
    }
}

/// A prefix sum of the partition lengths: entry `k` is the global row index
/// at which partition `k` starts.
#[verifier::loop_isolation(false)]
pub fn get_offsets(lens: &Vec<usize>) -> (r: Vec<usize>)
    requires
        sum_lens(lens@, lens@.len() as int) <= usize::MAX as int,
    ensures
        r@.len() == lens@.len(),
        forall|k: int| 0 <= k < r@.len() ==> r@[k] as int == sum_lens(lens@, k),
{
    let mut out: Vec<usize> = Vec::new();
    let mut acc: usize = 0;
    let mut i: usize = 0;
    while i < lens.len()
        invariant
            i <= lens@.len(),
            out@.len() == i as int,
            acc as int == sum_lens(lens@, i as int),
            forall|k: int| 0 <= k < i as int ==> out@[k] as int == sum_lens(lens@, k),
        decreases lens@.len() - i,
    {
        out.push(acc);
        proof {
            lemma_sum_lens_mono(lens@, i as int + 1, lens@.len() as int);
        }
        acc = acc + lens[i];
        i = i + 1;
    }
    out
}

} // verus!

verus! {

/// The key tuples of a table, one row vector per row.
#[verifier::loop_isolation(false)]
pub fn gather_rows(t: &Table) -> (r: Vec<Vec<Value>>)
    requires
        t.wf(),
    ensures
        r@.len() == t.height_spec(),
        forall|i: int| 0 <= i < r@.len() ==> (#[trigger] r@[i])@.len() == t.cols@.len(),
        forall|i: int, c: int|
            0 <= i < r@.len() && 0 <= c < t.cols@.len() ==> crate::value::veq(
                #[trigger] r@[i]@[c],
                t.cols@[c].values@[i],
            ),
{
    let height = t.height();
    let mut out: Vec<Vec<Value>> = Vec::new();
    let mut i: usize = 0;
    while i < height
        invariant
            i <= height,
            out@.len() == i as int,
            forall|k: int| 0 <= k < i as int ==> (#[trigger] out@[k])@.len() == t.cols@.len(),
            forall|k: int, c: int|
                0 <= k < i as int && 0 <= c < t.cols@.len() ==> crate::value::veq(
                    #[trigger] out@[k]@[c],
                    t.cols@[c].values@[k],
                ),
        decreases height - i,
    {
        let mut row: Vec<Value> = Vec::new();
        let mut c: usize = 0;
        while c < t.cols.len()
            invariant
                c <= t.cols@.len(),
                row@.len() == c as int,
                forall|m: int|
                    0 <= m < c as int ==> crate::value::veq(
                        #[trigger] row@[m],
                        t.cols@[m].values@[i as int],
                    ),
            decreases t.cols@.len() - c,
        {
            row.push(t.cols[c].values[i].dup());
            c = c + 1;
        }
        out.push(row);
        i = i + 1;
    }
    out
}

/// Splits `height` probe rows into `n` contiguous partition lengths.
#[verifier::loop_isolation(false)]
pub fn partition_lens(height: usize, n: usize) -> (lens: Vec<usize>)
    requires
        n >= 1,
    ensures
        lens@.len() == n as int,
        sum_lens(lens@, n as int) == height as int,
{
    let chunk: usize = height / n;
    let mut lens: Vec<usize> = Vec::new();
    let mut rem: usize = height;
    let mut p: usize = 0;
    while p < n
        invariant
            p <= n,
            lens@.len() == p as int,
            sum_lens(lens@, p as int) + rem as int == height as int,
            p == n ==> rem == 0,
        decreases n - p,
    {
        let take: usize = if p + 1 == n {
            rem
        } else if rem < chunk {
            rem
        } else {
            chunk
        };
        let ghost lens_old = lens@;
        lens.push(take);
        rem = rem - take;
        proof {
            lemma_sum_lens_push(lens_old, take, p as int);
            assert(sum_lens(lens@, p as int + 1) == sum_lens(lens_old, p as int) + take as int);
        }
        p = p + 1;
    }
    lens
}

pub proof fn lemma_sum_lens_push(l: Seq<usize>, x: usize, k: int)
    requires
        0 <= k <= l.len(),
    ensures
        sum_lens(l.push(x), k) == sum_lens(l, k),
    decreases k,
{
    if k > 0 {
        lemma_sum_lens_push(l, x, k - 1);
    }
}

/// Computes the matching row-index pairs of an inner join between probe
/// relation `a` and build relation `b` over their key columns: exactly one
/// pair for every pair of rows whose full key tuples match, each reported
/// once, as `(a-row, b-row)`, or `(b-row, a-row)` when `swap` is set.
#[verifier::loop_isolation(false)]
#[verifier::rlimit(100)]
pub fn inner_join_multiple_keys(a: &Table, b: &Table, swap: bool, n_workers: usize) -> (r: Vec<
    (u32, u32),
>)
    requires
        a.wf(),
        b.wf(),
        a.cols@.len() == b.cols@.len(),
        a.height_spec() <= u32::MAX as int,
        b.height_spec() <= u32::MAX as int,
        n_workers >= 1,
    ensures
        forall|k: int|
            0 <= k < r@.len() ==> (probe_of(#[trigger] r@[k], swap) as int) < a.height_spec() && (
            build_of(r@[k], swap) as int) < b.height_spec() && rows_match(
                *a,
                probe_of(r@[k], swap) as int,
                *b,
                build_of(r@[k], swap) as int,
            ),
        forall|i: int, j: int|
            0 <= i < a.height_spec() && 0 <= j < b.height_spec() && rows_match(*a, i, *b, j)
                ==> has_pair(r@, swap, i, j),
        forall|k1: int, k2: int| 0 <= k1 < k2 < r@.len() ==> r@[k1] != r@[k2],
{
    let ga = gather_rows(a);
    let gb = gather_rows(b);
    let hashed = crate::hashing::hash_rows_pair(&ga, &gb);
    let ah = hashed.0;
    let bh = hashed.1;
    proof {
        lemma_hash_consistency(*a, *b, ga@, gb@, ah@, bh@);
    }
    let mut tables: Vec<HashMap<u64, Vec<Bucket>>> = Vec::new();
    let mut w: usize = 0;
    while w < n_workers
        invariant
            w <= n_workers,
            tables@.len() == w as int,
            forall|ww: int|
                0 <= ww < w as int ==> tbl_ok(
                    (#[trigger] tables@[ww])@,
                    *b,
                    bh@,
                    ww,
                    n_workers as int,
                    bh@.len() as int,
                ) && tbl_complete(tables@[ww]@, bh@, ww, n_workers as int, bh@.len() as int),
        decreases n_workers - w,
    {
        tables.push(create_build_table_worker(b, &bh, w as u64, n_workers as u64));
        w = w + 1;
    }
    let height = a.height();
    let lens = partition_lens(height, n_workers);
    let offsets = get_offsets(&lens);
    let mut out: Vec<(u32, u32)> = Vec::new();
    let mut p: usize = 0;
    while p < n_workers
        invariant
            p <= n_workers,
            forall|k: int|
                0 <= k < out@.len() ==> (probe_of(#[trigger] out@[k], swap) as int) < sum_lens(
                    lens@,
                    p as int,
                ) && (build_of(out@[k], swap) as int) < b.height_spec() && rows_match(
                    *a,
                    probe_of(out@[k], swap) as int,
                    *b,
                    build_of(out@[k], swap) as int,
                ),
            forall|i: int, j: int|
                0 <= i < sum_lens(lens@, p as int) && 0 <= j < b.height_spec() && rows_match(
                    *a,
                    i,
                    *b,
                    j,
                ) ==> has_pair(out@, swap, i, j),
            forall|k1: int, k2: int| 0 <= k1 < k2 < out@.len() ==> out@[k1] != out@[k2],
        decreases n_workers - p,
    {
        proof {
            lemma_sum_lens_mono(lens@, p as int + 1, lens@.len() as int);
            lemma_sum_lens_mono(lens@, 0, p as int);
        }
        let start = offsets[p];
        let plen = lens[p];
        let part = probe_inner(a, &ah, start, start + plen, &tables, b, &bh, swap);
        let ghost out_old = out@;
        let mut q: usize = 0;
        while q < part.len()
            invariant
                q <= part@.len(),
                out@.len() == out_old.len() + q as int,
                forall|mm: int| 0 <= mm < out_old.len() ==> out@[mm] == out_old[mm],
                forall|mm: int| 0 <= mm < q as int ==> out@[out_old.len() + mm] == part@[mm],
            decreases part@.len() - q,
        {
            out.push(part[q]);
            q = q + 1;
        }
        proof {
            let s = sum_lens(lens@, p as int);
            let e = sum_lens(lens@, p as int + 1);
            assert(e == s + lens@[p as int] as int);
            assert forall|k: int|
                0 <= k < out@.len() implies (probe_of(#[trigger] out@[k], swap) as int) < e && (
            build_of(out@[k], swap) as int) < b.height_spec() && rows_match(
                *a,
                probe_of(out@[k], swap) as int,
                *b,
                build_of(out@[k], swap) as int,
            ) by {
                if k < out_old.len() {
                    assert(out@[k] == out_old[k]);
                } else {
                    assert(out@[k] == part@[k - out_old.len()]);
                }
            }
            assert forall|i: int, j: int|
                0 <= i < e && 0 <= j < b.height_spec() && rows_match(*a, i, *b, j)
                implies has_pair(out@, swap, i, j) by {
                if i < s {
                    let k = choose|k: int|
                        0 <= k < out_old.len() && probe_of(#[trigger] out_old[k], swap) == i
                            && build_of(out_old[k], swap) == j;
                    assert(out@[k] == out_old[k]);
                } else {
                    assert(has_pair(part@, swap, i, j));
                    let k = choose|k: int|
                        0 <= k < part@.len() && probe_of(#[trigger] part@[k], swap) == i
                            && build_of(part@[k], swap) == j;
                    assert(out@[out_old.len() + k] == part@[k]);
                }
            }
            assert(start as int == s);
            assert forall|k1: int, k2: int|
                0 <= k1 < k2 < out@.len() implies out@[k1] != out@[k2] by {
                if k2 < out_old.len() {
                    assert(out@[k1] == out_old[k1]);
                    assert(out@[k2] == out_old[k2]);
                } else if k1 < out_old.len() {
                    assert(out@[k1] == out_old[k1]);
                    assert(out@[k2] == part@[k2 - out_old.len()]);
                    assert((probe_of(out@[k1], swap) as int) < s);
                    assert(s <= probe_of(out@[k2], swap) as int);
                } else {
                    assert(out@[k1] == part@[k1 - out_old.len()]);
                    assert(out@[k2] == part@[k2 - out_old.len()]);
                }
            }
        }
        p = p + 1;
    }
    out
}

/// Matching rows of the two key tables hash equally: the congruence the
/// probe phase needs, carried from the hashing call through value equality.
proof fn lemma_hash_consistency(
    a: Table,
    b: Table,
    ga: Seq<Vec<Value>>,
    gb: Seq<Vec<Value>>,
    ah: Seq<u64>,
    bh: Seq<u64>,
)
    requires
        a.cols@.len() == b.cols@.len(),
        ga.len() == a.height_spec(),
        gb.len() == b.height_spec(),
        ah.len() == ga.len(),
        bh.len() == gb.len(),
        forall|i: int| 0 <= i < ga.len() ==> (#[trigger] ga[i])@.len() == a.cols@.len(),
        forall|i: int, c: int|
            0 <= i < ga.len() && 0 <= c < a.cols@.len() ==> crate::value::veq(
                #[trigger] ga[i]@[c],
                a.cols@[c].values@[i],
            ),
        forall|j: int| 0 <= j < gb.len() ==> (#[trigger] gb[j])@.len() == b.cols@.len(),
        forall|j: int, c: int|
            0 <= j < gb.len() && 0 <= c < b.cols@.len() ==> crate::value::veq(
                #[trigger] gb[j]@[c],
                b.cols@[c].values@[j],
            ),
        forall|i: int, j: int|
            0 <= i < ga.len() && 0 <= j < gb.len() && seq_veq(ga[i]@, gb[j]@) ==> ah[i] == bh[j],
    ensures
        forall|i: int, j: int|
            0 <= i < a.height_spec() && 0 <= j < b.height_spec() && rows_match(a, i, b, j)
                ==> ah[i] == bh[j],
{
    assert forall|i: int, j: int|
        0 <= i < a.height_spec() && 0 <= j < b.height_spec() && rows_match(a, i, b, j)
        implies ah[i] == bh[j] by {
        assert forall|c: int| 0 <= c < a.cols@.len() implies crate::value::veq(
            #[trigger] ga[i]@[c],
            gb[j]@[c],
        ) by {
            assert(crate::value::vmatch(a.cols@[c].values@[i], b.cols@[c].values@[j]));
            crate::value::lemma_vmatch_implies_veq(a.cols@[c].values@[i], b.cols@[c].values@[j]);
            crate::value::lemma_veq_trans(
                ga[i]@[c],
                a.cols@[c].values@[i],
                b.cols@[c].values@[j],
            );
            crate::value::lemma_veq_sym(gb[j]@[c], b.cols@[c].values@[j]);
            crate::value::lemma_veq_trans(
                ga[i]@[c],
                b.cols@[c].values@[j],
                gb[j]@[c],
            );
        }
        assert(seq_veq(ga[i]@, gb[j]@));
    }
}

} // verus!

verus! {

/// Computes the row-index pairs of a left-outer join between probe relation
/// `a` and build relation `b`: one `(a-row, Some(b-row))` pair per true
/// match, and exactly one `(a-row, None)` pair for a probe row with no
/// match, so every probe row appears at least once and a non-match exactly
/// once.
#[verifier::loop_isolation(false)]
#[verifier::rlimit(100)]
pub fn left_join_multiple_keys(a: &Table, b: &Table, n_workers: usize) -> (r: Vec<
    (u32, Option<u32>),
>)
    requires
        a.wf(),
        b.wf(),
        a.cols@.len() == b.cols@.len(),
        a.height_spec() <= u32::MAX as int,
        b.height_spec() <= u32::MAX as int,
        n_workers >= 1,
    ensures
        forall|k: int|
            0 <= k < r@.len() ==> ((#[trigger] r@[k]).0 as int) < a.height_spec() && match r@[
            k].1 {
                Some(j) => (j as int) < b.height_spec() && rows_match(
                    *a,
                    r@[k].0 as int,
                    *b,
                    j as int,
                ),
                None => forall|j: int|
                    0 <= j < b.height_spec() ==> !rows_match(*a, r@[k].0 as int, *b, j),
            },
        forall|i: int, j: int|
            0 <= i < a.height_spec() && 0 <= j < b.height_spec() && rows_match(*a, i, *b, j)
                ==> has_lpair(r@, i, j),
        forall|i: int|
            0 <= i < a.height_spec() && (forall|j: int|
                0 <= j < b.height_spec() ==> !rows_match(*a, i, *b, j)) ==> has_none_pair(r@, i),
        forall|i: int| 0 <= i < a.height_spec() ==> probe_listed(r@, i),
        forall|k1: int, k2: int| 0 <= k1 < k2 < r@.len() ==> r@[k1] != r@[k2],
{
    let ga = gather_rows(a);
    let gb = gather_rows(b);
    let hashed = crate::hashing::hash_rows_pair(&ga, &gb);
    let ah = hashed.0;
    let bh = hashed.1;
    proof {
        lemma_hash_consistency(*a, *b, ga@, gb@, ah@, bh@);
    }
    let mut tables: Vec<HashMap<u64, Vec<Bucket>>> = Vec::new();
    let mut w: usize = 0;
    while w < n_workers
        invariant
            w <= n_workers,
            tables@.len() == w as int,
            forall|ww: int|
                0 <= ww < w as int ==> tbl_ok(
                    (#[trigger] tables@[ww])@,
                    *b,
                    bh@,
                    ww,
                    n_workers as int,
                    bh@.len() as int,
                ) && tbl_complete(tables@[ww]@, bh@, ww, n_workers as int, bh@.len() as int),
        decreases n_workers - w,
    {
        tables.push(create_build_table_worker(b, &bh, w as u64, n_workers as u64));
        w = w + 1;
    }
    let height = a.height();
    let lens = partition_lens(height, n_workers);
    let offsets = get_offsets(&lens);
    let mut out: Vec<(u32, Option<u32>)> = Vec::new();
    let mut p: usize = 0;
    while p < n_workers
        invariant
            p <= n_workers,
            forall|k: int|
                0 <= k < out@.len() ==> ((#[trigger] out@[k]).0 as int) < sum_lens(
                    lens@,
                    p as int,
                ) && match out@[k].1 {
                    Some(j) => (j as int) < b.height_spec() && rows_match(
                        *a,
                        out@[k].0 as int,
                        *b,
                        j as int,
                    ),
                    None => forall|j: int|
                        0 <= j < b.height_spec() ==> !rows_match(*a, out@[k].0 as int, *b, j),
                },
            forall|i: int, j: int|
                0 <= i < sum_lens(lens@, p as int) && 0 <= j < b.height_spec() && rows_match(
                    *a,
                    i,
                    *b,
                    j,
                ) ==> has_lpair(out@, i, j),
            forall|i: int|
                0 <= i < sum_lens(lens@, p as int) && (forall|j: int|
                    0 <= j < b.height_spec() ==> !rows_match(*a, i, *b, j)) ==> has_none_pair(
                    out@,
                    i,
                ),
            forall|k1: int, k2: int| 0 <= k1 < k2 < out@.len() ==> out@[k1] != out@[k2],
        decreases n_workers - p,
    {
        proof {
            lemma_sum_lens_mono(lens@, p as int + 1, lens@.len() as int);
            lemma_sum_lens_mono(lens@, 0, p as int);
        }
        let start = offsets[p];
        let plen = lens[p];
        let part = probe_left(a, &ah, start, start + plen, &tables, b, &bh);
        let ghost out_old = out@;
        let mut q: usize = 0;
        while q < part.len()
            invariant
                q <= part@.len(),
                out@.len() == out_old.len() + q as int,
                forall|mm: int| 0 <= mm < out_old.len() ==> out@[mm] == out_old[mm],
                forall|mm: int| 0 <= mm < q as int ==> out@[out_old.len() + mm] == part@[mm],
            decreases part@.len() - q,
        {
            out.push(part[q]);
            q = q + 1;
        }
        proof {
            let s = sum_lens(lens@, p as int);
            let e = sum_lens(lens@, p as int + 1);
            assert(e == s + lens@[p as int] as int);
            assert(start as int == s);
            assert forall|k: int|
                0 <= k < out@.len() implies ((#[trigger] out@[k]).0 as int) < e && match out@[
            k].1 {
                Some(j) => (j as int) < b.height_spec() && rows_match(
                    *a,
                    out@[k].0 as int,
                    *b,
                    j as int,
                ),
                None => forall|j: int|
                    0 <= j < b.height_spec() ==> !rows_match(*a, out@[k].0 as int, *b, j),
            } by {
                if k < out_old.len() {
                    assert(out@[k] == out_old[k]);
                } else {
                    assert(out@[k] == part@[k - out_old.len()]);
                }
            }
            assert forall|i: int, j: int|
                0 <= i < e && 0 <= j < b.height_spec() && rows_match(*a, i, *b, j)
                implies has_lpair(out@, i, j) by {
                if i < s {
                    let k = choose|k: int|
                        0 <= k < out_old.len() && (#[trigger] out_old[k]).0 == i && out_old[k].1
                            == Some(j as u32);
                    assert(out@[k] == out_old[k]);
                } else {
                    assert(has_lpair(part@, i, j));
                    let k = choose|k: int|
                        0 <= k < part@.len() && (#[trigger] part@[k]).0 == i && part@[k].1 == Some(
                            j as u32,
                        );
                    assert(out@[out_old.len() + k] == part@[k]);
                }
            }
            assert forall|i: int|
                0 <= i < e && (forall|j: int|
                    0 <= j < b.height_spec() ==> !rows_match(*a, i, *b, j)) implies has_none_pair(
                out@,
                i,
            ) by {
                if i < s {
                    assert(has_none_pair(out_old, i));
                    let k = choose|k: int|
                        0 <= k < out_old.len() && (#[trigger] out_old[k]).0 == i && out_old[
                        k].1 is None;
                    assert(out@[k] == out_old[k]);
                } else {
                    assert(has_none_pair(part@, i));
                    let k = choose|k: int|
                        0 <= k < part@.len() && (#[trigger] part@[k]).0 == i && part@[k].1 is None;
                    assert(out@[out_old.len() + k] == part@[k]);
                }
            }
            assert forall|k1: int, k2: int|
                0 <= k1 < k2 < out@.len() implies out@[k1] != out@[k2] by {
                if k2 < out_old.len() {
                    assert(out@[k1] == out_old[k1]);
                    assert(out@[k2] == out_old[k2]);
                } else if k1 < out_old.len() {
                    assert(out@[k1] == out_old[k1]);
                    assert(out@[k2] == part@[k2 - out_old.len()]);
                    assert((out@[k1].0 as int) < s);
                    assert(s <= out@[k2].0 as int);
                } else {
                    assert(out@[k1] == part@[k1 - out_old.len()]);
                    assert(out@[k2] == part@[k2 - out_old.len()]);
                }
            }
        }
        p = p + 1;
    }
    proof {
        assert forall|i: int| 0 <= i < a.height_spec() implies probe_listed(out@, i) by {
            if exists|j: int| 0 <= j < b.height_spec() && rows_match(*a, i, *b, j) {
                let j = choose|j: int| 0 <= j < b.height_spec() && rows_match(*a, i, *b, j);
                assert(has_lpair(out@, i, j));
                let k = choose|k: int|
                    0 <= k < out@.len() && (#[trigger] out@[k]).0 == i && out@[k].1 == Some(
                        j as u32,
                    );
                assert(out@[k].0 as int == i);
            } else {
                assert(has_none_pair(out@, i));
                let k = choose|k: int|
                    0 <= k < out@.len() && (#[trigger] out@[k]).0 == i && out@[k].1 is None;
                assert(out@[k].0 as int == i);
            }
        }
    }
    out
}

} // verus!
