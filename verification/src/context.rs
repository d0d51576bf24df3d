//! Per-query mutable state shared by every operator of one evaluation: a
//! result cache keyed by exact strings, a transient expression cache, and an
//! explicit row-limit override that takes precedence over operator-local
//! limits. The override is an ordinary field, so handing the context to a
//! worker hands the override along with it.

use vstd::prelude::*;
use crate::column::Column;
use crate::table::{table_like, Table};

verus! {

/// The execution state of one query evaluation.
pub struct ExecutionState {
    /// Realized tables by cache key; at most one entry per key.
    pub cache: Vec<(String, Table)>,
    /// Transient expression results, cleared after any operator that
    /// evaluates a fresh set of expressions.
    pub expr_cache: Vec<(String, Column)>,
    /// When set, the query-wide number of rows to fetch, overriding any
    /// operator-local limit.
    pub fetch_rows: Option<usize>,
}

impl ExecutionState {
    /// The result cache holds an entry under `k`.
    pub open spec fn cache_has(self, k: Seq<char>) -> bool {
        exists|i: int| 0 <= i < self.cache@.len() && (#[trigger] self.cache@[i]).0@ == k
    }

    /// The result cache lists `k` at most once.
    pub open spec fn cache_wf(self) -> bool {
        forall|i: int, j: int|
            0 <= i < j < self.cache@.len() ==> self.cache@[i].0@ != self.cache@[j].0@
    }

    /// The entry stored under `k` is `t`.
    pub open spec fn cache_maps(self, k: Seq<char>, t: Table) -> bool {
        exists|i: int|
            0 <= i < self.cache@.len() && (#[trigger] self.cache@[i]).0@ == k && self.cache@[i].1
                == t
    }

    /// Some stored entry under `k` is structurally equal to `t`: what a
    /// cache hit hands back.
    pub open spec fn serves(self, k: Seq<char>, t: Table) -> bool {
        exists|st: Table| #[trigger] self.cache_maps(k, st) && table_like(st, t)
    }

    /// Every stored table is well-formed: a cached table is immutable once
    /// stored, so this holds from the store on.
    pub open spec fn tables_wf(self) -> bool {
        forall|i: int| 0 <= i < self.cache@.len() ==> (#[trigger] self.cache@[i]).1.wf()
    }

    /// A fresh state: empty caches, no override.
    pub fn new(fetch_rows: Option<usize>) -> (r: ExecutionState)
        ensures
            r.cache@.len() == 0,
            r.expr_cache@.len() == 0,
            r.fetch_rows == fetch_rows,
            r.cache_wf(),
            r.tables_wf(),
    {
        ExecutionState { cache: Vec::new(), expr_cache: Vec::new(), fetch_rows }
    }

    /// An exact-key lookup in the result cache; a hit hands back an
    /// independent copy of the stored table.
    #[verifier::loop_isolation(false)]
    pub fn cache_hit(&self, key: &String) -> (r: Option<Table>)
        ensures
            match r {
                Some(t) => (exists|i: int|
                    0 <= i < self.cache@.len() && (#[trigger] self.cache@[i]).0@ == key@
                        && table_like(t, self.cache@[i].1)) && (self.tables_wf() ==> t.wf()),
                None => !self.cache_has(key@),
            },
            r is Some <==> self.cache_has(key@),
    {
        let mut i: usize = 0;
        while i < self.cache.len()
            invariant
                i <= self.cache@.len(),
                forall|k: int| 0 <= k < i as int ==> (#[trigger] self.cache@[k]).0@ != key@,
            decreases self.cache@.len() - i,
        {
            if crate::categorical::compare_str(&self.cache[i].0, key) {
                let t = self.cache[i].1.dup();
                proof {
                    assert(self.cache@[i as int].0@ == key@ && table_like(
                        t,
                        self.cache@[i as int].1,
                    ));
                    if self.tables_wf() {
                        crate::table::lemma_table_like_wf(t, self.cache@[i as int].1);
                    }
                }
                return Some(t);
            }
            i = i + 1;
        }
        None
    }

    /// Stores `df` under `key`, overwriting any previous entry: idempotent,
    /// and the only observable side effect of caching.
    #[verifier::loop_isolation(false)]
    pub fn store_cache(&mut self, key: String, df: Table)
        requires
            old(self).cache_wf(),
            df.wf(),
        ensures
            final(self).cache_wf(),
            old(self).tables_wf() ==> final(self).tables_wf(),
            final(self).cache_maps(key@, df),
            final(self).expr_cache == old(self).expr_cache,
            final(self).fetch_rows == old(self).fetch_rows,
            forall|k: Seq<char>|
                k != key@ ==> (final(self).cache_has(k) <==> old(self).cache_has(k)),
            forall|k: Seq<char>, t: Table|
                k != key@ ==> (final(self).cache_maps(k, t) <==> old(self).cache_maps(k, t)),
    {
        let ghost cache_old = self.cache@;
        let mut i: usize = 0;
        while i < self.cache.len()
            invariant
                *self == *old(self),
                self.cache@ == cache_old,
                i <= self.cache@.len(),
                forall|k: int| 0 <= k < i as int ==> (#[trigger] self.cache@[k]).0@ != key@,
            decreases self.cache@.len() - i,
        {
            if crate::categorical::compare_str(&self.cache[i].0, &key) {
                let ghost entry = (key, df);
                self.cache.set(i, (key, df));
                proof {
                    assert(self.cache@ == cache_old.update(i as int, entry));
                    assert(self.cache@[i as int].0@ == entry.0@);
                    assert forall|k: Seq<char>, t: Table|
                        k != entry.0@ implies (self.cache_maps(k, t) <==> old(self).cache_maps(
                        k,
                        t,
                    )) by {
                        if self.cache_maps(k, t) {
                            let m = choose|m: int|
                                0 <= m < self.cache@.len() && (#[trigger] self.cache@[m]).0@ == k
                                    && self.cache@[m].1 == t;
                            assert(cache_old[m] == self.cache@[m]);
                        }
                        if old(self).cache_maps(k, t) {
                            let m = choose|m: int|
                                0 <= m < cache_old.len() && (#[trigger] cache_old[m]).0@ == k
                                    && cache_old[m].1 == t;
                            assert(self.cache@[m] == cache_old[m]);
                        }
                    }
                    assert forall|k: Seq<char>|
                        k != entry.0@ implies (self.cache_has(k) <==> old(self).cache_has(k)) by {
                        if self.cache_has(k) {
                            let m = choose|m: int|
                                0 <= m < self.cache@.len() && (#[trigger] self.cache@[m]).0@ == k;
                            assert(cache_old[m] == self.cache@[m]);
                        }
                        if old(self).cache_has(k) {
                            let m = choose|m: int|
                                0 <= m < cache_old.len() && (#[trigger] cache_old[m]).0@ == k;
                            assert(self.cache@[m] == cache_old[m]);
                        }
                    }
                }
                return ;
            }
            i = i + 1;
        }
        let ghost entry = (key, df);
        self.cache.push((key, df));
        proof {
            assert(self.cache@ == cache_old.push(entry));
            assert(self.cache@[cache_old.len() as int].0@ == entry.0@);
            assert forall|k: Seq<char>, t: Table|
                k != entry.0@ implies (self.cache_maps(k, t) <==> old(self).cache_maps(k, t)) by {
                if self.cache_maps(k, t) {
                    let m = choose|m: int|
                        0 <= m < self.cache@.len() && (#[trigger] self.cache@[m]).0@ == k
                            && self.cache@[m].1 == t;
                    assert(m < cache_old.len());
                    assert(cache_old[m] == self.cache@[m]);
                }
                if old(self).cache_maps(k, t) {
                    let m = choose|m: int|
                        0 <= m < cache_old.len() && (#[trigger] cache_old[m]).0@ == k && cache_old[
                        m].1 == t;
                    assert(self.cache@[m] == cache_old[m]);
                }
            }
            assert forall|k: Seq<char>|
                k != entry.0@ implies (self.cache_has(k) <==> old(self).cache_has(k)) by {
                if self.cache_has(k) {
                    let m = choose|m: int|
                        0 <= m < self.cache@.len() && (#[trigger] self.cache@[m]).0@ == k;
                    assert(m < cache_old.len());
                    assert(cache_old[m] == self.cache@[m]);
                }
                if old(self).cache_has(k) {
                    let m = choose|m: int|
                        0 <= m < cache_old.len() && (#[trigger] cache_old[m]).0@ == k;
                    assert(self.cache@[m] == cache_old[m]);
                }
            }
        }
    }

    /// Empties the expression cache; the result cache is untouched.
    pub fn clear_expr_cache(&mut self)
        ensures
            final(self).expr_cache@.len() == 0,
            final(self).cache == old(self).cache,
            final(self).fetch_rows == old(self).fetch_rows,
    {
        self.expr_cache = Vec::new();
    }

    /// The row limit in force: the query-wide override when one is set,
    /// otherwise the operator-local limit unchanged.
    pub open spec fn effective_limit_spec(self, requested: Option<usize>) -> Option<usize> {
        if self.fetch_rows is Some {
            self.fetch_rows
        } else {
            requested
        }
    }

    /// Decides `effective_limit_spec`.
    pub fn effective_row_limit(&self, requested: Option<usize>) -> (r: Option<usize>)
        ensures
            r == self.effective_limit_spec(requested),
    {
        match self.fetch_rows {
            Some(n) => Some(n),
            None => requested,
        }
    }
}

} // verus!
