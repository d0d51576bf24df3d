//! Dictionary (categorical) encoding: strings become small integer codes
//! backed by a reverse mapping from code to string. The mapping is either
//! local to one column or shared through an explicitly passed string cache,
//! so that columns built against the same cache can be compared by code.
//! The distinct-value count of the mapping feeds the adaptive aggregation
//! heuristic.

use vstd::prelude::*;
use crate::column::Column;
use crate::value::Value;

verus! {

/// No sequence of strings repeats a character sequence.
pub open spec fn strs_distinct(ss: Seq<String>) -> bool {
    forall|i: int, j: int| 0 <= i < j < ss.len() ==> ss[i]@ != ss[j]@
}

/// Some entry of `ss` reads `s`.
pub open spec fn strs_has(ss: Seq<String>, s: Seq<char>) -> bool {
    exists|i: int| 0 <= i < ss.len() && ss[i]@ == s
}

/// `k` occurs among the keys of the association list `m`.
pub open spec fn assoc_contains(m: Seq<(u32, u32)>, k: u32) -> bool {
    exists|i: int| 0 <= i < m.len() && m[i].0 == k
}

/// `m` associates `k` with `v`.
pub open spec fn assoc_maps(m: Seq<(u32, u32)>, k: u32, v: u32) -> bool {
    exists|i: int| 0 <= i < m.len() && m[i] == (k, v)
}

/// Keys of `m` are pairwise distinct.
pub open spec fn assoc_unique(m: Seq<(u32, u32)>) -> bool {
    forall|i: int, j: int| 0 <= i < j < m.len() ==> m[i].0 != m[j].0
}

/// The process-wide string cache, passed explicitly to every builder that
/// interns globally. Distinct strings only; a string's id is its position.
pub struct StringCache {
    pub strings: Vec<String>,
    pub uuid: u128,
}

impl StringCache {
    pub open spec fn wf(self) -> bool {
        strs_distinct(self.strings@)
    }

    /// A fresh, empty cache under the given identity token.
    pub fn new(uuid: u128) -> (r: StringCache)
        ensures
            r.strings@.len() == 0,
            r.uuid == uuid,
            r.wf(),
    {
        StringCache { strings: Vec::new(), uuid }
    }

    /// Interns `s`: returns the id it already has, or appends it under the
    /// next id.
    pub fn intern(&mut self, s: &String) -> (g: u32)
        requires
            old(self).wf(),
            old(self).strings@.len() < u32::MAX as int,
        ensures
            final(self).wf(),
            final(self).uuid == old(self).uuid,
            (g as int) < final(self).strings@.len(),
            final(self).strings@[g as int]@ == s@,
            strs_has(old(self).strings@, s@) ==> *final(self) == *old(self),
            !strs_has(old(self).strings@, s@) ==> final(self).strings@ == old(
                self,
            ).strings@.push(*s) && g as int == old(self).strings@.len(),
    {
        let mut i: usize = 0;
        while i < self.strings.len()
            invariant
                *self == *old(self),
                old(self).wf(),
                old(self).strings@.len() < u32::MAX as int,
                i <= self.strings@.len(),
                forall|m: int| 0 <= m < i as int ==> self.strings@[m]@ != s@,
            decreases self.strings@.len() - i,
        {
            if compare_str(&self.strings[i], s) {
                return i as u32;
            }
            i = i + 1;
        }
        let g = self.strings.len();
        self.strings.push(s.clone());
        g as u32
    }
}

/// Whether two strings read the same.
pub fn compare_str(a: &String, b: &String) -> (r: bool)
    ensures
        r == (a@ == b@),
{
    a.eq(b)
}

/// Grows a reverse mapping while a categorical column is built. `Global`
/// holds pairs of (cache id, local code) plus the local strings and the
/// cache's identity token; `Local` holds the local strings alone, with the
/// position as the code.
pub enum RevMappingBuilder {
    Global(Vec<(u32, u32)>, Vec<String>, u128),
    Local(Vec<String>),
}

/// A finished reverse mapping from category code to string.
pub enum RevMapping {
    Global(Vec<(u32, u32)>, Vec<String>, u128),
    Local(Vec<String>),
}

impl RevMappingBuilder {
    /// The category strings collected so far.
    pub open spec fn cats(self) -> Seq<String> {
        match self {
            RevMappingBuilder::Global(_, ss, _) => ss@,
            RevMappingBuilder::Local(ss) => ss@,
        }
    }

    pub open spec fn wf(self) -> bool {
        match self {
            RevMappingBuilder::Global(m, ss, _) => {
                &&& assoc_unique(m@)
                &&& m@.len() == ss@.len()
                &&& forall|i: int| 0 <= i < m@.len() ==> (m@[i].1 as int) < ss@.len()
                &&& strs_distinct(ss@)
            },
            RevMappingBuilder::Local(ss) => strs_distinct(ss@),
        }
    }

    /// Code `idx` stands for the string `s`.
    pub open spec fn maps_code(self, idx: u32, s: Seq<char>) -> bool {
        match self {
            RevMappingBuilder::Global(m, ss, _) => exists|v: u32|
                assoc_maps(m@, idx, v) && (v as int) < ss@.len() && ss@[v as int]@ == s,
            RevMappingBuilder::Local(ss) => (idx as int) < ss@.len() && ss@[idx as int]@ == s,
        }
    }

    /// The position of `s` among the collected category strings, if any.
    pub fn find_cat(&self, s: &String) -> (r: Option<u32>)
        requires
            self.cats().len() < u32::MAX as int,
        ensures
            match r {
                Some(i) => (i as int) < self.cats().len() && self.cats()[i as int]@ == s@,
                None => !strs_has(self.cats(), s@),
            },
    {
        let ss: &Vec<String> = match self {
            RevMappingBuilder::Global(_, ss, _) => ss,
            RevMappingBuilder::Local(ss) => ss,
        };
        let mut i: usize = 0;
        while i < ss.len()
            invariant
                ss@ == self.cats(),
                ss@.len() < u32::MAX as int,
                i <= ss@.len(),
                forall|m: int| 0 <= m < i as int ==> ss@[m]@ != s@,
            decreases ss@.len() - i,
        {
            if compare_str(&ss[i], s) {
                return Some(i as u32);
            }
            i = i + 1;
        }
        None
    }

    /// Records that code `idx` reads `value`. A local mapping appends the
    /// string (the code is its position); a global mapping adds an entry
    /// only when `idx` is new.
    pub fn insert(&mut self, idx: u32, value: &String)
        requires
            old(self).wf(),
            old(self).cats().len() < u32::MAX as int,
            *old(self) matches RevMappingBuilder::Local(ss) ==> !strs_has(ss@, value@),
            *old(self) matches RevMappingBuilder::Global(m, ss, _) ==> (!assoc_contains(m@, idx)
                ==> !strs_has(ss@, value@)),
        ensures
            final(self).wf(),
            (*final(self)) is Global <==> (*old(self)) is Global,
            *old(self) matches RevMappingBuilder::Local(ss) ==> *final(self)
                matches RevMappingBuilder::Local(ss2) && ss2@ == ss@.push(*value),
            *old(self) matches RevMappingBuilder::Global(m, ss, u) ==> *final(self)
                matches RevMappingBuilder::Global(m2, ss2, u2) && u2 == u && (if assoc_contains(
                m@,
                idx,
            ) {
                m2@ == m@ && ss2@ == ss@
            } else {
                m2@ == m@.push((idx, ss@.len() as u32)) && ss2@ == ss@.push(*value)
            }),
    {
        match self {
            RevMappingBuilder::Local(ss) => {
                ss.push(value.clone());
            },
            RevMappingBuilder::Global(m, ss, _) => {
                let mut found: bool = false;
                let mut i: usize = 0;
                while i < m.len()
                    invariant
                        !found ==> forall|k: int| 0 <= k < i as int ==> m@[k].0 != idx,
                        found ==> assoc_contains(m@, idx),
                        i <= m@.len(),
                    decreases m@.len() - i,
                {
                    if m[i].0 == idx {
                        found = true;
                    }
                    i = i + 1;
                }
                if !found {
                    let local: u32 = ss.len() as u32;
                    ss.push(value.clone());
                    m.push((idx, local));
                }
            },
        }
    }

    /// Freezes the builder into the finished mapping.
    pub fn finish(self) -> (r: RevMapping)
        ensures
            r.cats() == self.cats(),
            r.wf() <==> self.wf(),
            r is Global <==> self is Global,
            forall|idx: u32, s: Seq<char>| r.maps_code(idx, s) == self.maps_code(idx, s),
            self matches RevMappingBuilder::Global(_, _, u) ==> r matches RevMapping::Global(
                _,
                _,
                u2,
            ) && u2 == u,
    {
        match self {
            RevMappingBuilder::Local(ss) => RevMapping::Local(ss),
            RevMappingBuilder::Global(m, ss, u) => RevMapping::Global(m, ss, u),
        }
    }
}

impl RevMapping {
    /// The category strings.
    pub open spec fn cats(self) -> Seq<String> {
        match self {
            RevMapping::Global(_, ss, _) => ss@,
            RevMapping::Local(ss) => ss@,
        }
    }

    pub open spec fn wf(self) -> bool {
        match self {
            RevMapping::Global(m, ss, _) => {
                &&& assoc_unique(m@)
                &&& m@.len() == ss@.len()
                &&& forall|i: int| 0 <= i < m@.len() ==> (m@[i].1 as int) < ss@.len()
                &&& strs_distinct(ss@)
            },
            RevMapping::Local(ss) => strs_distinct(ss@),
        }
    }

    /// Code `idx` stands for the string `s`.
    pub open spec fn maps_code(self, idx: u32, s: Seq<char>) -> bool {
        match self {
            RevMapping::Global(m, ss, _) => exists|v: u32|
                assoc_maps(m@, idx, v) && (v as int) < ss@.len() && ss@[v as int]@ == s,
            RevMapping::Local(ss) => (idx as int) < ss@.len() && ss@[idx as int]@ == s,
        }
    }

    /// The number of distinct categories.
    pub fn len(&self) -> (r: usize)
        ensures
            r as int == self.cats().len(),
    {
        match self {
            RevMapping::Global(_, ss, _) => ss.len(),
            RevMapping::Local(ss) => ss.len(),
        }
    }

    /// The string behind code `idx`.
    #[verifier::loop_isolation(false)]
    pub fn get(&self, idx: u32) -> (r: &String)
        requires
            self.wf(),
            match self {
                RevMapping::Global(m, _, _) => assoc_contains(m@, idx),
                RevMapping::Local(ss) => (idx as int) < ss@.len(),
            },
        ensures
            self.maps_code(idx, r@),
    {
        match self {
            RevMapping::Local(ss) => &ss[idx as usize],
            RevMapping::Global(m, ss, _) => {
                let mut i: usize = 0;
                while i < m.len()
                    invariant
                        assoc_contains(m@, idx),
                        forall|k: int| 0 <= k < i as int ==> m@[k].0 != idx,
                        i <= m@.len(),
                    decreases m@.len() - i,
                {
                    if m[i].0 == idx {
                        proof {
                            assert(assoc_maps(m@, idx, m@[i as int].1));
                        }
                        return &ss[m[i].1 as usize];
                    }
                    i = i + 1;
                }
                proof {
                    let witness = choose|k: int| 0 <= k < m@.len() && m@[k].0 == idx;
                    assert(false);
                }
                &ss[0]
            },
        }
    }

    /// Whether the two mappings were interned against the same cache.
    pub fn same_src(&self, other: &RevMapping) -> (r: bool)
        ensures
            r == (self matches RevMapping::Global(_, _, l) && other matches RevMapping::Global(
                _,
                _,
                rr,
            ) && l == rr),
    {
        match (self, other) {
            (RevMapping::Global(_, _, l), RevMapping::Global(_, _, rr)) => *l == *rr,
            _ => false,
        }
    }

    /// An independent copy: same variant, same entries, same strings.
    pub fn dup(&self) -> (r: RevMapping)
        ensures
            rev_like(r, *self),
    {
        match self {
            RevMapping::Local(ss) => RevMapping::Local(dup_strings(ss)),
            RevMapping::Global(m, ss, u) => {
                let mut m2: Vec<(u32, u32)> = Vec::new();
                let mut i: usize = 0;
                while i < m.len()
                    invariant
                        i <= m@.len(),
                        m2@.len() == i as int,
                        forall|k: int| 0 <= k < i as int ==> m2@[k] == m@[k],
                    decreases m@.len() - i,
                {
                    m2.push(m[i]);
                    i = i + 1;
                }
                proof {
                    assert(m2@ =~= m@);
                }
                RevMapping::Global(m2, dup_strings(ss), *u)
            },
        }
    }
}

/// The two mappings agree in variant, entries, strings and identity token.
pub open spec fn rev_like(a: RevMapping, b: RevMapping) -> bool {
    match (a, b) {
        (RevMapping::Local(x), RevMapping::Local(y)) => x@.len() == y@.len() && forall|i: int|
            0 <= i < x@.len() ==> x@[i]@ == y@[i]@,
        (RevMapping::Global(mx, x, ux), RevMapping::Global(my, y, uy)) => {
            &&& mx@ == my@
            &&& ux == uy
            &&& x@.len() == y@.len()
            &&& forall|i: int| 0 <= i < x@.len() ==> x@[i]@ == y@[i]@
        },
        _ => false,
    }
}

pub proof fn lemma_rev_like_props(a: RevMapping, b: RevMapping)
    requires
        rev_like(a, b),
    ensures
        a.wf() <==> b.wf(),
        a.cats().len() == b.cats().len(),
        forall|idx: u32, s: Seq<char>| a.maps_code(idx, s) == b.maps_code(idx, s),
{
    assert(forall|i: int| 0 <= i < a.cats().len() ==> a.cats()[i]@ == b.cats()[i]@);
}

/// Copies a vector of strings, entry for entry.
pub fn dup_strings(ss: &Vec<String>) -> (r: Vec<String>)
    ensures
        r@.len() == ss@.len(),
        forall|i: int| 0 <= i < ss@.len() ==> r@[i]@ == ss@[i]@,
{
    let mut out: Vec<String> = Vec::new();
    let mut i: usize = 0;
    while i < ss.len()
        invariant
            i <= ss@.len(),
            out@.len() == i as int,
            forall|k: int| 0 <= k < i as int ==> out@[k]@ == ss@[k]@,
        decreases ss@.len() - i,
    {
        out.push(ss[i].clone());
        i = i + 1;
    }
    out
}

} // verus!

verus! {

/// The global-id association hits local slot `v`.
pub open spec fn assoc_hits_local(m: Seq<(u32, u32)>, v: int) -> bool {
    exists|i: int| 0 <= i < m.len() && (#[trigger] m[i]).1 as int == v
}

/// A global builder's mapping and the cache agree: every entry's global id
/// lies in the cache, names the same string as its local slot, and every
/// local slot is hit by some entry.
pub open spec fn bld_consistent(rev: RevMappingBuilder, cache: StringCache) -> bool {
    rev matches RevMappingBuilder::Global(m, ss, _) ==> {
        &&& forall|i: int|
            0 <= i < m@.len() ==> ((#[trigger] m@[i]).0 as int) < cache.strings@.len() && ss@[
                m@[i].1 as int]@ == cache.strings@[m@[i].0 as int]@
        &&& forall|v: int| 0 <= v < ss@.len() ==> #[trigger] assoc_hits_local(m@, v)
    }
}

/// The string is the value of some present item.
pub open spec fn cat_from_items(items: Seq<Option<String>>, s: String) -> bool {
    exists|k: int|
        0 <= k < items.len() && ((#[trigger] items[k]) matches Some(x) && x@ == s@)
}

/// `r2` extends `r1`: same variant, and `r1`'s entries and strings are a
/// prefix of `r2`'s.
pub open spec fn bld_extends(r2: RevMappingBuilder, r1: RevMappingBuilder) -> bool {
    match (r1, r2) {
        (RevMappingBuilder::Local(s1), RevMappingBuilder::Local(s2)) => s2@.len() >= s1@.len()
            && forall|i: int| 0 <= i < s1@.len() ==> s2@[i] == s1@[i],
        (
            RevMappingBuilder::Global(m1, s1, u1),
            RevMappingBuilder::Global(m2, s2, u2),
        ) => {
            &&& u1 == u2
            &&& m2@.len() >= m1@.len()
            &&& forall|i: int| 0 <= i < m1@.len() ==> m2@[i] == m1@[i]
            &&& s2@.len() >= s1@.len()
            &&& forall|i: int| 0 <= i < s1@.len() ==> s2@[i] == s1@[i]
        },
        _ => false,
    }
}

/// A code keeps its meaning when the mapping grows.
pub proof fn lemma_maps_code_mono(
    r1: RevMappingBuilder,
    r2: RevMappingBuilder,
    idx: u32,
    str_: Seq<char>,
)
    requires
        r1.maps_code(idx, str_),
        bld_extends(r2, r1),
    ensures
        r2.maps_code(idx, str_),
{
    match (r1, r2) {
        (RevMappingBuilder::Local(s1), RevMappingBuilder::Local(s2)) => {
            assert(s2@[idx as int] == s1@[idx as int]);
        },
        (RevMappingBuilder::Global(m1, s1, _), RevMappingBuilder::Global(m2, s2, _)) => {
            let v = choose|v: u32|
                assoc_maps(m1@, idx, v) && (v as int) < s1@.len() && s1@[v as int]@ == str_;
            let i = choose|i: int| 0 <= i < m1@.len() && m1@[i] == (idx, v);
            assert(m2@[i] == (idx, v));
            assert(assoc_maps(m2@, idx, v));
            assert(s2@[v as int] == s1@[v as int]);
        },
        _ => {},
    }
}

/// Builds one dictionary-encoded column: a growing vector of optional
/// category codes beside the reverse mapping under construction.
pub struct CategoricalChunkedBuilder {
    pub codes: Vec<Option<u32>>,
    pub name: String,
    pub rev: RevMappingBuilder,
}

impl CategoricalChunkedBuilder {
    /// A fresh builder: local, or interning against the cache whose
    /// identity token is given.
    pub fn new(name: &str, capacity: usize, global: Option<u128>) -> (r: CategoricalChunkedBuilder)
        ensures
            r.codes@.len() == 0,
            r.name@ == name@,
            r.rev.wf(),
            r.rev.cats().len() == 0,
            match global {
                Some(u) => r.rev matches RevMappingBuilder::Global(m, _, u2) && u2 == u
                    && m@.len() == 0,
                None => r.rev is Local,
            },
    {
        let rev = match global {
            Some(u) => RevMappingBuilder::Global(Vec::new(), Vec::new(), u),
            None => RevMappingBuilder::Local(Vec::new()),
        };
        CategoricalChunkedBuilder { codes: Vec::with_capacity(capacity), name: name.to_owned(), rev }
    }

    /// Appends all the values in one pass against the cache. A present
    /// string receives the code its dictionary entry names; a null stays a
    /// null. A local builder leaves the cache untouched; a global builder
    /// interns every fresh string once.
    #[verifier::loop_isolation(false)]
    #[verifier::rlimit(100)]
    pub fn from_iter(&mut self, items: &Vec<Option<String>>, cache: &mut StringCache)
        requires
            old(self).rev.wf(),
            old(cache).wf(),
            bld_consistent(old(self).rev, *old(cache)),
            old(cache).strings@.len() + items@.len() <= u32::MAX as int,
            old(self).rev.cats().len() + items@.len() <= u32::MAX as int,
        ensures
            final(self).name == old(self).name,
            final(self).rev.wf(),
            final(cache).wf(),
            bld_consistent(final(self).rev, *final(cache)),
            (*final(self)).rev is Global <==> (*old(self)).rev is Global,
            (*old(self)).rev is Local ==> *final(cache) == *old(cache),
            final(cache).strings@.len() >= old(cache).strings@.len(),
            forall|i: int|
                0 <= i < old(cache).strings@.len() ==> final(cache).strings@[i] == old(
                    cache,
                ).strings@[i],
            final(self).codes@.len() == old(self).codes@.len() + items@.len(),
            forall|i: int|
                0 <= i < old(self).codes@.len() ==> final(self).codes@[i] == old(self).codes@[i],
            forall|k: int|
                0 <= k < items@.len() ==> match items@[k] {
                    Some(s) => (#[trigger] final(self).codes@[old(self).codes@.len() + k])
                        matches Some(g) && final(self).rev.maps_code(g, s@),
                    None => final(self).codes@[old(self).codes@.len() + k] is None,
                },
            final(self).rev.cats().len() >= old(self).rev.cats().len(),
            forall|i: int|
                0 <= i < old(self).rev.cats().len() ==> final(self).rev.cats()[i] == old(
                    self,
                ).rev.cats()[i],
            forall|i: int|
                old(self).rev.cats().len() <= i < final(self).rev.cats().len() ==> cat_from_items(
                    items@,
                    #[trigger] final(self).rev.cats()[i],
                ),
    {
        let is_global = matches!(&self.rev, RevMappingBuilder::Global(..));
        let ghost codes0 = self.codes@;
        let ghost cats0 = self.rev.cats();
        let ghost cache0 = *cache;
        let mut k: usize = 0;
        while k < items.len()
            invariant
                k <= items@.len(),
                self.name == old(self).name,
                is_global == (*old(self)).rev is Global,
                is_global == self.rev is Global,
                self.rev.wf(),
                cache.wf(),
                bld_consistent(self.rev, *cache),
                !is_global ==> *cache == cache0,
                cache.strings@.len() >= cache0.strings@.len(),
                cache.strings@.len() <= cache0.strings@.len() + k as int,
                cache0.strings@.len() + items@.len() <= u32::MAX as int,
                forall|i: int|
                    0 <= i < cache0.strings@.len() ==> cache.strings@[i] == cache0.strings@[i],
                cache.uuid == cache0.uuid,
                self.codes@.len() == codes0.len() + k as int,
                forall|i: int| 0 <= i < codes0.len() ==> self.codes@[i] == codes0[i],
                forall|kk: int|
                    0 <= kk < k as int ==> match items@[kk] {
                        Some(s) => (#[trigger] self.codes@[codes0.len() + kk]) matches Some(g)
                            && self.rev.maps_code(g, s@),
                        None => self.codes@[codes0.len() + kk] is None,
                    },
                self.rev.cats().len() >= cats0.len(),
                self.rev.cats().len() <= cats0.len() + k as int,
                cats0.len() + items@.len() <= u32::MAX as int,
                forall|i: int| 0 <= i < cats0.len() ==> self.rev.cats()[i] == cats0[i],
                forall|i: int|
                    cats0.len() <= i < self.rev.cats().len() ==> cat_from_items(
                        items@,
                        #[trigger] self.rev.cats()[i],
                    ),
            decreases items@.len() - k,
        {
            let ghost rev_before = self.rev;
            let ghost cache_before = *cache;
            match &items[k] {
                None => {
                    self.codes.push(None);
                },
                Some(s) => {
                    if is_global {
                        let g = cache.intern(s);
                        proof {
                            // a fresh global id cannot map an already
                            // collected string: the mapping mirrors the
                            // cache, whose strings are distinct
                            let rv = self.rev;
                            match rv {
                                RevMappingBuilder::Global(m, ss, _) => {
                                    if !assoc_contains(m@, g) && strs_has(ss@, s@) {
                                        let v = choose|v: int|
                                            0 <= v < ss@.len() && ss@[v]@ == s@;
                                        assert(assoc_hits_local(m@, v));
                                        let i = choose|i: int|
                                            0 <= i < m@.len() && (#[trigger] m@[i]).1 as int == v;
                                        assert(cache_before.strings@[m@[i].0 as int]@ == s@);
                                        assert(cache.strings@[m@[i].0 as int]@ == s@);
                                        assert(cache.strings@[g as int]@ == s@);
                                        assert(m@[i].0 == g);
                                        assert(false);
                                    }
                                },
                                RevMappingBuilder::Local(_) => {},
                            }
                        }
                        self.rev.insert(g, s);
                        self.codes.push(Some(g));
                        proof {
                            match rev_before {
                                RevMappingBuilder::Global(m, ss, _) => {
                                    if assoc_contains(m@, g) {
                                        let i = choose|i: int|
                                            0 <= i < m@.len() && (#[trigger] m@[i]).0 == g;
                                        assert(ss@[m@[i].1 as int]@ == cache_before.strings@[
                                        m@[i].0 as int]@);
                                        assert(cache.strings@[g as int]@ == s@);
                                        assert(cache_before.strings@[g as int]@ == s@) by {
                                            if !strs_has(cache_before.strings@, s@) {
                                                assert((g as int)
                                                    >= cache_before.strings@.len());
                                                assert(((m@[i]).0 as int)
                                                    < cache_before.strings@.len());
                                                assert(false);
                                            }
                                        }
                                        assert(assoc_maps(m@, g, m@[i].1));
                                        assert(self.rev.maps_code(g, s@));
                                    } else {
                                        assert(m@.push((g, ss@.len() as u32))[m@.len() as int]
                                            == (g, ss@.len() as u32));
                                        assert(assoc_maps(
                                            m@.push((g, ss@.len() as u32)),
                                            g,
                                            ss@.len() as u32,
                                        ));
                                        assert(self.rev.maps_code(g, s@));
                                    }
                                },
                                RevMappingBuilder::Local(_) => {},
                            }
                            let rv_new = self.rev;
                            match (rev_before, rv_new) {
                                (
                                    RevMappingBuilder::Global(m, ss, _),
                                    RevMappingBuilder::Global(m2, ss2, _),
                                ) => {
                                    assert forall|i: int|
                                        0 <= i < m2@.len() implies ((#[trigger] m2@[
                                    i]).0 as int) < cache.strings@.len() && ss2@[
                                    m2@[i].1 as int]@ == cache.strings@[m2@[i].0 as int]@ by {
                                        if i < m@.len() {
                                            assert(m2@[i] == m@[i]);
                                            assert(((m@[i]).0 as int)
                                                < cache_before.strings@.len());
                                            assert(cache.strings@[m@[i].0 as int]
                                                == cache_before.strings@[m@[i].0 as int]);
                                            assert(ss2@[m@[i].1 as int] == ss@[m@[i].1 as int]);
                                        } else {
                                            assert(m2@[i] == (g, ss@.len() as u32));
                                            assert(cache.strings@[g as int]@ == s@);
                                            assert(ss2@[ss@.len() as int]@ == s@);
                                        }
                                    }
                                    assert forall|v: int|
                                        0 <= v < ss2@.len() implies #[trigger] assoc_hits_local(
                                        m2@,
                                        v,
                                    ) by {
                                        if v < ss@.len() {
                                            assert(assoc_hits_local(m@, v));
                                            let i = choose|i: int|
                                                0 <= i < m@.len() && (#[trigger] m@[i]).1 as int
                                                    == v;
                                            assert(m2@[i] == m@[i]);
                                        } else {
                                            assert(m2@[m@.len() as int].1 as int == v);
                                        }
                                    }
                                    assert(bld_consistent(self.rev, *cache));
                                },
                                _ => {},
                            }
                        }
                    } else {
                        let fc = self.rev.find_cat(s);
                        match fc {
                            Some(g) => {
                                self.codes.push(Some(g));
                                proof {
                                    assert(self.rev.maps_code(g, s@));
                                }
                            },
                            None => {
                                let g: u32 = match &self.rev {
                                    RevMappingBuilder::Local(ss) => ss.len() as u32,
                                    RevMappingBuilder::Global(_, _, _) => 0,
                                };
                                self.rev.insert(g, s);
                                self.codes.push(Some(g));
                                proof {
                                    assert(self.rev.maps_code(g, s@));
                                }
                            },
                        }
                    }
                },
            }
            proof {
                assert(bld_extends(self.rev, rev_before));
                assert forall|kk: int| 0 <= kk < k as int implies (match items@[kk] {
                    Some(s) => (#[trigger] self.codes@[codes0.len() + kk]) matches Some(g2)
                        && self.rev.maps_code(g2, s@),
                    None => self.codes@[codes0.len() + kk] is None,
                }) by {
                    match items@[kk] {
                        Some(s) => {
                            let g2 = self.codes@[codes0.len() + kk]->0;
                            assert(rev_before.maps_code(g2, s@));
                            lemma_maps_code_mono(rev_before, self.rev, g2, s@);
                        },
                        None => {},
                    }
                }
            }
            k = k + 1;
        }
    }

    /// Freezes the builder into a dictionary-encoded column: the codes as
    /// integer values (null where the input was null), carrying the
    /// finished reverse mapping.
    #[verifier::loop_isolation(false)]
    pub fn finish(self) -> (r: Column)
        ensures
            r.name == self.name,
            r.values@.len() == self.codes@.len(),
            forall|i: int|
                0 <= i < self.codes@.len() ==> match self.codes@[i] {
                    Some(g) => #[trigger] r.values@[i] == Value::Int(g as i64),
                    None => r.values@[i] is Null,
                },
            r.cat matches Some(rv) && rv.cats() == self.rev.cats() && (rv.wf() <==> self.rev.wf())
                && (forall|idx: u32, s: Seq<char>|
                rv.maps_code(idx, s) == self.rev.maps_code(idx, s)),
    {
        let mut vals: Vec<Value> = Vec::new();
        let mut i: usize = 0;
        while i < self.codes.len()
            invariant
                i <= self.codes@.len(),
                vals@.len() == i as int,
                forall|m: int|
                    0 <= m < i as int ==> match self.codes@[m] {
                        Some(g) => #[trigger] vals@[m] == Value::Int(g as i64),
                        None => vals@[m] is Null,
                    },
            decreases self.codes@.len() - i,
        {
            match self.codes[i] {
                Some(g) => vals.push(Value::Int(g as i64)),
                None => vals.push(Value::Null),
            }
            i = i + 1;
        }
        let rev = self.rev.finish();
        Column { name: self.name, values: vals, cat: Some(rev) }
    }
}

} // verus!
