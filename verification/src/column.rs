//! A named, typed, possibly-nullable sequence of cell values, optionally
//! carrying the reverse mapping of a dictionary encoding. A length-1 column
//! can be broadcast to a table's height.

use vstd::prelude::*;
use crate::categorical::{rev_like, RevMapping};
use crate::value::{veq, Value};

verus! {

/// A column of a table.
pub struct Column {
    pub name: String,
    pub values: Vec<Value>,
    /// Present when the column is dictionary-encoded; carries the mapping
    /// from category code to string.
    pub cat: Option<RevMapping>,
}

/// Elementwise exact equality of two value sequences.
pub open spec fn seq_veq(a: Seq<Value>, b: Seq<Value>) -> bool {
    a.len() == b.len() && forall|i: int| 0 <= i < a.len() ==> veq(a[i], b[i])
}

/// The two dictionary annotations agree: both absent, or structurally
/// equal mappings.
pub open spec fn cat_like(a: Option<RevMapping>, b: Option<RevMapping>) -> bool {
    match (a, b) {
        (Option::None, Option::None) => true,
        (Option::Some(x), Option::Some(y)) => rev_like(x, y),
        _ => false,
    }
}

/// The two columns carry the same name and the same values; the dictionary
/// mapping, when present, agrees as well.
pub open spec fn col_like(a: Column, b: Column) -> bool {
    &&& a.name@ == b.name@
    &&& seq_veq(a.values@, b.values@)
    &&& cat_like(a.cat, b.cat)
}

pub proof fn lemma_seq_veq_sym(a: Seq<Value>, b: Seq<Value>)
    requires
        seq_veq(a, b),
    ensures
        seq_veq(b, a),
{
    assert forall|i: int| 0 <= i < b.len() implies veq(b[i], a[i]) by {
        crate::value::lemma_veq_sym(a[i], b[i]);
    }
}

pub proof fn lemma_col_like_sym(a: Column, b: Column)
    requires
        col_like(a, b),
    ensures
        col_like(b, a),
{
    lemma_seq_veq_sym(a.values@, b.values@);
}

pub proof fn lemma_seq_veq_refl(a: Seq<Value>)
    ensures
        seq_veq(a, a),
{
    assert forall|i: int| 0 <= i < a.len() implies veq(a[i], a[i]) by {
        crate::value::lemma_veq_refl(a[i]);
    }
}

pub proof fn lemma_seq_veq_trans(a: Seq<Value>, b: Seq<Value>, c: Seq<Value>)
    requires
        seq_veq(a, b),
        seq_veq(b, c),
    ensures
        seq_veq(a, c),
{
    assert forall|i: int| 0 <= i < a.len() implies veq(a[i], c[i]) by {
        crate::value::lemma_veq_trans(a[i], b[i], c[i]);
    }
}

impl Column {
    /// A plain column from a name and its values.
    pub fn new(name: String, values: Vec<Value>) -> (r: Column)
        ensures
            r.name == name,
            r.values == values,
            r.cat is None,
    {
        Column { name, values, cat: None }
    }

    pub open spec fn len_spec(self) -> int {
        self.values@.len() as int
    }

    /// The number of values.
    pub fn len(&self) -> (r: usize)
        ensures
            r as int == self.len_spec(),
    {
        self.values.len()
    }

    /// An independent copy of the column.
    pub fn dup(&self) -> (r: Column)
        ensures
            col_like(r, *self),
    {
        let mut vals: Vec<Value> = Vec::new();
        let mut i: usize = 0;
        while i < self.values.len()
            invariant
                i <= self.values@.len(),
                vals@.len() == i as int,
                forall|k: int| 0 <= k < i as int ==> veq(vals@[k], self.values@[k]),
            decreases self.values@.len() - i,
        {
            vals.push(self.values[i].dup());
            i = i + 1;
        }
        let cat = match &self.cat {
            Option::None => Option::None,
            Option::Some(rv) => Option::Some(rv.dup()),
        };
        Column { name: self.name.clone(), values: vals, cat }
    }

    /// Broadcasts a single value to `height` rows, as when a length-1
    /// expression result is stretched against a taller table. Every output
    /// value equals the one input value.
    pub fn expand_at_index(&self, height: usize) -> (r: Column)
        requires
            self.len_spec() == 1,
        ensures
            r.name@ == self.name@,
            r.len_spec() == height as int,
            forall|i: int| 0 <= i < height as int ==> veq(r.values@[i], self.values@[0]),
            r.cat is None,
    {
        let mut vals: Vec<Value> = Vec::new();
        let mut i: usize = 0;
        while i < height
            invariant
                self.len_spec() == 1,
                i <= height,
                vals@.len() == i as int,
                forall|k: int| 0 <= k < i as int ==> veq(vals@[k], self.values@[0]),
            decreases height - i,
        {
            vals.push(self.values[0].dup());
            i = i + 1;
        }
        Column { name: self.name.clone(), values: vals, cat: None }
    }

    /// A copy of the column under another name.
    pub fn renamed(&self, name: &String) -> (r: Column)
        ensures
            r.name@ == name@,
            seq_veq(r.values@, self.values@),
    {
        let mut c = self.dup();
        c.name = name.clone();
        c
    }
}

} // verus!
