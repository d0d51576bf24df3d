//! Cell values of a column: a dynamically typed, nullable scalar, or a
//! one-level list of scalars. Equality comes in two forms: exact structural
//! equality (grouping, deduplication) and join-key matching, where a null
//! never matches anything, itself included.

use vstd::prelude::*;

verus! {

/// A primitive cell value.
#[derive(Debug, Hash)]
pub enum Scalar {
    Null,
    Bool(bool),
    Int(i64),
    Str(String),
}

/// A cell value: a scalar, or a list of scalars (one level of nesting).
#[derive(Debug, Hash)]
pub enum Value {
    Null,
    Bool(bool),
    Int(i64),
    Str(String),
    List(Vec<Scalar>),
}

/// Structural equality on scalars; strings compare by their character
/// sequences, and null equals null.
pub open spec fn sc_eq(x: Scalar, y: Scalar) -> bool {
    match (x, y) {
        (Scalar::Null, Scalar::Null) => true,
        (Scalar::Bool(a), Scalar::Bool(b)) => a == b,
        (Scalar::Int(a), Scalar::Int(b)) => a == b,
        (Scalar::Str(a), Scalar::Str(b)) => a@ == b@,
        _ => false,
    }
}

/// Exact equality on values: the equality that grouping and deduplication
/// use. Null equals null; lists compare elementwise.
pub open spec fn veq(x: Value, y: Value) -> bool {
    match (x, y) {
        (Value::Null, Value::Null) => true,
        (Value::Bool(a), Value::Bool(b)) => a == b,
        (Value::Int(a), Value::Int(b)) => a == b,
        (Value::Str(a), Value::Str(b)) => a@ == b@,
        (Value::List(a), Value::List(b)) => {
            a@.len() == b@.len() && forall|k: int| 0 <= k < a@.len() ==> sc_eq(a@[k], b@[k])
        },
        _ => false,
    }
}

/// Join-key matching: a null never matches, not even another null, and list
/// values never act as join keys. On the remaining scalars this is `veq`.
pub open spec fn vmatch(x: Value, y: Value) -> bool {
    match (x, y) {
        (Value::Bool(a), Value::Bool(b)) => a == b,
        (Value::Int(a), Value::Int(b)) => a == b,
        (Value::Str(a), Value::Str(b)) => a@ == b@,
        _ => false,
    }
}

pub proof fn lemma_veq_refl(x: Value)
    ensures
        veq(x, x),
{
}

pub proof fn lemma_vmatch_implies_veq(x: Value, y: Value)
    ensures
        vmatch(x, y) ==> veq(x, y),
{
}

pub proof fn lemma_veq_sym(x: Value, y: Value)
    ensures
        veq(x, y) == veq(y, x),
{
}

pub proof fn lemma_veq_trans(x: Value, y: Value, z: Value)
    requires
        veq(x, y),
        veq(y, z),
    ensures
        veq(x, z),
{
}

pub proof fn lemma_veq_congruence(a: Value, b: Value, a2: Value, b2: Value)
    requires
        veq(a, a2),
        veq(b, b2),
    ensures
        veq(a, b) == veq(a2, b2),
{
    if veq(a, b) {
        lemma_veq_sym(a, a2);
        lemma_veq_trans(a2, a, b);
        lemma_veq_trans(a2, b, b2);
    }
    if veq(a2, b2) {
        lemma_veq_trans(a, a2, b2);
        lemma_veq_sym(b, b2);
        lemma_veq_trans(a, b2, b);
    }
}

pub proof fn lemma_vmatch_trans(x: Value, y: Value, z: Value)
    requires
        vmatch(x, y),
        vmatch(y, z),
    ensures
        vmatch(x, z),
{
}

impl Scalar {
    /// An independent copy holding the same value.
    pub fn dup(&self) -> (r: Scalar)
        ensures
            sc_eq(r, *self),
    {
        match self {
            Scalar::Null => Scalar::Null,
            Scalar::Bool(b) => Scalar::Bool(*b),
            Scalar::Int(i) => Scalar::Int(*i),
            Scalar::Str(s) => Scalar::Str(s.clone()),
        }
    }
}

impl Value {
    /// An independent copy holding the same value.
    #[verifier::loop_isolation(false)]
    pub fn dup(&self) -> (r: Value)
        ensures
            veq(r, *self),
    {
        match self {
            Value::Null => Value::Null,
            Value::Bool(b) => Value::Bool(*b),
            Value::Int(i) => Value::Int(*i),
            Value::Str(s) => Value::Str(s.clone()),
            Value::List(v) => {
                let mut out: Vec<Scalar> = Vec::new();
                let mut k: usize = 0;
                while k < v.len()
                    invariant
                        k <= v.len(),
                        out@.len() == k as int,
                        forall|m: int| 0 <= m < k as int ==> sc_eq(out@[m], v@[m]),
                    decreases v.len() - k,
                {
                    out.push(v[k].dup());
                    k = k + 1;
                }
                Value::List(out)
            },
        }
    }
}

/// Decides `sc_eq` on two scalars.
pub fn scalar_eq(x: &Scalar, y: &Scalar) -> (r: bool)
    ensures
        r == sc_eq(*x, *y),
{
    match (x, y) {
        (Scalar::Null, Scalar::Null) => true,
        (Scalar::Bool(a), Scalar::Bool(b)) => *a == *b,
        (Scalar::Int(a), Scalar::Int(b)) => *a == *b,
        (Scalar::Str(a), Scalar::Str(b)) => *a == *b,
        _ => false,
    }
}

/// Decides `veq` on two values.
#[verifier::loop_isolation(false)]
pub fn value_eq(x: &Value, y: &Value) -> (r: bool)
    ensures
        r == veq(*x, *y),
{
    match (x, y) {
        (Value::Null, Value::Null) => true,
        (Value::Bool(a), Value::Bool(b)) => *a == *b,
        (Value::Int(a), Value::Int(b)) => *a == *b,
        (Value::Str(a), Value::Str(b)) => *a == *b,
        (Value::List(a), Value::List(b)) => {
            if a.len() != b.len() {
                return false;
            }
            let mut k: usize = 0;
            while k < a.len()
                invariant
                    k <= a.len(),
                    a@.len() == b@.len(),
                    forall|m: int| 0 <= m < k as int ==> sc_eq(a@[m], b@[m]),
                decreases a.len() - k,
            {
                if !scalar_eq(&a[k], &b[k]) {
                    return false;
                }
                k = k + 1;
            }
            true
        },
        _ => false,
    }
}

/// Decides `vmatch` on two values.
pub fn value_match(x: &Value, y: &Value) -> (r: bool)
    ensures
        r == vmatch(*x, *y),
{
    match (x, y) {
        (Value::Bool(a), Value::Bool(b)) => *a == *b,
        (Value::Int(a), Value::Int(b)) => *a == *b,
        (Value::Str(a), Value::Str(b)) => *a == *b,
        _ => false,
    }
}

} // verus!
