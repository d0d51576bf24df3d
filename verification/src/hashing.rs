//! Row hashing for the join kernel. Both relations' key tuples are hashed
//! in one call under one freshly drawn hasher state, the shared seed of the
//! design: nothing is assumed about the hash values themselves beyond the
//! congruence that equal key tuples receive equal hashes within the call.

use vstd::prelude::*;
use std::hash::BuildHasher;
use crate::column::seq_veq;
use crate::value::Value;

verus! {

/// Relies on ahash::RandomState: a `Hasher` built from one state is a
/// deterministic function of the bytes written, so within one call two
/// value-equal rows receive the same 64-bit hash. The state is drawn fresh
/// per call, so nothing relates hashes across calls.
#[verifier::external_body]
pub fn hash_rows_pair(a: &Vec<Vec<Value>>, b: &Vec<Vec<Value>>) -> (r: (Vec<u64>, Vec<u64>))
    ensures
        r.0@.len() == a@.len(),
        r.1@.len() == b@.len(),
        forall|i: int, j: int|
            0 <= i < a@.len() && 0 <= j < b@.len() && seq_veq(a@[i]@, b@[j]@) ==> r.0@[i]
                == r.1@[j],
        forall|i: int, j: int|
            0 <= i < a@.len() && 0 <= j < a@.len() && seq_veq(a@[i]@, a@[j]@) ==> r.0@[i]
                == r.0@[j],
        forall|i: int, j: int|
            0 <= i < b@.len() && 0 <= j < b@.len() && seq_veq(b@[i]@, b@[j]@) ==> r.1@[i]
                == r.1@[j],
{
    let state = ahash::RandomState::new();
    let mut ha: Vec<u64> = Vec::with_capacity(a.len());
    for row in a.iter() {
        ha.push(state.hash_one(row));
    }
    let mut hb: Vec<u64> = Vec::with_capacity(b.len());
    for row in b.iter() {
        hb.push(state.hash_one(row));
    }
    (ha, hb)
}

} // verus!
