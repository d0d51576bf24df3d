//! A generic, nullable, sliceable array of opaque objects: values shared
//! behind a reference count, a validity bitmap, and a window given by an
//! offset and a length.

use vstd::prelude::*;
use std::sync::Arc;

verus! {

/// What an element type must offer to live in an object array.
pub trait PolarsObject: Clone + Send + Sync + Sized {
    fn kind_name() -> &'static str;
}

/// A windowed, nullable array of objects. The bitmap, when present, marks
/// the valid (non-null) positions of the underlying storage.
pub struct ObjectArray<T: PolarsObject> {
    pub values: Arc<Vec<T>>,
    pub null_bitmap: Option<Arc<Vec<bool>>>,
    pub null_count: usize,
    pub offset: usize,
    pub len: usize,
}

impl<T: PolarsObject> ObjectArray<T> {
    /// The window lies inside the storage, and the bitmap, when present,
    /// covers the storage.
    pub open spec fn wf(self) -> bool {
        &&& self.offset + self.len <= self.values@.len()
        &&& self.null_bitmap matches Some(b) ==> b@.len() == self.values@.len()
    }

    /// A fresh array over the whole storage, with no nulls.
    pub fn from_values(values: Vec<T>) -> (r: ObjectArray<T>)
        ensures
            r.wf(),
            r.values@ == values@,
            r.len as int == values@.len(),
            r.offset == 0,
            r.null_bitmap is None,
    {
        let n = values.len();
        ObjectArray { values: Arc::new(values), null_bitmap: None, null_count: 0, offset: 0, len: n }
    }

    /// A reference to the underlying shared storage.
    pub fn values(&self) -> (r: &Arc<Vec<T>>)
        ensures
            r == &self.values,
    {
        &self.values
    }

    /// The value at `index` within the window.
    pub fn value(&self, index: usize) -> (r: &T)
        requires
            self.wf(),
            index < self.len,
        ensures
            *r == self.values@[self.offset + index],
    {
        let n = self.values.len();
        &self.values[self.offset + index]
    }

    /// The number of elements in the window.
    pub fn len(&self) -> (r: usize)
        ensures
            r == self.len,
    {
        self.len
    }

    /// Whether the window is empty.
    pub fn is_empty(&self) -> (r: bool)
        ensures
            r == (self.len == 0),
    {
        self.len == 0
    }

    /// Whether the value at `index` is null: marked invalid by the bitmap.
    pub fn is_null(&self, index: usize) -> (r: bool)
        requires
            self.wf(),
            index < self.values@.len(),
        ensures
            r == (match self.null_bitmap {
                Some(b) => !b@[index as int],
                None => false,
            }),
    {
        match &self.null_bitmap {
            Some(b) => !b[index],
            None => false,
        }
    }

    /// Whether the value at `index` is valid (non-null).
    pub fn is_valid(&self, index: usize) -> (r: bool)
        requires
            self.wf(),
            index < self.values@.len(),
        ensures
            r == (match self.null_bitmap {
                Some(b) => b@[index as int],
                None => true,
            }),
    {
        match &self.null_bitmap {
            Some(b) => b[index],
            None => true,
        }
    }

    /// The recorded number of nulls.
    pub fn null_count(&self) -> (r: usize)
        ensures
            r == self.null_count,
    {
        self.null_count
    }

    /// A window of `length` elements starting at `offset`, sharing the
    /// storage; the length is clamped to what the storage still holds, and
    /// the window's null count is recomputed from the bitmap.
    pub fn slice(&self, offset: usize, length: usize) -> (r: Arc<ObjectArray<T>>)
        requires
            self.wf(),
            offset <= self.values@.len(),
        ensures
            r.wf(),
            r.values@ == self.values@,
            r.offset == offset,
            r.len as int == (if offset + length <= self.values@.len() {
                length as int
            } else {
                self.values@.len() - offset
            }),
            r.null_count as int == (match self.null_bitmap {
                Some(b) => count_invalid(b@, offset as int, r.len as int),
                None => 0int,
            }),
    {
        let avail = self.values.len() - offset;
        let take = if length <= avail {
            length
        } else {
            avail
        };
        let nulls = match &self.null_bitmap {
            Some(b) => count_invalid_exec(b, offset, take),
            None => 0,
        };
        let bitmap = match &self.null_bitmap {
            Some(b) => Some(b.clone()),
            None => None,
        };
        Arc::new(
            ObjectArray {
                values: self.values.clone(),
                null_bitmap: bitmap,
                null_count: nulls,
                offset,
                len: take,
            },
        )
    }
}

/// How many of the `len` bitmap entries from `start` are invalid (false).
pub open spec fn count_invalid(bits: Seq<bool>, start: int, len: int) -> int
    decreases len,
{
    if len <= 0 {
        0
    } else {
        count_invalid(bits, start, len - 1) + if bits[start + len - 1] {
            0int
        } else {
            1int
        }
    }
}

/// Counts the invalid (false) entries of a bitmap window.
#[verifier::loop_isolation(false)]
fn count_invalid_exec(bits: &Vec<bool>, start: usize, len: usize) -> (r: usize)
    requires
        start as int + len as int <= bits@.len(),
    ensures
        r as int == count_invalid(bits@, start as int, len as int),
{
    let total = bits.len();
    let mut n: usize = 0;
    let mut i: usize = 0;
    while i < len
        invariant
            total == bits@.len(),
            i <= len,
            n <= i,
            n as int == count_invalid(bits@, start as int, i as int),
        decreases len - i,
    {
        if !bits[start + i] {
            n = n + 1;
        }
        i = i + 1;
    }
    n
}

} // verus!
