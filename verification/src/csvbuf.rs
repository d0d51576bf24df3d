//! Typed decoding buffers for a CSV reader: raw field bytes become typed,
//! nullable values. Numbers are parsed against an exact decimal
//! specification; string fields are recorded as byte ranges first and
//! decoded to text only at the end, to keep peak memory low. Floating-point
//! columns are outside this core and are rejected at buffer creation.

use vstd::prelude::*;
use crate::column::Column;
use crate::error::ExecError;
use crate::value::Value;

verus! {

/// The column types a CSV schema can declare.
#[derive(Clone, Copy, Debug, PartialEq, Eq, Structural)]
pub enum DType {
    Boolean,
    Int32,
    Int64,
    UInt32,
    UInt64,
    Utf8,
    /// Declared but not decoded here: a caller handles floating point.
    Float32,
    /// Declared but not decoded here: a caller handles floating point.
    Float64,
}

/// One column of a CSV schema.
#[derive(Clone, Debug)]
pub struct SchemaField {
    pub name: String,
    pub dtype: DType,
}

/// `b` is an ASCII decimal digit.
pub open spec fn is_digit(b: u8) -> bool {
    48 <= b <= 57
}

/// The value of a digit string, most significant first.
pub open spec fn digits_value(s: Seq<u8>) -> int
    decreases s.len(),
{
    if s.len() == 0 {
        0
    } else {
        digits_value(s.drop_last()) * 10 + (s.last() - 48)
    }
}

/// All bytes are digits and there is at least one.
pub open spec fn all_digits(s: Seq<u8>) -> bool {
    s.len() > 0 && forall|i: int| 0 <= i < s.len() ==> is_digit(#[trigger] s[i])
}

/// The digit part of a numeral: everything after an optional sign.
pub open spec fn digit_part(s: Seq<u8>) -> Seq<u8> {
    if s.len() > 0 && (s[0] == 43 || s[0] == 45) {
        s.subrange(1, s.len() as int)
    } else {
        s
    }
}

/// The bytes form a signed decimal numeral.
pub open spec fn valid_signed(s: Seq<u8>) -> bool {
    all_digits(digit_part(s))
}

/// The bytes form an unsigned decimal numeral: no minus sign.
pub open spec fn valid_unsigned(s: Seq<u8>) -> bool {
    all_digits(digit_part(s)) && !(s.len() > 0 && s[0] == 45)
}

/// The integer a signed numeral denotes.
pub open spec fn signed_value(s: Seq<u8>) -> int {
    if s.len() > 0 && s[0] == 45 {
        -digits_value(digit_part(s))
    } else {
        digits_value(digit_part(s))
    }
}

pub proof fn lemma_digits_value_nonneg(s: Seq<u8>)
    requires
        forall|i: int| 0 <= i < s.len() ==> is_digit(#[trigger] s[i]),
    ensures
        digits_value(s) >= 0,
    decreases s.len(),
{
    if s.len() > 0 {
        lemma_digits_value_nonneg(s.drop_last());
    }
}

/// Accumulates the digit string's value, reporting only whether it exceeds
/// the largest magnitude any supported integer needs.
#[verifier::loop_isolation(false)]
fn digits_magnitude(s: &[u8], from: usize) -> (r: Option<u64>)
    requires
        from as int <= s@.len(),
        forall|i: int| from as int <= i < s@.len() ==> is_digit(#[trigger] s@[i]),
    ensures
        match r {
            Some(m) => m as int == digits_value(s@.subrange(from as int, s@.len() as int)),
            None => digits_value(s@.subrange(from as int, s@.len() as int)) > u64::MAX as int,
        },
{
    let ghost whole = s@.subrange(from as int, s@.len() as int);
    let mut mag: u128 = 0;
    let mut over: bool = false;
    let mut i: usize = from;
    while i < s.len()
        invariant
            from <= i <= s@.len(),
            !over ==> mag as int == digits_value(s@.subrange(from as int, i as int)) && mag
                <= u64::MAX as u128,
            over ==> digits_value(s@.subrange(from as int, i as int)) > u64::MAX as int,
        decreases s@.len() - i,
    {
        let d = s[i];
        proof {
            let pre = s@.subrange(from as int, i as int);
            let ext = s@.subrange(from as int, i as int + 1);
            assert(ext.drop_last() =~= pre);
            assert(ext.last() == s@[i as int]);
            lemma_digits_value_nonneg(pre);
        }
        if !over {
            let next: u128 = mag * 10 + ((d - 48) as u128);
            if next > (u64::MAX as u128) {
                over = true;
            } else {
                mag = next;
            }
            proof {
                if over {
                    assert(digits_value(s@.subrange(from as int, i as int + 1)) > u64::MAX as int);
                }
            }
        } else {
            proof {
                let pre = s@.subrange(from as int, i as int);
                lemma_digits_value_nonneg(pre);
                assert(digits_value(s@.subrange(from as int, i as int + 1)) >= digits_value(pre));
            }
        }
        i = i + 1;
    }
    proof {
        assert(s@.subrange(from as int, s@.len() as int) =~= whole);
    }
    if over {
        None
    } else {
        Some(mag as u64)
    }
}

/// Whether every byte from `from` on is a digit, with at least one.
#[verifier::loop_isolation(false)]
fn check_digits(s: &[u8], from: usize) -> (r: bool)
    requires
        from as int <= s@.len(),
    ensures
        r == all_digits(s@.subrange(from as int, s@.len() as int)),
{
    if s.len() == from {
        return false;
    }
    let mut i: usize = from;
    while i < s.len()
        invariant
            from <= i <= s@.len(),
            forall|k: int| from as int <= k < i as int ==> is_digit(#[trigger] s@[k]),
        decreases s@.len() - i,
    {
        let b = s[i];
        if b < 48 || b > 57 {
            proof {
                assert(s@.subrange(from as int, s@.len() as int)[i as int - from as int]
                    == s@[i as int]);
            }
            return false;
        }
        i = i + 1;
    }
    proof {
        let sub = s@.subrange(from as int, s@.len() as int);
        assert forall|k: int| 0 <= k < sub.len() implies is_digit(#[trigger] sub[k]) by {
            assert(sub[k] == s@[from as int + k]);
        }
    }
    true
}

/// Parses a signed decimal numeral. Succeeds exactly when the bytes are a
/// well-formed numeral whose value fits an `i64`, and then returns that
/// value.
#[verifier::rlimit(60)]
pub fn parse_i64_bytes(bytes: &[u8]) -> (r: Option<i64>)
    ensures
        r is Some <==> valid_signed(bytes@) && i64::MIN as int <= signed_value(bytes@)
            <= i64::MAX as int,
        r matches Some(v) ==> v as int == signed_value(bytes@),
{
    if bytes.len() == 0 {
        return None;
    }
    let first = bytes[0];
    let neg = first == 45;
    let from: usize = if first == 43 || first == 45 {
        1
    } else {
        0
    };
    if !check_digits(bytes, from) {
        return None;
    }
    proof {
        assert(digit_part(bytes@) =~= bytes@.subrange(from as int, bytes@.len() as int));
    }
    proof {
        let sub = bytes@.subrange(from as int, bytes@.len() as int);
        assert forall|i: int| from as int <= i < bytes@.len() implies is_digit(
            #[trigger] bytes@[i],
        ) by {
            assert(sub[i - from as int] == bytes@[i]);
        }
    }
    let mag = match digits_magnitude(bytes, from) {
        Some(m) => m,
        None => {
            proof {
                lemma_digits_value_nonneg(digit_part(bytes@));
            }
            return None;
        },
    };
    if neg {
        if mag > 9223372036854775808u64 {
            return None;
        }
        Some((-(mag as i128)) as i64)
    } else {
        if mag > (i64::MAX as u64) {
            return None;
        }
        Some(mag as i64)
    }
}

/// Parses an unsigned decimal numeral. Succeeds exactly when the bytes are
/// a well-formed unsigned numeral whose value fits a `u64`.
pub fn parse_u64_bytes(bytes: &[u8]) -> (r: Option<u64>)
    ensures
        r is Some <==> valid_unsigned(bytes@) && signed_value(bytes@) <= u64::MAX as int,
        r matches Some(v) ==> v as int == signed_value(bytes@),
{
    if bytes.len() == 0 {
        return None;
    }
    let first = bytes[0];
    if first == 45 {
        return None;
    }
    let from: usize = if first == 43 {
        1
    } else {
        0
    };
    if !check_digits(bytes, from) {
        return None;
    }
    proof {
        assert(digit_part(bytes@) =~= bytes@.subrange(from as int, bytes@.len() as int));
    }
    proof {
        let sub = bytes@.subrange(from as int, bytes@.len() as int);
        assert forall|i: int| from as int <= i < bytes@.len() implies is_digit(
            #[trigger] bytes@[i],
        ) by {
            assert(sub[i - from as int] == bytes@[i]);
        }
    }
    digits_magnitude(bytes, from)
}

/// The bytes spell `true`, in any letter case.
pub open spec fn is_true_bytes(s: Seq<u8>) -> bool {
    s.len() == 4 && (s[0] == 116 || s[0] == 84) && (s[1] == 114 || s[1] == 82) && (s[2] == 117
        || s[2] == 85) && (s[3] == 101 || s[3] == 69)
}

/// The bytes spell `false`, in any letter case.
pub open spec fn is_false_bytes(s: Seq<u8>) -> bool {
    s.len() == 5 && (s[0] == 102 || s[0] == 70) && (s[1] == 97 || s[1] == 65) && (s[2] == 108
        || s[2] == 76) && (s[3] == 115 || s[3] == 83) && (s[4] == 101 || s[4] == 69)
}

/// Parses a boolean field, case-insensitively.
pub fn parse_bool_bytes(bytes: &[u8]) -> (r: Option<bool>)
    ensures
        r == (if is_true_bytes(bytes@) {
            Some(true)
        } else if is_false_bytes(bytes@) {
            Some(false)
        } else {
            Option::<bool>::None
        }),
{
    if bytes.len() == 4 {
        let ok = (bytes[0] == 116 || bytes[0] == 84) && (bytes[1] == 114 || bytes[1] == 82) && (
        bytes[2] == 117 || bytes[2] == 85) && (bytes[3] == 101 || bytes[3] == 69);
        if ok {
            return Some(true);
        }
        None
    } else if bytes.len() == 5 {
        let ok = (bytes[0] == 102 || bytes[0] == 70) && (bytes[1] == 97 || bytes[1] == 65) && (
        bytes[2] == 108 || bytes[2] == 76) && (bytes[3] == 115 || bytes[3] == 83) && (bytes[4]
            == 101 || bytes[4] == 69);
        if ok {
            return Some(false);
        }
        None
    } else {
        None
    }
}

/// What a byte slice decodes to as UTF-8 text, when it does.
pub uninterp spec fn utf8_decode(s: Seq<u8>) -> Option<Seq<char>>;

/// Relies on core::str::from_utf8: decodes exactly the valid UTF-8 byte
/// ranges, to the text they spell.
#[verifier::external_body]
fn utf8_range(bytes: &[u8], start: usize, len: usize) -> (r: Option<String>)
    requires
        start as int + len as int <= bytes@.len(),
    ensures
        match r {
            Some(s) => utf8_decode(bytes@.subrange(start as int, start as int + len as int))
                == Some(s@),
            None => utf8_decode(bytes@.subrange(start as int, start as int + len as int))
                is None,
        },
{
    match core::str::from_utf8(&bytes[start..start + len]) {
        Ok(s) => Some(s.to_string()),
        Err(_) => None,
    }
}

/// A string field: where it starts in the record buffer, and its byte
/// length. The text itself is decoded only when the column is built.
#[derive(Debug)]
pub struct Utf8Field {
    pub start_pos: usize,
    pub len: u32,
}

impl Utf8Field {
    /// Decodes the recorded byte range of `bytes` as UTF-8 text; fails on
    /// invalid UTF-8.
    pub fn parse_str(&self, bytes: &[u8]) -> (r: Result<String, ExecError>)
        requires
            self.start_pos as int + self.len as int <= bytes@.len(),
        ensures
            match r {
                Ok(s) => utf8_decode(
                    bytes@.subrange(
                        self.start_pos as int,
                        self.start_pos as int + self.len as int,
                    ),
                ) == Some(s@),
                Err(_) => utf8_decode(
                    bytes@.subrange(
                        self.start_pos as int,
                        self.start_pos as int + self.len as int,
                    ),
                ) is None,
            },
    {
        match utf8_range(bytes, self.start_pos, self.len as usize) {
            Some(s) => Ok(s),
            None => Err(ExecError::ParseError("utf8_error".to_owned())),
        }
    }
}

/// A typed decoding buffer; the string variant also tracks the total text
/// length seen, to size the final column.
#[derive(Debug)]
pub enum Buffer {
    Boolean(Vec<Option<bool>>),
    Int32(Vec<Option<i32>>),
    Int64(Vec<Option<i64>>),
    UInt32(Vec<Option<u32>>),
    UInt64(Vec<Option<u64>>),
    Utf8(Vec<Utf8Field>, usize),
}

impl Buffer {
    /// How many fields the buffer holds.
    pub open spec fn count(self) -> int {
        match self {
            Buffer::Boolean(v) => v@.len() as int,
            Buffer::Int32(v) => v@.len() as int,
            Buffer::Int64(v) => v@.len() as int,
            Buffer::UInt32(v) => v@.len() as int,
            Buffer::UInt64(v) => v@.len() as int,
            Buffer::Utf8(v, _) => v@.len() as int,
        }
    }

    /// The variant cannot decode these bytes: when `add` must report a
    /// parse error rather than push. A string field always decodes (its
    /// text is checked only when the column is built).
    pub open spec fn parse_fails(self, bytes: Seq<u8>) -> bool {
        match self {
            Buffer::Boolean(_) => !is_true_bytes(bytes) && !is_false_bytes(bytes),
            Buffer::Int32(_) => !(valid_signed(bytes) && i32::MIN as int <= signed_value(bytes)
                <= i32::MAX as int),
            Buffer::Int64(_) => !(valid_signed(bytes) && i64::MIN as int <= signed_value(bytes)
                <= i64::MAX as int),
            Buffer::UInt32(_) => !(valid_unsigned(bytes) && signed_value(bytes)
                <= u32::MAX as int),
            Buffer::UInt64(_) => !(valid_unsigned(bytes) && signed_value(bytes)
                <= u64::MAX as int),
            Buffer::Utf8(_, _) => false,
        }
    }

    /// Decodes one raw field into the buffer. A value that does not parse
    /// becomes a null when errors are ignored, and a parse error otherwise —
    /// exactly then does the call fail; a string field is recorded as its
    /// byte range and always succeeds. Exactly one field is appended on
    /// success.
    pub fn add(&mut self, bytes: &[u8], ignore_errors: bool, start_pos: usize) -> (r:
        Result<(), ExecError>)
        requires
            (*old(self)) matches Buffer::Utf8(_, l) ==> l + bytes@.len() <= usize::MAX,
            bytes@.len() <= u32::MAX as int,
        ensures
            r is Ok ==> final(self).count() == old(self).count() + 1,
            r is Err ==> *final(self) == *old(self),
            r is Err <==> !ignore_errors && old(self).parse_fails(bytes@),
            *old(self) matches Buffer::Boolean(v) ==> *final(self) matches Buffer::Boolean(v2)
                && (r is Ok ==> (if is_true_bytes(bytes@) {
                v2@ == v@.push(Some(true))
            } else if is_false_bytes(bytes@) {
                v2@ == v@.push(Some(false))
            } else {
                v2@ == v@.push(None)
            })),
            *old(self) matches Buffer::Int64(v) ==> *final(self) matches Buffer::Int64(v2) && (r
                is Ok ==> (if valid_signed(bytes@) && i64::MIN as int <= signed_value(bytes@)
                <= i64::MAX as int {
                v2@ == v@.push(Some(signed_value(bytes@) as i64))
            } else {
                v2@ == v@.push(None)
            })),
            *old(self) matches Buffer::Int32(v) ==> *final(self) matches Buffer::Int32(v2) && (r
                is Ok ==> (if valid_signed(bytes@) && i32::MIN as int <= signed_value(bytes@)
                <= i32::MAX as int {
                v2@ == v@.push(Some(signed_value(bytes@) as i32))
            } else {
                v2@ == v@.push(None)
            })),
            *old(self) matches Buffer::UInt64(v) ==> *final(self) matches Buffer::UInt64(v2) && (
            r is Ok ==> (if valid_unsigned(bytes@) && signed_value(bytes@) <= u64::MAX as int {
                v2@ == v@.push(Some(signed_value(bytes@) as u64))
            } else {
                v2@ == v@.push(None)
            })),
            *old(self) matches Buffer::UInt32(v) ==> *final(self) matches Buffer::UInt32(v2) && (
            r is Ok ==> (if valid_unsigned(bytes@) && signed_value(bytes@) <= u32::MAX as int {
                v2@ == v@.push(Some(signed_value(bytes@) as u32))
            } else {
                v2@ == v@.push(None)
            })),
            *old(self) matches Buffer::Utf8(v, l) ==> *final(self) matches Buffer::Utf8(v2, l2)
                && (r is Ok ==> v2@ == v@.push(
                Utf8Field { start_pos, len: bytes@.len() as u32 },
            ) && l2 == l + bytes@.len()),
    {
        match self {
            Buffer::Boolean(buf) => {
                match parse_bool_bytes(bytes) {
                    Some(b) => {
                        buf.push(Some(b));
                        Ok(())
                    },
                    None => {
                        if ignore_errors {
                            buf.push(None);
                            Ok(())
                        } else {
                            Err(ExecError::ParseError("cannot parse boolean field".to_owned()))
                        }
                    },
                }
            },
            Buffer::Int32(buf) => {
                match parse_i64_bytes(bytes) {
                    Some(v) => {
                        if v >= i32::MIN as i64 && v <= i32::MAX as i64 {
                            buf.push(Some(v as i32));
                            Ok(())
                        } else if ignore_errors {
                            buf.push(None);
                            Ok(())
                        } else {
                            Err(ExecError::ParseError("integer field out of range".to_owned()))
                        }
                    },
                    None => {
                        if ignore_errors {
                            buf.push(None);
                            Ok(())
                        } else {
                            Err(ExecError::ParseError("cannot parse integer field".to_owned()))
                        }
                    },
                }
            },
            Buffer::Int64(buf) => {
                match parse_i64_bytes(bytes) {
                    Some(v) => {
                        buf.push(Some(v));
                        Ok(())
                    },
                    None => {
                        if ignore_errors {
                            buf.push(None);
                            Ok(())
                        } else {
                            Err(ExecError::ParseError("cannot parse integer field".to_owned()))
                        }
                    },
                }
            },
            Buffer::UInt32(buf) => {
                match parse_u64_bytes(bytes) {
                    Some(v) => {
                        if v <= u32::MAX as u64 {
                            buf.push(Some(v as u32));
                            Ok(())
                        } else if ignore_errors {
                            buf.push(None);
                            Ok(())
                        } else {
                            Err(ExecError::ParseError("integer field out of range".to_owned()))
                        }
                    },
                    None => {
                        if ignore_errors {
                            buf.push(None);
                            Ok(())
                        } else {
                            Err(ExecError::ParseError("cannot parse integer field".to_owned()))
                        }
                    },
                }
            },
            Buffer::UInt64(buf) => {
                match parse_u64_bytes(bytes) {
                    Some(v) => {
                        buf.push(Some(v));
                        Ok(())
                    },
                    None => {
                        if ignore_errors {
                            buf.push(None);
                            Ok(())
                        } else {
                            Err(ExecError::ParseError("cannot parse integer field".to_owned()))
                        }
                    },
                }
            },
            Buffer::Utf8(buf, total) => {
                *total = *total + bytes.len();
                buf.push(Utf8Field { start_pos, len: bytes.len() as u32 });
                Ok(())
            },
        }
    }
}

/// One decoding buffer per projected column, sized for `capacity` rows.
/// Fails exactly when a projected column's type is not decoded here.
#[verifier::loop_isolation(false)]
pub fn init_buffers(projection: &Vec<usize>, capacity: usize, schema: &Vec<SchemaField>) -> (r:
    Result<Vec<Buffer>, ExecError>)
    requires
        forall|i: int| 0 <= i < projection@.len() ==> (#[trigger] projection@[i] as int)
            < schema@.len(),
    ensures
        r matches Ok(bufs) ==> bufs@.len() == projection@.len() && forall|i: int|
            0 <= i < bufs@.len() ==> (#[trigger] bufs@[i]).count() == 0,
{
    let mut out: Vec<Buffer> = Vec::new();
    let mut i: usize = 0;
    while i < projection.len()
        invariant
            i <= projection@.len(),
            out@.len() == i as int,
            forall|k: int| 0 <= k < i as int ==> (#[trigger] out@[k]).count() == 0,
        decreases projection@.len() - i,
    {
        let b = field_to_builder(projection[i], capacity, schema)?;
        out.push(b);
        i = i + 1;
    }
    Ok(out)
}

/// The empty decoding buffer of one schema column's type. Floating-point
/// columns are outside this core: a caller decodes them itself.
pub fn field_to_builder(i: usize, capacity: usize, schema: &Vec<SchemaField>) -> (r: Result<
    Buffer,
    ExecError,
>)
    requires
        (i as int) < schema@.len(),
    ensures
        r is Ok <==> !((schema@[i as int].dtype is Float32) || (schema@[i as int].dtype
            is Float64)),
        r matches Ok(b) ==> b.count() == 0,
{
    let field = &schema[i];
    match field.dtype {
        DType::Boolean => Ok(Buffer::Boolean(Vec::with_capacity(capacity))),
        DType::Int32 => Ok(Buffer::Int32(Vec::with_capacity(capacity))),
        DType::Int64 => Ok(Buffer::Int64(Vec::with_capacity(capacity))),
        DType::UInt32 => Ok(Buffer::UInt32(Vec::with_capacity(capacity))),
        DType::UInt64 => Ok(Buffer::UInt64(Vec::with_capacity(capacity))),
        DType::Utf8 => Ok(Buffer::Utf8(Vec::with_capacity(capacity), 0)),
        _ => Err(ExecError::ParseError("unsupported data type when reading a csv".to_owned())),
    }
}

} // verus!

verus! {

/// Whether the two buffers hold the same column type.
pub open spec fn same_variant(a: Buffer, b: Buffer) -> bool {
    match (a, b) {
        (Buffer::Boolean(_), Buffer::Boolean(_)) => true,
        (Buffer::Int32(_), Buffer::Int32(_)) => true,
        (Buffer::Int64(_), Buffer::Int64(_)) => true,
        (Buffer::UInt32(_), Buffer::UInt32(_)) => true,
        (Buffer::UInt64(_), Buffer::UInt64(_)) => true,
        (Buffer::Utf8(_, _), Buffer::Utf8(_, _)) => true,
        _ => false,
    }
}

/// The fields held by the first `k` buffers that share the first buffer's
/// type; the flattened column is this long.
pub open spec fn matching_count(bufs: Seq<Buffer>, k: int) -> int
    decreases k,
{
    if k <= 0 || bufs.len() == 0 {
        0
    } else {
        matching_count(bufs, k - 1) + if same_variant(bufs[k - 1], bufs[0]) {
            bufs[k - 1].count()
        } else {
            0
        }
    }
}

/// Earlier buffers' blocks lie below later ones.
pub proof fn lemma_matching_mono(bufs: Seq<Buffer>, k1: int, k2: int)
    requires
        0 <= k1 <= k2,
    ensures
        matching_count(bufs, k1) <= matching_count(bufs, k2),
    decreases k2 - k1,
{
    if k1 < k2 {
        lemma_matching_mono(bufs, k1, k2 - 1);
        assert(bufs[k2 - 1].count() >= 0);
    }
}

/// What cell `i` of a decoded buffer becomes: typed values, nulls for
/// absent fields, text (or null) for recorded byte ranges, with an
/// unsigned value beyond the cell range becoming a null.
pub open spec fn buf_cell_ok(buf: Buffer, bytes: Seq<u8>, i: int, v: Value) -> bool {
    match buf {
        Buffer::Boolean(vv) => v == (match vv@[i] {
            Some(b) => Value::Bool(b),
            None => Value::Null,
        }),
        Buffer::Int32(vv) => v == (match vv@[i] {
            Some(x) => Value::Int(x as i64),
            None => Value::Null,
        }),
        Buffer::Int64(vv) => v == (match vv@[i] {
            Some(x) => Value::Int(x),
            None => Value::Null,
        }),
        Buffer::UInt32(vv) => v == (match vv@[i] {
            Some(x) => Value::Int(x as i64),
            None => Value::Null,
        }),
        Buffer::UInt64(vv) => v == (match vv@[i] {
            Some(x) => if x <= i64::MAX as u64 {
                Value::Int(x as i64)
            } else {
                Value::Null
            },
            None => Value::Null,
        }),
        Buffer::Utf8(vv, _) => match v {
            Value::Str(s) => utf8_decode(
                bytes.subrange(vv@[i].start_pos as int, vv@[i].start_pos as int + vv@[i].len as int),
            ) == Some(s@),
            Value::Null => true,
            _ => false,
        },
    }
}

/// Converts one buffer's fields to cell values, appending to `out`. An
/// unsigned value too large for a cell, or an invalid UTF-8 string field,
/// becomes a null when errors are ignored and a parse error otherwise.
#[verifier::loop_isolation(false)]
#[verifier::rlimit(60)]
fn buffer_into_values(buf: &Buffer, bytes: &[u8], ignore_errors: bool, out: &mut Vec<Value>) -> (r:
    Result<(), ExecError>)
    ensures
        r is Ok ==> final(out)@.len() == old(out)@.len() + buf.count(),
        r is Ok ==> forall|i: int| 0 <= i < old(out)@.len() ==> final(out)@[i] == old(out)@[i],
        r is Ok ==> forall|i: int|
            0 <= i < buf.count() ==> buf_cell_ok(
                *buf,
                bytes@,
                i,
                #[trigger] final(out)@[old(out)@.len() + i],
            ),
{
    match buf {
        Buffer::Boolean(v) => {
            let mut i: usize = 0;
            while i < v.len()
                invariant
                    i <= v@.len(),
                    out@.len() == old(out)@.len() + i as int,
                    forall|k: int| 0 <= k < old(out)@.len() ==> out@[k] == old(out)@[k],
                    forall|k: int|
                        0 <= k < i as int ==> #[trigger] out@[old(out)@.len() + k] == (match v@[
                        k] {
                            Some(b) => Value::Bool(b),
                            None => Value::Null,
                        }),
                decreases v@.len() - i,
            {
                match v[i] {
                    Some(b) => out.push(Value::Bool(b)),
                    None => out.push(Value::Null),
                }
                i = i + 1;
            }
            Ok(())
        },
        Buffer::Int32(v) => {
            let mut i: usize = 0;
            while i < v.len()
                invariant
                    i <= v@.len(),
                    out@.len() == old(out)@.len() + i as int,
                    forall|k: int| 0 <= k < old(out)@.len() ==> out@[k] == old(out)@[k],
                    forall|k: int|
                        0 <= k < i as int ==> #[trigger] out@[old(out)@.len() + k] == (match v@[
                        k] {
                            Some(x) => Value::Int(x as i64),
                            None => Value::Null,
                        }),
                decreases v@.len() - i,
            {
                match v[i] {
                    Some(x) => out.push(Value::Int(x as i64)),
                    None => out.push(Value::Null),
                }
                i = i + 1;
            }
            Ok(())
        },
        Buffer::Int64(v) => {
            let mut i: usize = 0;
            while i < v.len()
                invariant
                    i <= v@.len(),
                    out@.len() == old(out)@.len() + i as int,
                    forall|k: int| 0 <= k < old(out)@.len() ==> out@[k] == old(out)@[k],
                    forall|k: int|
                        0 <= k < i as int ==> #[trigger] out@[old(out)@.len() + k] == (match v@[
                        k] {
                            Some(x) => Value::Int(x),
                            None => Value::Null,
                        }),
                decreases v@.len() - i,
            {
                match v[i] {
                    Some(x) => out.push(Value::Int(x)),
                    None => out.push(Value::Null),
                }
                i = i + 1;
            }
            Ok(())
        },
        Buffer::UInt32(v) => {
            let mut i: usize = 0;
            while i < v.len()
                invariant
                    i <= v@.len(),
                    out@.len() == old(out)@.len() + i as int,
                    forall|k: int| 0 <= k < old(out)@.len() ==> out@[k] == old(out)@[k],
                    forall|k: int|
                        0 <= k < i as int ==> #[trigger] out@[old(out)@.len() + k] == (match v@[
                        k] {
                            Some(x) => Value::Int(x as i64),
                            None => Value::Null,
                        }),
                decreases v@.len() - i,
            {
                match v[i] {
                    Some(x) => out.push(Value::Int(x as i64)),
                    None => out.push(Value::Null),
                }
                i = i + 1;
            }
            Ok(())
        },
        Buffer::UInt64(v) => {
            let mut i: usize = 0;
            while i < v.len()
                invariant
                    i <= v@.len(),
                    out@.len() == old(out)@.len() + i as int,
                    forall|k: int| 0 <= k < old(out)@.len() ==> out@[k] == old(out)@[k],
                    forall|k: int|
                        0 <= k < i as int ==> #[trigger] out@[old(out)@.len() + k] == (match v@[
                        k] {
                            Some(x) => if x <= i64::MAX as u64 {
                                Value::Int(x as i64)
                            } else {
                                Value::Null
                            },
                            None => Value::Null,
                        }),
                decreases v@.len() - i,
            {
                match v[i] {
                    Some(x) => {
                        if x <= i64::MAX as u64 {
                            out.push(Value::Int(x as i64));
                        } else {
                            out.push(Value::Null);
                        }
                    },
                    None => out.push(Value::Null),
                }
                i = i + 1;
            }
            Ok(())
        },
        Buffer::Utf8(v, _) => {
            let mut i: usize = 0;
            while i < v.len()
                invariant
                    i <= v@.len(),
                    out@.len() == old(out)@.len() + i as int,
                    forall|k: int| 0 <= k < old(out)@.len() ==> out@[k] == old(out)@[k],
                    forall|k: int|
                        0 <= k < i as int ==> match #[trigger] out@[old(out)@.len() + k] {
                            Value::Str(s) => utf8_decode(
                                bytes@.subrange(
                                    v@[k].start_pos as int,
                                    v@[k].start_pos as int + v@[k].len as int,
                                ),
                            ) == Some(s@),
                            Value::Null => true,
                            _ => false,
                        },
                decreases v@.len() - i,
            {
                let f = &v[i];
                if f.start_pos > bytes.len() || bytes.len() - f.start_pos < f.len as usize {
                    if ignore_errors {
                        out.push(Value::Null);
                    } else {
                        return Err(
                            ExecError::ParseError("string field is out of the buffer".to_owned()),
                        );
                    }
                } else {
                    match f.parse_str(bytes) {
                        Ok(s) => out.push(Value::Str(s)),
                        Err(e) => {
                            if ignore_errors {
                                out.push(Value::Null);
                            } else {
                                return Err(e);
                            }
                        },
                    }
                }
                i = i + 1;
            }
            Ok(())
        },
    }
}

/// Flattens the per-chunk buffers of one column into that column: buffers
/// of the first buffer's type contribute their fields in order, and any
/// other buffer is skipped. Fails when nothing was buffered, and on a value
/// that cannot be decoded while errors are not ignored.
#[verifier::loop_isolation(false)]
pub fn buffers_to_series(buffers: Vec<Buffer>, bytes: &[u8], ignore_errors: bool) -> (r: Result<
    Column,
    ExecError,
>)
    ensures
        buffers@.len() == 0 ==> r is Err,
        r matches Ok(c) ==> c.len_spec() == matching_count(buffers@, buffers@.len() as int),
        r matches Ok(c) ==> forall|k: int, i: int|
            0 <= k < buffers@.len() && same_variant(buffers@[k], buffers@[0]) && 0 <= i
                < buffers@[k].count() ==> buf_cell_ok(
                buffers@[k],
                bytes@,
                i,
                #[trigger] c.values@[matching_count(buffers@, k) + i],
            ),
{
    if buffers.len() == 0 {
        return Err(ExecError::ParseError("no buffers to flatten".to_owned()));
    }
    let mut vals: Vec<Value> = Vec::new();
    let mut k: usize = 0;
    while k < buffers.len()
        invariant
            k <= buffers@.len(),
            buffers@.len() > 0,
            vals@.len() == matching_count(buffers@, k as int),
            forall|k2: int, i: int|
                0 <= k2 < k as int && same_variant(buffers@[k2], buffers@[0]) && 0 <= i
                    < buffers@[k2].count() ==> buf_cell_ok(
                    buffers@[k2],
                    bytes@,
                    i,
                    #[trigger] vals@[matching_count(buffers@, k2) + i],
                ),
        decreases buffers@.len() - k,
    {
        let ghost vals_old = vals@;
        if check_same_variant(&buffers[k], &buffers[0]) {
            buffer_into_values(&buffers[k], bytes, ignore_errors, &mut vals)?;
        }
        proof {
            assert forall|k2: int, i: int|
                0 <= k2 < k as int + 1 && same_variant(buffers@[k2], buffers@[0]) && 0 <= i
                    < buffers@[k2].count() implies buf_cell_ok(
                buffers@[k2],
                bytes@,
                i,
                #[trigger] vals@[matching_count(buffers@, k2) + i],
            ) by {
                if k2 < k as int {
                    lemma_matching_mono(buffers@, 0, k2);
                    lemma_matching_mono(buffers@, k2 + 1, k as int);
                    assert(matching_count(buffers@, k2 + 1) == matching_count(buffers@, k2)
                        + buffers@[k2].count());
                    assert(0 <= matching_count(buffers@, k2) + i < vals_old.len());
                    assert(vals@[matching_count(buffers@, k2) + i] == vals_old[matching_count(
                        buffers@,
                        k2,
                    ) + i]);
                    assert(buf_cell_ok(
                        buffers@[k2],
                        bytes@,
                        i,
                        vals_old[matching_count(buffers@, k2) + i],
                    ));
                }
            }
        }
        k = k + 1;
    }
    Ok(Column { name: "".to_owned(), values: vals, cat: None })
}

/// Decides `same_variant`.
pub fn check_same_variant(a: &Buffer, b: &Buffer) -> (r: bool)
    ensures
        r == same_variant(*a, *b),
{
    match (a, b) {
        (Buffer::Boolean(_), Buffer::Boolean(_)) => true,
        (Buffer::Int32(_), Buffer::Int32(_)) => true,
        (Buffer::Int64(_), Buffer::Int64(_)) => true,
        (Buffer::UInt32(_), Buffer::UInt32(_)) => true,
        (Buffer::UInt64(_), Buffer::UInt64(_)) => true,
        (Buffer::Utf8(_, _), Buffer::Utf8(_, _)) => true,
        _ => false,
    }
}

} // verus!
