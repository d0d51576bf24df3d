//! Row-level expressions: column references, literals, aliases and
//! elementwise comparisons. A length-1 operand broadcasts against the other
//! side. The meaning of every expression is a spec-level semantics that the
//! evaluator is proved against: evaluation succeeds exactly when the
//! semantics is defined.

use vstd::prelude::*;
use vstd::string::StringExecFns;
use crate::column::{col_like, seq_veq, Column};
use crate::error::ExecError;
use crate::table::Table;
use crate::value::{value_eq, value_match, veq, Value};

verus! {

/// A physical expression, evaluated against a table.
pub enum Expr {
    /// The column of that name.
    Col(String),
    /// A length-1 integer column.
    LitInt(i64),
    /// A length-1 boolean column.
    LitBool(bool),
    /// A length-1 string column.
    LitStr(String),
    /// The inner expression's result under another name.
    Alias(Box<Expr>, String),
    /// Elementwise exact equality, null equal to null.
    EqCmp(Box<Expr>, Box<Expr>),
    /// Elementwise integer less-than; a row without two integers is null.
    LtCmp(Box<Expr>, Box<Expr>),
}

/// The name given to literal columns.
pub open spec fn lit_name() -> Seq<char> {
    "literal"@
}

/// The position of the first column named `n`.
pub open spec fn col_ix(t: Table, n: Seq<char>) -> int {
    choose|i: int| 0 <= i < t.cols@.len() && t.cols@[i].name@ == n
}

/// Elementwise exact-equality column of two equal-length value sequences.
pub open spec fn eq_vals(l: Seq<Value>, r: Seq<Value>) -> Seq<Value> {
    Seq::new(l.len(), |i: int| Value::Bool(veq(l[i], r[i])))
}

/// The less-than value of one row.
pub open spec fn lt_val(x: Value, y: Value) -> Value {
    match (x, y) {
        (Value::Int(a), Value::Int(b)) => Value::Bool(a < b),
        _ => Value::Null,
    }
}

/// Elementwise integer less-than column.
pub open spec fn lt_vals(l: Seq<Value>, r: Seq<Value>) -> Seq<Value> {
    Seq::new(l.len(), |i: int| lt_val(l[i], r[i]))
}

/// A length-1 sequence broadcast to height `h`; anything else is unchanged.
pub open spec fn bcast(v: Seq<Value>, h: int) -> Seq<Value> {
    if v.len() == 1 && h != 1 {
        Seq::new(h as nat, |i: int| v[0])
    } else {
        v
    }
}

/// The two operand lengths are compatible: equal, or one side is a single
/// row to broadcast.
pub open spec fn lens_ok(l: int, r: int) -> bool {
    l == r || l == 1 || r == 1
}

/// The common height after broadcasting.
pub open spec fn joint_len(l: int, r: int) -> int {
    if l == r {
        l
    } else if l == 1 {
        r
    } else {
        l
    }
}

/// The semantics of an expression against a table: the name and values of
/// the column it denotes, or nothing where evaluation must fail (an absent
/// column, or incompatible operand lengths).
pub open spec fn sem(e: Expr, df: Table) -> Option<(Seq<char>, Seq<Value>)>
    decreases e,
{
    match e {
        Expr::Col(n) => if df.has_col(n@) {
            Some((n@, df.cols@[col_ix(df, n@)].values@))
        } else {
            None
        },
        Expr::LitInt(v) => Some((lit_name(), seq![Value::Int(v)])),
        Expr::LitBool(v) => Some((lit_name(), seq![Value::Bool(v)])),
        Expr::LitStr(s) => Some((lit_name(), seq![Value::Str(s)])),
        Expr::Alias(inner, n) => match sem(*inner, df) {
            Some(p) => Some((n@, p.1)),
            None => None,
        },
        Expr::EqCmp(l, r) => match (sem(*l, df), sem(*r, df)) {
            (Some(lp), Some(rp)) => if lens_ok(lp.1.len() as int, rp.1.len() as int) {
                let h = joint_len(lp.1.len() as int, rp.1.len() as int);
                Some((lp.0, eq_vals(bcast(lp.1, h), bcast(rp.1, h))))
            } else {
                None
            },
            _ => None,
        },
        Expr::LtCmp(l, r) => match (sem(*l, df), sem(*r, df)) {
            (Some(lp), Some(rp)) => if lens_ok(lp.1.len() as int, rp.1.len() as int) {
                let h = joint_len(lp.1.len() as int, rp.1.len() as int);
                Some((lp.0, lt_vals(bcast(lp.1, h), bcast(rp.1, h))))
            } else {
                None
            },
            _ => None,
        },
    }
}

/// The dictionary annotation an expression's result carries: a column
/// reference keeps its column's, an alias keeps its inner expression's, and
/// everything else is plain.
pub open spec fn sem_cat(e: Expr, df: Table) -> Option<crate::categorical::RevMapping>
    decreases e,
{
    match e {
        Expr::Col(n) => if df.has_col(n@) {
            df.cols@[col_ix(df, n@)].cat
        } else {
            None
        },
        Expr::Alias(inner, _) => sem_cat(*inner, df),
        _ => None,
    }
}

/// Str values of the semantics only matter through `veq`, so an evaluator
/// may return any structurally equal values.
pub open spec fn col_denotes(c: Column, p: (Seq<char>, Seq<Value>)) -> bool {
    c.name@ == p.0 && seq_veq(c.values@, p.1)
}

/// Evaluates an expression against a table. Succeeds exactly where the
/// semantics is defined, and then returns the denoted column; a column
/// reference keeps the column's dictionary mapping.
#[verifier::loop_isolation(false)]
#[verifier::rlimit(60)]
pub fn eval(e: &Expr, df: &Table, state: &crate::context::ExecutionState) -> (r: Result<
    Column,
    ExecError,
>)
    requires
        df.wf(),
    ensures
        r is Ok <==> sem(*e, *df) is Some,
        r matches Ok(c) ==> col_denotes(c, sem(*e, *df).unwrap()),
        r matches Ok(c) ==> c.len_spec() == sem(*e, *df).unwrap().1.len(),
        r matches Ok(c) ==> crate::column::cat_like(c.cat, sem_cat(*e, *df)),
    decreases *e,
{
    match e {
        Expr::Col(n) => {
            match df.find_column(n) {
                Some(i) => {
                    let c = df.cols[i].dup();
                    proof {
                        assert(df.has_col(n@));
                        let ghost ix = col_ix(*df, n@);
                        assert(0 <= ix < df.cols@.len() && df.cols@[ix].name@ == n@);
                        assert(ix == i as int);
                        crate::column::lemma_seq_veq_refl(df.cols@[ix].values@);
                    }
                    Ok(c)
                },
                None => Err(ExecError::SchemaError("referenced column is absent".to_owned())),
            }
        },
        Expr::LitInt(v) => {
            let mut vals: Vec<Value> = Vec::new();
            vals.push(Value::Int(*v));
            proof {
                assert(seq_veq(vals@, seq![Value::Int(*v)]));
            }
            Ok(Column { name: "literal".to_owned(), values: vals, cat: None })
        },
        Expr::LitBool(v) => {
            let mut vals: Vec<Value> = Vec::new();
            vals.push(Value::Bool(*v));
            proof {
                assert(seq_veq(vals@, seq![Value::Bool(*v)]));
            }
            Ok(Column { name: "literal".to_owned(), values: vals, cat: None })
        },
        Expr::LitStr(s) => {
            let mut vals: Vec<Value> = Vec::new();
            vals.push(Value::Str(s.clone()));
            proof {
                assert(veq(vals@[0], Value::Str(*s)));
                assert(seq_veq(vals@, seq![Value::Str(*s)]));
            }
            Ok(Column { name: "literal".to_owned(), values: vals, cat: None })
        },
        Expr::Alias(inner, n) => {
            match eval(inner, df, state) {
                Ok(mut c) => {
                    c.name = n.clone();
                    Ok(c)
                },
                Err(err) => Err(err),
            }
        },
        Expr::EqCmp(l, r) => {
            let lc = eval(l, df, state)?;
            let rc = eval(r, df, state)?;
            let out = cmp_columns(&lc, &rc, true);
            match out {
                Some(vals) => {
                    proof {
                        lemma_cmp_congruence(
                            lc.values@,
                            rc.values@,
                            sem(**l, *df).unwrap().1,
                            sem(**r, *df).unwrap().1,
                            true,
                            vals@,
                        );
                    }
                    Ok(Column { name: lc.name, values: vals, cat: None })
                },
                None => Err(
                    ExecError::SchemaError("operand lengths cannot be broadcast".to_owned()),
                ),
            }
        },
        Expr::LtCmp(l, r) => {
            let lc = eval(l, df, state)?;
            let rc = eval(r, df, state)?;
            let out = cmp_columns(&lc, &rc, false);
            match out {
                Some(vals) => {
                    proof {
                        lemma_cmp_congruence(
                            lc.values@,
                            rc.values@,
                            sem(**l, *df).unwrap().1,
                            sem(**r, *df).unwrap().1,
                            false,
                            vals@,
                        );
                    }
                    Ok(Column { name: lc.name, values: vals, cat: None })
                },
                None => Err(
                    ExecError::SchemaError("operand lengths cannot be broadcast".to_owned()),
                ),
            }
        },
    }
}

/// The elementwise comparison of two value sequences after broadcasting, as
/// a value sequence: equality when `eq` is set, integer less-than otherwise.
pub open spec fn cmp_sem(l: Seq<Value>, r: Seq<Value>, eq: bool) -> Seq<Value> {
    let h = joint_len(l.len() as int, r.len() as int);
    if eq {
        eq_vals(bcast(l, h), bcast(r, h))
    } else {
        lt_vals(bcast(l, h), bcast(r, h))
    }
}

/// Compares two columns elementwise, broadcasting a single row against the
/// other side; nothing where the lengths cannot be broadcast.
#[verifier::loop_isolation(false)]
#[verifier::rlimit(60)]
pub fn cmp_columns(lc: &Column, rc: &Column, eq: bool) -> (r: Option<Vec<Value>>)
    ensures
        r is Some <==> lens_ok(lc.len_spec(), rc.len_spec()),
        r matches Some(vals) ==> seq_veq(vals@, cmp_sem(lc.values@, rc.values@, eq)),
{
    let hl = lc.values.len();
    let hr = rc.values.len();
    if !(hl == hr || hl == 1 || hr == 1) {
        return None;
    }
    let h: usize = if hl == hr {
        hl
    } else if hl == 1 {
        hr
    } else {
        hl
    };
    let mut vals: Vec<Value> = Vec::new();
    let mut i: usize = 0;
    while i < h
        invariant
            i <= h,
            vals@.len() == i as int,
            h as int == joint_len(lc.len_spec(), rc.len_spec()),
            lens_ok(lc.len_spec(), rc.len_spec()),
            forall|k: int|
                0 <= k < i as int ==> veq(
                    #[trigger] vals@[k],
                    cmp_sem(lc.values@, rc.values@, eq)[k],
                ),
        decreases h - i,
    {
        let li: usize = if hl == 1 {
            0
        } else {
            i
        };
        let ri: usize = if hr == 1 {
            0
        } else {
            i
        };
        let lv = &lc.values[li];
        let rv = &rc.values[ri];
        if eq {
            vals.push(Value::Bool(value_eq(lv, rv)));
        } else {
            let out = match (lv, rv) {
                (Value::Int(x), Value::Int(y)) => Value::Bool(*x < *y),
                _ => Value::Null,
            };
            vals.push(out);
        }
        proof {
            let ghost hh = joint_len(lc.len_spec(), rc.len_spec());
            assert(bcast(lc.values@, hh)[i as int] == lc.values@[li as int]);
            assert(bcast(rc.values@, hh)[i as int] == rc.values@[ri as int]);
        }
        i = i + 1;
    }
    Some(vals)
}

/// Comparing structurally equal operands yields structurally equal results:
/// the evaluator's copies denote the same comparison column as the
/// semantics' originals.
pub proof fn lemma_cmp_congruence(
    la: Seq<Value>,
    ra: Seq<Value>,
    lb: Seq<Value>,
    rb: Seq<Value>,
    eq: bool,
    v: Seq<Value>,
)
    requires
        lens_ok(la.len() as int, ra.len() as int),
        seq_veq(la, lb),
        seq_veq(ra, rb),
        seq_veq(v, cmp_sem(la, ra, eq)),
    ensures
        seq_veq(v, cmp_sem(lb, rb, eq)),
{
    {
        let h = joint_len(la.len() as int, ra.len() as int);
        assert(joint_len(lb.len() as int, rb.len() as int) == h);
        assert forall|k: int| 0 <= k < v.len() implies veq(v[k], cmp_sem(lb, rb, eq)[k]) by {
            assert(veq(v[k], cmp_sem(la, ra, eq)[k]));
            let xa = bcast(la, h)[k];
            let xb = bcast(lb, h)[k];
            let ya = bcast(ra, h)[k];
            let yb = bcast(rb, h)[k];
            assert(veq(xa, xb) && veq(ya, yb)) by {
                if la.len() == 1 && h != 1 {
                    assert(veq(la[0], lb[0]));
                } else {
                    assert(veq(la[k], lb[k]));
                }
                if ra.len() == 1 && h != 1 {
                    assert(veq(ra[0], rb[0]));
                } else {
                    assert(veq(ra[k], rb[k]));
                }
            }
            if eq {
                assert(veq(xa, ya) == veq(xb, yb)) by {
                    crate::value::lemma_veq_congruence(xa, ya, xb, yb);
                }
                crate::value::lemma_veq_trans(
                    v[k],
                    Value::Bool(veq(xa, ya)),
                    Value::Bool(veq(xb, yb)),
                );
            } else {
                assert(lt_val(xa, ya) == lt_val(xb, yb));
                crate::value::lemma_veq_trans(v[k], lt_val(xa, ya), lt_val(xb, yb));
            }
        }
    }
}

} // verus!

verus! {

/// The decimal digits of `n`, most significant first.
pub open spec fn digits_spec(n: nat) -> Seq<char>
    decreases n,
{
    if n < 10 {
        seq![digit_char(n)]
    } else {
        digits_spec(n / 10).push(digit_char(n % 10))
    }
}

/// The character of one decimal digit.
pub open spec fn digit_char(d: nat) -> char {
    if d == 0 {
        '0'
    } else if d == 1 {
        '1'
    } else if d == 2 {
        '2'
    } else if d == 3 {
        '3'
    } else if d == 4 {
        '4'
    } else if d == 5 {
        '5'
    } else if d == 6 {
        '6'
    } else if d == 7 {
        '7'
    } else if d == 8 {
        '8'
    } else {
        '9'
    }
}

/// The textual form of a signed integer.
pub open spec fn int_repr(n: int) -> Seq<char> {
    if n < 0 {
        seq!['-'] + digits_spec((-n) as nat)
    } else {
        digits_spec(n as nat)
    }
}

/// One decimal digit as text.
pub fn digit_str(d: u64) -> (r: &'static str)
    requires
        d < 10,
    ensures
        r@ == seq![digit_char(d as nat)],
{
    proof {
        reveal_strlit("0");
        reveal_strlit("1");
        reveal_strlit("2");
        reveal_strlit("3");
        reveal_strlit("4");
        reveal_strlit("5");
        reveal_strlit("6");
        reveal_strlit("7");
        reveal_strlit("8");
        reveal_strlit("9");
    }
    if d == 0 {
        "0"
    } else if d == 1 {
        "1"
    } else if d == 2 {
        "2"
    } else if d == 3 {
        "3"
    } else if d == 4 {
        "4"
    } else if d == 5 {
        "5"
    } else if d == 6 {
        "6"
    } else if d == 7 {
        "7"
    } else if d == 8 {
        "8"
    } else {
        "9"
    }
}

/// Renders an unsigned integer in decimal.
pub fn u64_to_string(n: u64) -> (r: String)
    ensures
        r@ == digits_spec(n as nat),
    decreases n,
{
    if n < 10 {
        digit_str(n).to_owned()
    } else {
        let mut s = u64_to_string(n / 10);
        s.append(digit_str(n % 10));
        s
    }
}

/// Renders a signed integer in decimal.
pub fn i64_to_string(n: i64) -> (r: String)
    ensures
        r@ == int_repr(n as int),
{
    if n < 0 {
        let mag: u64 = (-(n as i128)) as u64;
        let mut s = "-".to_owned();
        let d = u64_to_string(mag);
        s.append(d.as_str());
        proof {
            reveal_strlit("-");
            assert(s@ =~= seq!['-'] + digits_spec(mag as nat));
        }
        s
    } else {
        u64_to_string(n as u64)
    }
}

/// The stable textual representation of an expression, unique up to the
/// expression's structure; a scan's cache key appends it so that the same
/// source under different predicates caches independently.
pub open spec fn repr_spec(e: Expr) -> Seq<char>
    decreases e,
{
    match e {
        Expr::Col(n) => "col("@ + n@ + ")"@,
        Expr::LitInt(v) => "int("@ + int_repr(v as int) + ")"@,
        Expr::LitBool(v) => if v {
            "bool(true)"@
        } else {
            "bool(false)"@
        },
        Expr::LitStr(s) => "str("@ + s@ + ")"@,
        Expr::Alias(inner, n) => "alias("@ + repr_spec(*inner) + ","@ + n@ + ")"@,
        Expr::EqCmp(l, r) => "eq("@ + repr_spec(*l) + ","@ + repr_spec(*r) + ")"@,
        Expr::LtCmp(l, r) => "lt("@ + repr_spec(*l) + ","@ + repr_spec(*r) + ")"@,
    }
}

/// Renders an expression's stable textual representation.
pub fn expr_repr(e: &Expr) -> (r: String)
    ensures
        r@ == repr_spec(*e),
    decreases *e,
{
    match e {
        Expr::Col(n) => {
            let mut s = "col(".to_owned();
            s.append(n.as_str());
            s.append(")");
            proof {
                assert(s@ =~= repr_spec(*e));
            }
            s
        },
        Expr::LitInt(v) => {
            let mut s = "int(".to_owned();
            let d = i64_to_string(*v);
            s.append(d.as_str());
            s.append(")");
            proof {
                assert(s@ =~= repr_spec(*e));
            }
            s
        },
        Expr::LitBool(v) => {
            if *v {
                "bool(true)".to_owned()
            } else {
                "bool(false)".to_owned()
            }
        },
        Expr::LitStr(st) => {
            let mut s = "str(".to_owned();
            s.append(st.as_str());
            s.append(")");
            proof {
                assert(s@ =~= repr_spec(*e));
            }
            s
        },
        Expr::Alias(inner, n) => {
            let mut s = "alias(".to_owned();
            let d = expr_repr(inner);
            s.append(d.as_str());
            s.append(",");
            s.append(n.as_str());
            s.append(")");
            proof {
                assert(s@ =~= repr_spec(*e));
            }
            s
        },
        Expr::EqCmp(l, r) => {
            let mut s = "eq(".to_owned();
            let dl = expr_repr(l);
            s.append(dl.as_str());
            s.append(",");
            let dr = expr_repr(r);
            s.append(dr.as_str());
            s.append(")");
            proof {
                assert(s@ =~= repr_spec(*e));
            }
            s
        },
        Expr::LtCmp(l, r) => {
            let mut s = "lt(".to_owned();
            let dl = expr_repr(l);
            s.append(dl.as_str());
            s.append(",");
            let dr = expr_repr(r);
            s.append(dr.as_str());
            s.append(")");
            proof {
                assert(s@ =~= repr_spec(*e));
            }
            s
        },
    }
}

/// The cache key a scan uses: the source path, extended with the
/// predicate's stable text when one is present.
pub open spec fn scan_key_spec(path: Seq<char>, predicate: Option<Expr>) -> Seq<char> {
    match predicate {
        Some(e) => path + repr_spec(e),
        None => path,
    }
}

/// The cache key of a scan: the source path, extended with the predicate's
/// stable text when one is present, so the same source under different
/// predicates caches independently.
pub fn scan_cache_key(path: &String, predicate: &Option<Expr>) -> (r: String)
    ensures
        r@ == scan_key_spec(path@, *predicate),
{
    match predicate {
        Some(e) => {
            let mut s = path.clone();
            let d = expr_repr(e);
            s.append(d.as_str());
            s
        },
        None => path.clone(),
    }
}

} // verus!
