//! Cell values: a nullable 32-bit integer or nullable text, with their model.

use vstd::prelude::*;
use vstd::string::StrSliceExecFns;
use crate::num::{i32_width, i32_len};

verus! {

/// Declared domain of a column.
#[derive(Clone, Copy, Debug, PartialEq, Eq, Structural)]
pub enum ColKind {
    Int,
    Text,
}

/// A cell value. Null is the unset payload of the declared variant, not a
/// separate type.
#[derive(Clone, Debug, PartialEq)]
pub enum Value {
    Int(Option<i32>),
    Text(Option<String>),
}

/// Model of a `Value`: text abstracted to its character sequence.
pub enum ValueV {
    Int(Option<i32>),
    Text(Option<Seq<char>>),
}

impl View for Value {
    type V = ValueV;

    open spec fn view(&self) -> ValueV {
        match self {
            Value::Int(o) => ValueV::Int(*o),
            Value::Text(Some(s)) => ValueV::Text(Some(s@)),
            Value::Text(None) => ValueV::Text(None),
        }
    }
}

/// The null value of a declared kind.
pub open spec fn null_v(k: ColKind) -> ValueV {
    match k {
        ColKind::Int => ValueV::Int(None),
        ColKind::Text => ValueV::Text(None),
    }
}

/// An owned null cell of the declared kind.
pub fn null_value(k: ColKind) -> (r: Value)
    ensures
        r@ == null_v(k),
{
    match k {
        ColKind::Int => Value::Int(None),
        ColKind::Text => Value::Text(None),
    }
}

/// Rendering width of a value: digit count (with sign) for an integer,
/// character count for text, and 4 for a null (the literal "NULL").
pub open spec fn val_width(v: ValueV) -> nat {
    match v {
        ValueV::Int(Some(i)) => i32_width(i as int),
        ValueV::Text(Some(s)) => s.len(),
        _ => 4,
    }
}

/// Exec counterpart of `val_width`.
pub fn value_width(v: &Value) -> (r: usize)
    ensures
        r == val_width(v@),
{
    match v {
        Value::Int(Some(i)) => i32_len(*i),
        Value::Text(Some(s)) => s.as_str().unicode_len(),
        Value::Int(None) => 4,
        Value::Text(None) => 4,
    }
}

/// An owned copy with the same model.
pub fn dup_value(v: &Value) -> (r: Value)
    ensures
        r@ == v@,
{
    match v {
        Value::Int(o) => Value::Int(*o),
        Value::Text(Some(s)) => Value::Text(Some(s.clone())),
        Value::Text(None) => Value::Text(None),
    }
}

/// Tagged-value equality of the models, decided executably: two nulls of the
/// same kind are equal, values of different kinds never are.
pub fn val_eq(a: &Value, b: &Value) -> (r: bool)
    ensures
        r == (a@ == b@),
{
    match (a, b) {
        (Value::Int(x), Value::Int(y)) => match (x, y) {
            (Some(i), Some(j)) => *i == *j,
            (None, None) => true,
            _ => false,
        },
        (Value::Text(x), Value::Text(y)) => match (x, y) {
            (Some(s), Some(t)) => s.eq(t),
            (None, None) => true,
            _ => false,
        },
        _ => false,
    }
}

/// Character-for-character equality of two strings.
pub fn str_eq(a: &str, b: &str) -> (r: bool)
    ensures
        r == (a@ == b@),
{
    let an = a.unicode_len();
    let bn = b.unicode_len();
    if an != bn {
        return false;
    }
    let mut i: usize = 0;
    while i < an
        invariant
            an == a@.len(),
            bn == b@.len(),
            an == bn,
            i <= an,
            forall|k: int| 0 <= k < i ==> a@[k] == b@[k],
        decreases an - i,
    {
        let ca = a.get_char(i);
        let cb = b.get_char(i);
        if ca != cb {
            return false;
        }
        i += 1;
    }
    proof {
        assert(a@ =~= b@);
    }
    true
}

/// The characters of a string, as a vector.
pub fn str_chars(s: &str) -> (r: Vec<char>)
    ensures
        r@ == s@,
{
    let n = s.unicode_len();
    let mut v: Vec<char> = Vec::new();
    let mut i: usize = 0;
    while i < n
        invariant
            n == s@.len(),
            i <= n,
            v@ == s@.take(i as int),
        decreases n - i,
    {
        v.push(s.get_char(i));
        i += 1;
        proof {
            assert(v@ =~= s@.take(i as int));
        }
    }
    proof {
        assert(s@.take(n as int) =~= s@);
    }
    v
}

} // verus!
