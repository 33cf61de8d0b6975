//! The values that the codec reads and writes, and the shapes that direct
//! decoding.
use vstd::prelude::*;

verus! {

/// A value that can be written as bencode, or that was read from it.
///
/// A decoded `Value` owns copies of the byte strings it holds, so it may
/// outlive the input; a caller that wants no copy reads byte strings with the
/// cursor of [`crate::Deserializer`] (`parse_byte_string`, `advance_to`,
/// `advance_by`), which hands out slices of the input itself.
#[derive(Debug, PartialEq, Eq)]
pub enum Value {
    /// Written as the integer `0` or `1`.
    Bool(bool),
    /// A signed integer.
    Int(i64),
    /// An unsigned integer.
    UInt(u64),
    /// One character, written as a byte string of its UTF-8 bytes.
    Char(char),
    /// Text, written as a byte string.
    Text(String),
    /// Raw bytes, written as a byte string.
    Bytes(Vec<u8>),
    /// The unit value, written as `0:`.
    Unit,
    /// An absent optional value; it has no wire form.
    Absent,
    /// A present optional value, written as the value itself.
    Present(Box<Value>),
    /// A sequence, tuple or array, written as a list.
    List(Vec<Value>),
    /// A map or record, written as a dictionary of (key, value) entries.
    Dict(Vec<(Value, Value)>),
    /// An enum variant: its name, and its payload if it carries one.
    Variant(String, Option<Box<Value>>),
}

/// The mathematical form of a [`Value`].
pub enum Val {
    Bool(bool),
    Int(i64),
    UInt(u64),
    Char(char),
    Text(Seq<char>),
    Bytes(Seq<u8>),
    Unit,
    Absent,
    Present(Box<Val>),
    List(Seq<Val>),
    Dict(Seq<(Val, Val)>),
    Variant(Seq<char>, Option<Box<Val>>),
}

/// What the caller expects to read at some place of the input.
#[derive(Debug, PartialEq, Eq)]
pub enum Shape {
    /// Whatever the next byte announces.
    Any,
    /// The integer `0` or `1`.
    Bool,
    /// A signed integer.
    Int,
    /// An unsigned integer.
    UInt,
    /// A floating-point number: always refused.
    Float,
    /// A byte string holding exactly one character.
    Char,
    /// A byte string holding UTF-8 text.
    Text,
    /// A byte string of any bytes.
    Bytes,
    /// Any two bytes (the unit value is written `0:`).
    Unit,
    /// A byte string holding exactly the given name.
    UnitStruct(String),
    /// Absent when the input is exhausted, else a value of the inner shape.
    Optional(Box<Shape>),
    /// A list whose elements all have the inner shape.
    List(Box<Shape>),
    /// A list of exactly one element of each of the given shapes.
    Tuple(Vec<Shape>),
    /// A dictionary with keys of the first shape and values of the second.
    Dictionary(Box<Shape>, Box<Shape>),
    /// A dictionary whose values have the shape of the field that the key
    /// names; keys that name no field have values of any shape.
    Record(Vec<(String, Shape)>),
    /// A variant of the given list: its name, and the shape of its payload
    /// when it carries one.
    Enum(Vec<(String, Option<Shape>)>),
}

pub open spec fn view_value(v: Value) -> Val
    decreases v,
{
    match v {
        Value::Bool(b) => Val::Bool(b),
        Value::Int(i) => Val::Int(i),
        Value::UInt(u) => Val::UInt(u),
        Value::Char(c) => Val::Char(c),
        Value::Text(s) => Val::Text(s@),
        Value::Bytes(b) => Val::Bytes(b@),
        Value::Unit => Val::Unit,
        Value::Absent => Val::Absent,
        Value::Present(x) => Val::Present(Box::new(view_value(*x))),
        Value::List(xs) => Val::List(view_values(xs@)),
        Value::Dict(es) => Val::Dict(view_entries(es@)),
        Value::Variant(n, p) => match p {
            Some(x) => Val::Variant(n@, Some(Box::new(view_value(*x)))),
            None => Val::Variant(n@, None),
        },
    }
}

pub open spec fn view_values(s: Seq<Value>) -> Seq<Val>
    decreases s,
{
    if s.len() == 0 {
        Seq::empty()
    } else {
        view_values(s.drop_last()).push(view_value(s.last()))
    }
}

pub open spec fn view_entries(s: Seq<(Value, Value)>) -> Seq<(Val, Val)>
    decreases s,
{
    if s.len() == 0 {
        Seq::empty()
    } else {
        view_entries(s.drop_last()).push((view_value(s.last().0), view_value(s.last().1)))
    }
}

impl View for Value {
    type V = Val;

    open spec fn view(&self) -> Val {
        view_value(*self)
    }
}

pub proof fn lemma_view_values_push(s: Seq<Value>, x: Value)
    ensures
        view_values(s.push(x)) == view_values(s).push(x@),
{
    assert(s.push(x).drop_last() =~= s);
}

pub proof fn lemma_view_entries_push(s: Seq<(Value, Value)>, k: Value, v: Value)
    ensures
        view_entries(s.push((k, v))) == view_entries(s).push((k@, v@)),
{
    assert(s.push((k, v)).drop_last() =~= s);
}

pub proof fn lemma_view_values_index(s: Seq<Value>, i: int)
    requires
        0 <= i < s.len(),
    ensures
        view_values(s).len() == s.len(),
        view_values(s)[i] == s[i]@,
    decreases s.len(),
{
    if i < s.len() - 1 {
        lemma_view_values_index(s.drop_last(), i);
    } else {
        lemma_view_values_len(s.drop_last());
    }
}

pub proof fn lemma_view_values_len(s: Seq<Value>)
    ensures
        view_values(s).len() == s.len(),
    decreases s.len(),
{
    if s.len() > 0 {
        lemma_view_values_len(s.drop_last());
    }
}

pub proof fn lemma_view_entries_index(s: Seq<(Value, Value)>, i: int)
    requires
        0 <= i < s.len(),
    ensures
        view_entries(s).len() == s.len(),
        view_entries(s)[i] == (s[i].0@, s[i].1@),
    decreases s.len(),
{
    if i < s.len() - 1 {
        lemma_view_entries_index(s.drop_last(), i);
    } else {
        lemma_view_entries_len(s.drop_last());
    }
}

pub proof fn lemma_view_entries_len(s: Seq<(Value, Value)>)
    ensures
        view_entries(s).len() == s.len(),
    decreases s.len(),
{
    if s.len() > 0 {
        lemma_view_entries_len(s.drop_last());
    }
}

} // verus!
