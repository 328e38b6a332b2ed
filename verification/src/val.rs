//! Component values.

use vstd::prelude::*;

verus! {

/// A component value.
///
/// Floating-point numbers are held by their bits. Resources and streams are held
/// by numbers: whoever owns the store keeps the things that the numbers stand
/// for.
#[derive(Debug)]
pub enum Val {
    Bool(bool),
    S8(i8),
    U8(u8),
    S16(i16),
    U16(u16),
    S32(i32),
    U32(u32),
    S64(i64),
    U64(u64),
    Float32(u32),
    Float64(u64),
    Char(char),
    String(String),
    List(Vec<Val>),
    Record(Vec<(String, Val)>),
    Tuple(Vec<Val>),
    Variant(String, Option<Box<Val>>),
    Enum(String),
    Option(Option<Box<Val>>),
    Result(Result<Option<Box<Val>>, Option<Box<Val>>>),
    Flags(Vec<String>),
    Resource(usize),
    Stream(usize),
    Future,
    ErrorContext,
    KeyValueMap,
    FixedLengthList,
}

/// A component value as a mathematical object: what a [`Val`] holds.
pub enum Value {
    Bool(bool),
    S8(i8),
    U8(u8),
    S16(i16),
    U16(u16),
    S32(i32),
    U32(u32),
    S64(i64),
    U64(u64),
    Float32(u32),
    Float64(u64),
    Char(char),
    String(Seq<char>),
    List(Seq<Value>),
    Record(Seq<(Seq<char>, Value)>),
    Tuple(Seq<Value>),
    Variant(Seq<char>, Option<Box<Value>>),
    Enum(Seq<char>),
    Option(Option<Box<Value>>),
    Result(Result<Option<Box<Value>>, Option<Box<Value>>>),
    Flags(Seq<Seq<char>>),
    Resource(usize),
    Stream(usize),
    Future,
    ErrorContext,
    KeyValueMap,
    FixedLengthList,
}

/// What an optional payload holds.
pub open spec fn payload_value(v: Option<Box<Val>>) -> Option<Box<Value>>
    decreases v,
{
    match v {
        Some(v) => Some(Box::new(v.value())),
        None => None,
    }
}

impl Val {
    /// The value that this one stands for.
    pub open spec fn value(&self) -> Value
        decreases self,
    {
        match self {
            Val::Bool(v) => Value::Bool(*v),
            Val::S8(v) => Value::S8(*v),
            Val::U8(v) => Value::U8(*v),
            Val::S16(v) => Value::S16(*v),
            Val::U16(v) => Value::U16(*v),
            Val::S32(v) => Value::S32(*v),
            Val::U32(v) => Value::U32(*v),
            Val::S64(v) => Value::S64(*v),
            Val::U64(v) => Value::U64(*v),
            Val::Float32(v) => Value::Float32(*v),
            Val::Float64(v) => Value::Float64(*v),
            Val::Char(v) => Value::Char(*v),
            Val::String(v) => Value::String(v@),
            Val::List(vs) => Value::List(values(vs@)),
            Val::Record(vs) => Value::Record(field_values(vs@)),
            Val::Tuple(vs) => Value::Tuple(values(vs@)),
            Val::Variant(name, v) => Value::Variant(name@, payload_value(*v)),
            Val::Enum(name) => Value::Enum(name@),
            Val::Option(v) => Value::Option(payload_value(*v)),
            Val::Result(Ok(v)) => Value::Result(Ok(payload_value(*v))),
            Val::Result(Err(v)) => Value::Result(Err(payload_value(*v))),
            Val::Flags(names) => Value::Flags(names_of(names@)),
            Val::Resource(id) => Value::Resource(*id),
            Val::Stream(id) => Value::Stream(*id),
            Val::Future => Value::Future,
            Val::ErrorContext => Value::ErrorContext,
            Val::KeyValueMap => Value::KeyValueMap,
            Val::FixedLengthList => Value::FixedLengthList,
        }
    }
}

/// What each of a sequence of values holds.
pub open spec fn values(vs: Seq<Val>) -> Seq<Value>
    decreases vs,
{
    Seq::new(
        vs.len(),
        |i: int|
            if 0 <= i < vs.len() {
                vs[i].value()
            } else {
                arbitrary()
            },
    )
}

/// What each of a sequence of named fields holds.
pub open spec fn field_values(vs: Seq<(String, Val)>) -> Seq<(Seq<char>, Value)>
    decreases vs,
{
    Seq::new(
        vs.len(),
        |i: int|
            if 0 <= i < vs.len() {
                (vs[i].0@, vs[i].1.value())
            } else {
                arbitrary()
            },
    )
}

/// The characters of each of a sequence of names.
pub open spec fn names_of(names: Seq<String>) -> Seq<Seq<char>> {
    Seq::new(names.len(), |i: int| names[i]@)
}

impl View for Val {
    type V = Value;

    open spec fn view(&self) -> Value {
        self.value()
    }
}

/// The view of a value hides nothing of it: each kind of value is seen as that kind,
/// with just what it holds.
pub proof fn law_values_are_seen_as_they_are(v: Val)
    ensures
        match v {
            Val::Bool(x) => v@ == Value::Bool(x),
            Val::S8(x) => v@ == Value::S8(x),
            Val::U8(x) => v@ == Value::U8(x),
            Val::S16(x) => v@ == Value::S16(x),
            Val::U16(x) => v@ == Value::U16(x),
            Val::S32(x) => v@ == Value::S32(x),
            Val::U32(x) => v@ == Value::U32(x),
            Val::S64(x) => v@ == Value::S64(x),
            Val::U64(x) => v@ == Value::U64(x),
            Val::Float32(x) => v@ == Value::Float32(x),
            Val::Float64(x) => v@ == Value::Float64(x),
            Val::Char(x) => v@ == Value::Char(x),
            Val::String(x) => v@ == Value::String(x@),
            Val::List(xs) => v@ matches Value::List(ys) && ys.len() == xs@.len() && forall|i: int|
                0 <= i < xs@.len() ==> #[trigger] ys[i] == xs@[i]@,
            Val::Tuple(xs) => v@ matches Value::Tuple(ys) && ys.len() == xs@.len() && forall|
                i: int,
            |
                0 <= i < xs@.len() ==> #[trigger] ys[i] == xs@[i]@,
            Val::Record(xs) => v@ matches Value::Record(ys) && ys.len() == xs@.len() && forall|
                i: int,
            |
                0 <= i < xs@.len() ==> (#[trigger] ys[i]).0 == xs@[i].0@ && ys[i].1 == xs@[i].1@,
            Val::Variant(name, None) => v@ == Value::Variant(name@, None),
            Val::Variant(name, Some(x)) => v@ == Value::Variant(name@, Some(Box::new((*x)@))),
            Val::Enum(name) => v@ == Value::Enum(name@),
            Val::Option(None) => v@ == Value::Option(None),
            Val::Option(Some(x)) => v@ == Value::Option(Some(Box::new((*x)@))),
            Val::Result(Ok(None)) => v@ == Value::Result(Ok(None)),
            Val::Result(Ok(Some(x))) => v@ == Value::Result(Ok(Some(Box::new((*x)@)))),
            Val::Result(Err(None)) => v@ == Value::Result(Err(None)),
            Val::Result(Err(Some(x))) => v@ == Value::Result(Err(Some(Box::new((*x)@)))),
            Val::Flags(names) => v@ matches Value::Flags(ys) && ys.len() == names@.len() && forall|
                i: int,
            |
                0 <= i < names@.len() ==> #[trigger] ys[i] == names@[i]@,
            Val::Resource(id) => v@ == Value::Resource(id),
            Val::Stream(id) => v@ == Value::Stream(id),
            Val::Future => v@ is Future,
            Val::ErrorContext => v@ is ErrorContext,
            Val::KeyValueMap => v@ is KeyValueMap,
            Val::FixedLengthList => v@ is FixedLengthList,
        },
{
    reveal_with_fuel(Val::value, 2);
    reveal_with_fuel(payload_value, 2);
}

} // verus!
