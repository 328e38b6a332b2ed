//! Component model types, as far as the codec looks at them.

use vstd::prelude::*;

verus! {

/// The resource types that the host itself defines.
#[derive(Clone, Copy, Debug, PartialEq, Eq, Structural)]
pub enum HostResource {
    /// A `wasi:io` input stream.
    InputStream,
    /// A resource that lives behind the transport, known by an opaque handle.
    Remote,
    /// An RPC error.
    Error,
}

/// The identity of a resource type.
#[derive(Clone, Copy, Debug, PartialEq, Eq, Structural)]
pub enum ResourceType {
    /// A type that the host defines.
    Host(HostResource),
    /// Any other type, by a number that identifies it.
    Defined(u64),
}

/// A field of a record.
#[derive(Debug)]
pub struct Field {
    pub name: String,
    pub ty: Type,
}

/// A case of a variant, with the type of its payload if it has one.
#[derive(Debug)]
pub struct Case {
    pub name: String,
    pub ty: Option<Type>,
}

/// The type of a component value.
#[derive(Debug)]
pub enum Type {
    Bool,
    S8,
    U8,
    S16,
    U16,
    S32,
    U32,
    S64,
    U64,
    Float32,
    Float64,
    Char,
    String,
    List(Box<Type>),
    Record(Vec<Field>),
    Tuple(Vec<Type>),
    Variant(Vec<Case>),
    Enum(Vec<String>),
    Option(Box<Type>),
    Result(Option<Box<Type>>, Option<Box<Type>>),
    Flags(Vec<String>),
    Own(ResourceType),
    Borrow(ResourceType),
    /// A stream, with the type of its items if it has one.
    Stream(Option<Box<Type>>),
    Future,
    ErrorContext,
    KeyValueMap,
    FixedLengthList,
}

/// Whether a stream with these items is one of bytes.
pub open spec fn is_byte_stream(item: Option<Box<Type>>) -> bool {
    match item {
        Some(ty) => *ty is U8,
        None => false,
    }
}

} // verus!
