//! Writing values.
//!
//! A value is written under its type. Most of it is bytes; what a stream carries
//! follows later, on a sub-stream of its own, and is deferred until the bytes are
//! out. Resources and streams live in a store that only its owner can reach, so
//! the encoder never touches them: where it needs something done to one it says
//! so, by [`EncodeError::Pending`], and it is run again once the answer is there.

use bytes::BytesMut;
use vstd::prelude::*;
use vstd::utf8::{encode_scalar, encode_utf8};

use crate::buffer::{
    buffer_bytes, little_endian, put_i8, put_slice, put_u32_le, put_u64_le, put_u8,
};
use crate::deferral::{law_each_stream_is_deferred_as_itself, streams_of};
use crate::flags::{flag_bits, flag_bytes};
use crate::handle::{handle_bytes, handle_to_bytes};
use crate::leb128::{
    encode_i16, encode_i32, encode_i64, encode_u16, encode_u32, encode_u64, signed_leb128,
    unsigned_leb128,
};
use crate::text::{encode_char, encode_name, encode_prefixed, prefixed};
use crate::types::{is_byte_stream, Case, Field, HostResource, ResourceType, Type};
use crate::val::{field_values, names_of, values, Val, Value};
use crate::writing::{law_writable_values_are_written, writable};

verus! {

/// What the owner of the store is asked to do.
#[derive(Clone, Copy, Debug, PartialEq, Eq, Structural)]
pub enum Request {
    /// Take the resource for a `wasi:io` input stream and say whether it is owned.
    DowncastStream,
    /// Take the input stream out of the store.
    TakeStream,
    /// Take the resource for a remote one and say whether it is owned.
    DowncastRemote,
    /// Take the remote resource out of the store and give its handle.
    DeleteRemote,
    /// Give the handle of the remote resource, which stays in the store.
    GetRemote,
    /// Share the resource under a fresh handle.
    Share,
    /// Drain the component's stream into a channel.
    DrainStream,
}

/// What is known of a resource or a stream of a value that is being written.
#[derive(Debug)]
pub enum Resolution {
    /// Nothing was asked yet.
    Unresolved,
    /// It was taken for what it was asked to be.
    Downcast { owned: bool },
    /// It is a stream whose bytes are at hand.
    Stream,
    /// It is remote, with this handle.
    Remote(Vec<u8>),
    /// It is shared under this handle.
    Shared(u128),
    /// It could not be shared under this fresh handle.
    Refused(u128),
    /// What was asked for last failed.
    Failed,
}

/// A resource of a value that is being written.
#[derive(Debug)]
pub struct HeldResource {
    pub ty: ResourceType,
    pub resolution: Resolution,
}

/// Why a value was not written.
#[derive(Clone, Copy, Debug, PartialEq, Eq, Structural)]
pub enum EncodeError {
    /// The list has more elements than fit in 32 bits.
    ListTooLong,
    /// The string has more bytes than fit in 32 bits.
    StringTooLong,
    /// The type has no case of that name.
    UnknownVariantDiscriminant,
    /// The type has more cases than fit in 32 bits.
    TooManyCases,
    /// The case has a payload under a type that gives it none.
    VariantTypeMissing,
    /// The type has no such name.
    UnknownEnumDiscriminant,
    /// The type has more names than fit in 32 bits.
    TooManyNames,
    /// An `ok` payload under a type that gives it none.
    ResultOkUnknownType,
    /// No `ok` payload under a type that wants one.
    ResultOkMissing,
    /// An `err` payload under a type that gives it none.
    ResultErrUnknownType,
    /// No `err` payload under a type that wants one.
    ResultErrMissing,
    /// Only an owned input stream can be written.
    BorrowedStream,
    /// The handle of the remote resource has more bytes than fit in 32 bits.
    HandleTooLong,
    /// The resource is neither a stream, nor remote, nor shared.
    UnsupportedHostResource,
    /// The stream is not one of bytes.
    UnsupportedStream,
    /// Futures and error contexts are not supported.
    UnsupportedFuture,
    /// Maps are not supported.
    UnsupportedMap,
    /// Fixed-length lists are not supported.
    UnsupportedFixedLengthList,
    /// The value is not of the type.
    TypeMismatch,
    /// There is no resource or stream of that number.
    UnknownHandle(usize),
    /// What was asked to be done to the resource failed.
    ResourceFailed(usize),
    /// What was asked to be done to the stream failed.
    StreamFailed(usize),
    /// The resource or stream of that number needs this done first.
    Pending(usize, Request),
}

/// Where the bytes of a deferred stream come from.
#[derive(Clone, Copy, Debug, PartialEq, Eq, Structural)]
pub enum StreamSource {
    /// The input stream that was the resource of that number.
    Resource(usize),
    /// The component's stream of that number.
    Stream(usize),
}

/// A stream whose bytes follow on the sub-stream at `path`.
#[derive(Debug)]
pub struct Deferred {
    pub path: Vec<usize>,
    pub source: StreamSource,
}

/// The deferred streams, each as its path and its source.
pub open spec fn deferrals(ds: Seq<Deferred>) -> Seq<(Seq<usize>, StreamSource)> {
    Seq::new(ds.len(), |i: int| (ds[i].path@, ds[i].source))
}

/// What a value is written against.
#[derive(Clone, Copy, Debug)]
pub struct EncodeContext<'a> {
    /// The resource types that the component exports: these are shared.
    pub resources: &'a [ResourceType],
    /// The resource types that are bridged to byte streams.
    pub io_streams: &'a [ResourceType],
    /// The resources of the value, by number.
    pub held: &'a [HeldResource],
    /// The streams of the value, by number.
    pub streams: &'a [Resolution],
}

/// The way in which a resource is written.
#[derive(Clone, Copy, Debug, PartialEq, Eq, Structural)]
pub enum Route {
    /// As a byte stream.
    InputStream,
    /// By the opaque handle of a remote resource.
    Remote,
    /// By a handle in the table of shared resources.
    Shared,
    /// Not at all.
    Unsupported,
}

/// The way in which a resource of type `held` is written as one of type `ty`.
pub open spec fn route(cx: EncodeContext, ty: ResourceType, held: ResourceType) -> Route {
    if ty == ResourceType::Host(HostResource::InputStream) || cx.io_streams@.contains(ty) {
        Route::InputStream
    } else if held == ResourceType::Host(HostResource::Remote) {
        Route::Remote
    } else if cx.resources@.contains(ty) {
        Route::Shared
    } else {
        Route::Unsupported
    }
}

/// The bytes that were written, and what came of it: the streams that are
/// deferred, or the error that came after those bytes.
pub struct Emitted {
    pub bytes: Seq<u8>,
    pub outcome: Result<Seq<(Seq<usize>, StreamSource)>, EncodeError>,
}

/// These bytes, and nothing deferred.
pub open spec fn emit(bytes: Seq<u8>) -> Emitted {
    Emitted { bytes, outcome: Ok(seq![]) }
}

/// An error before anything was written.
pub open spec fn fail(e: EncodeError) -> Emitted {
    Emitted { bytes: seq![], outcome: Err(e) }
}

/// The one, and if it succeeded the other.
pub open spec fn chain(first: Emitted, second: Emitted) -> Emitted {
    match first.outcome {
        Err(_) => first,
        Ok(a) => Emitted {
            bytes: first.bytes + second.bytes,
            outcome: match second.outcome {
                Ok(b) => Ok(a + b),
                Err(e) => Err(e),
            },
        },
    }
}

/// A byte stream: an empty chunk now, the bytes later at `path`.
pub open spec fn emit_stream(path: Seq<usize>, source: StreamSource) -> Emitted {
    Emitted { bytes: seq![0u8], outcome: Ok(seq![(path, source)]) }
}

/// The resource numbered `id` under the resource type `ty`.
pub open spec fn resource_encoding(
    cx: EncodeContext,
    id: usize,
    ty: ResourceType,
    path: Seq<usize>,
) -> Emitted {
    if id >= cx.held@.len() {
        fail(EncodeError::UnknownHandle(id))
    } else {
        let held = cx.held@[id as int];
        match route(cx, ty, held.ty) {
            Route::InputStream => match held.resolution {
                Resolution::Failed => fail(EncodeError::ResourceFailed(id)),
                Resolution::Downcast { owned: false } => fail(EncodeError::BorrowedStream),
                Resolution::Downcast { owned: true } => fail(
                    EncodeError::Pending(id, Request::TakeStream),
                ),
                Resolution::Stream => emit_stream(path, StreamSource::Resource(id)),
                _ => fail(EncodeError::Pending(id, Request::DowncastStream)),
            },
            Route::Remote => match held.resolution {
                Resolution::Failed => fail(EncodeError::ResourceFailed(id)),
                Resolution::Downcast { owned: true } => fail(
                    EncodeError::Pending(id, Request::DeleteRemote),
                ),
                Resolution::Downcast { owned: false } => fail(
                    EncodeError::Pending(id, Request::GetRemote),
                ),
                Resolution::Remote(handle) => if handle@.len() <= u32::MAX {
                    emit(prefixed(handle@))
                } else {
                    fail(EncodeError::HandleTooLong)
                },
                _ => fail(EncodeError::Pending(id, Request::DowncastRemote)),
            },
            Route::Shared => match held.resolution {
                Resolution::Failed => fail(EncodeError::ResourceFailed(id)),
                Resolution::Shared(handle) => emit(prefixed(handle_bytes(handle))),
                Resolution::Refused(handle) => chain(
                    emit(prefixed(handle_bytes(handle))),
                    fail(EncodeError::ResourceFailed(id)),
                ),
                _ => fail(EncodeError::Pending(id, Request::Share)),
            },
            Route::Unsupported => fail(EncodeError::UnsupportedHostResource),
        }
    }
}

/// The stream numbered `id`.
pub open spec fn stream_encoding(cx: EncodeContext, id: usize, path: Seq<usize>) -> Emitted {
    if id >= cx.streams@.len() {
        fail(EncodeError::UnknownHandle(id))
    } else {
        match cx.streams@[id as int] {
            Resolution::Failed => fail(EncodeError::StreamFailed(id)),
            Resolution::Stream => emit_stream(path, StreamSource::Stream(id)),
            _ => fail(EncodeError::Pending(id, Request::DrainStream)),
        }
    }
}

/// The names of the cases.
pub open spec fn case_names(cases: Seq<Case>) -> Seq<Seq<char>> {
    Seq::new(cases.len(), |i: int| cases[i].name@)
}

/// The value under the type, at `path`.
pub open spec fn encoding(cx: EncodeContext, v: Value, ty: Type, path: Seq<usize>) -> Emitted
    decreases v, 0nat,
{
    match ty {
        Type::Bool => match v {
            Value::Bool(v) => emit(
                seq![
                    if v {
                        1u8
                    } else {
                        0u8
                    },
                ],
            ),
            _ => fail(EncodeError::TypeMismatch),
        },
        Type::S8 => match v {
            Value::S8(v) => emit(seq![v as u8]),
            _ => fail(EncodeError::TypeMismatch),
        },
        Type::U8 => match v {
            Value::U8(v) => emit(seq![v]),
            _ => fail(EncodeError::TypeMismatch),
        },
        Type::S16 => match v {
            Value::S16(v) => emit(signed_leb128(v as int)),
            _ => fail(EncodeError::TypeMismatch),
        },
        Type::U16 => match v {
            Value::U16(v) => emit(unsigned_leb128(v as nat)),
            _ => fail(EncodeError::TypeMismatch),
        },
        Type::S32 => match v {
            Value::S32(v) => emit(signed_leb128(v as int)),
            _ => fail(EncodeError::TypeMismatch),
        },
        Type::U32 => match v {
            Value::U32(v) => emit(unsigned_leb128(v as nat)),
            _ => fail(EncodeError::TypeMismatch),
        },
        Type::S64 => match v {
            Value::S64(v) => emit(signed_leb128(v as int)),
            _ => fail(EncodeError::TypeMismatch),
        },
        Type::U64 => match v {
            Value::U64(v) => emit(unsigned_leb128(v as nat)),
            _ => fail(EncodeError::TypeMismatch),
        },
        Type::Float32 => match v {
            Value::Float32(bits) => emit(little_endian(bits as nat, 4)),
            _ => fail(EncodeError::TypeMismatch),
        },
        Type::Float64 => match v {
            Value::Float64(bits) => emit(little_endian(bits as nat, 8)),
            _ => fail(EncodeError::TypeMismatch),
        },
        Type::Char => match v {
            Value::Char(c) => emit(encode_scalar(c as u32)),
            _ => fail(EncodeError::TypeMismatch),
        },
        Type::String => match v {
            Value::String(s) => if encode_utf8(s).len() <= u32::MAX {
                emit(prefixed(encode_utf8(s)))
            } else {
                fail(EncodeError::StringTooLong)
            },
            _ => fail(EncodeError::TypeMismatch),
        },
        Type::List(ty) => match v {
            Value::List(vs) => if vs.len() <= u32::MAX {
                chain(
                    emit(unsigned_leb128(vs.len())),
                    list_encoding(cx, vs, *ty, path, vs.len()),
                )
            } else {
                fail(EncodeError::ListTooLong)
            },
            _ => fail(EncodeError::TypeMismatch),
        },
        Type::Record(fields) => match v {
            Value::Record(vs) => record_encoding(
                cx,
                vs,
                fields@,
                path,
                if vs.len() <= fields@.len() {
                    vs.len()
                } else {
                    fields@.len()
                },
            ),
            _ => fail(EncodeError::TypeMismatch),
        },
        Type::Tuple(tys) => match v {
            Value::Tuple(vs) => tuple_encoding(
                cx,
                vs,
                tys@,
                path,
                if vs.len() <= tys@.len() {
                    vs.len()
                } else {
                    tys@.len()
                },
            ),
            _ => fail(EncodeError::TypeMismatch),
        },
        Type::Variant(cases) => match v {
            Value::Variant(name, payload) => if cases@.len() > u32::MAX {
                fail(EncodeError::TooManyCases)
            } else {
                match case_names(cases@).index_of_first(name) {
                    None => fail(EncodeError::UnknownVariantDiscriminant),
                    Some(i) => chain(
                        emit(unsigned_leb128(i as nat)),
                        match payload {
                            None => emit(seq![]),
                            Some(v) => match cases@[i].ty {
                                None => fail(EncodeError::VariantTypeMissing),
                                Some(ty) => encoding(cx, *v, ty, path),
                            },
                        },
                    ),
                }
            },
            _ => fail(EncodeError::TypeMismatch),
        },
        Type::Enum(names) => match v {
            Value::Enum(name) => if names@.len() > u32::MAX {
                fail(EncodeError::TooManyNames)
            } else {
                match names_of(names@).index_of_first(name) {
                    None => fail(EncodeError::UnknownEnumDiscriminant),
                    Some(i) => emit(unsigned_leb128(i as nat)),
                }
            },
            _ => fail(EncodeError::TypeMismatch),
        },
        Type::Option(ty) => match v {
            Value::Option(None) => emit(seq![0u8]),
            Value::Option(Some(v)) => chain(emit(seq![1u8]), encoding(cx, *v, *ty, path)),
            _ => fail(EncodeError::TypeMismatch),
        },
        Type::Result(ok, err) => match v {
            Value::Result(Ok(v)) => match (v, ok) {
                (Some(v), Some(ty)) => chain(emit(seq![0u8]), encoding(cx, *v, *ty, path)),
                (Some(_), None) => fail(EncodeError::ResultOkUnknownType),
                (None, Some(_)) => fail(EncodeError::ResultOkMissing),
                (None, None) => emit(seq![0u8]),
            },
            Value::Result(Err(v)) => match (v, err) {
                (Some(v), Some(ty)) => chain(emit(seq![1u8]), encoding(cx, *v, *ty, path)),
                (Some(_), None) => fail(EncodeError::ResultErrUnknownType),
                (None, Some(_)) => fail(EncodeError::ResultErrMissing),
                (None, None) => emit(seq![1u8]),
            },
            _ => fail(EncodeError::TypeMismatch),
        },
        Type::Flags(names) => match v {
            Value::Flags(flags) => emit(flag_bytes(names_of(names@), flags)),
            _ => fail(EncodeError::TypeMismatch),
        },
        Type::Own(ty) => match v {
            Value::Resource(id) => resource_encoding(cx, id, ty, path),
            _ => fail(EncodeError::TypeMismatch),
        },
        Type::Borrow(ty) => match v {
            Value::Resource(id) => resource_encoding(cx, id, ty, path),
            _ => fail(EncodeError::TypeMismatch),
        },
        Type::Stream(item) => match v {
            Value::Stream(id) => if is_byte_stream(item) {
                stream_encoding(cx, id, path)
            } else {
                fail(EncodeError::UnsupportedStream)
            },
            _ => fail(EncodeError::TypeMismatch),
        },
        Type::Future | Type::ErrorContext => fail(EncodeError::UnsupportedFuture),
        Type::KeyValueMap => fail(EncodeError::UnsupportedMap),
        Type::FixedLengthList => fail(EncodeError::UnsupportedFixedLengthList),
    }
}

/// The first `n` of the values, all under one type.
pub open spec fn list_encoding(
    cx: EncodeContext,
    vs: Seq<Value>,
    ty: Type,
    path: Seq<usize>,
    n: nat,
) -> Emitted
    decreases vs, n,
{
    if n == 0 || n > vs.len() {
        emit(seq![])
    } else {
        chain(
            list_encoding(cx, vs, ty, path, (n - 1) as nat),
            encoding(cx, vs[n - 1], ty, path.push((n - 1) as usize)),
        )
    }
}

/// The first `n` of the values, each under the type at its place.
pub open spec fn tuple_encoding(
    cx: EncodeContext,
    vs: Seq<Value>,
    tys: Seq<Type>,
    path: Seq<usize>,
    n: nat,
) -> Emitted
    decreases vs, n,
{
    if n == 0 || n > vs.len() {
        emit(seq![])
    } else {
        chain(
            tuple_encoding(cx, vs, tys, path, (n - 1) as nat),
            encoding(cx, vs[n - 1], tys[n - 1], path.push((n - 1) as usize)),
        )
    }
}

/// The first `n` of the field values, each under the type of the field at its
/// place.
pub open spec fn record_encoding(
    cx: EncodeContext,
    vs: Seq<(Seq<char>, Value)>,
    fields: Seq<Field>,
    path: Seq<usize>,
    n: nat,
) -> Emitted
    decreases vs, n,
{
    if n == 0 || n > vs.len() {
        emit(seq![])
    } else {
        chain(
            record_encoding(cx, vs, fields, path, (n - 1) as nat),
            encoding(cx, vs[n - 1].1, fields[n - 1].ty, path.push((n - 1) as usize)),
        )
    }
}

/// An error within the first `k` values is what comes of all of them.
proof fn lemma_list_stuck(
    cx: EncodeContext,
    vs: Seq<Value>,
    ty: Type,
    path: Seq<usize>,
    k: nat,
    n: nat,
)
    requires
        k <= n <= vs.len(),
        list_encoding(cx, vs, ty, path, k).outcome is Err,
    ensures
        list_encoding(cx, vs, ty, path, n) == list_encoding(cx, vs, ty, path, k),
    decreases n,
{
    if k < n {
        lemma_list_stuck(cx, vs, ty, path, k, (n - 1) as nat);
    }
}

/// An error within the first `k` values is what comes of all of them.
pub(crate) proof fn lemma_tuple_stuck(
    cx: EncodeContext,
    vs: Seq<Value>,
    tys: Seq<Type>,
    path: Seq<usize>,
    k: nat,
    n: nat,
)
    requires
        k <= n <= vs.len(),
        tuple_encoding(cx, vs, tys, path, k).outcome is Err,
    ensures
        tuple_encoding(cx, vs, tys, path, n) == tuple_encoding(cx, vs, tys, path, k),
    decreases n,
{
    if k < n {
        lemma_tuple_stuck(cx, vs, tys, path, k, (n - 1) as nat);
    }
}

/// An error within the first `k` fields is what comes of all of them.
proof fn lemma_record_stuck(
    cx: EncodeContext,
    vs: Seq<(Seq<char>, Value)>,
    fields: Seq<Field>,
    path: Seq<usize>,
    k: nat,
    n: nat,
)
    requires
        k <= n <= vs.len(),
        record_encoding(cx, vs, fields, path, k).outcome is Err,
    ensures
        record_encoding(cx, vs, fields, path, n) == record_encoding(cx, vs, fields, path, k),
    decreases n,
{
    if k < n {
        lemma_record_stuck(cx, vs, fields, path, k, (n - 1) as nat);
    }
}

/// What a run of the encoder did is what `e` says.
pub open spec fn performed(
    e: Emitted,
    r: Result<(), EncodeError>,
    dst_before: Seq<u8>,
    dst_after: Seq<u8>,
    deferred_before: Seq<Deferred>,
    deferred_after: Seq<Deferred>,
) -> bool {
    &&& dst_after == dst_before + e.bytes
    &&& match e.outcome {
        Ok(d) => r == Ok::<(), EncodeError>(()) && deferrals(deferred_after) == deferrals(
            deferred_before,
        ) + d,
        Err(x) => r == Err::<(), EncodeError>(x),
    }
}

/// Whether `ty` is one of `tys`.
pub fn contains_type(tys: &[ResourceType], ty: ResourceType) -> (found: bool)
    ensures
        found == tys@.contains(ty),
{
    for i in 0..tys.len()
        invariant
            forall|j: int| 0 <= j < i ==> tys@[j] != ty,
    {
        if tys[i] == ty {
            return true;
        }
    }
    false
}

/// The place of the first of `names` that is `discriminant`.
pub fn find_enum_discriminant(names: &Vec<String>, discriminant: &String) -> (r: Result<
    usize,
    EncodeError,
>)
    ensures
        match names_of(names@).index_of_first(discriminant@) {
            Some(i) => r == Ok::<usize, EncodeError>(i as usize) && 0 <= i < names@.len(),
            None => r == Err::<usize, EncodeError>(EncodeError::UnknownEnumDiscriminant),
        },
{
    proof {
        names_of(names@).index_of_first_ensures(discriminant@);
    }
    for i in 0..names.len()
        invariant
            forall|j: int| 0 <= j < i ==> names@[j]@ != discriminant@,
    {
        if names[i] == *discriminant {
            proof {
                let found = names_of(names@).index_of_first(discriminant@);
                names_of(names@).index_of_first_ensures(discriminant@);
                assert(names_of(names@)[i as int] == discriminant@);
                assert(found is Some);
                assert(names_of(names@)[found->Some_0] == names@[found->Some_0]@);
            }
            return Ok(i);
        }
    }
    Err(EncodeError::UnknownEnumDiscriminant)
}

/// The place of the first of `cases` whose name is `discriminant`, and the type
/// of its payload.
pub fn find_variant_discriminant<'a>(cases: &'a Vec<Case>, discriminant: &String) -> (r: Result<
    (usize, &'a Option<Type>),
    EncodeError,
>)
    ensures
        match case_names(cases@).index_of_first(discriminant@) {
            Some(i) => {
                &&& 0 <= i < cases@.len()
                &&& r is Ok
                &&& r->Ok_0.0 == i
                &&& *r->Ok_0.1 == cases@[i].ty
            },
            None => r is Err && r->Err_0 == EncodeError::UnknownVariantDiscriminant,
        },
{
    proof {
        case_names(cases@).index_of_first_ensures(discriminant@);
    }
    for i in 0..cases.len()
        invariant
            forall|j: int| 0 <= j < i ==> cases@[j].name@ != discriminant@,
    {
        if cases[i].name == *discriminant {
            proof {
                let found = case_names(cases@).index_of_first(discriminant@);
                case_names(cases@).index_of_first_ensures(discriminant@);
                assert(case_names(cases@)[i as int] == discriminant@);
                assert(found is Some);
                assert(case_names(cases@)[found->Some_0] == cases@[found->Some_0].name@);
            }
            return Ok((i, &cases[i].ty));
        }
    }
    Err(EncodeError::UnknownVariantDiscriminant)
}

/// The way in which a resource of type `held` is written as one of type `ty`.
pub fn resource_route(cx: &EncodeContext, ty: ResourceType, held: ResourceType) -> (r: Route)
    ensures
        r == route(*cx, ty, held),
{
    if ty == ResourceType::Host(HostResource::InputStream) || contains_type(cx.io_streams, ty) {
        Route::InputStream
    } else if held == ResourceType::Host(HostResource::Remote) {
        Route::Remote
    } else if contains_type(cx.resources, ty) {
        Route::Shared
    } else {
        Route::Unsupported
    }
}

/// A copy of a path.
pub(crate) fn copy_path(path: &Vec<usize>) -> (copy: Vec<usize>)
    ensures
        copy@ == path@,
{
    let mut copy: Vec<usize> = Vec::new();
    for i in 0..path.len()
        invariant
            copy@ == path@.take(i as int),
    {
        copy.push(path[i]);
        assert(path@.take(i + 1) =~= path@.take(i as int).push(path@[i as int]));
    }
    assert(path@.take(path@.len() as int) =~= path@);
    copy
}

/// Write a byte stream whose bytes follow later.
fn write_stream(
    source: StreamSource,
    path: &Vec<usize>,
    dst: &mut BytesMut,
    deferred: &mut Vec<Deferred>,
)
    ensures
        performed(
            emit_stream(path@, source),
            Ok::<(), EncodeError>(()),
            buffer_bytes(*old(dst)),
            buffer_bytes(*final(dst)),
            old(deferred)@,
            final(deferred)@,
        ),
{
    put_u8(dst, 0);
    deferred.push(Deferred { path: copy_path(path), source });
    assert(buffer_bytes(*dst) =~= buffer_bytes(*old(dst)) + seq![0u8]);
    assert(deferrals(deferred@) =~= deferrals(old(deferred)@) + seq![(path@, source)]);
}

/// Write a resource.
fn write_resource(
    cx: &EncodeContext,
    id: usize,
    ty: ResourceType,
    path: &Vec<usize>,
    dst: &mut BytesMut,
    deferred: &mut Vec<Deferred>,
) -> (r: Result<(), EncodeError>)
    ensures
        performed(
            resource_encoding(*cx, id, ty, path@),
            r,
            buffer_bytes(*old(dst)),
            buffer_bytes(*final(dst)),
            old(deferred)@,
            final(deferred)@,
        ),
{
    assert(buffer_bytes(*dst) + Seq::<u8>::empty() =~= buffer_bytes(*dst));
    assert(deferrals(deferred@) + seq![] =~= deferrals(deferred@));
    if id >= cx.held.len() {
        return Err(EncodeError::UnknownHandle(id));
    }
    let held: &HeldResource = &cx.held[id];
    match resource_route(cx, ty, held.ty) {
        Route::InputStream => match &held.resolution {
            Resolution::Failed => Err(EncodeError::ResourceFailed(id)),
            Resolution::Downcast { owned } => if *owned {
                Err(EncodeError::Pending(id, Request::TakeStream))
            } else {
                Err(EncodeError::BorrowedStream)
            },
            Resolution::Stream => {
                write_stream(StreamSource::Resource(id), path, dst, deferred);
                Ok(())
            },
            _ => Err(EncodeError::Pending(id, Request::DowncastStream)),
        },
        Route::Remote => match &held.resolution {
            Resolution::Failed => Err(EncodeError::ResourceFailed(id)),
            Resolution::Downcast { owned } => if *owned {
                Err(EncodeError::Pending(id, Request::DeleteRemote))
            } else {
                Err(EncodeError::Pending(id, Request::GetRemote))
            },
            Resolution::Remote(handle) => match encode_prefixed(dst, handle.as_slice()) {
                Ok(()) => Ok(()),
                Err(_) => Err(EncodeError::HandleTooLong),
            },
            _ => Err(EncodeError::Pending(id, Request::DowncastRemote)),
        },
        Route::Shared => match &held.resolution {
            Resolution::Failed => Err(EncodeError::ResourceFailed(id)),
            Resolution::Shared(handle) => {
                let bytes: [u8; 16] = handle_to_bytes(*handle);
                match encode_prefixed(dst, bytes.as_slice()) {
                    Ok(()) => Ok(()),
                    Err(_) => Err(EncodeError::HandleTooLong),
                }
            },
            Resolution::Refused(handle) => {
                let bytes: [u8; 16] = handle_to_bytes(*handle);
                match encode_prefixed(dst, bytes.as_slice()) {
                    Ok(()) => Err(EncodeError::ResourceFailed(id)),
                    Err(_) => Err(EncodeError::HandleTooLong),
                }
            },
            _ => Err(EncodeError::Pending(id, Request::Share)),
        },
        Route::Unsupported => Err(EncodeError::UnsupportedHostResource),
    }
}

/// Write a value under its type; what follows later is added to `deferred`.
pub(crate) fn write_value(
    cx: &EncodeContext,
    v: &Val,
    ty: &Type,
    path: &Vec<usize>,
    dst: &mut BytesMut,
    deferred: &mut Vec<Deferred>,
) -> (r: Result<(), EncodeError>)
    ensures
        performed(
            encoding(*cx, v@, *ty, path@),
            r,
            buffer_bytes(*old(dst)),
            buffer_bytes(*final(dst)),
            old(deferred)@,
            final(deferred)@,
        ),
    decreases v, 0nat,
{
    let ghost before = buffer_bytes(*dst);
    assert(before + Seq::<u8>::empty() =~= before);
    assert(forall|b: u8| #[trigger] before.push(b) =~= before + seq![b]);
    assert(deferrals(deferred@) + seq![] =~= deferrals(deferred@));
    match ty {
        Type::Bool => match v {
            Val::Bool(b) => {
                if *b {
                    put_u8(dst, 1);
                } else {
                    put_u8(dst, 0);
                }
                Ok(())
            },
            _ => Err(EncodeError::TypeMismatch),
        },
        Type::S8 => match v {
            Val::S8(n) => {
                put_i8(dst, *n);
                Ok(())
            },
            _ => Err(EncodeError::TypeMismatch),
        },
        Type::U8 => match v {
            Val::U8(n) => {
                put_u8(dst, *n);
                Ok(())
            },
            _ => Err(EncodeError::TypeMismatch),
        },
        Type::S16 => match v {
            Val::S16(n) => {
                encode_i16(dst, *n);
                Ok(())
            },
            _ => Err(EncodeError::TypeMismatch),
        },
        Type::U16 => match v {
            Val::U16(n) => {
                encode_u16(dst, *n);
                Ok(())
            },
            _ => Err(EncodeError::TypeMismatch),
        },
        Type::S32 => match v {
            Val::S32(n) => {
                encode_i32(dst, *n);
                Ok(())
            },
            _ => Err(EncodeError::TypeMismatch),
        },
        Type::U32 => match v {
            Val::U32(n) => {
                encode_u32(dst, *n);
                Ok(())
            },
            _ => Err(EncodeError::TypeMismatch),
        },
        Type::S64 => match v {
            Val::S64(n) => {
                encode_i64(dst, *n);
                Ok(())
            },
            _ => Err(EncodeError::TypeMismatch),
        },
        Type::U64 => match v {
            Val::U64(n) => {
                encode_u64(dst, *n);
                Ok(())
            },
            _ => Err(EncodeError::TypeMismatch),
        },
        Type::Float32 => match v {
            Val::Float32(bits) => {
                put_u32_le(dst, *bits);
                Ok(())
            },
            _ => Err(EncodeError::TypeMismatch),
        },
        Type::Float64 => match v {
            Val::Float64(bits) => {
                put_u64_le(dst, *bits);
                Ok(())
            },
            _ => Err(EncodeError::TypeMismatch),
        },
        Type::Char => match v {
            Val::Char(c) => {
                encode_char(dst, *c);
                Ok(())
            },
            _ => Err(EncodeError::TypeMismatch),
        },
        Type::String => match v {
            Val::String(s) => match encode_name(dst, s.as_str()) {
                Ok(()) => Ok(()),
                Err(_) => Err(EncodeError::StringTooLong),
            },
            _ => Err(EncodeError::TypeMismatch),
        },
        Type::List(ty) => match v {
            Val::List(vs) => write_list(cx, vs, ty, path, dst, deferred),
            _ => Err(EncodeError::TypeMismatch),
        },
        Type::Record(fields) => match v {
            Val::Record(vs) => write_record(cx, vs, fields, path, dst, deferred),
            _ => Err(EncodeError::TypeMismatch),
        },
        Type::Tuple(tys) => match v {
            Val::Tuple(vs) => write_tuple(cx, vs, tys, path, dst, deferred),
            _ => Err(EncodeError::TypeMismatch),
        },
        Type::Variant(cases) => match v {
            Val::Variant(name, payload) => {
                if cases.len() as u64 > u32::MAX as u64 {
                    return Err(EncodeError::TooManyCases);
                }
                match find_variant_discriminant(cases, name) {
                    Err(e) => Err(e),
                    Ok((i, ty)) => {
                        encode_u32(dst, i as u32);
                        let ghost middle = buffer_bytes(*dst);
                        match payload {
                            None => {
                                assert(middle + Seq::<u8>::empty() =~= middle);
                                Ok(())
                            },
                            Some(v) => match ty {
                                None => {
                                    assert(middle + Seq::<u8>::empty() =~= middle);
                                    Err(EncodeError::VariantTypeMissing)
                                },
                                Some(ty) => {
                                    let r = write_value(cx, v, ty, path, dst, deferred);
                                    proof {
                                        lemma_after_prefix(
                                            unsigned_leb128(i as nat),
                                            encoding(*cx, v@, *ty, path@),
                                            before,
                                        );
                                    }
                                    r
                                },
                            },
                        }
                    },
                }
            },
            _ => Err(EncodeError::TypeMismatch),
        },
        Type::Enum(names) => match v {
            Val::Enum(name) => {
                if names.len() as u64 > u32::MAX as u64 {
                    return Err(EncodeError::TooManyNames);
                }
                match find_enum_discriminant(names, name) {
                    Err(e) => Err(e),
                    Ok(i) => {
                        encode_u32(dst, i as u32);
                        Ok(())
                    },
                }
            },
            _ => Err(EncodeError::TypeMismatch),
        },
        Type::Option(ty) => match v {
            Val::Option(None) => {
                put_u8(dst, 0);
                Ok(())
            },
            Val::Option(Some(v)) => write_tagged(cx, 1, v, ty, path, dst, deferred),
            _ => Err(EncodeError::TypeMismatch),
        },
        Type::Result(ok, err) => match v {
            Val::Result(Ok(v)) => match (v, ok) {
                (Some(v), Some(ty)) => write_tagged(cx, 0, v, ty, path, dst, deferred),
                (Some(_), None) => Err(EncodeError::ResultOkUnknownType),
                (None, Some(_)) => Err(EncodeError::ResultOkMissing),
                (None, None) => {
                    put_u8(dst, 0);
                    Ok(())
                },
            },
            Val::Result(Err(v)) => match (v, err) {
                (Some(v), Some(ty)) => write_tagged(cx, 1, v, ty, path, dst, deferred),
                (Some(_), None) => Err(EncodeError::ResultErrUnknownType),
                (None, Some(_)) => Err(EncodeError::ResultErrMissing),
                (None, None) => {
                    put_u8(dst, 1);
                    Ok(())
                },
            },
            _ => Err(EncodeError::TypeMismatch),
        },
        Type::Flags(names) => match v {
            Val::Flags(flags) => {
                let bytes: Vec<u8> = flag_bits(names, flags);
                put_slice(dst, bytes.as_slice());
                Ok(())
            },
            _ => Err(EncodeError::TypeMismatch),
        },
        Type::Own(ty) => match v {
            Val::Resource(id) => write_resource(cx, *id, *ty, path, dst, deferred),
            _ => Err(EncodeError::TypeMismatch),
        },
        Type::Borrow(ty) => match v {
            Val::Resource(id) => write_resource(cx, *id, *ty, path, dst, deferred),
            _ => Err(EncodeError::TypeMismatch),
        },
        Type::Stream(item) => match v {
            Val::Stream(id) => {
                let bytes: bool = match item {
                    Some(ty) => matches!(&**ty, Type::U8),
                    None => false,
                };
                if !bytes {
                    return Err(EncodeError::UnsupportedStream);
                }
                let id: usize = *id;
                if id >= cx.streams.len() {
                    return Err(EncodeError::UnknownHandle(id));
                }
                match &cx.streams[id] {
                    Resolution::Failed => Err(EncodeError::StreamFailed(id)),
                    Resolution::Stream => {
                        write_stream(StreamSource::Stream(id), path, dst, deferred);
                        Ok(())
                    },
                    _ => Err(EncodeError::Pending(id, Request::DrainStream)),
                }
            },
            _ => Err(EncodeError::TypeMismatch),
        },
        Type::Future => Err(EncodeError::UnsupportedFuture),
        Type::ErrorContext => Err(EncodeError::UnsupportedFuture),
        Type::KeyValueMap => Err(EncodeError::UnsupportedMap),
        Type::FixedLengthList => Err(EncodeError::UnsupportedFixedLengthList),
    }
}

/// Write a byte, and a value after it.
fn write_tagged(
    cx: &EncodeContext,
    tag: u8,
    v: &Val,
    ty: &Type,
    path: &Vec<usize>,
    dst: &mut BytesMut,
    deferred: &mut Vec<Deferred>,
) -> (r: Result<(), EncodeError>)
    ensures
        performed(
            chain(emit(seq![tag]), encoding(*cx, v@, *ty, path@)),
            r,
            buffer_bytes(*old(dst)),
            buffer_bytes(*final(dst)),
            old(deferred)@,
            final(deferred)@,
        ),
    decreases v, 1nat,
{
    let ghost before = buffer_bytes(*dst);
    put_u8(dst, tag);
    assert(before.push(tag) =~= before + seq![tag]);
    let r = write_value(cx, v, ty, path, dst, deferred);
    proof {
        lemma_after_prefix(seq![tag], encoding(*cx, v@, *ty, path@), before);
    }
    r
}

/// What follows a prefix is written behind it.
proof fn lemma_after_prefix(prefix: Seq<u8>, e: Emitted, before: Seq<u8>)
    ensures
        before + chain(emit(prefix), e).bytes == before + prefix + e.bytes,
        e.outcome is Err ==> chain(emit(prefix), e).outcome == e.outcome,
        e.outcome matches Ok(d) ==> chain(emit(prefix), e).outcome == Ok::<
            Seq<(Seq<usize>, StreamSource)>,
            EncodeError,
        >(d),
{
    assert(before + (prefix + e.bytes) =~= before + prefix + e.bytes);
    if let Ok(d) = e.outcome {
        assert(Seq::<(Seq<usize>, StreamSource)>::empty() + d =~= d);
    }
}

/// Write the length of a list and its elements.
fn write_list(
    cx: &EncodeContext,
    vs: &Vec<Val>,
    ty: &Type,
    path: &Vec<usize>,
    dst: &mut BytesMut,
    deferred: &mut Vec<Deferred>,
) -> (r: Result<(), EncodeError>)
    ensures
        performed(
            if vs@.len() <= u32::MAX {
                chain(
                    emit(unsigned_leb128(vs@.len())),
                    list_encoding(*cx, values(vs@), *ty, path@, vs@.len()),
                )
            } else {
                fail(EncodeError::ListTooLong)
            },
            r,
            buffer_bytes(*old(dst)),
            buffer_bytes(*final(dst)),
            old(deferred)@,
            final(deferred)@,
        ),
    decreases vs, 0nat,
{
    let ghost before = buffer_bytes(*dst);
    let ghost ds = deferrals(deferred@);
    let n: usize = vs.len();
    if n as u64 > u32::MAX as u64 {
        assert(before + Seq::<u8>::empty() =~= before);
        return Err(EncodeError::ListTooLong);
    }
    encode_u32(dst, n as u32);
    let ghost prefix = unsigned_leb128(n as nat);
    let mut sub: Vec<usize> = copy_path(path);
    assert(buffer_bytes(*dst) + Seq::<u8>::empty() =~= buffer_bytes(*dst));
    assert(ds + seq![] =~= ds);
    for i in 0..n
        invariant
            n == vs@.len(),
            n <= u32::MAX,
            before == buffer_bytes(*old(dst)),
            sub@ == path@,
            prefix == unsigned_leb128(n as nat),
            ({
                let e = list_encoding(*cx, values(vs@), *ty, path@, i as nat);
                &&& buffer_bytes(*dst) == before + prefix + e.bytes
                &&& e.outcome is Ok
                &&& deferrals(deferred@) == ds + e.outcome->Ok_0
            }),
    {
        let ghost front = list_encoding(*cx, values(vs@), *ty, path@, i as nat);
        sub.push(i);
        let r = write_value(cx, &vs[i], ty, &sub, dst, deferred);
        sub.pop();
        assert(sub@ =~= path@);
        proof {
            assert(values(vs@)[i as int] == vs@[i as int]@);
            let e = encoding(*cx, vs@[i as int]@, *ty, path@.push(i));
            let all = list_encoding(*cx, values(vs@), *ty, path@, (i + 1) as nat);
            assert(all == chain(front, e));
            assert(before + prefix + (front.bytes + e.bytes) =~= before + prefix + front.bytes
                + e.bytes);
            if let Ok(d) = e.outcome {
                assert(ds + (front.outcome->Ok_0 + d) =~= ds + front.outcome->Ok_0 + d);
            }
        }
        if let Err(e) = r {
            proof {
                lemma_list_stuck(*cx, values(vs@), *ty, path@, (i + 1) as nat, n as nat);
                lemma_after_prefix(
                    prefix,
                    list_encoding(*cx, values(vs@), *ty, path@, n as nat),
                    before,
                );
            }
            return Err(e);
        }
    }
    proof {
        lemma_after_prefix(prefix, list_encoding(*cx, values(vs@), *ty, path@, n as nat), before);
    }
    Ok(())
}

/// Write the fields of a record.
fn write_record(
    cx: &EncodeContext,
    vs: &Vec<(String, Val)>,
    fields: &Vec<Field>,
    path: &Vec<usize>,
    dst: &mut BytesMut,
    deferred: &mut Vec<Deferred>,
) -> (r: Result<(), EncodeError>)
    ensures
        performed(
            record_encoding(
                *cx,
                field_values(vs@),
                fields@,
                path@,
                if vs@.len() <= fields@.len() {
                    vs@.len()
                } else {
                    fields@.len()
                },
            ),
            r,
            buffer_bytes(*old(dst)),
            buffer_bytes(*final(dst)),
            old(deferred)@,
            final(deferred)@,
        ),
    decreases vs, 0nat,
{
    let ghost before = buffer_bytes(*dst);
    let ghost ds = deferrals(deferred@);
    let n: usize = if vs.len() <= fields.len() {
        vs.len()
    } else {
        fields.len()
    };
    let mut sub: Vec<usize> = copy_path(path);
    assert(before + Seq::<u8>::empty() =~= before);
    assert(ds + seq![] =~= ds);
    for i in 0..n
        invariant
            n <= vs@.len(),
            n <= fields@.len(),
            n == vs@.len() || n == fields@.len(),
            before == buffer_bytes(*old(dst)),
            sub@ == path@,
            ({
                let e = record_encoding(*cx, field_values(vs@), fields@, path@, i as nat);
                &&& buffer_bytes(*dst) == before + e.bytes
                &&& e.outcome is Ok
                &&& deferrals(deferred@) == ds + e.outcome->Ok_0
            }),
    {
        let ghost front = record_encoding(*cx, field_values(vs@), fields@, path@, i as nat);
        sub.push(i);
        let r = write_value(cx, &vs[i].1, &fields[i].ty, &sub, dst, deferred);
        sub.pop();
        assert(sub@ =~= path@);
        proof {
            assert(field_values(vs@)[i as int].1 == vs@[i as int].1@);
            let e = encoding(*cx, vs@[i as int].1@, fields@[i as int].ty, path@.push(i));
            let all = record_encoding(*cx, field_values(vs@), fields@, path@, (i + 1) as nat);
            assert(all == chain(front, e));
            assert(before + (front.bytes + e.bytes) =~= before + front.bytes + e.bytes);
            if let Ok(d) = e.outcome {
                assert(ds + (front.outcome->Ok_0 + d) =~= ds + front.outcome->Ok_0 + d);
            }
        }
        if let Err(e) = r {
            proof {
                lemma_record_stuck(
                    *cx,
                    field_values(vs@),
                    fields@,
                    path@,
                    (i + 1) as nat,
                    n as nat,
                );
            }
            return Err(e);
        }
    }
    Ok(())
}

/// Write the elements of a tuple.
fn write_tuple(
    cx: &EncodeContext,
    vs: &Vec<Val>,
    tys: &Vec<Type>,
    path: &Vec<usize>,
    dst: &mut BytesMut,
    deferred: &mut Vec<Deferred>,
) -> (r: Result<(), EncodeError>)
    ensures
        performed(
            tuple_encoding(
                *cx,
                values(vs@),
                tys@,
                path@,
                if vs@.len() <= tys@.len() {
                    vs@.len()
                } else {
                    tys@.len()
                },
            ),
            r,
            buffer_bytes(*old(dst)),
            buffer_bytes(*final(dst)),
            old(deferred)@,
            final(deferred)@,
        ),
    decreases vs, 0nat,
{
    let ghost before = buffer_bytes(*dst);
    let ghost ds = deferrals(deferred@);
    let n: usize = if vs.len() <= tys.len() {
        vs.len()
    } else {
        tys.len()
    };
    let mut sub: Vec<usize> = copy_path(path);
    assert(before + Seq::<u8>::empty() =~= before);
    assert(ds + seq![] =~= ds);
    for i in 0..n
        invariant
            n <= vs@.len(),
            n <= tys@.len(),
            n == vs@.len() || n == tys@.len(),
            before == buffer_bytes(*old(dst)),
            sub@ == path@,
            ({
                let e = tuple_encoding(*cx, values(vs@), tys@, path@, i as nat);
                &&& buffer_bytes(*dst) == before + e.bytes
                &&& e.outcome is Ok
                &&& deferrals(deferred@) == ds + e.outcome->Ok_0
            }),
    {
        let ghost front = tuple_encoding(*cx, values(vs@), tys@, path@, i as nat);
        sub.push(i);
        let r = write_value(cx, &vs[i], &tys[i], &sub, dst, deferred);
        sub.pop();
        assert(sub@ =~= path@);
        proof {
            assert(values(vs@)[i as int] == vs@[i as int]@);
            let e = encoding(*cx, vs@[i as int]@, tys@[i as int], path@.push(i));
            let all = tuple_encoding(*cx, values(vs@), tys@, path@, (i + 1) as nat);
            assert(all == chain(front, e));
            assert(before + (front.bytes + e.bytes) =~= before + front.bytes + e.bytes);
            if let Ok(d) = e.outcome {
                assert(ds + (front.outcome->Ok_0 + d) =~= ds + front.outcome->Ok_0 + d);
            }
        }
        if let Err(e) = r {
            proof {
                lemma_tuple_stuck(*cx, values(vs@), tys@, path@, (i + 1) as nat, n as nat);
            }
            return Err(e);
        }
    }
    Ok(())
}

impl EncodeError {
    /// The text of the error.
    pub open spec fn text(self) -> Seq<char> {
        match self {
            EncodeError::ListTooLong => "list length does not fit in u32"@,
            EncodeError::StringTooLong => "failed to encode string"@,
            EncodeError::UnknownVariantDiscriminant => "unknown variant discriminant"@,
            EncodeError::TooManyCases => "case count does not fit in u32"@,
            EncodeError::VariantTypeMissing => "type missing for variant"@,
            EncodeError::UnknownEnumDiscriminant => "unknown enum discriminant"@,
            EncodeError::TooManyNames => "name count does not fit in u32"@,
            EncodeError::ResultOkUnknownType => "`result::ok` value of unknown type"@,
            EncodeError::ResultOkMissing => "`result::ok` value missing"@,
            EncodeError::ResultErrUnknownType => "`result::err` value of unknown type"@,
            EncodeError::ResultErrMissing => "`result::err` value missing"@,
            EncodeError::BorrowedStream => "encoding borrowed `wasi:io/input-stream` not supported yet"@,
            EncodeError::HandleTooLong => "failed to encode resource handle"@,
            EncodeError::UnsupportedHostResource => "encoding host resources not supported yet"@,
            EncodeError::UnsupportedStream => "only `stream<u8>` is supported"@,
            EncodeError::UnsupportedFuture => "futures and error contexts are not supported"@,
            EncodeError::UnsupportedMap => "maps not supported"@,
            EncodeError::UnsupportedFixedLengthList => "fixed-length lists not supported"@,
            EncodeError::TypeMismatch => "value type mismatch"@,
            EncodeError::UnknownHandle(_) => "unknown resource or stream"@,
            EncodeError::ResourceFailed(_) => "failed to encode resource"@,
            EncodeError::StreamFailed(_) => "failed to encode stream"@,
            EncodeError::Pending(_, _) => "resource or stream not ready"@,
        }
    }

    /// The text of the error.
    pub fn message(&self) -> (text: &'static str)
        ensures
            text@ == self.text(),
    {
        match self {
            EncodeError::ListTooLong => "list length does not fit in u32",
            EncodeError::StringTooLong => "failed to encode string",
            EncodeError::UnknownVariantDiscriminant => "unknown variant discriminant",
            EncodeError::TooManyCases => "case count does not fit in u32",
            EncodeError::VariantTypeMissing => "type missing for variant",
            EncodeError::UnknownEnumDiscriminant => "unknown enum discriminant",
            EncodeError::TooManyNames => "name count does not fit in u32",
            EncodeError::ResultOkUnknownType => "`result::ok` value of unknown type",
            EncodeError::ResultOkMissing => "`result::ok` value missing",
            EncodeError::ResultErrUnknownType => "`result::err` value of unknown type",
            EncodeError::ResultErrMissing => "`result::err` value missing",
            EncodeError::BorrowedStream => "encoding borrowed `wasi:io/input-stream` not supported yet",
            EncodeError::HandleTooLong => "failed to encode resource handle",
            EncodeError::UnsupportedHostResource => "encoding host resources not supported yet",
            EncodeError::UnsupportedStream => "only `stream<u8>` is supported",
            EncodeError::UnsupportedFuture => "futures and error contexts are not supported",
            EncodeError::UnsupportedMap => "maps not supported",
            EncodeError::UnsupportedFixedLengthList => "fixed-length lists not supported",
            EncodeError::TypeMismatch => "value type mismatch",
            EncodeError::UnknownHandle(_) => "unknown resource or stream",
            EncodeError::ResourceFailed(_) => "failed to encode resource",
            EncodeError::StreamFailed(_) => "failed to encode stream",
            EncodeError::Pending(_, _) => "resource or stream not ready",
        }
    }
}

/// Note what came of something that was asked for: `false` if there is no
/// resource or stream of that number.
pub fn resolve(
    held: &mut Vec<HeldResource>,
    streams: &mut Vec<Resolution>,
    id: usize,
    request: Request,
    resolution: Resolution,
) -> (known: bool)
    ensures
        request == Request::DrainStream ==> {
            &&& known == (id < old(streams)@.len())
            &&& final(held)@ == old(held)@
            &&& final(streams)@ == (if known {
                old(streams)@.update(id as int, resolution)
            } else {
                old(streams)@
            })
        },
        request != Request::DrainStream ==> {
            &&& known == (id < old(held)@.len())
            &&& final(streams)@ == old(streams)@
            &&& final(held)@ == (if known {
                old(held)@.update(
                    id as int,
                    HeldResource { ty: old(held)@[id as int].ty, resolution },
                )
            } else {
                old(held)@
            })
        },
{
    if request == Request::DrainStream {
        if id >= streams.len() {
            return false;
        }
        streams.set(id, resolution);
    } else {
        if id >= held.len() {
            return false;
        }
        let ty: ResourceType = held[id].ty;
        held.set(id, HeldResource { ty, resolution });
    }
    true
}

/// Whether this is an answer to the request.
pub open spec fn answers(request: Request, resolution: Resolution) -> bool {
    match request {
        Request::DowncastStream | Request::DowncastRemote => resolution is Downcast
            || resolution is Failed,
        Request::TakeStream | Request::DrainStream => resolution is Stream || resolution is Failed,
        Request::DeleteRemote | Request::GetRemote => resolution is Remote
            || resolution is Failed,
        Request::Share => resolution is Shared || resolution is Refused
            || resolution is Failed,
    }
}

/// Nothing is asked for twice: a resource for which something was asked is, once
/// that is answered, written, refused, or asked for something else.
pub proof fn law_answers_lead_on(
    cx: EncodeContext,
    then: EncodeContext,
    id: usize,
    ty: ResourceType,
    path: Seq<usize>,
    request: Request,
)
    requires
        resource_encoding(cx, id, ty, path).outcome == Err::<
            Seq<(Seq<usize>, StreamSource)>,
            EncodeError,
        >(EncodeError::Pending(id, request)),
        then.resources == cx.resources,
        then.io_streams == cx.io_streams,
        then.held@.len() == cx.held@.len(),
        then.held@[id as int].ty == cx.held@[id as int].ty,
        answers(request, then.held@[id as int].resolution),
    ensures
        resource_encoding(then, id, ty, path).outcome matches Err(EncodeError::Pending(_, next))
            ==> next != request && (next == Request::TakeStream || next == Request::DeleteRemote
            || next == Request::GetRemote),
{
}

/// Writes values of one type.
#[derive(Debug)]
pub struct ValEncoder<'a> {
    pub ty: &'a Type,
    /// The resource types that the component exports: these are shared.
    pub resources: &'a [ResourceType],
    /// Resource types bridged to byte streams, identified by their
    /// possibly-uninstantiated type.
    pub io_streams: &'a [ResourceType],
    /// The resources of the values, by number.
    pub held: &'a [HeldResource],
    /// The streams of the values, by number.
    pub streams: &'a [Resolution],
    /// The streams of the last value that had any, each at its path within the
    /// value.
    pub deferred: Vec<Deferred>,
}

impl<'a> ValEncoder<'a> {
    /// What this encoder writes values against.
    pub open spec fn context(&self) -> EncodeContext<'a> {
        EncodeContext {
            resources: self.resources,
            io_streams: self.io_streams,
            held: self.held,
            streams: self.streams,
        }
    }

    /// An encoder for values of type `ty`.
    #[must_use]
    pub fn new(
        ty: &'a Type,
        resources: &'a [ResourceType],
        io_streams: &'a [ResourceType],
        held: &'a [HeldResource],
        streams: &'a [Resolution],
    ) -> (enc: ValEncoder<'a>)
        ensures
            enc.ty == ty,
            enc.resources == resources,
            enc.io_streams == io_streams,
            enc.held == held,
            enc.streams == streams,
            enc.deferred@.len() == 0,
    {
        ValEncoder { ty, resources, io_streams, held, streams, deferred: Vec::new() }
    }

    /// An encoder for values of another type, that is like this one otherwise
    /// and has nothing deferred.
    pub fn with_type(&self, ty: &'a Type) -> (enc: ValEncoder<'a>)
        ensures
            enc.ty == ty,
            enc.context() == self.context(),
            enc.deferred@.len() == 0,
    {
        ValEncoder::new(ty, self.resources, self.io_streams, self.held, self.streams)
    }

    /// Write a value behind what `dst` holds.
    ///
    /// If it has streams, they take the place of those that were deferred
    /// before. On an error `dst` holds what was written before the error came.
    pub fn encode(&mut self, v: &Val, dst: &mut BytesMut) -> (r: Result<(), EncodeError>)
        ensures
            final(self).ty == old(self).ty,
            final(self).context() == old(self).context(),
            ({
                let e = encoding(old(self).context(), v@, *old(self).ty, Seq::<usize>::empty());
                &&& buffer_bytes(*final(dst)) == buffer_bytes(*old(dst)) + e.bytes
                &&& match e.outcome {
                    Ok(d) => {
                        &&& r == Ok::<(), EncodeError>(())
                        &&& d.len() > 0 ==> deferrals(final(self).deferred@) == d
                        &&& d.len() == 0 ==> final(self).deferred == old(self).deferred
                    },
                    Err(x) => {
                        &&& r == Err::<(), EncodeError>(x)
                        &&& final(self).deferred == old(self).deferred
                    },
                }
            }),
            r is Ok <==> writable(old(self).context(), v@, *old(self).ty),
            r is Ok ==> {
                let streams = streams_of(
                    old(self).context(),
                    v@,
                    *old(self).ty,
                    Seq::<usize>::empty(),
                );
                streams.len() > 0 ==> deferrals(final(self).deferred@) == streams
            },
    {
        let cx = EncodeContext {
            resources: self.resources,
            io_streams: self.io_streams,
            held: self.held,
            streams: self.streams,
        };
        let path: Vec<usize> = Vec::new();
        assert(path@ =~= Seq::<usize>::empty());
        let mut deferred: Vec<Deferred> = Vec::new();
        let ghost none = deferrals(deferred@);
        let r = write_value(&cx, v, self.ty, &path, dst, &mut deferred);
        proof {
            let e = encoding(cx, v@, *self.ty, path@);
            law_writable_values_are_written(cx, v@, *self.ty, path@);
            if let Ok(d) = e.outcome {
                law_each_stream_is_deferred_as_itself(cx, v@, *self.ty, path@);
                assert(none + d =~= d);
                assert(deferrals(deferred@).len() == deferred@.len());
            }
        }
        if r.is_ok() && deferred.len() > 0 {
            self.deferred = deferred;
        }
        r
    }
}

/// The view of what is deferred hides nothing: each stream is seen with its path and
/// its source, in its place.
pub proof fn law_deferrals_are_seen_as_they_are(ds: Seq<Deferred>)
    ensures
        deferrals(ds).len() == ds.len(),
        forall|i: int|
            0 <= i < ds.len() ==> (#[trigger] deferrals(ds)[i]).0 == ds[i].path@ && deferrals(
                ds,
            )[i].1 == ds[i].source,
{
}

/// The errors that a host reports, as it words them.
pub proof fn law_errors_are_worded(e: EncodeError)
    ensures
        e is ListTooLong ==> e.text() == "list length does not fit in u32"@,
        e is StringTooLong ==> e.text() == "failed to encode string"@,
        e is UnknownVariantDiscriminant ==> e.text() == "unknown variant discriminant"@,
        e is UnknownEnumDiscriminant ==> e.text() == "unknown enum discriminant"@,
        e is TooManyCases ==> e.text() == "case count does not fit in u32"@,
        e is TooManyNames ==> e.text() == "name count does not fit in u32"@,
        e is VariantTypeMissing ==> e.text() == "type missing for variant"@,
        e is ResultOkUnknownType ==> e.text() == "`result::ok` value of unknown type"@,
        e is ResultOkMissing ==> e.text() == "`result::ok` value missing"@,
        e is ResultErrUnknownType ==> e.text() == "`result::err` value of unknown type"@,
        e is ResultErrMissing ==> e.text() == "`result::err` value missing"@,
        e is BorrowedStream ==> e.text()
            == "encoding borrowed `wasi:io/input-stream` not supported yet"@,
        e is HandleTooLong ==> e.text() == "failed to encode resource handle"@,
        e is UnsupportedHostResource ==> e.text() == "encoding host resources not supported yet"@,
        e is UnsupportedStream ==> e.text() == "only `stream<u8>` is supported"@,
        e is UnsupportedFuture ==> e.text() == "futures and error contexts are not supported"@,
        e is UnsupportedMap ==> e.text() == "maps not supported"@,
        e is UnsupportedFixedLengthList ==> e.text() == "fixed-length lists not supported"@,
        e is TypeMismatch ==> e.text() == "value type mismatch"@,
        e is UnknownHandle ==> e.text() == "unknown resource or stream"@,
        e is ResourceFailed ==> e.text() == "failed to encode resource"@,
        e is StreamFailed ==> e.text() == "failed to encode stream"@,
        e is Pending ==> e.text() == "resource or stream not ready"@,
{
}

/// A resource is a byte stream if its type is, whatever it is to the host; otherwise
/// it is remote if the host knows it as that, and shared if the component exports its
/// type; and there is no other way to write one.
pub proof fn law_routes_are_taken_in_order(cx: EncodeContext, ty: ResourceType, held: ResourceType)
    ensures
        ({
            let stream = ty == ResourceType::Host(HostResource::InputStream)
                || cx.io_streams@.contains(ty);
            let remote = held == ResourceType::Host(HostResource::Remote);
            let shared = cx.resources@.contains(ty);
            &&& route(cx, ty, held) == Route::InputStream <==> stream
            &&& route(cx, ty, held) == Route::Remote <==> !stream && remote
            &&& route(cx, ty, held) == Route::Shared <==> !stream && !remote && shared
            &&& route(cx, ty, held) == Route::Unsupported <==> !stream && !remote && !shared
        }),
{
}

} // verus!
