//! What one end writes, the other end reads.

use vstd::arithmetic::power::pow;
use vstd::arithmetic::power2::{lemma2_to64, lemma2_to64_rest, pow2};
use vstd::prelude::*;
use vstd::utf8::encode_utf8;

use crate::buffer::lemma_little_endian;
use crate::decode::{
    add_origin, advance, list_parse, parse, parse_byte, parse_byte_stream,
    parse_prefixed, parse_resource, parse_signed, parse_unsigned, record_parse, start, tuple_parse,
    visible, Origin, Parsed, Progress, ReadContext,
};
use crate::encode::{
    case_names, chain, emit, encoding, list_encoding, record_encoding, resource_encoding, route,
    tuple_encoding, EncodeContext, Resolution, Route,
};
use crate::error::ReadError;
use crate::flags::lemma_flags_roundtrip;
use crate::handle::{handle_bytes, handle_of, lemma_handle_of};
use crate::incremental::{appended, law_bytes_that_follow_change_nothing};
use crate::leb128::{
    lemma_signed_roundtrip, lemma_unsigned_roundtrip, signed_leb128, unsigned_leb128,
};
use crate::shared::lookup;
use crate::text::{lemma_char_roundtrip, prefixed};
use crate::types::{Field, HostResource, ResourceType, Type};
use crate::val::{names_of, Value};

verus! {

/// Whether resources of the type are byte streams to the reader.
pub open spec fn reads_as_stream<R>(rcx: ReadContext<R>, ty: ResourceType) -> bool {
    ty == ResourceType::Host(HostResource::InputStream) || rcx.io_streams.contains(ty)
}

/// The handles that the reader has taken after the resource numbered `id`, if
/// the resource can be read: both ends take it for the same kind of thing, and the
/// reader's scope sees the handle of a shared one.
pub open spec fn resource_delivery<R>(
    cx: EncodeContext,
    rcx: ReadContext<R>,
    id: usize,
    ty: ResourceType,
    owned: bool,
    taken: Seq<u128>,
) -> Option<Seq<u128>> {
    if id >= cx.held@.len() {
        None
    } else {
        let held = cx.held@[id as int];
        match (route(cx, ty, held.ty), held.resolution) {
            (Route::InputStream, _) => if reads_as_stream(rcx, ty) {
                Some(taken)
            } else {
                None
            },
            (Route::Shared, Resolution::Shared(handle)) => if !reads_as_stream(rcx, ty)
                && rcx.resources.contains(ty) && visible(rcx, taken, handle) is Some {
                Some(
                    if owned {
                        taken.push(handle)
                    } else {
                        taken
                    },
                )
            } else {
                None
            },
            (Route::Remote, _) => if !reads_as_stream(rcx, ty) && !rcx.resources.contains(
                ty,
            ) {
                Some(taken)
            } else {
                None
            },
            _ => None,
        }
    }
}

/// The handles that the reader has taken after the value at `path`, if the value
/// can be read: it has all the fields, elements and payloads that its type asks
/// for, and its resources can be read.
pub open spec fn delivery<R>(
    cx: EncodeContext,
    rcx: ReadContext<R>,
    v: Value,
    ty: Type,
    path: Seq<usize>,
    taken: Seq<u128>,
) -> Option<Seq<u128>>
    decreases v, 0nat,
{
    match (ty, v) {
        (Type::List(ty), Value::List(vs)) => list_delivery(cx, rcx, vs, *ty, path, taken, vs.len()),
        (Type::Record(fields), Value::Record(vs)) => if vs.len() == fields@.len() {
            record_delivery(cx, rcx, vs, fields@, path, taken, vs.len())
        } else {
            None
        },
        (Type::Tuple(tys), Value::Tuple(vs)) => if vs.len() == tys@.len() {
            tuple_delivery(cx, rcx, vs, tys@, path, taken, vs.len())
        } else {
            None
        },
        (Type::Variant(cases), Value::Variant(name, payload)) => match case_names(
            cases@,
        ).index_of_first(name) {
            Some(i) => match (payload, cases@[i].ty) {
                (Some(v), Some(ty)) => delivery(cx, rcx, *v, ty, path, taken),
                (None, None) => Some(taken),
                _ => None,
            },
            None => None,
        },
        (Type::Option(ty), Value::Option(Some(v))) => delivery(cx, rcx, *v, *ty, path, taken),
        (Type::Result(Some(ty), _), Value::Result(Ok(Some(v)))) => delivery(
            cx,
            rcx,
            *v,
            *ty,
            path,
            taken,
        ),
        (Type::Result(_, Some(ty)), Value::Result(Err(Some(v)))) => delivery(
            cx,
            rcx,
            *v,
            *ty,
            path,
            taken,
        ),
        (Type::Own(ty), Value::Resource(id)) => resource_delivery(cx, rcx, id, ty, true, taken),
        (Type::Borrow(ty), Value::Resource(id)) => resource_delivery(cx, rcx, id, ty, false, taken),
        _ => Some(taken),
    }
}

/// The same for the first `n` of the values, all under one type.
pub open spec fn list_delivery<R>(
    cx: EncodeContext,
    rcx: ReadContext<R>,
    vs: Seq<Value>,
    ty: Type,
    path: Seq<usize>,
    taken: Seq<u128>,
    n: nat,
) -> Option<Seq<u128>>
    decreases vs, n,
{
    if n == 0 || n > vs.len() {
        Some(taken)
    } else {
        let at = path.push((n - 1) as usize);
        match list_delivery(cx, rcx, vs, ty, path, taken, (n - 1) as nat) {
            Some(taken) => delivery(cx, rcx, vs[n - 1], ty, at, taken),
            None => None,
        }
    }
}

/// The same for the first `n` of the values, each under the type at its place.
pub open spec fn tuple_delivery<R>(
    cx: EncodeContext,
    rcx: ReadContext<R>,
    vs: Seq<Value>,
    tys: Seq<Type>,
    path: Seq<usize>,
    taken: Seq<u128>,
    n: nat,
) -> Option<Seq<u128>>
    decreases vs, n,
{
    if n == 0 || n > vs.len() {
        Some(taken)
    } else {
        let at = path.push((n - 1) as usize);
        match tuple_delivery(cx, rcx, vs, tys, path, taken, (n - 1) as nat) {
            Some(taken) => delivery(cx, rcx, vs[n - 1], tys[n - 1], at, taken),
            None => None,
        }
    }
}

/// The same for the first `n` of the field values, each under the type of the
/// field at its place.
pub open spec fn record_delivery<R>(
    cx: EncodeContext,
    rcx: ReadContext<R>,
    vs: Seq<(Seq<char>, Value)>,
    fields: Seq<Field>,
    path: Seq<usize>,
    taken: Seq<u128>,
    n: nat,
) -> Option<Seq<u128>>
    decreases vs, n,
{
    if n == 0 || n > vs.len() {
        Some(taken)
    } else {
        let at = path.push((n - 1) as usize);
        match record_delivery(cx, rcx, vs, fields, path, taken, (n - 1) as nat) {
            Some(taken) => delivery(cx, rcx, vs[n - 1].1, fields[n - 1].ty, at, taken),
            None => None,
        }
    }
}

/// What the resource numbered `id`, written at `path`, is to the reader: the byte
/// stream whose bytes follow at that path, the resource that was shared, or a
/// remote resource with the same handle.
pub open spec fn resource_origin<R>(
    cx: EncodeContext,
    rcx: ReadContext<R>,
    id: usize,
    ty: ResourceType,
    path: Seq<usize>,
) -> Option<Origin<R>> {
    match (route(cx, ty, cx.held@[id as int].ty), cx.held@[id as int].resolution) {
        (Route::InputStream, _) => Some(Origin::Indexed(path)),
        (Route::Shared, Resolution::Shared(handle)) => match lookup(
            rcx.entries,
            rcx.scope,
            handle,
        ) {
            Some(resource) => Some(Origin::Shared(resource)),
            None => None,
        },
        (Route::Remote, Resolution::Remote(handle)) => Some(Origin::Remote(handle@)),
        _ => None,
    }
}

/// The number `id` stands for `origin`.
pub open spec fn stands_for<R>(
    origins: Seq<Origin<R>>,
    id: usize,
    origin: Option<Origin<R>>,
) -> bool {
    id < origins.len() && origin == Some(origins[id as int])
}

/// `w` is what `v`, written at `path`, arrives as: the same value, with the
/// fields under the names that the type gives them, the flags in the order of the
/// type, and for each resource and stream a number that stands for the thing that
/// it is to the reader.
pub open spec fn arrives_as<R>(
    cx: EncodeContext,
    rcx: ReadContext<R>,
    v: Value,
    w: Value,
    ty: Type,
    path: Seq<usize>,
    origins: Seq<Origin<R>>,
) -> bool
    decreases v,
{
    match (ty, v, w) {
        (Type::List(ty), Value::List(vs), Value::List(ws)) => {
            &&& ws.len() == vs.len()
            &&& forall|i: int|
                0 <= i < vs.len() ==> arrives_as(
                    cx,
                    rcx,
                    vs[i],
                    #[trigger] ws[i],
                    *ty,
                    path.push(i as usize),
                    origins,
                )
        },
        (Type::Record(fields), Value::Record(vs), Value::Record(ws)) => {
            &&& ws.len() == vs.len()
            &&& forall|i: int|
                0 <= i < vs.len() ==> (#[trigger] ws[i]).0 == fields@[i].name@ && arrives_as(
                    cx,
                    rcx,
                    vs[i].1,
                    ws[i].1,
                    fields@[i].ty,
                    path.push(i as usize),
                    origins,
                )
        },
        (Type::Tuple(tys), Value::Tuple(vs), Value::Tuple(ws)) => {
            &&& ws.len() == vs.len()
            &&& forall|i: int|
                0 <= i < vs.len() ==> arrives_as(
                    cx,
                    rcx,
                    vs[i],
                    #[trigger] ws[i],
                    tys@[i],
                    path.push(i as usize),
                    origins,
                )
        },
        (
            Type::Variant(cases),
            Value::Variant(name, Some(v)),
            Value::Variant(other, Some(w)),
        ) => match case_names(cases@).index_of_first(name) {
            Some(i) => other == name && match cases@[i].ty {
                Some(ty) => arrives_as(cx, rcx, *v, *w, ty, path, origins),
                None => false,
            },
            None => false,
        },
        (Type::Option(ty), Value::Option(Some(v)), Value::Option(Some(w))) => arrives_as(
            cx,
            rcx,
            *v,
            *w,
            *ty,
            path,
            origins,
        ),
        (
            Type::Result(Some(ty), _),
            Value::Result(Ok(Some(v))),
            Value::Result(Ok(Some(w))),
        ) => arrives_as(cx, rcx, *v, *w, *ty, path, origins),
        (
            Type::Result(_, Some(ty)),
            Value::Result(Err(Some(v))),
            Value::Result(Err(Some(w))),
        ) => arrives_as(cx, rcx, *v, *w, *ty, path, origins),
        (Type::Flags(names), Value::Flags(flags), Value::Flags(ws)) => ws == names_of(
            names@,
        ).filter(|name: Seq<char>| flags.contains(name)),
        (Type::Own(ty), Value::Resource(id), Value::Resource(other)) => stands_for(
            origins,
            other,
            resource_origin(cx, rcx, id, ty, path),
        ),
        (Type::Borrow(ty), Value::Resource(id), Value::Resource(other)) => stands_for(
            origins,
            other,
            resource_origin(cx, rcx, id, ty, path),
        ),
        (Type::Stream(_), Value::Stream(_), Value::Stream(other)) => stands_for(
            origins,
            other,
            Some(Origin::Indexed(path)),
        ),
        _ => w == v,
    }
}

/// `before` is the front of `after`.
pub open spec fn grows<A>(before: Seq<A>, after: Seq<A>) -> bool {
    before.len() <= after.len() && after.take(before.len() as int) == before
}

/// The outcome is that `v` has arrived: all its bytes were read and none of
/// `rest`, and `taken` were taken.
pub open spec fn has_arrived<R>(
    cx: EncodeContext,
    rcx: ReadContext<R>,
    v: Value,
    ty: Type,
    path: Seq<usize>,
    p: Progress<R>,
    rest: Seq<u8>,
    taken: Seq<u128>,
    outcome: Parsed<Value, R>,
) -> bool {
    match outcome {
        Parsed::Done(w, q) => {
            &&& arrives_as(cx, rcx, v, w, ty, path, q.origins)
            &&& q.rest == rest
            &&& q.taken == taken
            &&& q.recall == p.recall
            &&& grows(p.origins, q.origins)
        },
        _ => false,
    }
}

/// What stood for something still stands for it when more was read.
proof fn lemma_still_arrives<R>(
    cx: EncodeContext,
    rcx: ReadContext<R>,
    v: Value,
    w: Value,
    ty: Type,
    path: Seq<usize>,
    before: Seq<Origin<R>>,
    after: Seq<Origin<R>>,
)
    requires
        arrives_as(cx, rcx, v, w, ty, path, before),
        grows(before, after),
    ensures
        arrives_as(cx, rcx, v, w, ty, path, after),
    decreases v,
{
    assert(forall|i: int|
        0 <= i < before.len() ==> after.take(before.len() as int)[i] == before[i]);
    match (ty, v, w) {
        (Type::List(ty), Value::List(vs), Value::List(ws)) => {
            assert forall|i: int| 0 <= i < vs.len() implies arrives_as(
                cx,
                rcx,
                vs[i],
                #[trigger] ws[i],
                *ty,
                path.push(i as usize),
                after,
            ) by {
                lemma_still_arrives(
                    cx,
                    rcx,
                    vs[i],
                    ws[i],
                    *ty,
                    path.push(i as usize),
                    before,
                    after,
                );
            }
        },
        (Type::Record(fields), Value::Record(vs), Value::Record(ws)) => {
            assert forall|i: int| 0 <= i < vs.len() implies (#[trigger] ws[i]).0 == fields@[i].name@
                && arrives_as(
                cx,
                rcx,
                vs[i].1,
                ws[i].1,
                fields@[i].ty,
                path.push(i as usize),
                after,
            ) by {
                lemma_still_arrives(
                    cx,
                    rcx,
                    vs[i].1,
                    ws[i].1,
                    fields@[i].ty,
                    path.push(i as usize),
                    before,
                    after,
                );
            }
        },
        (Type::Tuple(tys), Value::Tuple(vs), Value::Tuple(ws)) => {
            assert forall|i: int| 0 <= i < vs.len() implies arrives_as(
                cx,
                rcx,
                vs[i],
                #[trigger] ws[i],
                tys@[i],
                path.push(i as usize),
                after,
            ) by {
                lemma_still_arrives(
                    cx,
                    rcx,
                    vs[i],
                    ws[i],
                    tys@[i],
                    path.push(i as usize),
                    before,
                    after,
                );
            }
        },
        (
            Type::Variant(cases),
            Value::Variant(name, Some(v)),
            Value::Variant(other, Some(w)),
        ) => {
            let i = case_names(cases@).index_of_first(name)->Some_0;
            lemma_still_arrives(cx, rcx, *v, *w, cases@[i].ty->Some_0, path, before, after);
        },
        (Type::Option(ty), Value::Option(Some(v)), Value::Option(Some(w))) => {
            lemma_still_arrives(cx, rcx, *v, *w, *ty, path, before, after);
        },
        (
            Type::Result(Some(ty), _),
            Value::Result(Ok(Some(v))),
            Value::Result(Ok(Some(w))),
        ) => {
            lemma_still_arrives(cx, rcx, *v, *w, *ty, path, before, after);
        },
        (
            Type::Result(_, Some(ty)),
            Value::Result(Err(Some(v))),
            Value::Result(Err(Some(w))),
        ) => {
            lemma_still_arrives(cx, rcx, *v, *w, *ty, path, before, after);
        },
        _ => {},
    }
}

/// After the bytes at the front, what is left is the rest.
proof fn lemma_front<R>(p: Progress<R>, front: Seq<u8>, rest: Seq<u8>)
    requires
        p.rest == front + rest,
    ensures
        p.rest.take(front.len() as int) == front,
        advance(p, front.len() as int) == (Progress { rest, ..p }),
{
    assert(p.rest.take(front.len() as int) =~= front);
    assert(p.rest.skip(front.len() as int) =~= rest);
}

/// An unsigned integer is read back.
proof fn lemma_unsigned<R>(bits: nat, n: nat, p: Progress<R>, rest: Seq<u8>)
    requires
        bits > 0,
        n < pow2(bits),
        p.rest == unsigned_leb128(n) + rest,
    ensures
        parse_unsigned(bits, p) == Parsed::<int, R>::Done(n as int, Progress { rest, ..p }),
        unsigned_leb128(n).len() > 0,
{
    lemma_unsigned_roundtrip(bits, n, rest);
    lemma_front(p, unsigned_leb128(n), rest);
}

/// A signed integer is read back.
proof fn lemma_signed<R>(bits: nat, n: int, p: Progress<R>, rest: Seq<u8>)
    requires
        bits > 0,
        -pow2((bits - 1) as nat) <= n
            < pow2((bits - 1) as nat),
        p.rest == signed_leb128(n) + rest,
    ensures
        parse_signed(bits, p) == Parsed::<int, R>::Done(n, Progress { rest, ..p }),
{
    lemma_signed_roundtrip(bits, n, rest);
    lemma_front(p, signed_leb128(n), rest);
}

/// Bytes with their length in front are read back.
proof fn lemma_prefixed<R>(bytes: Seq<u8>, p: Progress<R>, rest: Seq<u8>)
    requires
        bytes.len() <= u32::MAX,
        p.rest == prefixed(bytes) + rest,
    ensures
        parse_prefixed(p) == Parsed::<Seq<u8>, R>::Done(bytes, Progress { rest, ..p }),
        prefixed(bytes).len() > 0,
{
    lemma2_to64();
    assert(p.rest =~= unsigned_leb128(bytes.len()) + (bytes + rest));
    lemma_unsigned(32, bytes.len(), p, bytes + rest);
    lemma_front(Progress { rest: bytes + rest, ..p }, bytes, rest);
}

/// A resource arrives.
proof fn lemma_resource<R>(
    cx: EncodeContext,
    rcx: ReadContext<R>,
    id: usize,
    ty: ResourceType,
    owned: bool,
    path: Seq<usize>,
    p: Progress<R>,
    rest: Seq<u8>,
)
    requires
        p.recall.len() == 0,
        resource_encoding(cx, id, ty, path).outcome is Ok,
        resource_delivery(cx, rcx, id, ty, owned, p.taken) is Some,
        p.rest == resource_encoding(cx, id, ty, path).bytes + rest,
        p.origins.len() < usize::MAX,
    ensures
        resource_encoding(cx, id, ty, path).bytes.len() > 0,
        resource_origin(cx, rcx, id, ty, path) is Some,
        parse_resource(rcx, ty, owned, path, p) == add_origin(
            Progress {
                rest,
                taken: resource_delivery(cx, rcx, id, ty, owned, p.taken)->Some_0,
                ..p
            },
            resource_origin(cx, rcx, id, ty, path)->Some_0,
        ),
{
    let held = cx.held@[id as int];
    match route(cx, ty, held.ty) {
        Route::InputStream => {
            lemma_stream(path, p, rest);
        },
        Route::Remote => {
            let handle = held.resolution->Remote_0@;
            lemma_prefixed(handle, p, rest);
        },
        _ => {
            let handle = held.resolution->Shared_0;
            law_handles_give_what_the_scope_sees(rcx, handle, ty, owned, path, p, rest);
        },
    }
}

/// The empty chunk of a byte stream stands for the sub-stream at the path.
proof fn lemma_stream<R>(path: Seq<usize>, p: Progress<R>, rest: Seq<u8>)
    requires
        p.rest == seq![0u8] + rest,
    ensures
        parse_byte_stream(path, p) == add_origin(
            Progress { rest, ..p },
            Origin::Indexed(path),
        ),
{
    let none = Seq::<u8>::empty();
    assert(prefixed(none) =~= seq![0u8]);
    lemma_prefixed(none, p, rest);
}

/// One more thing was read.
proof fn lemma_added<R>(p: Progress<R>, origin: Origin<R>)
    requires
        p.origins.len() < usize::MAX,
    ensures
        add_origin(p, origin) matches Parsed::Done(id, q) && stands_for(
            q.origins,
            id,
            Some(origin),
        ) && grows(p.origins, q.origins) && q.origins.len() == p.origins.len() + 1,
{
    assert(p.origins.push(origin).take(p.origins.len() as int) =~= p.origins);
}

/// A value that was written is read back, whatever follows it: as the value that
/// it arrives as, from the bytes that were written and no others. A stream of
/// the value, whose bytes follow later, is read as the sub-stream at the path at
/// which the writer deferred it.
pub proof fn law_read_gives_back_what_was_written<R>(
    cx: EncodeContext,
    rcx: ReadContext<R>,
    v: Value,
    ty: Type,
    path: Seq<usize>,
    p: Progress<R>,
    rest: Seq<u8>,
)
    requires
        p.recall.len() == 0,
        encoding(cx, v, ty, path).outcome is Ok,
        delivery(cx, rcx, v, ty, path, p.taken) is Some,
        p.rest == encoding(cx, v, ty, path).bytes + rest,
        p.origins.len() + encoding(cx, v, ty, path).bytes.len() <= usize::MAX,
    ensures
        has_arrived(
            cx,
            rcx,
            v,
            ty,
            path,
            p,
            rest,
            delivery(cx, rcx, v, ty, path, p.taken)->Some_0,
            parse(rcx, ty, path, p),
        ),
{
    lemma_arrives(cx, rcx, v, ty, path, p, rest);
}

/// Whether values of the type hold no other values.
spec fn is_scalar(ty: Type) -> bool {
    match ty {
        Type::Bool
        | Type::S8
        | Type::U8
        | Type::S16
        | Type::U16
        | Type::S32
        | Type::U32
        | Type::S64
        | Type::U64
        | Type::Float32
        | Type::Float64
        | Type::Char
        | Type::String => true,
        _ => false,
    }
}

/// A value that holds no other values arrives as itself.
proof fn lemma_scalar_arrives<R>(
    cx: EncodeContext,
    rcx: ReadContext<R>,
    v: Value,
    ty: Type,
    path: Seq<usize>,
    p: Progress<R>,
    rest: Seq<u8>,
)
    requires
        is_scalar(ty),
        encoding(cx, v, ty, path).outcome is Ok,
        p.rest == encoding(cx, v, ty, path).bytes + rest,
    ensures
        parse(rcx, ty, path, p) == Parsed::<Value, R>::Done(v, Progress { rest, ..p }),
{
    lemma2_to64();
    lemma2_to64_rest();
    let e = encoding(cx, v, ty, path);
    match (ty, v) {
        (Type::Bool, Value::Bool(b)) => {
            lemma_front(p, e.bytes, rest);
        },
        (Type::S8, Value::S8(n)) => {
            lemma_front(p, e.bytes, rest);
            assert((n as u8) as i8 == n) by (bit_vector);
        },
        (Type::U8, Value::U8(n)) => {
            lemma_front(p, e.bytes, rest);
        },
        (Type::S16, Value::S16(n)) => {
            lemma_signed(16, n as int, p, rest);
        },
        (Type::U16, Value::U16(n)) => {
            lemma_unsigned(16, n as nat, p, rest);
        },
        (Type::S32, Value::S32(n)) => {
            lemma_signed(32, n as int, p, rest);
        },
        (Type::U32, Value::U32(n)) => {
            lemma_unsigned(32, n as nat, p, rest);
        },
        (Type::S64, Value::S64(n)) => {
            lemma_signed(64, n as int, p, rest);
        },
        (Type::U64, Value::U64(n)) => {
            lemma_unsigned(64, n as nat, p, rest);
        },
        (Type::Float32, Value::Float32(bits)) => {
            assert(pow(256, 4) == 0x1_0000_0000) by {
                reveal_with_fuel(pow, 5);
            }
            lemma_little_endian(bits as nat, 4);
            lemma_front(p, e.bytes, rest);
        },
        (Type::Float64, Value::Float64(bits)) => {
            assert(pow(256, 8) == 0x1_0000_0000_0000_0000) by {
                reveal_with_fuel(pow, 9);
            }
            lemma_little_endian(bits as nat, 8);
            lemma_front(p, e.bytes, rest);
        },
        (Type::Char, Value::Char(c)) => {
            lemma_char_roundtrip(c, rest);
            lemma_front(p, e.bytes, rest);
        },
        (Type::String, Value::String(s)) => {
            lemma_prefixed(encode_utf8(s), p, rest);
            vstd::utf8::encode_utf8_valid_utf8(s);
            vstd::utf8::encode_utf8_decode_utf8(s);
        },
        _ => {},
    }
}

/// A resource arrives, and is one that has bytes.
proof fn lemma_resource_arrives<R>(
    cx: EncodeContext,
    rcx: ReadContext<R>,
    id: usize,
    ty: Type,
    path: Seq<usize>,
    p: Progress<R>,
    rest: Seq<u8>,
)
    requires
        p.recall.len() == 0,
        ty is Own || ty is Borrow,
        encoding(cx, Value::Resource(id), ty, path).outcome is Ok,
        delivery(cx, rcx, Value::Resource(id), ty, path, p.taken) is Some,
        p.rest == encoding(cx, Value::Resource(id), ty, path).bytes + rest,
        p.origins.len() < usize::MAX,
    ensures
        has_arrived(
            cx,
            rcx,
            Value::Resource(id),
            ty,
            path,
            p,
            rest,
            delivery(cx, rcx, Value::Resource(id), ty, path, p.taken)->Some_0,
            parse(rcx, ty, path, p),
        ),
        parse(rcx, ty, path, p)->Done_1.origins.len() == p.origins.len() + 1,
        encoding(cx, Value::Resource(id), ty, path).bytes.len() > 0,
{
    let (resource, owned) = match ty {
        Type::Own(resource) => (resource, true),
        Type::Borrow(resource) => (resource, false),
        _ => arbitrary(),
    };
    lemma_resource(cx, rcx, id, resource, owned, path, p, rest);
    lemma_added(
        Progress {
            rest,
            taken: resource_delivery(cx, rcx, id, resource, owned, p.taken)->Some_0,
            ..p
        },
        resource_origin(cx, rcx, id, resource, path)->Some_0,
    );
}

/// A value arrives, and has no more resources and streams than bytes.
#[verifier::spinoff_prover]
proof fn lemma_arrives<R>(
    cx: EncodeContext,
    rcx: ReadContext<R>,
    v: Value,
    ty: Type,
    path: Seq<usize>,
    p: Progress<R>,
    rest: Seq<u8>,
)
    requires
        p.recall.len() == 0,
        encoding(cx, v, ty, path).outcome is Ok,
        delivery(cx, rcx, v, ty, path, p.taken) is Some,
        p.rest == encoding(cx, v, ty, path).bytes + rest,
        p.origins.len() + encoding(cx, v, ty, path).bytes.len() <= usize::MAX,
    ensures
        has_arrived(
            cx,
            rcx,
            v,
            ty,
            path,
            p,
            rest,
            delivery(cx, rcx, v, ty, path, p.taken)->Some_0,
            parse(rcx, ty, path, p),
        ),
        parse(rcx, ty, path, p)->Done_1.origins.len() <= p.origins.len() + encoding(
            cx,
            v,
            ty,
            path,
        ).bytes.len(),
    decreases v, 0nat,
{
    lemma2_to64();
    let e = encoding(cx, v, ty, path);
    assert(grows(p.origins, p.origins)) by {
        assert(p.origins.take(p.origins.len() as int) =~= p.origins);
    }
    match (ty, v) {
        (Type::Bool, _)
        | (Type::S8, _)
        | (Type::U8, _)
        | (Type::S16, _)
        | (Type::U16, _)
        | (Type::S32, _)
        | (Type::U32, _)
        | (Type::S64, _)
        | (Type::U64, _)
        | (Type::Float32, _)
        | (Type::Float64, _)
        | (Type::Char, _)
        | (Type::String, _) => {
            lemma_scalar_arrives(cx, rcx, v, ty, path, p, rest);
        },
        (Type::List(item), Value::List(vs)) => {
            let inner = list_encoding(cx, vs, *item, path, vs.len());
            assert(p.rest =~= unsigned_leb128(vs.len()) + (inner.bytes + rest));
            lemma_unsigned(32, vs.len(), p, inner.bytes + rest);
            let q = Progress { rest: inner.bytes + rest, ..p };
            lemma_list_arrives(cx, rcx, vs, *item, path, q, rest, vs.len());
        },
        (Type::Record(fields), Value::Record(vs)) => {
            lemma_record_arrives(cx, rcx, vs, fields@, path, p, rest, vs.len());
        },
        (Type::Tuple(tys), Value::Tuple(vs)) => {
            lemma_tuple_arrives(cx, rcx, vs, tys@, path, p, rest, vs.len());
        },
        (Type::Variant(cases), Value::Variant(name, payload)) => {
            let i = case_names(cases@).index_of_first(name)->Some_0;
            case_names(cases@).index_of_first_ensures(name);
            assert(cases@[i].name@ == name);
            match (payload, cases@[i].ty) {
                (Some(inner), Some(ty)) => {
                    let f = encoding(cx, *inner, ty, path);
                    assert(p.rest =~= unsigned_leb128(i as nat) + (f.bytes + rest));
                    lemma_unsigned(32, i as nat, p, f.bytes + rest);
                    lemma_arrives(
                        cx,
                        rcx,
                        *inner,
                        ty,
                        path,
                        Progress { rest: f.bytes + rest, ..p },
                        rest,
                    );
                },
                _ => {
                    assert(e.bytes =~= unsigned_leb128(i as nat));
                    lemma_unsigned(32, i as nat, p, rest);
                },
            }
        },
        (Type::Enum(names), Value::Enum(name)) => {
            let i = names_of(names@).index_of_first(name)->Some_0;
            names_of(names@).index_of_first_ensures(name);
            assert(names@[i]@ == name);
            lemma_unsigned(32, i as nat, p, rest);
        },
        (Type::Option(ty), Value::Option(None)) => {
            lemma_front(p, e.bytes, rest);
        },
        (Type::Option(ty), Value::Option(Some(inner))) => {
            lemma_tagged(cx, rcx, 1, *inner, *ty, path, p, rest);
        },
        (Type::Result(Some(ty), _), Value::Result(Ok(Some(inner)))) => {
            lemma_tagged(cx, rcx, 0, *inner, *ty, path, p, rest);
        },
        (Type::Result(_, Some(ty)), Value::Result(Err(Some(inner)))) => {
            lemma_tagged(cx, rcx, 1, *inner, *ty, path, p, rest);
        },
        (Type::Result(_, _), Value::Result(_)) => {
            lemma_front(p, e.bytes, rest);
        },
        (Type::Flags(names), Value::Flags(flags)) => {
            lemma_front(p, e.bytes, rest);
            lemma_flags_roundtrip(names_of(names@), flags, names@.len());
            assert(names_of(names@).take(names@.len() as int) =~= names_of(names@));
        },
        (Type::Own(_), Value::Resource(id)) | (Type::Borrow(_), Value::Resource(id)) => {
            lemma_resource_arrives(cx, rcx, id, ty, path, p, rest);
        },
        (Type::Stream(_), Value::Stream(id)) => {
            lemma_stream(path, p, rest);
            lemma_added(Progress { rest, ..p }, Origin::Indexed(path));
        },
        _ => {},
    }
}

/// A byte and a value after it.
proof fn lemma_tagged<R>(
    cx: EncodeContext,
    rcx: ReadContext<R>,
    tag: u8,
    v: Value,
    ty: Type,
    path: Seq<usize>,
    p: Progress<R>,
    rest: Seq<u8>,
)
    requires
        p.recall.len() == 0,
        encoding(cx, v, ty, path).outcome is Ok,
        delivery(cx, rcx, v, ty, path, p.taken) is Some,
        p.rest == chain(emit(seq![tag]), encoding(cx, v, ty, path)).bytes + rest,
        p.origins.len() + encoding(cx, v, ty, path).bytes.len() <= usize::MAX,
    ensures
        parse_byte(p) matches Parsed::Done(b, q) && b == tag && has_arrived(
            cx,
            rcx,
            v,
            ty,
            path,
            p,
            rest,
            delivery(cx, rcx, v, ty, path, p.taken)->Some_0,
            parse(rcx, ty, path, q),
        ) && parse(rcx, ty, path, q)->Done_1.origins.len() <= p.origins.len() + encoding(
            cx,
            v,
            ty,
            path,
        ).bytes.len(),
    decreases v, 1nat,
{
    let f = encoding(cx, v, ty, path);
    assert(p.rest =~= seq![tag] + (f.bytes + rest));
    lemma_front(p, seq![tag], f.bytes + rest);
    lemma_arrives(cx, rcx, v, ty, path, Progress { rest: f.bytes + rest, ..p }, rest);
}

/// The first `n` of the values arrive, all under one type.
proof fn lemma_list_arrives<R>(
    cx: EncodeContext,
    rcx: ReadContext<R>,
    vs: Seq<Value>,
    ty: Type,
    path: Seq<usize>,
    p: Progress<R>,
    rest: Seq<u8>,
    n: nat,
)
    requires
        p.recall.len() == 0,
        n <= vs.len(),
        list_encoding(cx, vs, ty, path, n).outcome is Ok,
        list_delivery(cx, rcx, vs, ty, path, p.taken, n) is Some,
        p.rest == list_encoding(cx, vs, ty, path, n).bytes + rest,
        p.origins.len() + list_encoding(cx, vs, ty, path, n).bytes.len() <= usize::MAX,
    ensures
        match list_parse(rcx, ty, path, p, n) {
            Parsed::Done(ws, q) => {
                &&& ws.len() == n
                &&& forall|i: int|
                    0 <= i < n ==> arrives_as(
                        cx,
                        rcx,
                        vs[i],
                        #[trigger] ws[i],
                        ty,
                        path.push(i as usize),
                        q.origins,
                    )
                &&& q.rest == rest
                &&& Some(q.taken) == list_delivery(cx, rcx, vs, ty, path, p.taken, n)
                &&& q.recall == p.recall
                &&& grows(p.origins, q.origins)
                &&& q.origins.len() <= p.origins.len() + list_encoding(
                    cx,
                    vs,
                    ty,
                    path,
                    n,
                ).bytes.len()
            },
            _ => false,
        },
    decreases vs, n,
{
    if n == 0 {
        assert(p.rest =~= rest);
        assert(p.origins.take(p.origins.len() as int) =~= p.origins);
    } else {
        let front = list_encoding(cx, vs, ty, path, (n - 1) as nat);
        let last = path.push((n - 1) as usize);
        let f = encoding(cx, vs[n - 1], ty, last);
        assert(list_encoding(cx, vs, ty, path, n) == chain(front, f));
        assert(p.rest =~= front.bytes + (f.bytes + rest));
        lemma_list_arrives(cx, rcx, vs, ty, path, p, f.bytes + rest, (n - 1) as nat);
        let before = list_parse(rcx, ty, path, p, (n - 1) as nat);
        let (ws, q) = (before->Done_0, before->Done_1);
        lemma_arrives(cx, rcx, vs[n - 1], ty, last, q, rest);
        let r = parse(rcx, ty, last, q)->Done_1;
        lemma_grows(p.origins, q.origins, r.origins);
        assert forall|i: int| 0 <= i < n - 1 implies arrives_as(
            cx,
            rcx,
            vs[i],
            #[trigger] ws[i],
            ty,
            path.push(i as usize),
            r.origins,
        ) by {
            lemma_still_arrives(
                cx,
                rcx,
                vs[i],
                ws[i],
                ty,
                path.push(i as usize),
                q.origins,
                r.origins,
            );
        }
    }
}

/// The first `n` of the values arrive, each under the type at its place.
proof fn lemma_tuple_arrives<R>(
    cx: EncodeContext,
    rcx: ReadContext<R>,
    vs: Seq<Value>,
    tys: Seq<Type>,
    path: Seq<usize>,
    p: Progress<R>,
    rest: Seq<u8>,
    n: nat,
)
    requires
        p.recall.len() == 0,
        n <= vs.len() == tys.len(),
        tuple_encoding(cx, vs, tys, path, n).outcome is Ok,
        tuple_delivery(cx, rcx, vs, tys, path, p.taken, n) is Some,
        p.rest == tuple_encoding(cx, vs, tys, path, n).bytes + rest,
        p.origins.len() + tuple_encoding(cx, vs, tys, path, n).bytes.len() <= usize::MAX,
    ensures
        match tuple_parse(rcx, tys, path, p, n) {
            Parsed::Done(ws, q) => {
                &&& ws.len() == n
                &&& forall|i: int|
                    0 <= i < n ==> arrives_as(
                        cx,
                        rcx,
                        vs[i],
                        #[trigger] ws[i],
                        tys[i],
                        path.push(i as usize),
                        q.origins,
                    )
                &&& q.rest == rest
                &&& Some(q.taken) == tuple_delivery(cx, rcx, vs, tys, path, p.taken, n)
                &&& q.recall == p.recall
                &&& grows(p.origins, q.origins)
                &&& q.origins.len() <= p.origins.len() + tuple_encoding(
                    cx,
                    vs,
                    tys,
                    path,
                    n,
                ).bytes.len()
            },
            _ => false,
        },
    decreases vs, n,
{
    if n == 0 {
        assert(p.rest =~= rest);
        assert(p.origins.take(p.origins.len() as int) =~= p.origins);
    } else {
        let front = tuple_encoding(cx, vs, tys, path, (n - 1) as nat);
        let last = path.push((n - 1) as usize);
        let f = encoding(cx, vs[n - 1], tys[n - 1], last);
        assert(tuple_encoding(cx, vs, tys, path, n) == chain(front, f));
        assert(p.rest =~= front.bytes + (f.bytes + rest));
        lemma_tuple_arrives(cx, rcx, vs, tys, path, p, f.bytes + rest, (n - 1) as nat);
        let before = tuple_parse(rcx, tys, path, p, (n - 1) as nat);
        let (ws, q) = (before->Done_0, before->Done_1);
        lemma_arrives(cx, rcx, vs[n - 1], tys[n - 1], last, q, rest);
        let r = parse(rcx, tys[n - 1], last, q)->Done_1;
        lemma_grows(p.origins, q.origins, r.origins);
        assert forall|i: int| 0 <= i < n - 1 implies arrives_as(
            cx,
            rcx,
            vs[i],
            #[trigger] ws[i],
            tys[i],
            path.push(i as usize),
            r.origins,
        ) by {
            lemma_still_arrives(
                cx,
                rcx,
                vs[i],
                ws[i],
                tys[i],
                path.push(i as usize),
                q.origins,
                r.origins,
            );
        }
    }
}

/// The first `n` of the field values arrive.
proof fn lemma_record_arrives<R>(
    cx: EncodeContext,
    rcx: ReadContext<R>,
    vs: Seq<(Seq<char>, Value)>,
    fields: Seq<Field>,
    path: Seq<usize>,
    p: Progress<R>,
    rest: Seq<u8>,
    n: nat,
)
    requires
        p.recall.len() == 0,
        n <= vs.len() == fields.len(),
        record_encoding(cx, vs, fields, path, n).outcome is Ok,
        record_delivery(cx, rcx, vs, fields, path, p.taken, n) is Some,
        p.rest == record_encoding(cx, vs, fields, path, n).bytes + rest,
        p.origins.len() + record_encoding(cx, vs, fields, path, n).bytes.len() <= usize::MAX,
    ensures
        match record_parse(rcx, fields, path, p, n) {
            Parsed::Done(ws, q) => {
                &&& ws.len() == n
                &&& forall|i: int|
                    0 <= i < n ==> (#[trigger] ws[i]).0 == fields[i].name@ && arrives_as(
                        cx,
                        rcx,
                        vs[i].1,
                        ws[i].1,
                        fields[i].ty,
                        path.push(i as usize),
                        q.origins,
                    )
                &&& q.rest == rest
                &&& Some(q.taken) == record_delivery(cx, rcx, vs, fields, path, p.taken, n)
                &&& q.recall == p.recall
                &&& grows(p.origins, q.origins)
                &&& q.origins.len() <= p.origins.len() + record_encoding(
                    cx,
                    vs,
                    fields,
                    path,
                    n,
                ).bytes.len()
            },
            _ => false,
        },
    decreases vs, n,
{
    if n == 0 {
        assert(p.rest =~= rest);
        assert(p.origins.take(p.origins.len() as int) =~= p.origins);
    } else {
        let front = record_encoding(cx, vs, fields, path, (n - 1) as nat);
        let last = path.push((n - 1) as usize);
        let f = encoding(cx, vs[n - 1].1, fields[n - 1].ty, last);
        assert(record_encoding(cx, vs, fields, path, n) == chain(front, f));
        assert(p.rest =~= front.bytes + (f.bytes + rest));
        lemma_record_arrives(cx, rcx, vs, fields, path, p, f.bytes + rest, (n - 1) as nat);
        let before = record_parse(rcx, fields, path, p, (n - 1) as nat);
        let (ws, q) = (before->Done_0, before->Done_1);
        lemma_arrives(cx, rcx, vs[n - 1].1, fields[n - 1].ty, last, q, rest);
        let r = parse(rcx, fields[n - 1].ty, last, q)->Done_1;
        lemma_grows(p.origins, q.origins, r.origins);
        assert forall|i: int| 0 <= i < n - 1 implies (#[trigger] ws[i]).0 == fields[i].name@
            && arrives_as(
            cx,
            rcx,
            vs[i].1,
            ws[i].1,
            fields[i].ty,
            path.push(i as usize),
            r.origins,
        ) by {
            lemma_still_arrives(
                cx,
                rcx,
                vs[i].1,
                ws[i].1,
                fields[i].ty,
                path.push(i as usize),
                q.origins,
                r.origins,
            );
        }
    }
}

/// What grows in two steps grows.
proof fn lemma_grows<A>(a: Seq<A>, b: Seq<A>, c: Seq<A>)
    requires
        grows(a, b),
        grows(b, c),
    ensures
        grows(a, c),
{
    assert(forall|i: int| 0 <= i < b.len() ==> c.take(b.len() as int)[i] == c[i]);
    assert(c.take(a.len() as int) =~= b.take(a.len() as int));
}

/// Whether the value is just what its type describes: no resources or streams,
/// all the fields under their names, all the elements and payloads, and the flags
/// in their order.
pub open spec fn plain(v: Value, ty: Type) -> bool
    decreases v,
{
    match (ty, v) {
        (Type::List(ty), Value::List(vs)) => forall|i: int|
            0 <= i < vs.len() ==> plain(#[trigger] vs[i], *ty),
        (Type::Record(fields), Value::Record(vs)) => {
            &&& vs.len() == fields@.len()
            &&& forall|i: int|
                0 <= i < vs.len() ==> (#[trigger] vs[i]).0 == fields@[i].name@ && plain(
                    vs[i].1,
                    fields@[i].ty,
                )
        },
        (Type::Tuple(tys), Value::Tuple(vs)) => {
            &&& vs.len() == tys@.len()
            &&& forall|i: int| 0 <= i < vs.len() ==> plain(#[trigger] vs[i], tys@[i])
        },
        (Type::Variant(cases), Value::Variant(name, payload)) => match case_names(
            cases@,
        ).index_of_first(name) {
            Some(i) => match (payload, cases@[i].ty) {
                (Some(v), Some(ty)) => plain(*v, ty),
                (None, None) => true,
                _ => false,
            },
            None => false,
        },
        (Type::Option(ty), Value::Option(Some(v))) => plain(*v, *ty),
        (Type::Result(Some(ty), _), Value::Result(Ok(Some(v)))) => plain(*v, *ty),
        (Type::Result(_, Some(ty)), Value::Result(Err(Some(v)))) => plain(*v, *ty),
        (Type::Flags(names), Value::Flags(flags)) => flags == names_of(names@).filter(
            |name: Seq<char>| flags.contains(name),
        ),
        (_, Value::Resource(_)) => false,
        (_, Value::Stream(_)) => false,
        _ => true,
    }
}

/// A plain value arrives as itself, and nothing is taken for it.
proof fn lemma_plain<R>(
    cx: EncodeContext,
    rcx: ReadContext<R>,
    v: Value,
    w: Value,
    ty: Type,
    path: Seq<usize>,
    taken: Seq<u128>,
    origins: Seq<Origin<R>>,
)
    requires
        plain(v, ty),
    ensures
        delivery(cx, rcx, v, ty, path, taken) == Some(taken),
        arrives_as(cx, rcx, v, w, ty, path, origins) ==> w == v,
    decreases v, 0nat,
{
    match (ty, v) {
        (Type::List(ty), Value::List(vs)) => {
            lemma_plain_list(cx, rcx, vs, *ty, path, taken, vs.len());
            if let Value::List(ws) = w {
                if arrives_as(cx, rcx, v, w, Type::List(ty), path, origins) {
                    assert forall|i: int| 0 <= i < vs.len() implies ws[i] == vs[i] by {
                        let at = path.push(i as usize);
                        lemma_plain(cx, rcx, vs[i], ws[i], *ty, at, taken, origins);
                    }
                    assert(ws =~= vs);
                }
            }
        },
        (Type::Record(fields), Value::Record(vs)) => {
            lemma_plain_record(cx, rcx, vs, fields@, path, taken, vs.len());
            if let Value::Record(ws) = w {
                if arrives_as(cx, rcx, v, w, ty, path, origins) {
                    assert forall|i: int| 0 <= i < vs.len() implies ws[i] == vs[i] by {
                        let at = path.push(i as usize);
                        let inner = fields@[i].ty;
                        lemma_plain(cx, rcx, vs[i].1, ws[i].1, inner, at, taken, origins);
                    }
                    assert(ws =~= vs);
                }
            }
        },
        (Type::Tuple(tys), Value::Tuple(vs)) => {
            lemma_plain_tuple(cx, rcx, vs, tys@, path, taken, vs.len());
            if let Value::Tuple(ws) = w {
                if arrives_as(cx, rcx, v, w, ty, path, origins) {
                    assert forall|i: int| 0 <= i < vs.len() implies ws[i] == vs[i] by {
                        let at = path.push(i as usize);
                        lemma_plain(cx, rcx, vs[i], ws[i], tys@[i], at, taken, origins);
                    }
                    assert(ws =~= vs);
                }
            }
        },
        (Type::Variant(cases), Value::Variant(name, Some(inner))) => {
            let i = case_names(cases@).index_of_first(name)->Some_0;
            let ty = cases@[i].ty->Some_0;
            let other = match w {
                Value::Variant(_, Some(other)) => *other,
                _ => *inner,
            };
            lemma_plain(cx, rcx, *inner, other, ty, path, taken, origins);
        },
        (Type::Option(ty), Value::Option(Some(inner))) => {
            let other = match w {
                Value::Option(Some(other)) => *other,
                _ => *inner,
            };
            lemma_plain(cx, rcx, *inner, other, *ty, path, taken, origins);
        },
        (Type::Result(Some(ty), _), Value::Result(Ok(Some(inner)))) => {
            let other = match w {
                Value::Result(Ok(Some(other))) => *other,
                _ => *inner,
            };
            lemma_plain(cx, rcx, *inner, other, *ty, path, taken, origins);
        },
        (Type::Result(_, Some(ty)), Value::Result(Err(Some(inner)))) => {
            let other = match w {
                Value::Result(Err(Some(other))) => *other,
                _ => *inner,
            };
            lemma_plain(cx, rcx, *inner, other, *ty, path, taken, origins);
        },
        _ => {},
    }
}

/// Nothing is taken for the first `n` of the values.
proof fn lemma_plain_list<R>(
    cx: EncodeContext,
    rcx: ReadContext<R>,
    vs: Seq<Value>,
    ty: Type,
    path: Seq<usize>,
    taken: Seq<u128>,
    n: nat,
)
    requires
        n <= vs.len(),
        forall|i: int| 0 <= i < vs.len() ==> plain(#[trigger] vs[i], ty),
    ensures
        list_delivery(cx, rcx, vs, ty, path, taken, n) == Some(taken),
    decreases vs, n,
{
    if n > 0 {
        let at = path.push((n - 1) as usize);
        let v = vs[n - 1];
        lemma_plain_list(cx, rcx, vs, ty, path, taken, (n - 1) as nat);
        lemma_plain(cx, rcx, v, v, ty, at, taken, Seq::<Origin<R>>::empty());
    }
}

/// Nothing is taken for the first `n` of the values.
proof fn lemma_plain_tuple<R>(
    cx: EncodeContext,
    rcx: ReadContext<R>,
    vs: Seq<Value>,
    tys: Seq<Type>,
    path: Seq<usize>,
    taken: Seq<u128>,
    n: nat,
)
    requires
        n <= vs.len(),
        forall|i: int| 0 <= i < vs.len() ==> plain(#[trigger] vs[i], tys[i]),
    ensures
        tuple_delivery(cx, rcx, vs, tys, path, taken, n) == Some(taken),
    decreases vs, n,
{
    if n > 0 {
        let at = path.push((n - 1) as usize);
        let v = vs[n - 1];
        lemma_plain_tuple(cx, rcx, vs, tys, path, taken, (n - 1) as nat);
        lemma_plain(cx, rcx, v, v, tys[n - 1], at, taken, Seq::<Origin<R>>::empty());
    }
}

/// Nothing is taken for the first `n` of the field values.
proof fn lemma_plain_record<R>(
    cx: EncodeContext,
    rcx: ReadContext<R>,
    vs: Seq<(Seq<char>, Value)>,
    fields: Seq<Field>,
    path: Seq<usize>,
    taken: Seq<u128>,
    n: nat,
)
    requires
        n <= vs.len(),
        forall|i: int| 0 <= i < vs.len() ==> plain((#[trigger] vs[i]).1, fields[i].ty),
    ensures
        record_delivery(cx, rcx, vs, fields, path, taken, n) == Some(taken),
    decreases vs, n,
{
    if n > 0 {
        let at = path.push((n - 1) as usize);
        let v = vs[n - 1].1;
        lemma_plain_record(cx, rcx, vs, fields, path, taken, (n - 1) as nat);
        lemma_plain(cx, rcx, v, v, fields[n - 1].ty, at, taken, Seq::<Origin<R>>::empty());
    }
}

/// A plain value that was written reads back as itself, whatever the table of
/// shared resources holds and whatever follows the value.
pub proof fn law_plain_values_come_back<R>(
    cx: EncodeContext,
    rcx: ReadContext<R>,
    v: Value,
    ty: Type,
    path: Seq<usize>,
    rest: Seq<u8>,
)
    requires
        plain(v, ty),
        encoding(cx, v, ty, path).outcome is Ok,
        encoding(cx, v, ty, path).bytes.len() <= usize::MAX,
    ensures
        match parse(rcx, ty, path, start(encoding(cx, v, ty, path).bytes + rest)) {
            Parsed::Done(w, q) => w == v && q.rest == rest && q.taken == Seq::<u128>::empty(),
            _ => false,
        },
{
    let p = start(encoding(cx, v, ty, path).bytes + rest);
    lemma_plain(cx, rcx, v, v, ty, path, p.taken, p.origins);
    lemma_arrives(cx, rcx, v, ty, path, p, rest);
    let outcome = parse(rcx, ty, path, p);
    lemma_plain(cx, rcx, v, outcome->Done_0, ty, path, p.taken, outcome->Done_1.origins);
}

/// Two plain values of one type that are written alike are the same.
pub proof fn law_plain_values_are_told_apart(
    cx: EncodeContext,
    v: Value,
    w: Value,
    ty: Type,
    path: Seq<usize>,
)
    requires
        plain(v, ty),
        plain(w, ty),
        encoding(cx, v, ty, path).outcome is Ok,
        encoding(cx, w, ty, path).outcome is Ok,
        encoding(cx, v, ty, path).bytes == encoding(cx, w, ty, path).bytes,
        encoding(cx, v, ty, path).bytes.len() <= usize::MAX,
    ensures
        v == w,
{
    let rcx = ReadContext::<()> {
        entries: Map::empty(),
        scope: None,
        resources: seq![],
        io_streams: seq![],
    };
    law_plain_values_come_back(cx, rcx, v, ty, path, seq![]);
    law_plain_values_come_back(cx, rcx, w, ty, path, seq![]);
}

/// The handle of a shared resource that was written gives the reader what its
/// scope sees under it: the resource, which leaves the table if it is owned and
/// stays if it is borrowed; and an error, behind the handle, if the scope sees
/// nothing there, be it that another scope minted the handle or that it was taken
/// before.
pub proof fn law_handles_give_what_the_scope_sees<R>(
    rcx: ReadContext<R>,
    id: u128,
    ty: ResourceType,
    owned: bool,
    path: Seq<usize>,
    p: Progress<R>,
    rest: Seq<u8>,
)
    requires
        p.recall.len() == 0,
        !reads_as_stream(rcx, ty),
        rcx.resources.contains(ty),
        p.rest == prefixed(handle_bytes(id)) + rest,
    ensures
        parse_resource(rcx, ty, owned, path, p) == match visible(rcx, p.taken, id) {
            Some(resource) => add_origin(
                Progress {
                    rest,
                    taken: if owned {
                        p.taken.push(id)
                    } else {
                        p.taken
                    },
                    ..p
                },
                Origin::Shared(resource),
            ),
            None => Parsed::Fail(ReadError::HandleNotFound, p.taken, rest),
        },
{
    let bytes = handle_bytes(id);
    lemma2_to64();
    assert(bytes.len() == 16);
    assert(p.rest =~= unsigned_leb128(16) + (bytes + rest));
    lemma_unsigned(8, 16, p, bytes + rest);
    let q = Progress { rest: bytes + rest, ..p };
    lemma_front(q, bytes, rest);
    assert(handle_of(bytes) == id) by {
        lemma_handle_of(bytes);
    }
}

/// A value of which not all has come is waited for: what was written, cut short
/// anywhere before its end, is neither read nor refused.
pub proof fn law_values_cut_short_are_waited_for<R>(
    cx: EncodeContext,
    rcx: ReadContext<R>,
    v: Value,
    ty: Type,
    path: Seq<usize>,
    p: Progress<R>,
    n: int,
)
    requires
        p.recall.len() == 0,
        encoding(cx, v, ty, path).outcome is Ok,
        delivery(cx, rcx, v, ty, path, p.taken) is Some,
        0 <= n < encoding(cx, v, ty, path).bytes.len(),
        p.rest == encoding(cx, v, ty, path).bytes.take(n),
        p.origins.len() + encoding(cx, v, ty, path).bytes.len() <= usize::MAX,
    ensures
        parse(rcx, ty, path, p) is More,
{
    let bytes = encoding(cx, v, ty, path).bytes;
    let more = bytes.skip(n);
    let whole = appended(p, more);
    assert(whole.rest =~= bytes + Seq::<u8>::empty());
    lemma_arrives(cx, rcx, v, ty, path, whole, seq![]);
    let outcome = parse(rcx, ty, path, p);
    if !(outcome is More) {
        law_bytes_that_follow_change_nothing(rcx, ty, path, p, more);
        if let Parsed::Done(_, q) = outcome {
            assert((q.rest + more).len() > 0);
        }
    }
}

} // verus!
