//! What the bytes of a value are, and which values have them.

use vstd::prelude::*;
use vstd::utf8::{encode_scalar, encode_utf8};

use crate::buffer::little_endian;
use crate::encode::{
    case_names, encoding, list_encoding, record_encoding, resource_encoding, tuple_encoding,
    Emitted, EncodeContext, EncodeError, Request, Resolution, StreamSource,
};
use crate::flags::law_each_name_has_its_bit;
use crate::handle::handle_bytes;
use crate::leb128::{signed_leb128, unsigned_leb128};
use crate::types::{Case, Field, HostResource, ResourceType, Type};
use crate::val::{names_of, Value};

verus! {

/// Whether resources of the type are written as byte streams.
pub open spec fn is_stream_type(cx: EncodeContext, ty: ResourceType) -> bool {
    ty == ResourceType::Host(HostResource::InputStream) || cx.io_streams@.contains(ty)
}

/// Whether the resource numbered `id` is there, and all that has to be done to it
/// before it can be written as one of type `ty` was done.
pub open spec fn resource_ready(cx: EncodeContext, id: usize, ty: ResourceType) -> bool {
    id < cx.held@.len() && (if is_stream_type(cx, ty) {
        cx.held@[id as int].resolution is Stream
    } else if cx.held@[id as int].ty == ResourceType::Host(HostResource::Remote) {
        cx.held@[id as int].resolution matches Resolution::Remote(handle) && handle@.len()
            <= u32::MAX
    } else {
        cx.resources@.contains(ty) && cx.held@[id as int].resolution is Shared
    })
}

/// Case `i` is the first of that name.
pub open spec fn is_case(cases: Seq<Case>, name: Seq<char>, i: int) -> bool {
    &&& 0 <= i < cases.len()
    &&& cases[i].name@ == name
    &&& forall|j: int| 0 <= j < i ==> (#[trigger] cases[j]).name@ != name
}

/// Name `i` is the first that is `name`.
pub open spec fn is_name(names: Seq<String>, name: Seq<char>, i: int) -> bool {
    &&& 0 <= i < names.len()
    &&& names[i]@ == name
    &&& forall|j: int| 0 <= j < i ==> (#[trigger] names[j])@ != name
}

/// `v` is a value of type `ty` that can be written: it is what the type describes
/// at every level, nothing in it is too long for a 32-bit count, and its resources
/// and streams are ready. Elements and fields that the other side of the pair does
/// not have are left out of account, and so is the payload that a case lacks.
pub open spec fn writable(cx: EncodeContext, v: Value, ty: Type) -> bool
    decreases v,
{
    match (ty, v) {
        (Type::Bool, Value::Bool(_)) => true,
        (Type::S8, Value::S8(_)) => true,
        (Type::U8, Value::U8(_)) => true,
        (Type::S16, Value::S16(_)) => true,
        (Type::U16, Value::U16(_)) => true,
        (Type::S32, Value::S32(_)) => true,
        (Type::U32, Value::U32(_)) => true,
        (Type::S64, Value::S64(_)) => true,
        (Type::U64, Value::U64(_)) => true,
        (Type::Float32, Value::Float32(_)) => true,
        (Type::Float64, Value::Float64(_)) => true,
        (Type::Char, Value::Char(_)) => true,
        (Type::String, Value::String(s)) => encode_utf8(s).len() <= u32::MAX,
        (Type::List(item), Value::List(vs)) => {
            &&& vs.len() <= u32::MAX
            &&& forall|i: int| 0 <= i < vs.len() ==> writable(cx, #[trigger] vs[i], *item)
        },
        (Type::Record(fields), Value::Record(vs)) => forall|i: int|
            0 <= i < vs.len() && i < fields@.len() ==> writable(
                cx,
                (#[trigger] vs[i]).1,
                fields@[i].ty,
            ),
        (Type::Tuple(tys), Value::Tuple(vs)) => forall|i: int|
            0 <= i < vs.len() && i < tys@.len() ==> writable(cx, #[trigger] vs[i], tys@[i]),
        (Type::Variant(cases), Value::Variant(name, payload)) => {
            &&& cases@.len() <= u32::MAX
            &&& exists|i: int| #[trigger]
                is_case(cases@, name, i) && match payload {
                    None => true,
                    Some(v) => match cases@[i].ty {
                        Some(ty) => writable(cx, *v, ty),
                        None => false,
                    },
                }
        },
        (Type::Enum(names), Value::Enum(name)) => {
            &&& names@.len() <= u32::MAX
            &&& exists|i: int| 0 <= i < names@.len() && (#[trigger] names@[i])@ == name
        },
        (Type::Option(_), Value::Option(None)) => true,
        (Type::Option(ty), Value::Option(Some(v))) => writable(cx, *v, *ty),
        (Type::Result(None, _), Value::Result(Ok(None))) => true,
        (Type::Result(Some(ty), _), Value::Result(Ok(Some(v)))) => writable(cx, *v, *ty),
        (Type::Result(_, None), Value::Result(Err(None))) => true,
        (Type::Result(_, Some(ty)), Value::Result(Err(Some(v)))) => writable(cx, *v, *ty),
        (Type::Flags(_), Value::Flags(_)) => true,
        (Type::Own(ty), Value::Resource(id)) => resource_ready(cx, id, ty),
        (Type::Borrow(ty), Value::Resource(id)) => resource_ready(cx, id, ty),
        (Type::Stream(Some(item)), Value::Stream(id)) => {
            &&& *item is U8
            &&& id < cx.streams@.len()
            &&& cx.streams@[id as int] is Stream
        },
        _ => false,
    }
}

/// The place of a name that occurs is the first one.
proof fn lemma_case_place(cases: Seq<Case>, name: Seq<char>)
    ensures
        match case_names(cases).index_of_first(name) {
            Some(i) => is_case(cases, name, i) && forall|k: int| #[trigger]
                is_case(cases, name, k) ==> k == i,
            None => forall|k: int| !#[trigger] is_case(cases, name, k) && (0 <= k < cases.len()
                ==> cases[k].name@ != name),
        },
{
    let all = case_names(cases);
    all.index_of_first_ensures(name);
    match all.index_of_first(name) {
        Some(i) => {
            assert(cases[i].name@ == all[i]);
            assert forall|j: int| 0 <= j < i implies (#[trigger] cases[j]).name@ != name by {
                assert(all[j] != name);
            }
            assert forall|k: int| #[trigger] is_case(cases, name, k) implies k == i by {
                if i < k {
                    assert(cases[i].name@ != name);
                } else if k < i {
                    assert(cases[k].name@ != name);
                }
            }
        },
        None => {
            assert forall|k: int| !#[trigger] is_case(cases, name, k) && (0 <= k < cases.len()
                ==> cases[k].name@ != name) by {
                if 0 <= k < cases.len() {
                    assert(all[k] == cases[k].name@);
                }
            }
        },
    }
}

/// The place of a name that occurs is the first one.
proof fn lemma_name_place(names: Seq<String>, name: Seq<char>)
    ensures
        match names_of(names).index_of_first(name) {
            Some(i) => is_name(names, name, i) && forall|k: int| #[trigger]
                is_name(names, name, k) ==> k == i,
            None => forall|k: int| 0 <= k < names.len() ==> (#[trigger] names[k])@ != name,
        },
{
    let all = names_of(names);
    all.index_of_first_ensures(name);
    match all.index_of_first(name) {
        Some(i) => {
            assert(names[i]@ == all[i]);
            assert forall|j: int| 0 <= j < i implies (#[trigger] names[j])@ != name by {
                assert(all[j] != name);
            }
            assert forall|k: int| #[trigger] is_name(names, name, k) implies k == i by {
                if i < k {
                    assert(names[i]@ != name);
                } else if k < i {
                    assert(names[k]@ != name);
                }
            }
        },
        None => {
            assert forall|k: int| 0 <= k < names.len() implies (#[trigger] names[k])@ != name by {
                assert(all[k] == names[k]@);
            }
        },
    }
}

/// A value is written if and only if it can be: no value that its type describes is
/// refused, and no other is accepted.
pub proof fn law_writable_values_are_written(
    cx: EncodeContext,
    v: Value,
    ty: Type,
    path: Seq<usize>,
)
    ensures
        encoding(cx, v, ty, path).outcome is Ok <==> writable(cx, v, ty),
    decreases v, 0nat,
{
    match (ty, v) {
        (Type::List(item), Value::List(vs)) => {
            lemma_list_writable(cx, vs, *item, path, vs.len());
        },
        (Type::Record(fields), Value::Record(vs)) => {
            let n = if vs.len() <= fields@.len() {
                vs.len()
            } else {
                fields@.len()
            };
            lemma_record_writable(cx, vs, fields@, path, n);
        },
        (Type::Tuple(tys), Value::Tuple(vs)) => {
            let n = if vs.len() <= tys@.len() {
                vs.len()
            } else {
                tys@.len()
            };
            lemma_tuple_writable(cx, vs, tys@, path, n);
        },
        (Type::Variant(cases), Value::Variant(name, payload)) => {
            lemma_case_place(cases@, name);
            if let Some(i) = case_names(cases@).index_of_first(name) {
                assert(is_case(cases@, name, i));
                if let (Some(inner), Some(ty)) = (payload, cases@[i].ty) {
                    law_writable_values_are_written(cx, *inner, ty, path);
                }
            }
        },
        (Type::Enum(names), Value::Enum(name)) => {
            lemma_name_place(names@, name);
            if let Some(i) = names_of(names@).index_of_first(name) {
                assert(names@[i]@ == name);
            }
        },
        (Type::Option(ty), Value::Option(Some(inner))) => {
            law_writable_values_are_written(cx, *inner, *ty, path);
        },
        (Type::Result(Some(ty), _), Value::Result(Ok(Some(inner)))) => {
            law_writable_values_are_written(cx, *inner, *ty, path);
        },
        (Type::Result(_, Some(ty)), Value::Result(Err(Some(inner)))) => {
            law_writable_values_are_written(cx, *inner, *ty, path);
        },
        _ => {},
    }
}

/// The first `n` values are written if and only if each can be.
proof fn lemma_list_writable(cx: EncodeContext, vs: Seq<Value>, ty: Type, path: Seq<usize>, n: nat)
    requires
        n <= vs.len(),
    ensures
        list_encoding(cx, vs, ty, path, n).outcome is Ok <==> forall|i: int|
            0 <= i < n ==> writable(cx, #[trigger] vs[i], ty),
    decreases vs, n,
{
    if n > 0 {
        lemma_list_writable(cx, vs, ty, path, (n - 1) as nat);
        law_writable_values_are_written(cx, vs[n - 1], ty, path.push((n - 1) as usize));
    }
}

/// The first `n` values are written if and only if each can be.
proof fn lemma_tuple_writable(
    cx: EncodeContext,
    vs: Seq<Value>,
    tys: Seq<Type>,
    path: Seq<usize>,
    n: nat,
)
    requires
        n <= vs.len(),
    ensures
        tuple_encoding(cx, vs, tys, path, n).outcome is Ok <==> forall|i: int|
            0 <= i < n ==> writable(cx, #[trigger] vs[i], tys[i]),
    decreases vs, n,
{
    if n > 0 {
        lemma_tuple_writable(cx, vs, tys, path, (n - 1) as nat);
        law_writable_values_are_written(cx, vs[n - 1], tys[n - 1], path.push((n - 1) as usize));
    }
}

/// The first `n` field values are written if and only if each can be.
proof fn lemma_record_writable(
    cx: EncodeContext,
    vs: Seq<(Seq<char>, Value)>,
    fields: Seq<Field>,
    path: Seq<usize>,
    n: nat,
)
    requires
        n <= vs.len(),
    ensures
        record_encoding(cx, vs, fields, path, n).outcome is Ok <==> forall|i: int|
            0 <= i < n ==> writable(cx, (#[trigger] vs[i]).1, fields[i].ty),
    decreases vs, n,
{
    if n > 0 {
        lemma_record_writable(cx, vs, fields, path, (n - 1) as nat);
        let at = path.push((n - 1) as usize);
        law_writable_values_are_written(cx, vs[n - 1].1, fields[n - 1].ty, at);
    }
}

/// These bytes were written, with nothing to follow later.
pub open spec fn wrote(e: Emitted, bytes: Seq<u8>) -> bool {
    e.bytes == bytes && (e.outcome matches Ok(deferred) && deferred.len() == 0)
}

/// These bytes were written, and then came the error.
pub open spec fn failed(e: Emitted, bytes: Seq<u8>, error: EncodeError) -> bool {
    e.bytes == bytes && (e.outcome matches Err(x) && x == error)
}

/// The bytes of the values that hold no other values: a byte is itself, wider
/// integers are LEB128, signed or not as the type is, floating-point numbers their
/// bits in little-endian order, characters their UTF-8 and strings the same with its
/// length in front.
pub proof fn law_scalars_are_written(cx: EncodeContext, v: Value, path: Seq<usize>)
    ensures
        match v {
            Value::Bool(b) => wrote(
                encoding(cx, v, Type::Bool, path),
                if b {
                    seq![1u8]
                } else {
                    seq![0u8]
                },
            ),
            Value::U8(n) => wrote(encoding(cx, v, Type::U8, path), seq![n]),
            Value::S8(n) => wrote(
                encoding(cx, v, Type::S8, path),
                if n >= 0 {
                    seq![n as u8]
                } else {
                    seq![(n + 256) as u8]
                },
            ),
            Value::U16(n) => wrote(encoding(cx, v, Type::U16, path), unsigned_leb128(n as nat)),
            Value::U32(n) => wrote(encoding(cx, v, Type::U32, path), unsigned_leb128(n as nat)),
            Value::U64(n) => wrote(encoding(cx, v, Type::U64, path), unsigned_leb128(n as nat)),
            Value::S16(n) => wrote(encoding(cx, v, Type::S16, path), signed_leb128(n as int)),
            Value::S32(n) => wrote(encoding(cx, v, Type::S32, path), signed_leb128(n as int)),
            Value::S64(n) => wrote(encoding(cx, v, Type::S64, path), signed_leb128(n as int)),
            Value::Float32(bits) => wrote(
                encoding(cx, v, Type::Float32, path),
                little_endian(bits as nat, 4),
            ),
            Value::Float64(bits) => wrote(
                encoding(cx, v, Type::Float64, path),
                little_endian(bits as nat, 8),
            ),
            Value::Char(c) => wrote(encoding(cx, v, Type::Char, path), encode_scalar(c as u32)),
            Value::String(s) => if encode_utf8(s).len() <= u32::MAX {
                wrote(
                    encoding(cx, v, Type::String, path),
                    unsigned_leb128(encode_utf8(s).len()) + encode_utf8(s),
                )
            } else {
                failed(encoding(cx, v, Type::String, path), seq![], EncodeError::StringTooLong)
            },
            _ => true,
        },
{
    if let Value::S8(n) = v {
        assert(n >= 0 ==> n as u8 == n as int) by (bit_vector);
        assert(n < 0 ==> n as u8 == n + 256) by (bit_vector);
    }
}

/// The bytes of what may or may not hold a value: a status byte, and the bytes of
/// the value if there is one, with the streams of the value where they are.
pub proof fn law_statuses_are_written(
    cx: EncodeContext,
    v: Value,
    ty: Type,
    other: Option<Box<Type>>,
    path: Seq<usize>,
)
    ensures
        wrote(
            encoding(cx, Value::Option(None), Type::Option(Box::new(ty)), path),
            seq![0u8],
        ),
        wrote(
            encoding(cx, Value::Result(Ok(None)), Type::Result(None, other), path),
            seq![0u8],
        ),
        wrote(
            encoding(cx, Value::Result(Err(None)), Type::Result(other, None), path),
            seq![1u8],
        ),
        ({
            let inner = encoding(cx, v, ty, path);
            let some = encoding(
                cx,
                Value::Option(Some(Box::new(v))),
                Type::Option(Box::new(ty)),
                path,
            );
            let ok = encoding(
                cx,
                Value::Result(Ok(Some(Box::new(v)))),
                Type::Result(Some(Box::new(ty)), other),
                path,
            );
            let err = encoding(
                cx,
                Value::Result(Err(Some(Box::new(v)))),
                Type::Result(other, Some(Box::new(ty))),
                path,
            );
            &&& some.bytes == seq![1u8] + inner.bytes
            &&& some.outcome == inner.outcome
            &&& ok.bytes == seq![0u8] + inner.bytes
            &&& ok.outcome == inner.outcome
            &&& err.bytes == seq![1u8] + inner.bytes
            &&& err.outcome == inner.outcome
        }),
        failed(
            encoding(cx, Value::Result(Ok(Some(Box::new(v)))), Type::Result(None, other), path),
            seq![],
            EncodeError::ResultOkUnknownType,
        ),
        failed(
            encoding(
                cx,
                Value::Result(Ok(None)),
                Type::Result(Some(Box::new(ty)), other),
                path,
            ),
            seq![],
            EncodeError::ResultOkMissing,
        ),
        failed(
            encoding(cx, Value::Result(Err(Some(Box::new(v)))), Type::Result(other, None), path),
            seq![],
            EncodeError::ResultErrUnknownType,
        ),
        failed(
            encoding(
                cx,
                Value::Result(Err(None)),
                Type::Result(other, Some(Box::new(ty))),
                path,
            ),
            seq![],
            EncodeError::ResultErrMissing,
        ),
{
    let inner = encoding(cx, v, ty, path);
    if let Ok(d) = inner.outcome {
        assert(Seq::<(Seq<usize>, StreamSource)>::empty() + d =~= d);
    }
}

/// The bytes of a case: the number of the first case of that name, counted from
/// zero, and the bytes of the payload if there is one. A name that the type does not
/// have is refused, and so is a payload that it does not have.
pub proof fn law_cases_are_written(
    cx: EncodeContext,
    cases: Vec<Case>,
    name: Seq<char>,
    payload: Option<Box<Value>>,
    i: int,
    path: Seq<usize>,
)
    ensures
        ({
            let e = encoding(cx, Value::Variant(name, payload), Type::Variant(cases), path);
            &&& cases@.len() > u32::MAX ==> failed(e, seq![], EncodeError::TooManyCases)
            &&& cases@.len() <= u32::MAX && (forall|k: int|
                0 <= k < cases@.len() ==> (#[trigger] cases@[k]).name@ != name) ==> failed(
                e,
                seq![],
                EncodeError::UnknownVariantDiscriminant,
            )
            &&& cases@.len() <= u32::MAX && is_case(cases@, name, i) ==> match (
                payload,
                cases@[i].ty,
            ) {
                (None, _) => wrote(e, unsigned_leb128(i as nat)),
                (Some(_), None) => failed(
                    e,
                    unsigned_leb128(i as nat),
                    EncodeError::VariantTypeMissing,
                ),
                (Some(v), Some(ty)) => {
                    let inner = encoding(cx, *v, ty, path);
                    &&& e.bytes == unsigned_leb128(i as nat) + inner.bytes
                    &&& e.outcome == inner.outcome
                },
            }
        }),
{
    lemma_case_place(cases@, name);
    if cases@.len() <= u32::MAX && is_case(cases@, name, i) {
        let tag = unsigned_leb128(i as nat);
        assert(tag + Seq::<u8>::empty() =~= tag);
        if let (Some(v), Some(ty)) = (payload, cases@[i].ty) {
            if let Ok(d) = encoding(cx, *v, ty, path).outcome {
                assert(Seq::<(Seq<usize>, StreamSource)>::empty() + d =~= d);
            }
        }
    }
}

/// The bytes of an enum: the number of the first name that it is, counted from
/// zero. A name that the type does not have is refused.
pub proof fn law_enums_are_written(
    cx: EncodeContext,
    names: Vec<String>,
    name: Seq<char>,
    i: int,
    path: Seq<usize>,
)
    ensures
        ({
            let e = encoding(cx, Value::Enum(name), Type::Enum(names), path);
            &&& names@.len() > u32::MAX ==> failed(e, seq![], EncodeError::TooManyNames)
            &&& names@.len() <= u32::MAX && (forall|k: int|
                0 <= k < names@.len() ==> (#[trigger] names@[k])@ != name) ==> failed(
                e,
                seq![],
                EncodeError::UnknownEnumDiscriminant,
            )
            &&& names@.len() <= u32::MAX && is_name(names@, name, i) ==> wrote(
                e,
                unsigned_leb128(i as nat),
            )
        }),
{
    lemma_name_place(names@, name);
}

/// The bytes of flags: bit `i % 8` of byte `i / 8` tells whether name `i` is among
/// them, in no more bytes than that takes, but in one at least.
pub proof fn law_flags_are_written(
    cx: EncodeContext,
    names: Vec<String>,
    flags: Seq<Seq<char>>,
    path: Seq<usize>,
)
    ensures
        ({
            let e = encoding(cx, Value::Flags(flags), Type::Flags(names), path);
            &&& wrote(e, e.bytes)
            &&& e.bytes.len() >= 1
            &&& names@.len() <= 8 * e.bytes.len()
            &&& e.bytes.len() == 1 || names@.len() > 8 * (e.bytes.len() - 1)
            &&& forall|i: int|
                0 <= i < 8 * e.bytes.len() ==> ((#[trigger] (e.bytes[i / 8] & (1u8 << ((i
                    % 8) as u8)))) != 0 <==> i < names@.len() && flags.contains(names@[i]@))
        }),
{
    let e = encoding(cx, Value::Flags(flags), Type::Flags(names), path);
    law_each_name_has_its_bit(names_of(names@), flags, 0);
    assert forall|i: int| 0 <= i < 8 * e.bytes.len() implies ((#[trigger] (e.bytes[i / 8] & (1u8
        << ((i % 8) as u8)))) != 0 <==> i < names@.len() && flags.contains(names@[i]@)) by {
        law_each_name_has_its_bit(names_of(names@), flags, i);
    }
}

/// What the parts of something are written as, one after the other.
pub open spec fn part_bytes(parts: Seq<Emitted>) -> Seq<u8> {
    parts.map_values(|e: Emitted| e.bytes).flatten_alt()
}

/// The streams that the parts of something defer, in order.
pub open spec fn part_streams(parts: Seq<Emitted>) -> Seq<(Seq<usize>, StreamSource)> {
    parts.map_values(|e: Emitted| e.outcome->Ok_0).flatten_alt()
}

/// The parts, all of which are written, come one after the other behind `front`; or
/// those before the `k`-th do, and it is the `k`-th that cannot be written.
pub open spec fn in_turn(e: Emitted, front: Seq<u8>, parts: Seq<Emitted>, k: int) -> bool {
    &&& (forall|i: int| 0 <= i < parts.len() ==> (#[trigger] parts[i]).outcome is Ok) ==> {
        &&& e.bytes == front + part_bytes(parts)
        &&& e.outcome matches Ok(deferred) && deferred == part_streams(parts)
    }
    &&& 0 <= k < parts.len() && parts[k].outcome is Err && (forall|i: int|
        0 <= i < k ==> (#[trigger] parts[i]).outcome is Ok) ==> {
        &&& e.bytes == front + part_bytes(parts.take(k)) + parts[k].bytes
        &&& e.outcome == parts[k].outcome
    }
}

/// The elements of a list.
pub open spec fn elements(cx: EncodeContext, vs: Seq<Value>, ty: Type, path: Seq<usize>) -> Seq<
    Emitted,
> {
    Seq::new(vs.len(), |i: int| encoding(cx, vs[i], ty, path.push(i as usize)))
}

/// The bytes of a list: how many elements there are, and the bytes of each in turn,
/// with the streams of the `i`-th at the path that ends in `i`. It is refused only if
/// there are more than fit in 32 bits, or for the first element that is.
#[verifier::spinoff_prover]
pub proof fn law_lists_are_written(
    cx: EncodeContext,
    vs: Seq<Value>,
    ty: Type,
    path: Seq<usize>,
    k: int,
)
    ensures
        ({
            let e = encoding(cx, Value::List(vs), Type::List(Box::new(ty)), path);
            &&& vs.len() > u32::MAX ==> failed(e, seq![], EncodeError::ListTooLong)
            &&& vs.len() <= u32::MAX ==> in_turn(
                e,
                unsigned_leb128(vs.len()),
                elements(cx, vs, ty, path),
                k,
            )
        }),
{
    let parts = elements(cx, vs, ty, path);
    let inner = list_encoding(cx, vs, ty, path, vs.len());
    let front = unsigned_leb128(vs.len());
    if forall|i: int| 0 <= i < parts.len() ==> (#[trigger] parts[i]).outcome is Ok {
        lemma_list_in_turn(cx, vs, ty, path, vs.len());
        assert(parts.take(vs.len() as int) =~= parts);
        let d = inner.outcome->Ok_0;
        assert(Seq::<(Seq<usize>, StreamSource)>::empty() + d =~= d);
    }
    if 0 <= k < parts.len() && parts[k].outcome is Err && (forall|i: int|
        0 <= i < k ==> (#[trigger] parts[i]).outcome is Ok) {
        lemma_list_in_turn(cx, vs, ty, path, k as nat);
        lemma_list_ends(cx, vs, ty, path, k, vs.len());
        let bytes = part_bytes(parts.take(k));
        assert(front + (bytes + parts[k].bytes) =~= front + bytes + parts[k].bytes);
    }
}

/// The first `n` elements come one after the other.
proof fn lemma_list_in_turn(cx: EncodeContext, vs: Seq<Value>, ty: Type, path: Seq<usize>, n: nat)
    requires
        n <= vs.len(),
        forall|i: int|
            0 <= i < n ==> (#[trigger] elements(cx, vs, ty, path)[i]).outcome is Ok,
    ensures
        ({
            let e = list_encoding(cx, vs, ty, path, n);
            let parts = elements(cx, vs, ty, path).take(n as int);
            &&& e.bytes == part_bytes(parts)
            &&& e.outcome matches Ok(deferred) && deferred == part_streams(parts)
        }),
    decreases n,
{
    let parts = elements(cx, vs, ty, path).take(n as int);
    if n > 0 {
        lemma_list_in_turn(cx, vs, ty, path, (n - 1) as nat);
        assert(elements(cx, vs, ty, path)[n - 1].outcome is Ok);
        lemma_one_more(elements(cx, vs, ty, path), n);
    } else {
        assert(part_bytes(parts) =~= seq![]);
        assert(part_streams(parts) =~= seq![]);
    }
}

/// Nothing comes after an element that cannot be written.
proof fn lemma_list_ends(
    cx: EncodeContext,
    vs: Seq<Value>,
    ty: Type,
    path: Seq<usize>,
    k: int,
    n: nat,
)
    requires
        0 <= k < n <= vs.len(),
        list_encoding(cx, vs, ty, path, k as nat).outcome is Ok,
        encoding(cx, vs[k], ty, path.push(k as usize)).outcome is Err,
    ensures
        ({
            let e = list_encoding(cx, vs, ty, path, n);
            let last = encoding(cx, vs[k], ty, path.push(k as usize));
            &&& e.bytes == list_encoding(cx, vs, ty, path, k as nat).bytes + last.bytes
            &&& e.outcome == last.outcome
        }),
    decreases n,
{
    if k < n - 1 {
        lemma_list_ends(cx, vs, ty, path, k, (n - 1) as nat);
    }
}

/// One more part.
proof fn lemma_one_more(parts: Seq<Emitted>, n: nat)
    requires
        0 < n <= parts.len(),
    ensures
        part_bytes(parts.take(n as int)) == part_bytes(parts.take(n - 1)) + parts[n - 1].bytes,
        part_streams(parts.take(n as int)) == part_streams(parts.take(n - 1)) + parts[n
            - 1].outcome->Ok_0,
{
    let (all, front) = (parts.take(n as int), parts.take(n - 1));
    let bytes = |e: Emitted| e.bytes;
    let streams = |e: Emitted| e.outcome->Ok_0;
    assert(all.map_values(bytes).drop_last() =~= front.map_values(bytes));
    assert(all.map_values(streams).drop_last() =~= front.map_values(streams));
}

/// The elements of a tuple, as far as there are both values and types.
pub open spec fn tuple_elements(
    cx: EncodeContext,
    vs: Seq<Value>,
    tys: Seq<Type>,
    path: Seq<usize>,
) -> Seq<Emitted> {
    Seq::new(
        if vs.len() <= tys.len() {
            vs.len()
        } else {
            tys.len()
        },
        |i: int| encoding(cx, vs[i], tys[i], path.push(i as usize)),
    )
}

/// The bytes of a tuple: the bytes of each element in turn, under the type at its
/// place, with the streams of the `i`-th at the path that ends in `i`.
pub proof fn law_tuples_are_written(
    cx: EncodeContext,
    vs: Seq<Value>,
    tys: Vec<Type>,
    path: Seq<usize>,
    k: int,
)
    ensures
        in_turn(
            encoding(cx, Value::Tuple(vs), Type::Tuple(tys), path),
            seq![],
            tuple_elements(cx, vs, tys@, path),
            k,
        ),
{
    let parts = tuple_elements(cx, vs, tys@, path);
    law_values_are_written_in_turn(cx, vs, tys@, path, k);
    assert(Seq::<u8>::empty() + part_bytes(parts) =~= part_bytes(parts));
}

/// Values that are written one after the other, as the elements of a tuple and the
/// results of a call are.
pub proof fn law_values_are_written_in_turn(
    cx: EncodeContext,
    vs: Seq<Value>,
    tys: Seq<Type>,
    path: Seq<usize>,
    k: int,
)
    ensures
        in_turn(
            tuple_encoding(cx, vs, tys, path, tuple_elements(cx, vs, tys, path).len()),
            seq![],
            tuple_elements(cx, vs, tys, path),
            k,
        ),
{
    let parts = tuple_elements(cx, vs, tys, path);
    let n = parts.len();
    if forall|i: int| 0 <= i < parts.len() ==> (#[trigger] parts[i]).outcome is Ok {
        lemma_tuple_in_turn(cx, vs, tys, path, n);
        assert(parts.take(n as int) =~= parts);
        assert(Seq::<u8>::empty() + part_bytes(parts) =~= part_bytes(parts));
    }
    if 0 <= k < parts.len() && parts[k].outcome is Err && (forall|i: int|
        0 <= i < k ==> (#[trigger] parts[i]).outcome is Ok) {
        lemma_tuple_in_turn(cx, vs, tys, path, k as nat);
        lemma_tuple_ends(cx, vs, tys, path, k, n);
        let bytes = part_bytes(parts.take(k));
        assert(Seq::<u8>::empty() + bytes + parts[k].bytes =~= bytes + parts[k].bytes);
    }
}

/// The first `n` elements come one after the other.
proof fn lemma_tuple_in_turn(
    cx: EncodeContext,
    vs: Seq<Value>,
    tys: Seq<Type>,
    path: Seq<usize>,
    n: nat,
)
    requires
        n <= tuple_elements(cx, vs, tys, path).len(),
        forall|i: int|
            0 <= i < n ==> (#[trigger] tuple_elements(cx, vs, tys, path)[i]).outcome is Ok,
    ensures
        ({
            let e = tuple_encoding(cx, vs, tys, path, n);
            let parts = tuple_elements(cx, vs, tys, path).take(n as int);
            &&& e.bytes == part_bytes(parts)
            &&& e.outcome matches Ok(deferred) && deferred == part_streams(parts)
        }),
    decreases n,
{
    let parts = tuple_elements(cx, vs, tys, path).take(n as int);
    if n > 0 {
        lemma_tuple_in_turn(cx, vs, tys, path, (n - 1) as nat);
        assert(tuple_elements(cx, vs, tys, path)[n - 1].outcome is Ok);
        lemma_one_more(tuple_elements(cx, vs, tys, path), n);
    } else {
        assert(part_bytes(parts) =~= seq![]);
        assert(part_streams(parts) =~= seq![]);
    }
}

/// Nothing comes after an element that cannot be written.
proof fn lemma_tuple_ends(
    cx: EncodeContext,
    vs: Seq<Value>,
    tys: Seq<Type>,
    path: Seq<usize>,
    k: int,
    n: nat,
)
    requires
        0 <= k < n <= vs.len(),
        tuple_encoding(cx, vs, tys, path, k as nat).outcome is Ok,
        encoding(cx, vs[k], tys[k], path.push(k as usize)).outcome is Err,
    ensures
        ({
            let e = tuple_encoding(cx, vs, tys, path, n);
            let last = encoding(cx, vs[k], tys[k], path.push(k as usize));
            &&& e.bytes == tuple_encoding(cx, vs, tys, path, k as nat).bytes + last.bytes
            &&& e.outcome == last.outcome
        }),
    decreases n,
{
    if k < n - 1 {
        lemma_tuple_ends(cx, vs, tys, path, k, (n - 1) as nat);
    }
}

/// The fields of a record, as far as there are both values and types.
pub open spec fn record_elements(
    cx: EncodeContext,
    vs: Seq<(Seq<char>, Value)>,
    fields: Seq<Field>,
    path: Seq<usize>,
) -> Seq<Emitted> {
    Seq::new(
        if vs.len() <= fields.len() {
            vs.len()
        } else {
            fields.len()
        },
        |i: int| encoding(cx, vs[i].1, fields[i].ty, path.push(i as usize)),
    )
}

/// The bytes of a record: the bytes of each field in turn, under the type at its
/// place, whatever the names, with the streams of the `i`-th at the path that ends
/// in `i`.
pub proof fn law_records_are_written(
    cx: EncodeContext,
    vs: Seq<(Seq<char>, Value)>,
    fields: Vec<Field>,
    path: Seq<usize>,
    k: int,
)
    ensures
        in_turn(
            encoding(cx, Value::Record(vs), Type::Record(fields), path),
            seq![],
            record_elements(cx, vs, fields@, path),
            k,
        ),
{
    let parts = record_elements(cx, vs, fields@, path);
    let n = parts.len();
    if forall|i: int| 0 <= i < parts.len() ==> (#[trigger] parts[i]).outcome is Ok {
        lemma_record_in_turn(cx, vs, fields@, path, n);
        assert(parts.take(n as int) =~= parts);
        assert(Seq::<u8>::empty() + part_bytes(parts) =~= part_bytes(parts));
    }
    if 0 <= k < parts.len() && parts[k].outcome is Err && (forall|i: int|
        0 <= i < k ==> (#[trigger] parts[i]).outcome is Ok) {
        lemma_record_in_turn(cx, vs, fields@, path, k as nat);
        lemma_record_ends(cx, vs, fields@, path, k, n);
        let bytes = part_bytes(parts.take(k));
        assert(Seq::<u8>::empty() + bytes + parts[k].bytes =~= bytes + parts[k].bytes);
    }
}

/// The first `n` fields come one after the other.
proof fn lemma_record_in_turn(
    cx: EncodeContext,
    vs: Seq<(Seq<char>, Value)>,
    fields: Seq<Field>,
    path: Seq<usize>,
    n: nat,
)
    requires
        n <= record_elements(cx, vs, fields, path).len(),
        forall|i: int|
            0 <= i < n ==> (#[trigger] record_elements(cx, vs, fields, path)[i]).outcome is Ok,
    ensures
        ({
            let e = record_encoding(cx, vs, fields, path, n);
            let parts = record_elements(cx, vs, fields, path).take(n as int);
            &&& e.bytes == part_bytes(parts)
            &&& e.outcome matches Ok(deferred) && deferred == part_streams(parts)
        }),
    decreases n,
{
    let parts = record_elements(cx, vs, fields, path).take(n as int);
    if n > 0 {
        lemma_record_in_turn(cx, vs, fields, path, (n - 1) as nat);
        assert(record_elements(cx, vs, fields, path)[n - 1].outcome is Ok);
        lemma_one_more(record_elements(cx, vs, fields, path), n);
    } else {
        assert(part_bytes(parts) =~= seq![]);
        assert(part_streams(parts) =~= seq![]);
    }
}

/// Nothing comes after a field that cannot be written.
proof fn lemma_record_ends(
    cx: EncodeContext,
    vs: Seq<(Seq<char>, Value)>,
    fields: Seq<Field>,
    path: Seq<usize>,
    k: int,
    n: nat,
)
    requires
        0 <= k < n <= vs.len(),
        record_encoding(cx, vs, fields, path, k as nat).outcome is Ok,
        encoding(cx, vs[k].1, fields[k].ty, path.push(k as usize)).outcome is Err,
    ensures
        ({
            let e = record_encoding(cx, vs, fields, path, n);
            let last = encoding(cx, vs[k].1, fields[k].ty, path.push(k as usize));
            &&& e.bytes == record_encoding(cx, vs, fields, path, k as nat).bytes + last.bytes
            &&& e.outcome == last.outcome
        }),
    decreases n,
{
    if k < n - 1 {
        lemma_record_ends(cx, vs, fields, path, k, (n - 1) as nat);
    }
}

/// What comes of writing the resource numbered `id` as one of type `ty`, from what
/// is known of it.
///
/// As a byte stream it is written as an empty chunk, with its own bytes to follow at
/// its path; it has to be taken out of the store first, and must be owned for that.
/// A remote one is written as its handle, with the length in front; the handle has
/// to be fetched first, in the way that fits whether the resource is owned. One of a
/// type that the component exports is written as the sixteen bytes of the handle
/// that it is shared under, with their length in front. What was asked for and failed
/// fails the value, and nothing else is written at all.
pub proof fn law_resources_are_written(
    cx: EncodeContext,
    id: usize,
    ty: ResourceType,
    path: Seq<usize>,
)
    ensures
        ({
            let e = encoding(cx, Value::Resource(id), Type::Own(ty), path);
            &&& encoding(cx, Value::Resource(id), Type::Borrow(ty), path) == e
            &&& id >= cx.held@.len() ==> failed(e, seq![], EncodeError::UnknownHandle(id))
            &&& id < cx.held@.len() ==> {
                let held = cx.held@[id as int];
                let remote = held.ty == ResourceType::Host(HostResource::Remote);
                let shared = cx.resources@.contains(ty);
                &&& is_stream_type(cx, ty) ==> match held.resolution {
                    Resolution::Stream => {
                        &&& e.bytes == seq![0u8]
                        &&& e.outcome matches Ok(deferred) && deferred == seq![
                            (path, StreamSource::Resource(id)),
                        ]
                    },
                    Resolution::Failed => failed(e, seq![], EncodeError::ResourceFailed(id)),
                    Resolution::Downcast { owned: true } => failed(
                        e,
                        seq![],
                        EncodeError::Pending(id, Request::TakeStream),
                    ),
                    Resolution::Downcast { owned: false } => failed(
                        e,
                        seq![],
                        EncodeError::BorrowedStream,
                    ),
                    _ => failed(e, seq![], EncodeError::Pending(id, Request::DowncastStream)),
                }
                &&& !is_stream_type(cx, ty) && remote ==> match held.resolution {
                    Resolution::Remote(handle) => if handle@.len() <= u32::MAX {
                        wrote(e, unsigned_leb128(handle@.len()) + handle@)
                    } else {
                        failed(e, seq![], EncodeError::HandleTooLong)
                    },
                    Resolution::Failed => failed(e, seq![], EncodeError::ResourceFailed(id)),
                    Resolution::Downcast { owned: true } => failed(
                        e,
                        seq![],
                        EncodeError::Pending(id, Request::DeleteRemote),
                    ),
                    Resolution::Downcast { owned: false } => failed(
                        e,
                        seq![],
                        EncodeError::Pending(id, Request::GetRemote),
                    ),
                    _ => failed(e, seq![], EncodeError::Pending(id, Request::DowncastRemote)),
                }
                &&& !is_stream_type(cx, ty) && !remote && shared ==> match held.resolution {
                    Resolution::Shared(handle) => wrote(e, seq![16u8] + handle_bytes(handle)),
                    Resolution::Refused(handle) => failed(
                        e,
                        seq![16u8] + handle_bytes(handle),
                        EncodeError::ResourceFailed(id),
                    ),
                    Resolution::Failed => failed(e, seq![], EncodeError::ResourceFailed(id)),
                    _ => failed(e, seq![], EncodeError::Pending(id, Request::Share)),
                }
                &&& !is_stream_type(cx, ty) && !remote && !shared ==> failed(
                    e,
                    seq![],
                    EncodeError::UnsupportedHostResource,
                )
            }
        }),
{
    assert(unsigned_leb128(16) =~= seq![16u8]);
    if id < cx.held@.len() {
        if let Resolution::Refused(handle) = cx.held@[id as int].resolution {
            let bytes = seq![16u8] + handle_bytes(handle);
            assert(bytes + Seq::<u8>::empty() =~= bytes);
        }
    }
    assert(encoding(cx, Value::Resource(id), Type::Own(ty), path) == resource_encoding(
        cx,
        id,
        ty,
        path,
    ));
}

/// What comes of writing the stream numbered `id`: a stream of bytes is written as an
/// empty chunk, with its own bytes to follow at its path, once it was drained.
pub proof fn law_streams_are_written(
    cx: EncodeContext,
    id: usize,
    item: Option<Box<Type>>,
    path: Seq<usize>,
)
    ensures
        ({
            let e = encoding(cx, Value::Stream(id), Type::Stream(item), path);
            let of_bytes = item matches Some(ty) && *ty is U8;
            &&& !of_bytes ==> failed(e, seq![], EncodeError::UnsupportedStream)
            &&& of_bytes && id >= cx.streams@.len() ==> failed(
                e,
                seq![],
                EncodeError::UnknownHandle(id),
            )
            &&& of_bytes && id < cx.streams@.len() ==> match cx.streams@[id as int] {
                Resolution::Stream => {
                    &&& e.bytes == seq![0u8]
                    &&& e.outcome matches Ok(deferred) && deferred == seq![
                        (path, StreamSource::Stream(id)),
                    ]
                },
                Resolution::Failed => failed(e, seq![], EncodeError::StreamFailed(id)),
                _ => failed(e, seq![], EncodeError::Pending(id, Request::DrainStream)),
            }
        }),
{
}

/// Whether the value is of the kind that the type is of.
pub open spec fn same_kind(v: Value, ty: Type) -> bool {
    match ty {
        Type::Bool => v is Bool,
        Type::S8 => v is S8,
        Type::U8 => v is U8,
        Type::S16 => v is S16,
        Type::U16 => v is U16,
        Type::S32 => v is S32,
        Type::U32 => v is U32,
        Type::S64 => v is S64,
        Type::U64 => v is U64,
        Type::Float32 => v is Float32,
        Type::Float64 => v is Float64,
        Type::Char => v is Char,
        Type::String => v is String,
        Type::List(_) => v is List,
        Type::Record(_) => v is Record,
        Type::Tuple(_) => v is Tuple,
        Type::Variant(_) => v is Variant,
        Type::Enum(_) => v is Enum,
        Type::Option(_) => v is Option,
        Type::Result(_, _) => v is Result,
        Type::Flags(_) => v is Flags,
        Type::Own(_) | Type::Borrow(_) => v is Resource,
        Type::Stream(_) => v is Stream,
        Type::Future => v is Future,
        Type::ErrorContext => v is ErrorContext,
        Type::KeyValueMap => v is KeyValueMap,
        Type::FixedLengthList => v is FixedLengthList,
    }
}

/// A value of another kind than its type is refused as such, and a type that is not
/// supported is refused whatever the value; nothing is written in either case.
pub proof fn law_other_kinds_are_refused(cx: EncodeContext, v: Value, ty: Type, path: Seq<usize>)
    ensures
        ({
            let e = encoding(cx, v, ty, path);
            &&& ty is Future || ty is ErrorContext ==> failed(
                e,
                seq![],
                EncodeError::UnsupportedFuture,
            )
            &&& ty is KeyValueMap ==> failed(e, seq![], EncodeError::UnsupportedMap)
            &&& ty is FixedLengthList ==> failed(
                e,
                seq![],
                EncodeError::UnsupportedFixedLengthList,
            )
            &&& !(ty is Future) && !(ty is ErrorContext) && !(ty is KeyValueMap) && !(
            ty is FixedLengthList) && !same_kind(v, ty) ==> failed(
                e,
                seq![],
                EncodeError::TypeMismatch,
            )
        }),
{
}

} // verus!
