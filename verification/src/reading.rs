//! What the bytes that come say.
//!
//! Each law says what is read from whatever stands at the front of the bytes, be it
//! what a writer writes or not: the value and what is left behind it, that more
//! bytes are needed, or the error and what is left behind the byte that shows it.

use vstd::arithmetic::power2::lemma2_to64;
use vstd::prelude::*;
use vstd::utf8::{
    decode_first_scalar, decode_utf8, length_of_first_scalar, valid_first_scalar, valid_utf8,
};

use crate::buffer::from_little_endian;
use crate::decode::{
    list_parse, parse, parse_prefixed, record_parse, tuple_parse, Origin, Parsed, Progress,
    ReadContext,
};
use crate::error::ReadError;
use crate::flags::{flags_chosen, law_set_bits_are_the_flags};
use crate::handle::{handle_bytes, handle_of, lemma_handle_of};
use crate::leb128::{
    lemma_unsigned_bounds, lemma_unsigned_roundtrip, read_signed, read_unsigned, unsigned_leb128,
    Leb,
};
use crate::text::{char_given_up, char_unfinished};
use crate::types::{Case, Field, HostResource, ResourceType, Type};
use crate::val::{names_of, Value};

verus! {

/// Behind the first `n` bytes.
pub open spec fn past<R>(p: Progress<R>, n: int) -> Progress<R> {
    Progress { rest: p.rest.skip(n), taken: p.taken, origins: p.origins, recall: p.recall }
}

/// The error came at the last of the first `n` bytes.
pub open spec fn stuck<T, R>(p: Progress<R>, n: int, e: ReadError) -> Parsed<T, R> {
    Parsed::Fail(e, p.taken, p.rest.skip(n))
}

/// The same outcome, of something that holds what was read.
pub open spec fn holding<T, U, R>(outcome: Parsed<T, R>, f: spec_fn(T) -> U) -> Parsed<U, R> {
    match outcome {
        Parsed::Done(v, q) => Parsed::Done(f(v), q),
        Parsed::More(q) => Parsed::More(q),
        Parsed::Fail(e, taken, rest) => Parsed::Fail(e, taken, rest),
    }
}

/// An integer of which the front of the bytes says this: the integer is `f` of it.
pub open spec fn integer<R>(p: Progress<R>, leb: Leb, f: spec_fn(int) -> Value) -> Parsed<
    Value,
    R,
> {
    match leb {
        Leb::Done(n, k) => Parsed::Done(f(n), past(p, k as int)),
        Leb::More => Parsed::More(p),
        Leb::Overflow(k) => stuck(p, k as int, ReadError::Overflow),
    }
}

/// What is read of the types whose values are bytes and integers: a byte is itself,
/// one that is not 0 or 1 is no `bool`, wider integers are LEB128, signed or not as
/// the type is, and of the width of the type.
pub proof fn law_integers_are_read<R>(cx: ReadContext<R>, path: Seq<usize>, p: Progress<R>)
    ensures
        p.rest.len() == 0 ==> {
            &&& parse(cx, Type::Bool, path, p) == Parsed::<Value, R>::More(p)
            &&& parse(cx, Type::U8, path, p) == Parsed::<Value, R>::More(p)
            &&& parse(cx, Type::S8, path, p) == Parsed::<Value, R>::More(p)
        },
        p.rest.len() > 0 ==> {
            &&& parse(cx, Type::Bool, path, p) == (if p.rest[0] == 0 {
                Parsed::Done(Value::Bool(false), past(p, 1))
            } else if p.rest[0] == 1 {
                Parsed::Done(Value::Bool(true), past(p, 1))
            } else {
                stuck(p, 1, ReadError::InvalidBool(p.rest[0]))
            })
            &&& parse(cx, Type::U8, path, p) == Parsed::Done(Value::U8(p.rest[0]), past(p, 1))
            &&& parse(cx, Type::S8, path, p) == Parsed::Done(
                Value::S8(
                    if p.rest[0] < 128 {
                        p.rest[0] as i8
                    } else {
                        (p.rest[0] - 256) as i8
                    },
                ),
                past(p, 1),
            )
        },
        parse(cx, Type::U16, path, p) == integer(
            p,
            read_unsigned(16, p.rest),
            |n: int| Value::U16(n as u16),
        ),
        parse(cx, Type::U32, path, p) == integer(
            p,
            read_unsigned(32, p.rest),
            |n: int| Value::U32(n as u32),
        ),
        parse(cx, Type::U64, path, p) == integer(
            p,
            read_unsigned(64, p.rest),
            |n: int| Value::U64(n as u64),
        ),
        parse(cx, Type::S16, path, p) == integer(
            p,
            read_signed(16, p.rest),
            |n: int| Value::S16(n as i16),
        ),
        parse(cx, Type::S32, path, p) == integer(
            p,
            read_signed(32, p.rest),
            |n: int| Value::S32(n as i32),
        ),
        parse(cx, Type::S64, path, p) == integer(
            p,
            read_signed(64, p.rest),
            |n: int| Value::S64(n as i64),
        ),
{
    if p.rest.len() > 0 {
        let b = p.rest[0];
        assert(b < 128 ==> b as i8 == b as int) by (bit_vector);
        assert(b >= 128 ==> b as i8 == b - 256) by (bit_vector);
    }
}

/// What is read of the types whose values have a fixed number of bytes, and of
/// characters.
pub proof fn law_floats_and_chars_are_read<R>(
    cx: ReadContext<R>,
    path: Seq<usize>,
    p: Progress<R>,
)
    ensures
        parse(cx, Type::Float32, path, p) == (if p.rest.len() < 4 {
            Parsed::More(p)
        } else {
            Parsed::Done(
                Value::Float32(from_little_endian(p.rest.take(4)) as u32),
                past(p, 4),
            )
        }),
        parse(cx, Type::Float64, path, p) == (if p.rest.len() < 8 {
            Parsed::More(p)
        } else {
            Parsed::Done(
                Value::Float64(from_little_endian(p.rest.take(8)) as u64),
                past(p, 8),
            )
        }),
        parse(cx, Type::Char, path, p) == (if valid_first_scalar(p.rest) {
            Parsed::Done(
                Value::Char(decode_first_scalar(p.rest) as char),
                past(p, length_of_first_scalar(p.rest)),
            )
        } else if char_unfinished(p.rest) {
            Parsed::More(p)
        } else {
            stuck(p, char_given_up(p.rest), ReadError::InvalidChar)
        }),
{
}

/// What is read of bytes with their length in front: exactly as many as the length
/// says, from right behind it.
pub proof fn law_prefixed_bytes_are_read<R>(p: Progress<R>)
    ensures
        parse_prefixed(p) == match read_unsigned(32, p.rest) {
            Leb::Done(n, k) => if p.rest.len() < k + n {
                Parsed::<Seq<u8>, R>::More(past(p, k as int))
            } else {
                Parsed::Done(p.rest.subrange(k as int, k + n), past(p, k + n))
            },
            Leb::More => Parsed::More(p),
            Leb::Overflow(k) => stuck(p, k as int, ReadError::Overflow),
        },
{
    lemma_unsigned_bounds(32, p.rest);
    if let Leb::Done(n, k) = read_unsigned(32, p.rest) {
        if p.rest.len() >= k + n {
            assert(p.rest.skip(k as int).take(n) =~= p.rest.subrange(k as int, k + n));
            assert(p.rest.skip(k as int).skip(n) =~= p.rest.skip(k + n));
        }
    }
}

/// What is read of a string: as many bytes as the length in front says, if they are
/// UTF-8.
pub proof fn law_strings_are_read<R>(cx: ReadContext<R>, path: Seq<usize>, p: Progress<R>)
    ensures
        parse(cx, Type::String, path, p) == match read_unsigned(32, p.rest) {
            Leb::Done(n, k) => if p.rest.len() < k + n {
                Parsed::<Value, R>::More(past(p, k as int))
            } else if valid_utf8(p.rest.subrange(k as int, k + n)) {
                Parsed::Done(
                    Value::String(decode_utf8(p.rest.subrange(k as int, k + n))),
                    past(p, k + n),
                )
            } else {
                stuck(p, k + n, ReadError::InvalidString)
            },
            Leb::More => Parsed::More(p),
            Leb::Overflow(k) => stuck(p, k as int, ReadError::Overflow),
        },
{
    law_prefixed_bytes_are_read(p);
}

/// One more resource or stream was read: it has the next number.
pub open spec fn one_more<R>(p: Progress<R>, n: int, origin: Origin<R>) -> Progress<R> {
    Progress {
        rest: p.rest.skip(n),
        taken: p.taken,
        origins: p.origins.push(origin),
        recall: p.recall,
    }
}

/// What is read of a byte stream, from whatever stands at the front: a chunk that is
/// not empty is the whole stream, with just those bytes; only an empty one says that
/// the bytes follow at the path.
pub open spec fn byte_stream<R>(path: Seq<usize>, p: Progress<R>) -> Parsed<usize, R> {
    match read_unsigned(32, p.rest) {
        Leb::Done(n, k) => if p.rest.len() < k + n {
            Parsed::More(past(p, k as int))
        } else if n == 0 {
            Parsed::Done(
                p.origins.len() as usize,
                one_more(p, k as int, Origin::Indexed(path)),
            )
        } else {
            Parsed::Done(
                p.origins.len() as usize,
                one_more(p, k + n, Origin::Inline(p.rest.subrange(k as int, k + n))),
            )
        },
        Leb::More => Parsed::More(p),
        Leb::Overflow(k) => stuck(p, k as int, ReadError::Overflow),
    }
}

/// Whether resources of the type are read as byte streams.
pub open spec fn is_stream<R>(cx: ReadContext<R>, ty: ResourceType) -> bool {
    ty == ResourceType::Host(HostResource::InputStream) || cx.io_streams.contains(ty)
}

/// Streams of bytes, and resources that are bridged to them, are read as byte
/// streams, owned or not; other streams are not supported.
pub proof fn law_byte_streams_are_read<R>(
    cx: ReadContext<R>,
    item: Option<Box<Type>>,
    ty: ResourceType,
    path: Seq<usize>,
    p: Progress<R>,
)
    ensures
        parse(cx, Type::Stream(item), path, p) == (if item matches Some(t) && *t is U8 {
            holding(byte_stream(path, p), |id: usize| Value::Stream(id))
        } else {
            stuck(p, 0, ReadError::UnsupportedStream)
        }),
        is_stream(cx, ty) ==> parse(cx, Type::Own(ty), path, p) == holding(
            byte_stream(path, p),
            |id: usize| Value::Resource(id),
        ),
        is_stream(cx, ty) ==> parse(cx, Type::Borrow(ty), path, p) == holding(
            byte_stream(path, p),
            |id: usize| Value::Resource(id),
        ),
{
    law_prefixed_bytes_are_read(p);
    assert(p.rest.skip(0) =~= p.rest);
    lemma_unsigned_bounds(32, p.rest);
}

/// A chunk that was written in place, whatever follows it, is the whole stream: none
/// of its bytes is lost, and nothing of what follows is taken for it. An empty chunk
/// stands for the sub-stream at the path, and for nothing else does anything.
pub proof fn law_inline_chunks_are_whole_streams<R>(
    cx: ReadContext<R>,
    ty: ResourceType,
    path: Seq<usize>,
    p: Progress<R>,
    bytes: Seq<u8>,
    rest: Seq<u8>,
)
    requires
        bytes.len() <= u32::MAX,
        p.rest == unsigned_leb128(bytes.len()) + bytes + rest,
        p.origins.len() <= usize::MAX,
    ensures
        ({
            let origin = if bytes.len() > 0 {
                Origin::Inline(bytes)
            } else {
                Origin::Indexed(path)
            };
            let q = Progress {
                rest,
                taken: p.taken,
                origins: p.origins.push(origin),
                recall: p.recall,
            };
            let id = p.origins.len() as usize;
            let stream = Type::Stream(Some(Box::new(Type::U8)));
            &&& parse(cx, stream, path, p) == Parsed::Done(Value::Stream(id), q)
            &&& is_stream(cx, ty) ==> parse(cx, Type::Own(ty), path, p) == Parsed::Done(
                Value::Resource(id),
                q,
            )
            &&& is_stream(cx, ty) ==> parse(cx, Type::Borrow(ty), path, p) == Parsed::Done(
                Value::Resource(id),
                q,
            )
        }),
{
    lemma2_to64();
    let k = unsigned_leb128(bytes.len()).len() as int;
    let n = bytes.len() as int;
    assert(p.rest =~= unsigned_leb128(bytes.len()) + (bytes + rest));
    lemma_unsigned_roundtrip(32, bytes.len(), bytes + rest);
    assert(p.rest.subrange(k, k + n) =~= bytes);
    assert(p.rest.skip(k + n) =~= rest);
    law_byte_streams_are_read(cx, Some(Box::new(Type::U8)), ty, path, p);
}

/// What is read of a resource that the component exports, from whatever stands at
/// the front: the sixteen bytes of a handle, with their length in front. The handle
/// is good if a resource stands under it that was shared in the scope, and if it was
/// not taken before. If the resource is owned the handle is taken with it. A resource
/// that an earlier attempt has found is that one.
pub proof fn law_shared_resources_are_read<R>(
    cx: ReadContext<R>,
    ty: ResourceType,
    owned: bool,
    path: Seq<usize>,
    p: Progress<R>,
    id: u128,
)
    requires
        !is_stream(cx, ty),
        cx.resources.contains(ty),
        p.origins.len() <= usize::MAX,
    ensures
        ({
            let outcome = parse(
                cx,
                if owned {
                    Type::Own(ty)
                } else {
                    Type::Borrow(ty)
                },
                path,
                p,
            );
            let number = Value::Resource(p.origins.len() as usize);
            match read_unsigned(8, p.rest) {
                Leb::Done(n, k) => {
                    &&& n != 16 ==> outcome == stuck::<Value, R>(
                        p,
                        k as int,
                        ReadError::InvalidHandleLength(n as u8),
                    )
                    &&& n == 16 && p.rest.len() < k + 16 ==> outcome == Parsed::<Value, R>::More(
                        past(p, k as int),
                    )
                    &&& n == 16 && p.rest.len() >= k + 16 && p.recall.len() > 0 ==> outcome
                        == Parsed::<Value, R>::Done(
                        number,
                        Progress {
                            rest: p.rest.skip(k + 16int),
                            taken: p.taken,
                            origins: p.origins.push(Origin::Shared(p.recall[0])),
                            recall: p.recall.skip(1),
                        },
                    )
                    &&& n == 16 && p.rest.len() >= k + 16 && p.recall.len() == 0 && handle_bytes(id)
                        == p.rest.subrange(k as int, k + 16int) ==> if cx.entries.contains_key(id)
                        && cx.entries[id].1 == cx.scope && !p.taken.contains(id) {
                        outcome == Parsed::<Value, R>::Done(
                            number,
                            Progress {
                                rest: p.rest.skip(k + 16int),
                                taken: if owned {
                                    p.taken.push(id)
                                } else {
                                    p.taken
                                },
                                origins: p.origins.push(Origin::Shared(cx.entries[id].0)),
                                recall: p.recall,
                            },
                        )
                    } else {
                        outcome == stuck::<Value, R>(p, k + 16int, ReadError::HandleNotFound)
                    }
                },
                Leb::More => outcome == Parsed::<Value, R>::More(p),
                Leb::Overflow(k) => outcome == stuck::<Value, R>(
                    p,
                    k as int,
                    ReadError::Overflow,
                ),
            }
        }),
{
    lemma_unsigned_bounds(8, p.rest);
    lemma2_to64();
    if let Leb::Done(n, k) = read_unsigned(8, p.rest) {
        if n == 16 && p.rest.len() >= k + 16 {
            let bytes = p.rest.skip(k as int).take(16);
            assert(bytes =~= p.rest.subrange(k as int, k + 16int));
            assert(p.rest.skip(k as int).skip(16) =~= p.rest.skip(k + 16int));
            lemma_handle_of(bytes);
            assert(handle_bytes(id) == bytes ==> id == handle_of(bytes));
            if p.recall.len() > 0 {
                assert(p.recall.drop_first() =~= p.recall.skip(1));
            }
        }
    }
}

/// What is read of a resource that is neither a stream nor exported, from whatever
/// stands at the front: its handle, which is as many bytes as the length in front
/// says.
pub proof fn law_remote_resources_are_read<R>(
    cx: ReadContext<R>,
    ty: ResourceType,
    owned: bool,
    path: Seq<usize>,
    p: Progress<R>,
)
    requires
        !is_stream(cx, ty),
        !cx.resources.contains(ty),
    ensures
        parse(
            cx,
            if owned {
                Type::Own(ty)
            } else {
                Type::Borrow(ty)
            },
            path,
            p,
        ) == match read_unsigned(32, p.rest) {
            Leb::Done(n, k) => if p.rest.len() < k + n {
                Parsed::<Value, R>::More(past(p, k as int))
            } else {
                Parsed::Done(
                    Value::Resource(p.origins.len() as usize),
                    one_more(p, k + n, Origin::Remote(p.rest.subrange(k as int, k + n))),
                )
            },
            Leb::More => Parsed::More(p),
            Leb::Overflow(k) => stuck(p, k as int, ReadError::Overflow),
        },
{
    law_prefixed_bytes_are_read(p);
}

/// What is read of what may or may not hold a value: 0 and 1 are the only statuses,
/// and the value, if the status and the type say that there is one, follows.
pub proof fn law_statuses_are_read<R>(
    cx: ReadContext<R>,
    ty: Type,
    ok: Option<Box<Type>>,
    err: Option<Box<Type>>,
    path: Seq<usize>,
    p: Progress<R>,
)
    ensures
        p.rest.len() == 0 ==> {
            &&& parse(cx, Type::Option(Box::new(ty)), path, p) == Parsed::<Value, R>::More(p)
            &&& parse(cx, Type::Result(ok, err), path, p) == Parsed::<Value, R>::More(p)
        },
        p.rest.len() > 0 ==> {
            &&& parse(cx, Type::Option(Box::new(ty)), path, p) == (if p.rest[0] == 0 {
                Parsed::Done(Value::Option(None), past(p, 1))
            } else if p.rest[0] == 1 {
                holding(
                    parse(cx, ty, path, past(p, 1)),
                    |v: Value| Value::Option(Some(Box::new(v))),
                )
            } else {
                stuck(p, 1, ReadError::InvalidOptionStatus(p.rest[0]))
            })
            &&& parse(cx, Type::Result(ok, err), path, p) == (if p.rest[0] == 0 {
                match ok {
                    Some(ty) => holding(
                        parse(cx, *ty, path, past(p, 1)),
                        |v: Value| Value::Result(Ok(Some(Box::new(v)))),
                    ),
                    None => Parsed::Done(Value::Result(Ok(None)), past(p, 1)),
                }
            } else if p.rest[0] == 1 {
                match err {
                    Some(ty) => holding(
                        parse(cx, *ty, path, past(p, 1)),
                        |v: Value| Value::Result(Err(Some(Box::new(v)))),
                    ),
                    None => Parsed::Done(Value::Result(Err(None)), past(p, 1)),
                }
            } else {
                stuck(p, 1, ReadError::InvalidResultStatus(p.rest[0]))
            })
        },
{
}

/// What is read of a variant: the number of a case that it has, counted from zero,
/// and the payload of that case if the case has one.
pub proof fn law_cases_are_read<R>(
    cx: ReadContext<R>,
    cases: Vec<Case>,
    path: Seq<usize>,
    p: Progress<R>,
)
    ensures
        parse(cx, Type::Variant(cases), path, p) == match read_unsigned(32, p.rest) {
            Leb::Done(n, k) => if n >= cases@.len() {
                stuck::<Value, R>(
                    p,
                    k as int,
                    ReadError::UnknownVariantDiscriminant(n as u32),
                )
            } else {
                match cases@[n].ty {
                    Some(ty) => holding(
                        parse(cx, ty, path, past(p, k as int)),
                        |v: Value| Value::Variant(cases@[n].name@, Some(Box::new(v))),
                    ),
                    None => Parsed::Done(
                        Value::Variant(cases@[n].name@, None),
                        past(p, k as int),
                    ),
                }
            },
            Leb::More => Parsed::More(p),
            Leb::Overflow(k) => stuck(p, k as int, ReadError::Overflow),
        },
{
    lemma_unsigned_bounds(32, p.rest);
}

/// What is read of an enum: the number of a name that it has, counted from zero.
pub proof fn law_enums_are_read<R>(
    cx: ReadContext<R>,
    names: Vec<String>,
    path: Seq<usize>,
    p: Progress<R>,
)
    ensures
        parse(cx, Type::Enum(names), path, p) == match read_unsigned(32, p.rest) {
            Leb::Done(n, k) => if n >= names@.len() {
                stuck::<Value, R>(p, k as int, ReadError::UnknownEnumDiscriminant(n as u32))
            } else {
                Parsed::Done(Value::Enum(names@[n]@), past(p, k as int))
            },
            Leb::More => Parsed::More(p),
            Leb::Overflow(k) => stuck(p, k as int, ReadError::Overflow),
        },
{
    lemma_unsigned_bounds(32, p.rest);
}

/// What is read of flags: as many bytes as there are names for, eight names a byte
/// and one byte at least, and the names whose bits are set, in the order of the type.
pub proof fn law_flags_are_read<R>(
    cx: ReadContext<R>,
    names: Vec<String>,
    path: Seq<usize>,
    p: Progress<R>,
    n: nat,
)
    requires
        n >= 1,
        names@.len() <= 8 * n,
        n == 1 || names@.len() > 8 * (n - 1),
    ensures
        parse(cx, Type::Flags(names), path, p) == (if p.rest.len() < n {
            Parsed::More(p)
        } else {
            Parsed::Done(
                Value::Flags(
                    Seq::new(names@.len(), |i: int| i).filter(
                        |i: int| p.rest.take(n as int)[i / 8] & (1u8 << ((i % 8) as u8)) != 0,
                    ).map_values(|i: int| names_of(names@)[i]),
                ),
                past(p, n as int),
            )
        }),
{
    if p.rest.len() >= n {
        law_set_bits_are_the_flags(names_of(names@), p.rest.take(n as int), names@.len());
        assert(parse(cx, Type::Flags(names), path, p) == Parsed::Done(
            Value::Flags(
                flags_chosen(names_of(names@), p.rest.take(n as int), names@.len()),
            ),
            past(p, n as int),
        ));
    }
}

/// Types that are not supported are refused without looking at the bytes.
pub proof fn law_unsupported_types_are_refused<R>(
    cx: ReadContext<R>,
    path: Seq<usize>,
    p: Progress<R>,
)
    ensures
        parse(cx, Type::Future, path, p) == stuck::<Value, R>(
            p,
            0,
            ReadError::UnsupportedFuture,
        ),
        parse(cx, Type::ErrorContext, path, p) == stuck::<Value, R>(
            p,
            0,
            ReadError::UnsupportedFuture,
        ),
        parse(cx, Type::KeyValueMap, path, p) == stuck::<Value, R>(p, 0, ReadError::UnsupportedMap),
        parse(cx, Type::FixedLengthList, path, p) == stuck::<Value, R>(
            p,
            0,
            ReadError::UnsupportedFixedLengthList,
        ),
{
    assert(p.rest.skip(0) =~= p.rest);
}

/// The first `vs.len()` elements of a list are read one after the other: the `i`-th,
/// which stands at the path that ends in `i`, from where `ps[i]` is to where
/// `ps[i + 1]` is.
pub open spec fn list_steps<R>(
    cx: ReadContext<R>,
    ty: Type,
    path: Seq<usize>,
    ps: Seq<Progress<R>>,
    vs: Seq<Value>,
) -> bool {
    &&& ps.len() == vs.len() + 1
    &&& forall|i: int|
        0 <= i < vs.len() ==> parse(cx, ty, path.push(i as usize), ps[i]) == Parsed::Done(
            #[trigger] vs[i],
            ps[i + 1],
        )
}

/// What is read of a list: a count, and that many elements in turn. Where one of
/// them cannot be read, or is not all there, that is what comes of the list.
pub proof fn law_lists_are_read<R>(
    cx: ReadContext<R>,
    ty: Type,
    path: Seq<usize>,
    p: Progress<R>,
    ps: Seq<Progress<R>>,
    vs: Seq<Value>,
)
    ensures
        ({
            let outcome = parse(cx, Type::List(Box::new(ty)), path, p);
            match read_unsigned(32, p.rest) {
                Leb::Done(n, k) => list_steps(cx, ty, path, ps, vs) && ps[0] == past(p, k as int)
                    && vs.len() <= n ==> {
                    &&& vs.len() == n ==> outcome == Parsed::Done(Value::List(vs), ps.last())
                    &&& vs.len() < n ==> match parse(
                        cx,
                        ty,
                        path.push(vs.len() as usize),
                        ps.last(),
                    ) {
                        Parsed::Done(_, _) => true,
                        Parsed::More(q) => outcome == Parsed::<Value, R>::More(q),
                        Parsed::Fail(e, taken, rest) => outcome == Parsed::<Value, R>::Fail(
                            e,
                            taken,
                            rest,
                        ),
                    }
                },
                Leb::More => outcome == Parsed::<Value, R>::More(p),
                Leb::Overflow(k) => outcome == stuck::<Value, R>(
                    p,
                    k as int,
                    ReadError::Overflow,
                ),
            }
        }),
{
    lemma_unsigned_bounds(32, p.rest);
    if let Leb::Done(n, k) = read_unsigned(32, p.rest) {
        if list_steps(cx, ty, path, ps, vs) && ps[0] == past(p, k as int) && vs.len() <= n {
            lemma_list_steps(cx, ty, path, ps, vs, vs.len());
            assert(vs.take(vs.len() as int) =~= vs);
            if vs.len() < n {
                lemma_list_stops(cx, ty, path, ps[0], vs.len() + 1, n as nat);
            }
        }
    }
}

/// The elements are read one after the other.
proof fn lemma_list_steps<R>(
    cx: ReadContext<R>,
    ty: Type,
    path: Seq<usize>,
    ps: Seq<Progress<R>>,
    vs: Seq<Value>,
    n: nat,
)
    requires
        list_steps(cx, ty, path, ps, vs),
        n <= vs.len(),
    ensures
        list_parse(cx, ty, path, ps[0], n) == Parsed::<Seq<Value>, R>::Done(
            vs.take(n as int),
            ps[n as int],
        ),
    decreases n,
{
    if n > 0 {
        lemma_list_steps(cx, ty, path, ps, vs, (n - 1) as nat);
        assert(parse(cx, ty, path.push((n - 1) as usize), ps[n - 1]) == Parsed::Done(
            vs[n - 1],
            ps[n as int],
        ));
        assert(vs.take(n - 1).push(vs[n - 1]) =~= vs.take(n as int));
    } else {
        assert(vs.take(0) =~= seq![]);
    }
}

/// Nothing is read after an element that was not.
proof fn lemma_list_stops<R>(
    cx: ReadContext<R>,
    ty: Type,
    path: Seq<usize>,
    p: Progress<R>,
    k: nat,
    n: nat,
)
    requires
        k <= n,
    ensures
        !(list_parse(cx, ty, path, p, k) is Done) ==> list_parse(cx, ty, path, p, n)
            == list_parse(cx, ty, path, p, k),
    decreases n,
{
    if k < n {
        lemma_list_stops(cx, ty, path, p, k, (n - 1) as nat);
    }
}

/// The first `vs.len()` values are read one after the other: the `i`-th, of the type
/// at its place, from where `ps[i]` is to where `ps[i + 1]` is.
pub open spec fn tuple_steps<R>(
    cx: ReadContext<R>,
    tys: Seq<Type>,
    path: Seq<usize>,
    ps: Seq<Progress<R>>,
    vs: Seq<Value>,
) -> bool {
    &&& ps.len() == vs.len() + 1
    &&& vs.len() <= tys.len()
    &&& forall|i: int|
        0 <= i < vs.len() ==> parse(cx, tys[i], path.push(i as usize), ps[i]) == Parsed::Done(
            #[trigger] vs[i],
            ps[i + 1],
        )
}

/// What is read of a tuple: an element of each type in turn. Where one of them
/// cannot be read, or is not all there, that is what comes of the tuple.
pub proof fn law_tuples_are_read<R>(
    cx: ReadContext<R>,
    tys: Vec<Type>,
    path: Seq<usize>,
    ps: Seq<Progress<R>>,
    vs: Seq<Value>,
)
    requires
        tuple_steps(cx, tys@, path, ps, vs),
    ensures
        ({
            let outcome = parse(cx, Type::Tuple(tys), path, ps[0]);
            &&& vs.len() == tys@.len() ==> outcome == Parsed::Done(Value::Tuple(vs), ps.last())
            &&& vs.len() < tys@.len() ==> match parse(
                cx,
                tys@[vs.len() as int],
                path.push(vs.len() as usize),
                ps.last(),
            ) {
                Parsed::Done(_, _) => true,
                Parsed::More(q) => outcome == Parsed::<Value, R>::More(q),
                Parsed::Fail(e, taken, rest) => outcome == Parsed::<Value, R>::Fail(e, taken, rest),
            }
        }),
{
    lemma_tuple_steps(cx, tys@, path, ps, vs, vs.len());
    assert(vs.take(vs.len() as int) =~= vs);
    if vs.len() < tys@.len() {
        lemma_tuple_stops(cx, tys@, path, ps[0], vs.len() + 1, tys@.len());
    }
}

/// The values are read one after the other.
proof fn lemma_tuple_steps<R>(
    cx: ReadContext<R>,
    tys: Seq<Type>,
    path: Seq<usize>,
    ps: Seq<Progress<R>>,
    vs: Seq<Value>,
    n: nat,
)
    requires
        tuple_steps(cx, tys, path, ps, vs),
        n <= vs.len(),
    ensures
        tuple_parse(cx, tys, path, ps[0], n) == Parsed::<Seq<Value>, R>::Done(
            vs.take(n as int),
            ps[n as int],
        ),
    decreases n,
{
    if n > 0 {
        lemma_tuple_steps(cx, tys, path, ps, vs, (n - 1) as nat);
        assert(parse(cx, tys[n - 1], path.push((n - 1) as usize), ps[n - 1]) == Parsed::Done(
            vs[n - 1],
            ps[n as int],
        ));
        assert(vs.take(n - 1).push(vs[n - 1]) =~= vs.take(n as int));
    } else {
        assert(vs.take(0) =~= seq![]);
    }
}

/// Nothing is read after a value that was not.
proof fn lemma_tuple_stops<R>(
    cx: ReadContext<R>,
    tys: Seq<Type>,
    path: Seq<usize>,
    p: Progress<R>,
    k: nat,
    n: nat,
)
    requires
        k <= n <= tys.len(),
    ensures
        !(tuple_parse(cx, tys, path, p, k) is Done) ==> tuple_parse(cx, tys, path, p, n)
            == tuple_parse(cx, tys, path, p, k),
    decreases n,
{
    if k < n {
        lemma_tuple_stops(cx, tys, path, p, k, (n - 1) as nat);
    }
}

/// The first `vs.len()` fields are read one after the other: the `i`-th, of the type
/// and under the name at its place, from where `ps[i]` is to where `ps[i + 1]` is.
pub open spec fn record_steps<R>(
    cx: ReadContext<R>,
    fields: Seq<Field>,
    path: Seq<usize>,
    ps: Seq<Progress<R>>,
    vs: Seq<(Seq<char>, Value)>,
) -> bool {
    &&& ps.len() == vs.len() + 1
    &&& vs.len() <= fields.len()
    &&& forall|i: int|
        0 <= i < vs.len() ==> (#[trigger] vs[i]).0 == fields[i].name@ && parse(
            cx,
            fields[i].ty,
            path.push(i as usize),
            ps[i],
        ) == Parsed::Done(vs[i].1, ps[i + 1])
}

/// What is read of a record: a value for each field in turn. Where one of them
/// cannot be read, or is not all there, that is what comes of the record.
pub proof fn law_records_are_read<R>(
    cx: ReadContext<R>,
    fields: Vec<Field>,
    path: Seq<usize>,
    ps: Seq<Progress<R>>,
    vs: Seq<(Seq<char>, Value)>,
)
    requires
        record_steps(cx, fields@, path, ps, vs),
    ensures
        ({
            let outcome = parse(cx, Type::Record(fields), path, ps[0]);
            &&& vs.len() == fields@.len() ==> outcome == Parsed::Done(
                Value::Record(vs),
                ps.last(),
            )
            &&& vs.len() < fields@.len() ==> match parse(
                cx,
                fields@[vs.len() as int].ty,
                path.push(vs.len() as usize),
                ps.last(),
            ) {
                Parsed::Done(_, _) => true,
                Parsed::More(q) => outcome == Parsed::<Value, R>::More(q),
                Parsed::Fail(e, taken, rest) => outcome == Parsed::<Value, R>::Fail(e, taken, rest),
            }
        }),
{
    lemma_record_steps(cx, fields@, path, ps, vs, vs.len());
    assert(vs.take(vs.len() as int) =~= vs);
    if vs.len() < fields@.len() {
        lemma_record_stops(cx, fields@, path, ps[0], vs.len() + 1, fields@.len());
    }
}

/// The fields are read one after the other.
proof fn lemma_record_steps<R>(
    cx: ReadContext<R>,
    fields: Seq<Field>,
    path: Seq<usize>,
    ps: Seq<Progress<R>>,
    vs: Seq<(Seq<char>, Value)>,
    n: nat,
)
    requires
        record_steps(cx, fields, path, ps, vs),
        n <= vs.len(),
    ensures
        record_parse(cx, fields, path, ps[0], n) == Parsed::<Seq<(Seq<char>, Value)>, R>::Done(
            vs.take(n as int),
            ps[n as int],
        ),
    decreases n,
{
    if n > 0 {
        lemma_record_steps(cx, fields, path, ps, vs, (n - 1) as nat);
        assert(vs[n - 1].0 == fields[n - 1].name@);
        assert(vs.take(n - 1).push((fields[n - 1].name@, vs[n - 1].1)) =~= vs.take(n as int));
    } else {
        assert(vs.take(0) =~= seq![]);
    }
}

/// Nothing is read after a field that was not.
proof fn lemma_record_stops<R>(
    cx: ReadContext<R>,
    fields: Seq<Field>,
    path: Seq<usize>,
    p: Progress<R>,
    k: nat,
    n: nat,
)
    requires
        k <= n <= fields.len(),
    ensures
        !(record_parse(cx, fields, path, p, k) is Done) ==> record_parse(cx, fields, path, p, n)
            == record_parse(cx, fields, path, p, k),
    decreases n,
{
    if k < n {
        lemma_record_stops(cx, fields, path, p, k, (n - 1) as nat);
    }
}

} // verus!
