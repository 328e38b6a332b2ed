//! Reading values.
//!
//! The bytes of a value arrive a few at a time, so a value is read from what has
//! arrived so far: either that is enough, or it is clear that no more bytes will
//! help, or the reader asks to be run again when more have come. No byte is
//! consumed before one of the first two is the case. A shared resource is found as
//! soon as its handle has come, and one that is owned leaves the table then: the
//! reader keeps it for the attempts that follow.

use std::collections::VecDeque;

use bytes::BytesMut;
use vstd::arithmetic::power2::lemma2_to64;
use vstd::prelude::*;
use vstd::utf8::{
    decode_first_scalar, decode_utf8, length_of_first_scalar, valid_first_scalar, valid_utf8,
};

use crate::buffer::{
    buffer_bytes, buffer_len, copy_buffer, empty_buffer, from_little_endian, get_u32_le,
    get_u64_le, get_u8, take_bytes,
};
use crate::encode::{contains_type, copy_path};
use crate::error::ReadError;
use crate::flags::{chosen_flags, flag_byte_count, flags_chosen};
use crate::handle::{handle_from_bytes, handle_of, lemma_handle_of};
use crate::leb128::{
    decode_i16, decode_i32, decode_i64, decode_u16, decode_u32, decode_u64, decode_u8,
    lemma_signed_bounds, lemma_unsigned_bounds, read_signed, read_unsigned, Leb,
};
use crate::shared::{lookup, SharedResourceTable};
use crate::text::{char_given_up, char_unfinished, read_char, string_from_utf8};
use crate::types::{is_byte_stream, Case, Field, HostResource, ResourceType, Type};
use crate::val::{field_values, names_of, values, Val, Value};

verus! {

/// Where the bytes of a stream come from.
#[derive(Debug)]
pub enum ByteStream {
    /// These are all its bytes.
    Inline(Vec<u8>),
    /// They follow on the sub-stream at this path, in chunks that an empty one
    /// ends.
    Indexed(Vec<usize>),
}

/// What a resource or a stream that was read is to be made of.
#[derive(Debug)]
pub enum Source<R> {
    /// A byte stream.
    Stream(ByteStream),
    /// A remote resource, by its handle.
    Remote(Vec<u8>),
    /// A resource of the table of shared ones.
    Shared(R),
}

/// A [`Source`] as a mathematical object.
pub enum Origin<R> {
    Inline(Seq<u8>),
    Indexed(Seq<usize>),
    Remote(Seq<u8>),
    Shared(R),
}

impl<R> View for Source<R> {
    type V = Origin<R>;

    open spec fn view(&self) -> Origin<R> {
        match self {
            Source::Stream(ByteStream::Inline(bytes)) => Origin::Inline(bytes@),
            Source::Stream(ByteStream::Indexed(path)) => Origin::Indexed(path@),
            Source::Remote(handle) => Origin::Remote(handle@),
            Source::Shared(resource) => Origin::Shared(*resource),
        }
    }
}

/// The sources, each as a mathematical object.
pub open spec fn origins<R>(sources: Seq<Source<R>>) -> Seq<Origin<R>> {
    Seq::new(sources.len(), |i: int| sources[i]@)
}

/// What values are read against.
pub struct ReadContext<R> {
    /// The table of shared resources.
    pub entries: Map<u128, (R, Option<u64>)>,
    /// The scope that handles are looked up in.
    pub scope: Option<u64>,
    /// The resource types that the component exports: these are shared.
    pub resources: Seq<ResourceType>,
    /// The resource types that are bridged to byte streams.
    pub io_streams: Seq<ResourceType>,
}

/// How far reading has got.
pub struct Progress<R> {
    /// The bytes that were not read yet.
    pub rest: Seq<u8>,
    /// The handles of the shared resources that were taken.
    pub taken: Seq<u128>,
    /// The resources and streams that were read, by number.
    pub origins: Seq<Origin<R>>,
    /// The shared resources that come next and were found by an earlier attempt.
    pub recall: Seq<R>,
}

/// What came of reading something.
pub enum Parsed<T, R> {
    /// It was read, and this is how far that got.
    Done(T, Progress<R>),
    /// More bytes are needed, and this is how far reading has got.
    More(Progress<R>),
    /// There is no way to read it. These handles were taken so far, and these
    /// bytes stand behind the one that showed it.
    Fail(ReadError, Seq<u128>, Seq<u8>),
}

impl<T, R> Parsed<T, R> {
    /// The same outcome, for one that is not [`Parsed::Done`].
    pub open spec fn stop<U>(self) -> Parsed<U, R> {
        match self {
            Parsed::Done(_, p) => Parsed::More(p),
            Parsed::More(p) => Parsed::More(p),
            Parsed::Fail(e, taken, rest) => Parsed::Fail(e, taken, rest),
        }
    }

    /// The same outcome, with what was read changed.
    pub open spec fn and<U>(self, f: spec_fn(T) -> U) -> Parsed<U, R> {
        match self {
            Parsed::Done(v, p) => Parsed::Done(f(v), p),
            other => other.stop(),
        }
    }
}

/// There is no way to read on from here.
pub open spec fn give_up<T, R>(e: ReadError, p: Progress<R>) -> Parsed<T, R> {
    Parsed::Fail(e, p.taken, p.rest)
}

/// After `n` bytes more.
pub open spec fn advance<R>(p: Progress<R>, n: int) -> Progress<R> {
    Progress { rest: p.rest.skip(n), ..p }
}

/// One byte.
pub open spec fn parse_byte<R>(p: Progress<R>) -> Parsed<u8, R> {
    if p.rest.len() == 0 {
        Parsed::More(p)
    } else {
        Parsed::Done(p.rest[0], advance(p, 1))
    }
}

/// `n` bytes.
pub open spec fn parse_bytes<R>(n: nat, p: Progress<R>) -> Parsed<Seq<u8>, R> {
    if p.rest.len() < n {
        Parsed::More(p)
    } else {
        Parsed::Done(p.rest.take(n as int), advance(p, n as int))
    }
}

/// An integer, from what the front of the bytes says.
pub open spec fn parse_leb<R>(leb: Leb, p: Progress<R>) -> Parsed<int, R> {
    match leb {
        Leb::Done(v, n) => Parsed::Done(v, advance(p, n as int)),
        Leb::More => Parsed::More(p),
        Leb::Overflow(n) => give_up(ReadError::Overflow, advance(p, n as int)),
    }
}

/// An unsigned integer of at most `bits` bits.
pub open spec fn parse_unsigned<R>(bits: nat, p: Progress<R>) -> Parsed<int, R> {
    parse_leb(read_unsigned(bits, p.rest), p)
}

/// A signed integer of at most `bits` bits.
pub open spec fn parse_signed<R>(bits: nat, p: Progress<R>) -> Parsed<int, R> {
    parse_leb(read_signed(bits, p.rest), p)
}

/// A character.
pub open spec fn parse_char<R>(p: Progress<R>) -> Parsed<char, R> {
    if valid_first_scalar(p.rest) {
        Parsed::Done(
            decode_first_scalar(p.rest) as char,
            advance(p, length_of_first_scalar(p.rest)),
        )
    } else if char_unfinished(p.rest) {
        Parsed::More(p)
    } else {
        give_up(ReadError::InvalidChar, advance(p, char_given_up(p.rest)))
    }
}

/// Bytes with their length in front.
pub open spec fn parse_prefixed<R>(p: Progress<R>) -> Parsed<Seq<u8>, R> {
    match parse_unsigned(32, p) {
        Parsed::Done(n, p) => parse_bytes(n as nat, p),
        other => other.stop(),
    }
}

/// A string.
pub open spec fn parse_string<R>(p: Progress<R>) -> Parsed<Seq<char>, R> {
    match parse_prefixed(p) {
        Parsed::Done(bytes, q) => if valid_utf8(bytes) {
            Parsed::Done(decode_utf8(bytes), q)
        } else {
            give_up(ReadError::InvalidString, q)
        },
        other => other.stop(),
    }
}

/// A resource or a stream that was read gets the next number.
pub open spec fn add_origin<R>(p: Progress<R>, origin: Origin<R>) -> Parsed<usize, R> {
    Parsed::Done(
        p.origins.len() as usize,
        Progress { origins: p.origins.push(origin), ..p },
    )
}

/// A byte stream: a chunk that is the whole stream, or an empty one, which means
/// that the bytes follow on the sub-stream at `path`.
pub open spec fn parse_byte_stream<R>(path: Seq<usize>, p: Progress<R>) -> Parsed<usize, R> {
    match parse_prefixed(p) {
        Parsed::Done(bytes, p) => add_origin(
            p,
            if bytes.len() > 0 {
                Origin::Inline(bytes)
            } else {
                Origin::Indexed(path)
            },
        ),
        other => other.stop(),
    }
}

/// The resource that a handle stands for in the scope, unless it was taken.
pub open spec fn visible<R>(cx: ReadContext<R>, taken: Seq<u128>, id: u128) -> Option<R> {
    if taken.contains(id) {
        None
    } else {
        lookup(cx.entries, cx.scope, id)
    }
}

/// The shared resource under a handle. One that is owned leaves the table; one
/// that an earlier attempt has found is not looked up again.
pub open spec fn find_shared<R>(
    cx: ReadContext<R>,
    owned: bool,
    id: u128,
    p: Progress<R>,
) -> Parsed<usize, R> {
    if p.recall.len() > 0 {
        add_origin(
            Progress { recall: p.recall.drop_first(), ..p },
            Origin::Shared(p.recall[0]),
        )
    } else {
        match visible(cx, p.taken, id) {
            Some(resource) => add_origin(
                Progress {
                    taken: if owned {
                        p.taken.push(id)
                    } else {
                        p.taken
                    },
                    ..p
                },
                Origin::Shared(resource),
            ),
            None => give_up(ReadError::HandleNotFound, p),
        }
    }
}

/// A shared resource, by its handle.
pub open spec fn parse_shared<R>(cx: ReadContext<R>, owned: bool, p: Progress<R>) -> Parsed<
    usize,
    R,
> {
    match parse_unsigned(8, p) {
        Parsed::Done(n, p) => if n != 16 {
            give_up(ReadError::InvalidHandleLength(n as u8), p)
        } else {
            match parse_bytes(16, p) {
                Parsed::Done(bytes, p) => find_shared(cx, owned, handle_of(bytes), p),
                other => other.stop(),
            }
        },
        other => other.stop(),
    }
}

/// A remote resource, by its handle.
pub open spec fn parse_remote<R>(p: Progress<R>) -> Parsed<usize, R> {
    match parse_prefixed(p) {
        Parsed::Done(handle, p) => add_origin(p, Origin::Remote(handle)),
        other => other.stop(),
    }
}

/// A resource.
pub open spec fn parse_resource<R>(
    cx: ReadContext<R>,
    ty: ResourceType,
    owned: bool,
    path: Seq<usize>,
    p: Progress<R>,
) -> Parsed<usize, R> {
    if ty == ResourceType::Host(HostResource::InputStream) || cx.io_streams.contains(ty) {
        parse_byte_stream(path, p)
    } else if cx.resources.contains(ty) {
        parse_shared(cx, owned, p)
    } else {
        parse_remote(p)
    }
}

/// A value of the type that stands at `path`.
pub open spec fn parse<R>(cx: ReadContext<R>, ty: Type, path: Seq<usize>, p: Progress<R>) -> Parsed<
    Value,
    R,
>
    decreases ty, 0nat,
{
    match ty {
        Type::Bool => match parse_byte(p) {
            Parsed::Done(b, q) => if b <= 1 {
                Parsed::Done(Value::Bool(b == 1), q)
            } else {
                give_up(ReadError::InvalidBool(b), q)
            },
            other => other.stop(),
        },
        Type::S8 => parse_byte(p).and(|b: u8| Value::S8(b as i8)),
        Type::U8 => parse_byte(p).and(|b: u8| Value::U8(b)),
        Type::S16 => parse_signed(16, p).and(|n: int| Value::S16(n as i16)),
        Type::U16 => parse_unsigned(16, p).and(|n: int| Value::U16(n as u16)),
        Type::S32 => parse_signed(32, p).and(|n: int| Value::S32(n as i32)),
        Type::U32 => parse_unsigned(32, p).and(|n: int| Value::U32(n as u32)),
        Type::S64 => parse_signed(64, p).and(|n: int| Value::S64(n as i64)),
        Type::U64 => parse_unsigned(64, p).and(|n: int| Value::U64(n as u64)),
        Type::Float32 => parse_bytes(4, p).and(
            |bytes: Seq<u8>| Value::Float32(from_little_endian(bytes) as u32),
        ),
        Type::Float64 => parse_bytes(8, p).and(
            |bytes: Seq<u8>| Value::Float64(from_little_endian(bytes) as u64),
        ),
        Type::Char => parse_char(p).and(|c: char| Value::Char(c)),
        Type::String => parse_string(p).and(|s: Seq<char>| Value::String(s)),
        Type::List(ty) => match parse_unsigned(32, p) {
            Parsed::Done(n, p) => list_parse(cx, *ty, path, p, n as nat).and(
                |vs: Seq<Value>| Value::List(vs),
            ),
            other => other.stop(),
        },
        Type::Record(fields) => record_parse(cx, fields@, path, p, fields@.len()).and(
            |vs: Seq<(Seq<char>, Value)>| Value::Record(vs),
        ),
        Type::Tuple(tys) => tuple_parse(cx, tys@, path, p, tys@.len()).and(
            |vs: Seq<Value>| Value::Tuple(vs),
        ),
        Type::Variant(cases) => match parse_unsigned(32, p) {
            Parsed::Done(n, p) => if 0 <= n < cases@.len() {
                match cases@[n].ty {
                    Some(ty) => parse(cx, ty, path, p).and(
                        |v: Value| Value::Variant(cases@[n].name@, Some(Box::new(v))),
                    ),
                    None => Parsed::Done(Value::Variant(cases@[n].name@, None), p),
                }
            } else {
                give_up(ReadError::UnknownVariantDiscriminant(n as u32), p)
            },
            other => other.stop(),
        },
        Type::Enum(names) => match parse_unsigned(32, p) {
            Parsed::Done(n, p) => if 0 <= n < names@.len() {
                Parsed::Done(Value::Enum(names@[n]@), p)
            } else {
                give_up(ReadError::UnknownEnumDiscriminant(n as u32), p)
            },
            other => other.stop(),
        },
        Type::Option(ty) => match parse_byte(p) {
            Parsed::Done(b, q) => if b == 0 {
                Parsed::Done(Value::Option(None), q)
            } else if b == 1 {
                parse(cx, *ty, path, q).and(|v: Value| Value::Option(Some(Box::new(v))))
            } else {
                give_up(ReadError::InvalidOptionStatus(b), q)
            },
            other => other.stop(),
        },
        Type::Result(ok, err) => match parse_byte(p) {
            Parsed::Done(b, q) => if b == 0 {
                match ok {
                    Some(ty) => parse(cx, *ty, path, q).and(
                        |v: Value| Value::Result(Ok(Some(Box::new(v)))),
                    ),
                    None => Parsed::Done(Value::Result(Ok(None)), q),
                }
            } else if b == 1 {
                match err {
                    Some(ty) => parse(cx, *ty, path, q).and(
                        |v: Value| Value::Result(Err(Some(Box::new(v)))),
                    ),
                    None => Parsed::Done(Value::Result(Err(None)), q),
                }
            } else {
                give_up(ReadError::InvalidResultStatus(b), q)
            },
            other => other.stop(),
        },
        Type::Flags(names) => parse_bytes(flag_byte_count(names@.len()), p).and(
            |bytes: Seq<u8>|
                Value::Flags(flags_chosen(names_of(names@), bytes, names@.len())),
        ),
        Type::Own(ty) => parse_resource(cx, ty, true, path, p).and(|id: usize| Value::Resource(id)),
        Type::Borrow(ty) => parse_resource(cx, ty, false, path, p).and(
            |id: usize| Value::Resource(id),
        ),
        Type::Stream(item) => if is_byte_stream(item) {
            parse_byte_stream(path, p).and(|id: usize| Value::Stream(id))
        } else {
            give_up(ReadError::UnsupportedStream, p)
        },
        Type::Future | Type::ErrorContext => give_up(ReadError::UnsupportedFuture, p),
        Type::KeyValueMap => give_up(ReadError::UnsupportedMap, p),
        Type::FixedLengthList => give_up(ReadError::UnsupportedFixedLengthList, p),
    }
}

/// `n` values of the type.
pub open spec fn list_parse<R>(
    cx: ReadContext<R>,
    ty: Type,
    path: Seq<usize>,
    p: Progress<R>,
    n: nat,
) -> Parsed<Seq<Value>, R>
    decreases ty, n,
{
    if n == 0 {
        Parsed::Done(seq![], p)
    } else {
        match list_parse(cx, ty, path, p, (n - 1) as nat) {
            Parsed::Done(vs, q) => parse(cx, ty, path.push((n - 1) as usize), q).and(
                |v: Value| vs.push(v),
            ),
            other => other,
        }
    }
}

/// Values of the first `n` of the types.
pub open spec fn tuple_parse<R>(
    cx: ReadContext<R>,
    tys: Seq<Type>,
    path: Seq<usize>,
    p: Progress<R>,
    n: nat,
) -> Parsed<Seq<Value>, R>
    decreases tys, n,
{
    if n == 0 || n > tys.len() {
        Parsed::Done(seq![], p)
    } else {
        match tuple_parse(cx, tys, path, p, (n - 1) as nat) {
            Parsed::Done(vs, q) => parse(cx, tys[n - 1], path.push((n - 1) as usize), q).and(
                |v: Value| vs.push(v),
            ),
            other => other,
        }
    }
}

/// Values of the first `n` of the fields.
pub open spec fn record_parse<R>(
    cx: ReadContext<R>,
    fields: Seq<Field>,
    path: Seq<usize>,
    p: Progress<R>,
    n: nat,
) -> Parsed<Seq<(Seq<char>, Value)>, R>
    decreases fields, n,
{
    if n == 0 || n > fields.len() {
        Parsed::Done(seq![], p)
    } else {
        match record_parse(cx, fields, path, p, (n - 1) as nat) {
            Parsed::Done(vs, q) => parse(
                cx,
                fields[n - 1].ty,
                path.push((n - 1) as usize),
                q,
            ).and(|v: Value| vs.push((fields[n - 1].name@, v))),
            other => other,
        }
    }
}

/// The bytes at hand, and what was made of those before them.
struct Reader<R> {
    src: BytesMut,
    taken: Vec<u128>,
    sources: Vec<Source<R>>,
    recall: VecDeque<R>,
}

impl<R> Reader<R> {
    /// How far this has got.
    spec fn progress(&self) -> Progress<R> {
        Progress {
            rest: buffer_bytes(self.src),
            taken: self.taken@,
            origins: origins(self.sources@),
            recall: self.recall@,
        }
    }
}

/// What values are read against.
struct Surroundings<'a, R> {
    table: &'a SharedResourceTable<R>,
    scope: Option<u64>,
    resources: &'a [ResourceType],
    io_streams: &'a [ResourceType],
}

impl<'a, R> Surroundings<'a, R> {
    /// The same, as a mathematical object.
    spec fn context(&self) -> ReadContext<R> {
        ReadContext {
            entries: self.table.entries(),
            scope: self.scope,
            resources: self.resources@,
            io_streams: self.io_streams@,
        }
    }
}

/// What came of reading something, from a result and from where it left the
/// reader.
spec fn outcome<T, R>(r: Result<Option<T>, ReadError>, rd: Reader<R>) -> Parsed<T, R> {
    match r {
        Ok(Some(v)) => Parsed::Done(v, rd.progress()),
        Ok(None) => Parsed::More(rd.progress()),
        Err(e) => Parsed::Fail(e, rd.taken@, buffer_bytes(rd.src)),
    }
}

/// The same, for values.
spec fn value_outcome<R>(r: Result<Option<Val>, ReadError>, rd: Reader<R>) -> Parsed<Value, R> {
    outcome(r, rd).and(|v: Val| v@)
}

/// Read one byte.
fn read_byte<R>(rd: &mut Reader<R>) -> (r: Result<Option<u8>, ReadError>)
    ensures
        outcome(r, *final(rd)) == parse_byte(old(rd).progress()),
{
    if buffer_len(&rd.src) == 0 {
        return Ok(None);
    }
    Ok(Some(get_u8(&mut rd.src)))
}

/// Read `n` bytes.
fn read_bytes<R>(rd: &mut Reader<R>, n: usize) -> (r: Result<Option<Vec<u8>>, ReadError>)
    ensures
        outcome(r, *final(rd)).and(|bytes: Vec<u8>| bytes@) == parse_bytes(
            n as nat,
            old(rd).progress(),
        ),
{
    if buffer_len(&rd.src) < n {
        return Ok(None);
    }
    Ok(Some(take_bytes(&mut rd.src, n)))
}

/// Give up on an integer that does not fit, at the `n`-th of its bytes.
fn overflow<R>(rd: &mut Reader<R>, n: usize) -> (e: ReadError)
    requires
        n <= buffer_bytes(old(rd).src).len(),
    ensures
        e == ReadError::Overflow,
        final(rd).progress() == advance(old(rd).progress(), n as int),
{
    take_bytes(&mut rd.src, n);
    ReadError::Overflow
}

/// Read a count, of elements or of bytes.
fn read_count<R>(rd: &mut Reader<R>) -> (r: Result<Option<u32>, ReadError>)
    ensures
        outcome(r, *final(rd)).and(|n: u32| n as int) == parse_unsigned(32, old(rd).progress()),
{
    proof {
        lemma_unsigned_bounds(32, buffer_bytes(rd.src));
        lemma2_to64();
    }
    match decode_u32(&mut rd.src) {
        Ok(n) => Ok(n),
        Err(_) => Err(overflow(rd, 5)),
    }
}

/// Read a signed integer of at most 16 bits.
fn read_i16<R>(rd: &mut Reader<R>) -> (r: Result<Option<i16>, ReadError>)
    ensures
        outcome(r, *final(rd)).and(|n: i16| n as int) == parse_signed(16, old(rd).progress()),
{
    proof {
        lemma_signed_bounds(16, buffer_bytes(rd.src));
    }
    match decode_i16(&mut rd.src) {
        Ok(n) => Ok(n),
        Err(_) => Err(overflow(rd, 3)),
    }
}

/// Read an unsigned integer of at most 16 bits.
fn read_u16<R>(rd: &mut Reader<R>) -> (r: Result<Option<u16>, ReadError>)
    ensures
        outcome(r, *final(rd)).and(|n: u16| n as int) == parse_unsigned(16, old(rd).progress()),
{
    proof {
        lemma_unsigned_bounds(16, buffer_bytes(rd.src));
    }
    match decode_u16(&mut rd.src) {
        Ok(n) => Ok(n),
        Err(_) => Err(overflow(rd, 3)),
    }
}

/// Read a signed integer of at most 32 bits.
fn read_i32<R>(rd: &mut Reader<R>) -> (r: Result<Option<i32>, ReadError>)
    ensures
        outcome(r, *final(rd)).and(|n: i32| n as int) == parse_signed(32, old(rd).progress()),
{
    proof {
        lemma_signed_bounds(32, buffer_bytes(rd.src));
    }
    match decode_i32(&mut rd.src) {
        Ok(n) => Ok(n),
        Err(_) => Err(overflow(rd, 5)),
    }
}

/// Read a signed integer of at most 64 bits.
fn read_i64<R>(rd: &mut Reader<R>) -> (r: Result<Option<i64>, ReadError>)
    ensures
        outcome(r, *final(rd)).and(|n: i64| n as int) == parse_signed(64, old(rd).progress()),
{
    proof {
        lemma_signed_bounds(64, buffer_bytes(rd.src));
    }
    match decode_i64(&mut rd.src) {
        Ok(n) => Ok(n),
        Err(_) => Err(overflow(rd, 10)),
    }
}

/// Read an unsigned integer of at most 64 bits.
fn read_u64<R>(rd: &mut Reader<R>) -> (r: Result<Option<u64>, ReadError>)
    ensures
        outcome(r, *final(rd)).and(|n: u64| n as int) == parse_unsigned(64, old(rd).progress()),
{
    proof {
        lemma_unsigned_bounds(64, buffer_bytes(rd.src));
    }
    match decode_u64(&mut rd.src) {
        Ok(n) => Ok(n),
        Err(_) => Err(overflow(rd, 10)),
    }
}

/// Read bytes with their length in front.
fn read_prefixed<R>(rd: &mut Reader<R>) -> (r: Result<Option<Vec<u8>>, ReadError>)
    ensures
        outcome(r, *final(rd)).and(|bytes: Vec<u8>| bytes@) == parse_prefixed(old(rd).progress()),
{
    match read_count(rd) {
        Ok(Some(n)) => read_bytes(rd, n as usize),
        Ok(None) => Ok(None),
        Err(e) => Err(e),
    }
}

/// Give a resource or a stream that was read the next number.
fn add_source<R>(rd: &mut Reader<R>, source: Source<R>) -> (id: usize)
    ensures
        Parsed::Done(id, final(rd).progress()) == add_origin(old(rd).progress(), source@),
{
    let id: usize = rd.sources.len();
    rd.sources.push(source);
    assert(origins(rd.sources@) =~= origins(old(rd).sources@).push(source@));
    id
}

/// Read a byte stream.
fn read_byte_stream<R>(rd: &mut Reader<R>, path: &Vec<usize>) -> (r: Result<
    Option<usize>,
    ReadError,
>)
    ensures
        outcome(r, *final(rd)) == parse_byte_stream(path@, old(rd).progress()),
{
    match read_prefixed(rd) {
        Ok(Some(bytes)) => {
            let stream: ByteStream = if bytes.len() > 0 {
                ByteStream::Inline(bytes)
            } else {
                ByteStream::Indexed(copy_path(path))
            };
            Ok(Some(add_source(rd, Source::Stream(stream))))
        },
        Ok(None) => Ok(None),
        Err(e) => Err(e),
    }
}

/// Whether `id` is one of `ids`.
fn contains_handle(ids: &Vec<u128>, id: u128) -> (found: bool)
    ensures
        found == ids@.contains(id),
{
    for i in 0..ids.len()
        invariant
            forall|j: int| 0 <= j < i ==> ids@[j] != id,
    {
        if ids[i] == id {
            return true;
        }
    }
    false
}

/// Sixteen bytes as an array.
fn to_array(bytes: &Vec<u8>) -> (array: [u8; 16])
    requires
        bytes@.len() == 16,
    ensures
        array@ == bytes@,
{
    let array: [u8; 16] = [
        bytes[0],
        bytes[1],
        bytes[2],
        bytes[3],
        bytes[4],
        bytes[5],
        bytes[6],
        bytes[7],
        bytes[8],
        bytes[9],
        bytes[10],
        bytes[11],
        bytes[12],
        bytes[13],
        bytes[14],
        bytes[15],
    ];
    assert(array@ =~= bytes@);
    array
}

/// Find the shared resource under a handle.
fn find_resource<R: Copy>(
    cx: &Surroundings<R>,
    owned: bool,
    id: u128,
    rd: &mut Reader<R>,
) -> (r: Result<Option<usize>, ReadError>)
    ensures
        outcome(r, *final(rd)) == find_shared(cx.context(), owned, id, old(rd).progress()),
{
    if let Some(resource) = rd.recall.pop_front() {
        return Ok(Some(add_source(rd, Source::Shared(resource))));
    }
    if contains_handle(&rd.taken, id) {
        return Err(ReadError::HandleNotFound);
    }
    match cx.table.get(cx.scope, &id) {
        Some(resource) => {
            let resource: R = *resource;
            if owned {
                rd.taken.push(id);
            }
            Ok(Some(add_source(rd, Source::Shared(resource))))
        },
        None => Err(ReadError::HandleNotFound),
    }
}

/// Read a shared resource.
fn read_shared<R: Copy>(cx: &Surroundings<R>, owned: bool, rd: &mut Reader<R>) -> (r: Result<
    Option<usize>,
    ReadError,
>)
    ensures
        outcome(r, *final(rd)) == parse_shared(cx.context(), owned, old(rd).progress()),
{
    proof {
        lemma_unsigned_bounds(8, buffer_bytes(rd.src));
        lemma2_to64();
    }
    match decode_u8(&mut rd.src) {
        Ok(Some(n)) => {
            if n != 16 {
                return Err(ReadError::InvalidHandleLength(n));
            }
            match read_bytes(rd, 16) {
                Ok(Some(bytes)) => {
                    let id: u128 = handle_from_bytes(to_array(&bytes));
                    assert(id == handle_of(bytes@)) by {
                        lemma_handle_of(bytes@);
                    }
                    find_resource(cx, owned, id, rd)
                },
                Ok(None) => Ok(None),
                Err(e) => Err(e),
            }
        },
        Ok(None) => Ok(None),
        Err(_) => Err(overflow(rd, 2)),
    }
}

/// Read a remote resource.
fn read_remote<R>(rd: &mut Reader<R>) -> (r: Result<Option<usize>, ReadError>)
    ensures
        outcome(r, *final(rd)) == parse_remote(old(rd).progress()),
{
    match read_prefixed(rd) {
        Ok(Some(handle)) => Ok(Some(add_source(rd, Source::Remote(handle)))),
        Ok(None) => Ok(None),
        Err(e) => Err(e),
    }
}

/// Read a resource.
fn read_resource<R: Copy>(
    cx: &Surroundings<R>,
    ty: ResourceType,
    owned: bool,
    path: &Vec<usize>,
    rd: &mut Reader<R>,
) -> (r: Result<Option<usize>, ReadError>)
    ensures
        outcome(r, *final(rd)) == parse_resource(
            cx.context(),
            ty,
            owned,
            path@,
            old(rd).progress(),
        ),
{
    if ty == ResourceType::Host(HostResource::InputStream) || contains_type(cx.io_streams, ty) {
        read_byte_stream(rd, path)
    } else if contains_type(cx.resources, ty) {
        read_shared(cx, owned, rd)
    } else {
        read_remote(rd)
    }
}

/// What stops the first `k` stops all of them.
proof fn lemma_list_stuck<R>(
    cx: ReadContext<R>,
    ty: Type,
    path: Seq<usize>,
    p: Progress<R>,
    k: nat,
    n: nat,
)
    requires
        k <= n,
        !(list_parse(cx, ty, path, p, k) is Done),
    ensures
        list_parse(cx, ty, path, p, n) == list_parse(cx, ty, path, p, k),
    decreases n,
{
    if k < n {
        lemma_list_stuck(cx, ty, path, p, k, (n - 1) as nat);
    }
}

/// What stops the first `k` stops all of them.
proof fn lemma_tuple_stuck<R>(
    cx: ReadContext<R>,
    tys: Seq<Type>,
    path: Seq<usize>,
    p: Progress<R>,
    k: nat,
    n: nat,
)
    requires
        k <= n <= tys.len(),
        !(tuple_parse(cx, tys, path, p, k) is Done),
    ensures
        tuple_parse(cx, tys, path, p, n) == tuple_parse(cx, tys, path, p, k),
    decreases n,
{
    if k < n {
        lemma_tuple_stuck(cx, tys, path, p, k, (n - 1) as nat);
    }
}

/// What stops the first `k` stops all of them.
proof fn lemma_record_stuck<R>(
    cx: ReadContext<R>,
    fields: Seq<Field>,
    path: Seq<usize>,
    p: Progress<R>,
    k: nat,
    n: nat,
)
    requires
        k <= n <= fields.len(),
        !(record_parse(cx, fields, path, p, k) is Done),
    ensures
        record_parse(cx, fields, path, p, n) == record_parse(cx, fields, path, p, k),
    decreases n,
{
    if k < n {
        lemma_record_stuck(cx, fields, path, p, k, (n - 1) as nat);
    }
}

/// Read the flags among `names` that are chosen.
fn read_flags<R>(names: &Vec<String>, rd: &mut Reader<R>) -> (r: Result<
    Option<Vec<String>>,
    ReadError,
>)
    ensures
        outcome(r, *final(rd)).and(|flags: Vec<String>| names_of(flags@)) == parse_bytes(
            flag_byte_count(names@.len()),
            old(rd).progress(),
        ).and(|bytes: Seq<u8>| flags_chosen(names_of(names@), bytes, names@.len())),
{
    let n: usize = names.len();
    let count: usize = if n <= 8 {
        1
    } else if n % 8 != 0 {
        n / 8 + 1
    } else {
        n / 8
    };
    match read_bytes(rd, count) {
        Ok(Some(bytes)) => Ok(Some(chosen_flags(names, &bytes))),
        Ok(None) => Ok(None),
        Err(e) => Err(e),
    }
}

/// Read a value of the type that stands at `path`.
#[verifier::spinoff_prover]
fn read_one<R: Copy>(
    cx: &Surroundings<R>,
    ty: &Type,
    path: &Vec<usize>,
    rd: &mut Reader<R>,
) -> (r: Result<Option<Val>, ReadError>)
    ensures
        value_outcome(r, *final(rd)) == parse(cx.context(), *ty, path@, old(rd).progress()),
    decreases ty, 0nat,
{
    match ty {
        Type::Bool => match read_byte(rd) {
            Ok(Some(b)) => if b <= 1 {
                Ok(Some(Val::Bool(b == 1)))
            } else {
                Err(ReadError::InvalidBool(b))
            },
            Ok(None) => Ok(None),
            Err(e) => Err(e),
        },
        Type::S8 => match read_byte(rd) {
            Ok(Some(b)) => Ok(Some(Val::S8(b as i8))),
            Ok(None) => Ok(None),
            Err(e) => Err(e),
        },
        Type::U8 => match read_byte(rd) {
            Ok(Some(x)) => Ok(Some(Val::U8(x))),
            Ok(None) => Ok(None),
            Err(e) => Err(e),
        },
        Type::S16 => match read_i16(rd) {
            Ok(Some(x)) => Ok(Some(Val::S16(x))),
            Ok(None) => Ok(None),
            Err(e) => Err(e),
        },
        Type::U16 => match read_u16(rd) {
            Ok(Some(x)) => Ok(Some(Val::U16(x))),
            Ok(None) => Ok(None),
            Err(e) => Err(e),
        },
        Type::S32 => match read_i32(rd) {
            Ok(Some(x)) => Ok(Some(Val::S32(x))),
            Ok(None) => Ok(None),
            Err(e) => Err(e),
        },
        Type::U32 => match read_count(rd) {
            Ok(Some(x)) => Ok(Some(Val::U32(x))),
            Ok(None) => Ok(None),
            Err(e) => Err(e),
        },
        Type::S64 => match read_i64(rd) {
            Ok(Some(x)) => Ok(Some(Val::S64(x))),
            Ok(None) => Ok(None),
            Err(e) => Err(e),
        },
        Type::U64 => match read_u64(rd) {
            Ok(Some(x)) => Ok(Some(Val::U64(x))),
            Ok(None) => Ok(None),
            Err(e) => Err(e),
        },
        Type::Float32 => {
            if buffer_len(&rd.src) < 4 {
                return Ok(None);
            }
            Ok(Some(Val::Float32(get_u32_le(&mut rd.src))))
        },
        Type::Float64 => {
            if buffer_len(&rd.src) < 8 {
                return Ok(None);
            }
            Ok(Some(Val::Float64(get_u64_le(&mut rd.src))))
        },
        Type::Char => match read_char(&mut rd.src) {
            Ok(Some(c)) => Ok(Some(Val::Char(c))),
            Ok(None) => Ok(None),
            Err(e) => Err(e),
        },
        Type::String => match read_prefixed(rd) {
            Ok(Some(bytes)) => match string_from_utf8(bytes) {
                Ok(s) => Ok(Some(Val::String(s))),
                Err(_) => Err(ReadError::InvalidString),
            },
            Ok(None) => Ok(None),
            Err(e) => Err(e),
        },
        Type::List(ty) => match read_count(rd) {
            Ok(Some(n)) => read_list(cx, ty, path, n as usize, rd),
            Ok(None) => Ok(None),
            Err(e) => Err(e),
        },
        Type::Record(fields) => read_record(cx, fields, path, rd),
        Type::Tuple(tys) => read_tuple(cx, tys, path, rd),
        Type::Variant(cases) => read_variant(cx, cases, path, rd),
        Type::Enum(names) => match read_count(rd) {
            Ok(Some(n)) => {
                if n as usize >= names.len() {
                    return Err(ReadError::UnknownEnumDiscriminant(n));
                }
                Ok(Some(Val::Enum(names[n as usize].clone())))
            },
            Ok(None) => Ok(None),
            Err(e) => Err(e),
        },
        Type::Option(ty) => match read_byte(rd) {
            Ok(Some(b)) => if b == 0 {
                Ok(Some(Val::Option(None)))
            } else if b == 1 {
                match read_one(cx, ty, path, rd) {
                    Ok(Some(v)) => Ok(Some(Val::Option(Some(Box::new(v))))),
                    Ok(None) => Ok(None),
                    Err(e) => Err(e),
                }
            } else {
                Err(ReadError::InvalidOptionStatus(b))
            },
            Ok(None) => Ok(None),
            Err(e) => Err(e),
        },
        Type::Result(ok, err) => match read_byte(rd) {
            Ok(Some(b)) => if b == 0 {
                match ok {
                    Some(ty) => match read_one(cx, ty, path, rd) {
                        Ok(Some(v)) => Ok(Some(Val::Result(Ok(Some(Box::new(v)))))),
                        Ok(None) => Ok(None),
                        Err(e) => Err(e),
                    },
                    None => Ok(Some(Val::Result(Ok(None)))),
                }
            } else if b == 1 {
                match err {
                    Some(ty) => match read_one(cx, ty, path, rd) {
                        Ok(Some(v)) => Ok(Some(Val::Result(Err(Some(Box::new(v)))))),
                        Ok(None) => Ok(None),
                        Err(e) => Err(e),
                    },
                    None => Ok(Some(Val::Result(Err(None)))),
                }
            } else {
                Err(ReadError::InvalidResultStatus(b))
            },
            Ok(None) => Ok(None),
            Err(e) => Err(e),
        },
        Type::Flags(names) => match read_flags(names, rd) {
            Ok(Some(flags)) => Ok(Some(Val::Flags(flags))),
            Ok(None) => Ok(None),
            Err(e) => Err(e),
        },
        Type::Own(ty) => match read_resource(cx, *ty, true, path, rd) {
            Ok(Some(id)) => Ok(Some(Val::Resource(id))),
            Ok(None) => Ok(None),
            Err(e) => Err(e),
        },
        Type::Borrow(ty) => match read_resource(cx, *ty, false, path, rd) {
            Ok(Some(id)) => Ok(Some(Val::Resource(id))),
            Ok(None) => Ok(None),
            Err(e) => Err(e),
        },
        Type::Stream(item) => {
            let bytes: bool = match item {
                Some(ty) => matches!(&**ty, Type::U8),
                None => false,
            };
            if !bytes {
                return Err(ReadError::UnsupportedStream);
            }
            match read_byte_stream(rd, path) {
                Ok(Some(id)) => Ok(Some(Val::Stream(id))),
                Ok(None) => Ok(None),
                Err(e) => Err(e),
            }
        },
        Type::Future => Err(ReadError::UnsupportedFuture),
        Type::ErrorContext => Err(ReadError::UnsupportedFuture),
        Type::KeyValueMap => Err(ReadError::UnsupportedMap),
        Type::FixedLengthList => Err(ReadError::UnsupportedFixedLengthList),
    }
}

/// Read a case of a variant.
fn read_variant<R: Copy>(
    cx: &Surroundings<R>,
    cases: &Vec<Case>,
    path: &Vec<usize>,
    rd: &mut Reader<R>,
) -> (r: Result<Option<Val>, ReadError>)
    ensures
        value_outcome(r, *final(rd)) == parse(
            cx.context(),
            Type::Variant(*cases),
            path@,
            old(rd).progress(),
        ),
    decreases cases, 0nat,
{
    match read_count(rd) {
        Ok(Some(n)) => {
            if n as usize >= cases.len() {
                return Err(ReadError::UnknownVariantDiscriminant(n));
            }
            let case: &Case = &cases[n as usize];
            match &case.ty {
                Some(ty) => match read_one(cx, ty, path, rd) {
                    Ok(Some(v)) => Ok(Some(Val::Variant(case.name.clone(), Some(Box::new(v))))),
                    Ok(None) => Ok(None),
                    Err(e) => Err(e),
                },
                None => Ok(Some(Val::Variant(case.name.clone(), None))),
            }
        },
        Ok(None) => Ok(None),
        Err(e) => Err(e),
    }
}

/// Read `n` elements of a list.
fn read_list<R: Copy>(
    cx: &Surroundings<R>,
    ty: &Type,
    path: &Vec<usize>,
    n: usize,
    rd: &mut Reader<R>,
) -> (r: Result<Option<Val>, ReadError>)
    ensures
        value_outcome(r, *final(rd)) == list_parse(
            cx.context(),
            *ty,
            path@,
            old(rd).progress(),
            n as nat,
        ).and(|vs: Seq<Value>| Value::List(vs)),
    decreases ty, 1nat,
{
    let ghost p = rd.progress();
    let mut vs: Vec<Val> = Vec::new();
    let mut sub: Vec<usize> = copy_path(path);
    assert(values(vs@) =~= seq![]);
    for i in 0..n
        invariant
            p == old(rd).progress(),
            sub@ == path@,
            list_parse(cx.context(), *ty, path@, p, i as nat) == Parsed::<Seq<Value>, R>::Done(
                values(vs@),
                rd.progress(),
            ),
    {
        let ghost before = values(vs@);
        sub.push(i);
        let r = read_one(cx, ty, &sub, rd);
        sub.pop();
        assert(sub@ =~= path@);
        match r {
            Ok(Some(v)) => {
                vs.push(v);
                assert(values(vs@) =~= before.push(v@));
            },
            Ok(None) => {
                proof {
                    lemma_list_stuck(cx.context(), *ty, path@, p, (i + 1) as nat, n as nat);
                }
                return Ok(None);
            },
            Err(e) => {
                proof {
                    lemma_list_stuck(cx.context(), *ty, path@, p, (i + 1) as nat, n as nat);
                }
                return Err(e);
            },
        }
    }
    Ok(Some(Val::List(vs)))
}

/// Read the fields of a record.
fn read_record<R: Copy>(
    cx: &Surroundings<R>,
    fields: &Vec<Field>,
    path: &Vec<usize>,
    rd: &mut Reader<R>,
) -> (r: Result<Option<Val>, ReadError>)
    ensures
        value_outcome(r, *final(rd)) == record_parse(
            cx.context(),
            fields@,
            path@,
            old(rd).progress(),
            fields@.len(),
        ).and(|vs: Seq<(Seq<char>, Value)>| Value::Record(vs)),
    decreases fields, 0nat,
{
    let ghost p = rd.progress();
    let mut vs = Vec::new();
    let mut sub: Vec<usize> = copy_path(path);
    assert(field_values(vs@) =~= seq![]);
    for i in 0..fields.len()
        invariant
            p == old(rd).progress(),
            sub@ == path@,
            record_parse(cx.context(), fields@, path@, p, i as nat) == Parsed::<
                Seq<(Seq<char>, Value)>,
                R,
            >::Done(field_values(vs@), rd.progress()),
    {
        let ghost before = field_values(vs@);
        sub.push(i);
        let r = read_one(cx, &fields[i].ty, &sub, rd);
        sub.pop();
        assert(sub@ =~= path@);
        match r {
            Ok(Some(v)) => {
                vs.push((fields[i].name.clone(), v));
                assert(field_values(vs@) =~= before.push((fields@[i as int].name@, v@)));
            },
            Ok(None) => {
                proof {
                    lemma_record_stuck(
                        cx.context(),
                        fields@,
                        path@,
                        p,
                        (i + 1) as nat,
                        fields@.len(),
                    );
                }
                return Ok(None);
            },
            Err(e) => {
                proof {
                    lemma_record_stuck(
                        cx.context(),
                        fields@,
                        path@,
                        p,
                        (i + 1) as nat,
                        fields@.len(),
                    );
                }
                return Err(e);
            },
        }
    }
    Ok(Some(Val::Record(vs)))
}

/// Read the elements of a tuple.
fn read_tuple<R: Copy>(
    cx: &Surroundings<R>,
    tys: &Vec<Type>,
    path: &Vec<usize>,
    rd: &mut Reader<R>,
) -> (r: Result<Option<Val>, ReadError>)
    ensures
        value_outcome(r, *final(rd)) == tuple_parse(
            cx.context(),
            tys@,
            path@,
            old(rd).progress(),
            tys@.len(),
        ).and(|vs: Seq<Value>| Value::Tuple(vs)),
    decreases tys, 0nat,
{
    let ghost p = rd.progress();
    let mut vs = Vec::new();
    let mut sub: Vec<usize> = copy_path(path);
    assert(values(vs@) =~= seq![]);
    for i in 0..tys.len()
        invariant
            p == old(rd).progress(),
            sub@ == path@,
            tuple_parse(cx.context(), tys@, path@, p, i as nat) == Parsed::<Seq<Value>, R>::Done(
                values(vs@),
                rd.progress(),
            ),
    {
        let ghost before = values(vs@);
        sub.push(i);
        let r = read_one(cx, &tys[i], &sub, rd);
        sub.pop();
        assert(sub@ =~= path@);
        match r {
            Ok(Some(v)) => {
                vs.push(v);
                assert(values(vs@) =~= before.push(v@));
            },
            Ok(None) => {
                proof {
                    lemma_tuple_stuck(cx.context(), tys@, path@, p, (i + 1) as nat, tys@.len());
                }
                return Ok(None);
            },
            Err(e) => {
                proof {
                    lemma_tuple_stuck(cx.context(), tys@, path@, p, (i + 1) as nat, tys@.len());
                }
                return Err(e);
            },
        }
    }
    Ok(Some(Val::Tuple(vs)))
}

/// A value that was read, with what its resources and streams are to be made of.
#[derive(Debug)]
pub struct Received<R> {
    pub val: Val,
    /// The resources and streams of the value, by number.
    pub sources: Vec<Source<R>>,
}

/// The shared resources that attempts at a value have found so far, in the order
/// in which the value has them.
#[derive(Debug)]
pub struct Found<R> {
    resources: VecDeque<R>,
}

impl<R> View for Found<R> {
    type V = Seq<R>;

    closed spec fn view(&self) -> Seq<R> {
        self.resources@
    }
}

impl<R> Found<R> {
    /// Nothing was found yet: the next attempt is the first.
    pub fn new() -> (found: Self)
        ensures
            found@ == Seq::<R>::empty(),
    {
        Found { resources: VecDeque::new() }
    }
}

/// The start of an attempt at a value from these bytes, after attempts that have
/// found these shared resources.
pub open spec fn resume<R>(bytes: Seq<u8>, found: Seq<R>) -> Progress<R> {
    Progress { rest: bytes, taken: seq![], origins: seq![], recall: found }
}

/// The start of the first attempt at a value from these bytes.
pub open spec fn start<R>(bytes: Seq<u8>) -> Progress<R> {
    resume(bytes, seq![])
}

/// The shared resources among these, in order.
pub open spec fn shared_of<R>(origins: Seq<Origin<R>>) -> Seq<R>
    decreases origins.len(),
{
    if origins.len() == 0 {
        seq![]
    } else {
        let front = shared_of(origins.drop_last());
        match origins.last() {
            Origin::Shared(resource) => front.push(resource),
            _ => front,
        }
    }
}

/// The shared resources that were found by the time of an attempt that got this
/// far.
pub open spec fn found_by<R>(p: Progress<R>) -> Seq<R> {
    shared_of(p.origins) + p.recall
}

/// Keep the shared resources among what was read for the next attempt.
fn keep_found<R: Copy>(sources: &Vec<Source<R>>, recall: VecDeque<R>) -> (found: VecDeque<R>)
    ensures
        found@ == shared_of(origins(sources@)) + recall@,
{
    let mut found: VecDeque<R> = recall;
    let mut i: usize = sources.len();
    assert(origins(sources@).take(i as int) =~= origins(sources@));
    while i > 0
        invariant
            i <= sources@.len(),
            shared_of(origins(sources@).take(i as int)) + found@ == shared_of(origins(sources@))
                + recall@,
        decreases i,
    {
        let ghost rest = found@;
        let ghost front = origins(sources@).take(i as int);
        i = i - 1;
        assert(front.drop_last() =~= origins(sources@).take(i as int));
        if let Source::Shared(resource) = &sources[i] {
            found.push_front(*resource);
            assert(shared_of(front.drop_last()).push(*resource) + rest =~= shared_of(
                front.drop_last(),
            ) + found@);
        }
    }
    assert(shared_of(origins(sources@).take(0)) + found@ =~= found@);
    found
}

/// Read a value of type `ty`, which stands at `path`, from the bytes that have
/// come: `None` if more are needed.
///
/// `closed` says that no more will come; a value that ends before its last byte
/// is then an error, and nothing is left in `src`. A value that was read is taken
/// out of `src`; of one that cannot be read, the bytes up to the one that shows
/// it.
///
/// Handles are looked up in `scope` as they come. A resource that the value owns
/// leaves the table as soon as its handle is read, be the value complete or not.
/// `found` keeps the resources of a value that is not complete yet for the next
/// attempt, which is made with the same bytes and more.
pub fn read_value<R: Copy>(
    table: &mut SharedResourceTable<R>,
    scope: Option<u64>,
    src: &mut BytesMut,
    found: &mut Found<R>,
    closed: bool,
    resources: &[ResourceType],
    io_streams: &[ResourceType],
    ty: &Type,
    path: &Vec<usize>,
) -> (r: Result<Option<Received<R>>, ReadError>)
    ensures
        ({
            let cx = ReadContext {
                entries: old(table).entries(),
                scope,
                resources: resources@,
                io_streams: io_streams@,
            };
            match parse(cx, *ty, path@, resume(buffer_bytes(*old(src)), old(found)@)) {
                Parsed::Done(v, q) => {
                    &&& r matches Ok(Some(received)) && received.val@ == v && origins(
                        received.sources@,
                    ) == q.origins
                    &&& buffer_bytes(*final(src)) == q.rest
                    &&& final(found)@ == Seq::<R>::empty()
                    &&& final(table).entries() == old(table).entries().remove_keys(
                        q.taken.to_set(),
                    )
                },
                Parsed::More(q) => {
                    &&& if closed {
                        &&& r matches Err(e) && e == ReadError::UnexpectedEof
                        &&& buffer_bytes(*final(src)) == Seq::<u8>::empty()
                        &&& final(found)@ == Seq::<R>::empty()
                    } else {
                        &&& r matches Ok(None)
                        &&& buffer_bytes(*final(src)) == buffer_bytes(*old(src))
                        &&& final(found)@ == found_by(q)
                    }
                    &&& final(table).entries() == old(table).entries().remove_keys(
                        q.taken.to_set(),
                    )
                },
                Parsed::Fail(error, taken, rest) => {
                    &&& r matches Err(e) && e == error
                    &&& buffer_bytes(*final(src)) == rest
                    &&& final(found)@ == Seq::<R>::empty()
                    &&& final(table).entries() == old(table).entries().remove_keys(taken.to_set())
                },
            }
        }),
        final(table).capacity() == old(table).capacity(),
        final(table).minted() == old(table).minted(),
        old(table).wf() ==> final(table).wf(),
{
    let mut earlier: VecDeque<R> = VecDeque::new();
    std::mem::swap(&mut earlier, &mut found.resources);
    let mut rd: Reader<R> = Reader {
        src: copy_buffer(src),
        taken: Vec::new(),
        sources: Vec::new(),
        recall: earlier,
    };
    assert(origins(rd.sources@) =~= seq![]);
    assert(rd.taken@ =~= seq![]);
    let r = {
        let cx = Surroundings { table: &*table, scope, resources, io_streams };
        read_one(&cx, ty, path, &mut rd)
    };
    let Reader { src: rest, taken, sources, recall } = rd;
    evict_all(table, &taken);
    match r {
        Ok(Some(val)) => {
            *src = rest;
            Ok(Some(Received { val, sources }))
        },
        Ok(None) => {
            if !closed {
                found.resources = keep_found(&sources, recall);
                return Ok(None);
            }
            *src = empty_buffer();
            Err(ReadError::UnexpectedEof)
        },
        Err(e) => {
            *src = rest;
            Err(e)
        },
    }
}

/// Remove what is live under each of the handles.
fn evict_all<R>(table: &mut SharedResourceTable<R>, ids: &Vec<u128>)
    ensures
        final(table).entries() == old(table).entries().remove_keys(ids@.to_set()),
        final(table).capacity() == old(table).capacity(),
        final(table).minted() == old(table).minted(),
        old(table).wf() ==> final(table).wf(),
{
    let ghost entries = table.entries();
    assert(ids@.take(0).to_set() =~= Set::empty());
    assert(entries.remove_keys(Set::empty()) =~= entries);
    for i in 0..ids.len()
        invariant
            entries == old(table).entries(),
            table.entries() == entries.remove_keys(ids@.take(i as int).to_set()),
            table.capacity() == old(table).capacity(),
            table.minted() == old(table).minted(),
            old(table).wf() ==> table.wf(),
    {
        table.evict(&ids[i]);
        proof {
            let front = ids@.take(i as int);
            assert(ids@.take(i + 1) =~= front.push(ids@[i as int]));
            assert(front.push(ids@[i as int]).to_set() =~= front.to_set().insert(ids@[i as int]))
                by {
                broadcast use vstd::seq_lib::group_seq_properties;

            }
            assert(entries.remove_keys(front.to_set().insert(ids@[i as int]))
                =~= entries.remove_keys(front.to_set()).remove(ids@[i as int]));
        }
    }
    assert(ids@.take(ids@.len() as int) =~= ids@);
}

/// The view of what resources and streams are made of hides nothing: each is seen as
/// what it is, with just the bytes, the path or the resource that it has, and in its
/// place.
pub proof fn law_sources_are_seen_as_they_are<R>(source: Source<R>, sources: Seq<Source<R>>)
    ensures
        match source {
            Source::Stream(ByteStream::Inline(bytes)) => source@ == Origin::<R>::Inline(bytes@),
            Source::Stream(ByteStream::Indexed(path)) => source@ == Origin::<R>::Indexed(path@),
            Source::Remote(handle) => source@ == Origin::<R>::Remote(handle@),
            Source::Shared(resource) => source@ == Origin::Shared(resource),
        },
        origins(sources).len() == sources.len(),
        forall|i: int| 0 <= i < sources.len() ==> #[trigger] origins(sources)[i] == sources[i]@,
{
}

} // verus!
