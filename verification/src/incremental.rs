//! Reading while the bytes still arrive.
//!
//! A reader that sees only the front of a stream comes to the outcome that the
//! whole stream has, as soon as it comes to one.

use vstd::prelude::*;
use vstd::utf8::{length_of_first_scalar, valid_first_scalar};

use crate::decode::{
    advance, list_parse, parse, parse_byte, parse_byte_stream, parse_bytes, parse_char,
    parse_prefixed, parse_resource, parse_signed, parse_unsigned, record_parse, tuple_parse,
    Parsed, Progress, ReadContext,
};
use crate::flags::flag_byte_count;
use crate::leb128::{
    lemma_signed_bounds, lemma_signed_extends, lemma_unsigned_bounds, lemma_unsigned_extends,
    read_signed, read_unsigned, Leb,
};
use crate::text::{
    char_given_up, lemma_char_complete_or_unfinished, lemma_char_extends, lemma_char_given_up,
};
use crate::types::{Field, ResourceType, Type};

verus! {

/// The same progress, with bytes added behind those that were not read yet.
pub open spec fn appended<R>(p: Progress<R>, more: Seq<u8>) -> Progress<R> {
    Progress { rest: p.rest + more, ..p }
}

/// The same outcome, with bytes added behind those that were not read.
pub open spec fn extended<T, R>(outcome: Parsed<T, R>, more: Seq<u8>) -> Parsed<T, R> {
    match outcome {
        Parsed::Done(v, p) => Parsed::Done(v, appended(p, more)),
        Parsed::More(p) => Parsed::More(appended(p, more)),
        Parsed::Fail(e, taken, rest) => Parsed::Fail(e, taken, rest + more),
    }
}

/// Whether the outcome stays when bytes are added: `after` is the outcome with
/// them.
pub(crate) open spec fn stays<T, R>(
    before: Parsed<T, R>,
    after: Parsed<T, R>,
    more: Seq<u8>,
) -> bool {
    !(before is More) ==> after == extended(before, more)
}

/// Bytes behind those that are skipped do not matter.
proof fn lemma_advance<R>(p: Progress<R>, more: Seq<u8>, n: int)
    requires
        0 <= n <= p.rest.len(),
    ensures
        advance(appended(p, more), n) == appended(advance(p, n), more),
        (p.rest + more).take(n) == p.rest.take(n),
{
    assert((p.rest + more).skip(n) =~= p.rest.skip(n) + more);
    assert((p.rest + more).take(n) =~= p.rest.take(n));
}

/// The outcome stays for one byte.
pub(crate) proof fn lemma_byte<R>(p: Progress<R>, more: Seq<u8>)
    ensures
        stays(parse_byte(p), parse_byte(appended(p, more)), more),
{
    if p.rest.len() > 0 {
        lemma_advance(p, more, 1);
    }
}

/// The outcome stays for `n` bytes.
proof fn lemma_bytes<R>(n: nat, p: Progress<R>, more: Seq<u8>)
    ensures
        stays(parse_bytes(n, p), parse_bytes(n, appended(p, more)), more),
{
    if n <= p.rest.len() {
        lemma_advance(p, more, n as int);
    }
}

/// The outcome stays for an unsigned integer.
pub(crate) proof fn lemma_unsigned<R>(bits: nat, p: Progress<R>, more: Seq<u8>)
    requires
        bits > 0,
    ensures
        stays(parse_unsigned(bits, p), parse_unsigned(bits, appended(p, more)), more),
{
    if !(parse_unsigned(bits, p) is More) {
        lemma_unsigned_bounds(bits, p.rest);
        lemma_unsigned_extends(bits, p.rest, more);
        match read_unsigned(bits, p.rest) {
            Leb::Done(_, n) => lemma_advance(p, more, n as int),
            Leb::Overflow(n) => lemma_advance(p, more, n as int),
            Leb::More => {},
        }
    }
}

/// The outcome stays for a signed integer.
proof fn lemma_signed<R>(bits: nat, p: Progress<R>, more: Seq<u8>)
    requires
        bits > 0,
    ensures
        stays(parse_signed(bits, p), parse_signed(bits, appended(p, more)), more),
{
    if !(parse_signed(bits, p) is More) {
        lemma_signed_bounds(bits, p.rest);
        lemma_signed_extends(bits, p.rest, more);
        match read_signed(bits, p.rest) {
            Leb::Done(_, n) => lemma_advance(p, more, n as int),
            Leb::Overflow(n) => lemma_advance(p, more, n as int),
            Leb::More => {},
        }
    }
}

/// The outcome stays for a character.
proof fn lemma_char<R>(p: Progress<R>, more: Seq<u8>)
    ensures
        stays(parse_char(p), parse_char(appended(p, more)), more),
{
    if !(parse_char(p) is More) {
        lemma_char_complete_or_unfinished(p.rest);
        lemma_char_extends(p.rest, more);
        if valid_first_scalar(p.rest) {
            lemma_advance(p, more, length_of_first_scalar(p.rest));
        } else {
            lemma_char_given_up(p.rest, more);
            lemma_advance(p, more, char_given_up(p.rest));
        }
    }
}

/// The outcome stays for bytes with their length in front.
proof fn lemma_prefixed<R>(p: Progress<R>, more: Seq<u8>)
    ensures
        stays(parse_prefixed(p), parse_prefixed(appended(p, more)), more),
{
    lemma_unsigned(32, p, more);
    if let Parsed::Done(n, q) = parse_unsigned(32, p) {
        lemma_bytes(n as nat, q, more);
    }
}

/// The outcome stays for a byte stream.
proof fn lemma_byte_stream<R>(path: Seq<usize>, p: Progress<R>, more: Seq<u8>)
    ensures
        stays(parse_byte_stream(path, p), parse_byte_stream(path, appended(p, more)), more),
{
    lemma_prefixed(p, more);
}

/// The outcome stays for a resource.
proof fn lemma_resource<R>(
    cx: ReadContext<R>,
    ty: ResourceType,
    owned: bool,
    path: Seq<usize>,
    p: Progress<R>,
    more: Seq<u8>,
)
    ensures
        stays(
            parse_resource(cx, ty, owned, path, p),
            parse_resource(cx, ty, owned, path, appended(p, more)),
            more,
        ),
{
    lemma_byte_stream(path, p, more);
    lemma_prefixed(p, more);
    lemma_unsigned(8, p, more);
    if let Parsed::Done(n, q) = parse_unsigned(8, p) {
        lemma_bytes(16, q, more);
    }
}

/// What was read from the front of a stream is what the whole stream gives: when
/// the bytes that have come are enough to read a value, or to see that there is
/// none, then the bytes that follow change nothing but what is left to read.
pub proof fn law_bytes_that_follow_change_nothing<R>(
    cx: ReadContext<R>,
    ty: Type,
    path: Seq<usize>,
    p: Progress<R>,
    more: Seq<u8>,
)
    requires
        !(parse(cx, ty, path, p) is More),
    ensures
        parse(cx, ty, path, appended(p, more)) == extended(
            parse(cx, ty, path, p),
            more,
        ),
{
    lemma_stays(cx, ty, path, p, more);
}

/// The outcome stays for a value, by its type.
proof fn lemma_stays<R>(
    cx: ReadContext<R>,
    ty: Type,
    path: Seq<usize>,
    p: Progress<R>,
    more: Seq<u8>,
)
    ensures
        stays(
            parse(cx, ty, path, p),
            parse(cx, ty, path, appended(p, more)),
            more,
        ),
    decreases ty, 0nat,
{
    match ty {
        Type::Bool | Type::S8 | Type::U8 => {
            lemma_byte(p, more);
        },
        Type::S16 => {
            lemma_signed(16, p, more);
        },
        Type::U16 => {
            lemma_unsigned(16, p, more);
        },
        Type::S32 => {
            lemma_signed(32, p, more);
        },
        Type::U32 => {
            lemma_unsigned(32, p, more);
        },
        Type::S64 => {
            lemma_signed(64, p, more);
        },
        Type::U64 => {
            lemma_unsigned(64, p, more);
        },
        Type::Float32 => {
            lemma_bytes(4, p, more);
        },
        Type::Float64 => {
            lemma_bytes(8, p, more);
        },
        Type::Char => {
            lemma_char(p, more);
        },
        Type::String => {
            lemma_prefixed(p, more);
        },
        Type::List(ty) => {
            lemma_unsigned(32, p, more);
            if let Parsed::Done(n, q) = parse_unsigned(32, p) {
                lemma_list_stays(cx, *ty, path, q, more, n as nat);
            }
        },
        Type::Record(fields) => {
            lemma_record_stays(cx, fields@, path, p, more, fields@.len());
        },
        Type::Tuple(tys) => {
            lemma_tuple_stays(cx, tys@, path, p, more, tys@.len());
        },
        Type::Variant(cases) => {
            lemma_unsigned(32, p, more);
            if let Parsed::Done(n, q) = parse_unsigned(32, p) {
                if 0 <= n < cases@.len() {
                    if let Some(ty) = cases@[n].ty {
                        lemma_stays(cx, ty, path, q, more);
                    }
                }
            }
        },
        Type::Enum(names) => {
            lemma_unsigned(32, p, more);
        },
        Type::Option(ty) => {
            lemma_byte(p, more);
            if let Parsed::Done(_, q) = parse_byte(p) {
                lemma_stays(cx, *ty, path, q, more);
            }
        },
        Type::Result(ok, err) => {
            lemma_byte(p, more);
            if let Parsed::Done(_, q) = parse_byte(p) {
                if let Some(ty) = ok {
                    lemma_stays(cx, *ty, path, q, more);
                }
                if let Some(ty) = err {
                    lemma_stays(cx, *ty, path, q, more);
                }
            }
        },
        Type::Flags(names) => {
            lemma_bytes(flag_byte_count(names@.len()), p, more);
        },
        Type::Own(ty) => {
            lemma_resource(cx, ty, true, path, p, more);
        },
        Type::Borrow(ty) => {
            lemma_resource(cx, ty, false, path, p, more);
        },
        Type::Stream(_) => {
            lemma_byte_stream(path, p, more);
        },
        Type::Future | Type::ErrorContext | Type::KeyValueMap | Type::FixedLengthList => {},
    }
}

/// The outcome stays for `n` values of one type.
pub(crate) proof fn lemma_list_stays<R>(
    cx: ReadContext<R>,
    ty: Type,
    path: Seq<usize>,
    p: Progress<R>,
    more: Seq<u8>,
    n: nat,
)
    ensures
        stays(
            list_parse(cx, ty, path, p, n),
            list_parse(cx, ty, path, appended(p, more), n),
            more,
        ),
    decreases ty, n + 1,
{
    if n > 0 {
        lemma_list_stays(cx, ty, path, p, more, (n - 1) as nat);
        if let Parsed::Done(_, q) = list_parse(cx, ty, path, p, (n - 1) as nat) {
            lemma_stays(cx, ty, path.push((n - 1) as usize), q, more);
        }
    }
}

/// The outcome stays for values of the first `n` types.
pub(crate) proof fn lemma_tuple_stays<R>(
    cx: ReadContext<R>,
    tys: Seq<Type>,
    path: Seq<usize>,
    p: Progress<R>,
    more: Seq<u8>,
    n: nat,
)
    requires
        n <= tys.len(),
    ensures
        stays(
            tuple_parse(cx, tys, path, p, n),
            tuple_parse(cx, tys, path, appended(p, more), n),
            more,
        ),
    decreases tys, n,
{
    if n > 0 {
        lemma_tuple_stays(cx, tys, path, p, more, (n - 1) as nat);
        if let Parsed::Done(_, q) = tuple_parse(cx, tys, path, p, (n - 1) as nat) {
            lemma_stays(cx, tys[n - 1], path.push((n - 1) as usize), q, more);
        }
    }
}

/// The outcome stays for values of the first `n` fields.
pub(crate) proof fn lemma_record_stays<R>(
    cx: ReadContext<R>,
    fields: Seq<Field>,
    path: Seq<usize>,
    p: Progress<R>,
    more: Seq<u8>,
    n: nat,
)
    requires
        n <= fields.len(),
    ensures
        stays(
            record_parse(cx, fields, path, p, n),
            record_parse(cx, fields, path, appended(p, more), n),
            more,
        ),
    decreases fields, n,
{
    if n > 0 {
        lemma_record_stays(cx, fields, path, p, more, (n - 1) as nat);
        if let Parsed::Done(_, q) = record_parse(cx, fields, path, p, (n - 1) as nat) {
            lemma_stays(cx, fields[n - 1].ty, path.push((n - 1) as usize), q, more);
        }
    }
}

} // verus!
