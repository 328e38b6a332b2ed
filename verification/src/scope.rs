//! What reading may take.
//!
//! Reading moves forward only, and it reaches no resource but those that were
//! shared in the scope it reads for.

use vstd::prelude::*;
use vstd::utf8::{length_of_first_scalar, valid_first_scalar};

use crate::decode::{
    add_origin, advance, find_shared, list_parse, parse, parse_byte, parse_byte_stream, parse_bytes,
    parse_char, parse_prefixed, parse_remote, parse_resource, parse_shared, parse_signed,
    parse_unsigned, record_parse, resume, tuple_parse, visible, Origin, Parsed, Progress,
    ReadContext,
};
use crate::flags::flag_byte_count;
use crate::handle::handle_of;
use crate::leb128::{lemma_signed_bounds, lemma_unsigned_bounds, read_signed, read_unsigned, Leb};
use crate::shared::lookup;
use crate::text::{
    char_given_up, char_unfinished, lemma_char_complete_or_unfinished, lemma_char_extends,
    lemma_char_given_up,
};
use crate::types::{Field, ResourceType, Type};

verus! {

/// After `before`, the handles in `after` were taken: all of them stand for
/// something in the scope, and none was taken twice.
pub open spec fn takes<R>(cx: ReadContext<R>, before: Seq<u128>, after: Seq<u128>) -> bool {
    &&& before.len() <= after.len()
    &&& after.take(before.len() as int) == before
    &&& forall|i: int|
        before.len() <= i < after.len() ==> lookup(cx.entries, cx.scope, #[trigger] after[i])
            is Some && !after.take(i).contains(after[i])
}

/// The resource is found in the scope, or was found by an earlier attempt.
pub open spec fn is_found<R>(cx: ReadContext<R>, recall: Seq<R>, r: R) -> bool {
    ||| recall.contains(r)
    ||| exists|id: u128| lookup(cx.entries, cx.scope, id) == Some(r)
}

/// From `p` to `q` the shared resources that were read were all found in the
/// scope, now or by an earlier attempt.
pub open spec fn finds<R>(cx: ReadContext<R>, p: Progress<R>, q: Progress<R>) -> bool {
    &&& p.origins.len() <= q.origins.len()
    &&& q.origins.take(p.origins.len() as int) == p.origins
    &&& forall|i: int|
        p.origins.len() <= i < q.origins.len() ==> (#[trigger] q.origins[i] matches Origin::Shared(
            r,
        ) ==> is_found(cx, p.recall, r))
    &&& q.recall.len() <= p.recall.len()
    &&& q.recall == p.recall.skip(p.recall.len() - q.recall.len())
}

/// What is left to read in `after` is the end of what was left in `before`.
pub open spec fn moves_on(before: Seq<u8>, after: Seq<u8>) -> bool {
    after.len() <= before.len() && after == before.skip(before.len() - after.len())
}

/// The handles that were taken by the time of the outcome.
pub open spec fn taken_by<T, R>(outcome: Parsed<T, R>) -> Seq<u128> {
    match outcome {
        Parsed::Done(_, q) => q.taken,
        Parsed::More(q) => q.taken,
        Parsed::Fail(_, taken, _) => taken,
    }
}

/// The outcome takes nothing from elsewhere than the scope, and moves on.
pub open spec fn keeps_to_scope<T, R>(
    cx: ReadContext<R>,
    p: Progress<R>,
    outcome: Parsed<T, R>,
) -> bool {
    &&& takes(cx, p.taken, taken_by(outcome))
    &&& outcome matches Parsed::Done(_, q) ==> finds(cx, p, q) && moves_on(p.rest, q.rest)
    &&& outcome matches Parsed::More(q) ==> finds(cx, p, q) && moves_on(p.rest, q.rest)
    &&& outcome matches Parsed::Fail(_, _, rest) ==> moves_on(p.rest, rest)
}

/// What is found in two steps is found.
proof fn lemma_finds<R>(cx: ReadContext<R>, p: Progress<R>, q: Progress<R>, r: Progress<R>)
    requires
        finds(cx, p, q),
        finds(cx, q, r),
    ensures
        finds(cx, p, r),
{
    assert(forall|i: int|
        0 <= i < q.origins.len() ==> r.origins[i] == r.origins.take(q.origins.len() as int)[i]);
    assert(r.origins.take(p.origins.len() as int) =~= q.origins.take(p.origins.len() as int));
    assert forall|i: int| p.origins.len() <= i < r.origins.len() implies (
    #[trigger] r.origins[i] matches Origin::Shared(x) ==> is_found(cx, p.recall, x)) by {
        if i < q.origins.len() {
            assert(r.origins[i] == q.origins[i]);
        } else if let Origin::Shared(x) = r.origins[i] {
            if q.recall.contains(x) {
                let k = choose|k: int| 0 <= k < q.recall.len() && q.recall[k] == x;
                assert(p.recall[p.recall.len() - q.recall.len() + k] == x);
            }
        }
    }
    assert(r.recall =~= p.recall.skip(p.recall.len() - r.recall.len()));
}

/// One step after the other.
proof fn lemma_then<T, R>(cx: ReadContext<R>, p: Progress<R>, q: Progress<R>, outcome: Parsed<T, R>)
    requires
        takes(cx, p.taken, q.taken),
        finds(cx, p, q),
        moves_on(p.rest, q.rest),
        keeps_to_scope(cx, q, outcome),
    ensures
        keeps_to_scope(cx, p, outcome),
{
    let t = taken_by(outcome);
    assert(t.take(p.taken.len() as int) =~= q.taken.take(p.taken.len() as int)) by {
        assert(forall|i: int| 0 <= i < q.taken.len() ==> t[i] == t.take(q.taken.len() as int)[i]);
    }
    assert forall|i: int| p.taken.len() <= i < t.len() implies lookup(
        cx.entries,
        cx.scope,
        #[trigger] t[i],
    ) is Some && !t.take(i).contains(t[i]) by {
        if i < q.taken.len() {
            assert(t[i] == t.take(q.taken.len() as int)[i]);
            assert(t.take(i) =~= q.taken.take(i)) by {
                assert(forall|j: int|
                    0 <= j < q.taken.len() ==> t[j] == t.take(q.taken.len() as int)[j]);
            }
        }
    }
    if let Parsed::Done(_, r) = outcome {
        lemma_finds(cx, p, q, r);
        assert(r.rest =~= p.rest.skip(p.rest.len() - r.rest.len()));
    }
    if let Parsed::More(r) = outcome {
        lemma_finds(cx, p, q, r);
        assert(r.rest =~= p.rest.skip(p.rest.len() - r.rest.len()));
    }
    if let Parsed::Fail(_, _, rest) = outcome {
        assert(rest =~= p.rest.skip(p.rest.len() - rest.len()));
    }
}

/// Nothing happened yet.
proof fn lemma_nothing<R>(cx: ReadContext<R>, p: Progress<R>)
    ensures
        takes(cx, p.taken, p.taken),
        finds(cx, p, p),
        moves_on(p.rest, p.rest),
{
    assert(p.taken.take(p.taken.len() as int) =~= p.taken);
    assert(p.origins.take(p.origins.len() as int) =~= p.origins);
    assert(p.rest.skip(0) =~= p.rest);
    assert(p.recall.skip(0) =~= p.recall);
}

/// Only bytes were read.
proof fn lemma_advanced<R>(cx: ReadContext<R>, p: Progress<R>, n: int)
    requires
        0 <= n <= p.rest.len(),
    ensures
        takes(cx, p.taken, advance(p, n).taken),
        finds(cx, p, advance(p, n)),
        moves_on(p.rest, advance(p, n).rest),
{
    lemma_nothing(cx, p);
}

/// One byte takes nothing.
proof fn lemma_byte<R>(cx: ReadContext<R>, p: Progress<R>)
    ensures
        keeps_to_scope(cx, p, parse_byte(p)),
{
    lemma_nothing(cx, p);
    if p.rest.len() > 0 {
        lemma_advanced(cx, p, 1);
    }
}

/// `n` bytes take nothing.
proof fn lemma_bytes<R>(cx: ReadContext<R>, n: nat, p: Progress<R>)
    ensures
        keeps_to_scope(cx, p, parse_bytes(n, p)),
{
    lemma_nothing(cx, p);
    if n <= p.rest.len() {
        lemma_advanced(cx, p, n as int);
    }
}

/// An unsigned integer takes nothing.
proof fn lemma_unsigned<R>(cx: ReadContext<R>, bits: nat, p: Progress<R>)
    requires
        bits > 0,
    ensures
        keeps_to_scope(cx, p, parse_unsigned(bits, p)),
{
    lemma_nothing(cx, p);
    lemma_unsigned_bounds(bits, p.rest);
    match read_unsigned(bits, p.rest) {
        Leb::Done(_, n) => lemma_advanced(cx, p, n as int),
        Leb::Overflow(n) => lemma_advanced(cx, p, n as int),
        Leb::More => {},
    }
}

/// A signed integer takes nothing.
proof fn lemma_signed<R>(cx: ReadContext<R>, bits: nat, p: Progress<R>)
    requires
        bits > 0,
    ensures
        keeps_to_scope(cx, p, parse_signed(bits, p)),
{
    lemma_nothing(cx, p);
    lemma_signed_bounds(bits, p.rest);
    match read_signed(bits, p.rest) {
        Leb::Done(_, n) => lemma_advanced(cx, p, n as int),
        Leb::Overflow(n) => lemma_advanced(cx, p, n as int),
        Leb::More => {},
    }
}

/// A character takes nothing.
proof fn lemma_char<R>(cx: ReadContext<R>, p: Progress<R>)
    ensures
        keeps_to_scope(cx, p, parse_char(p)),
{
    lemma_nothing(cx, p);
    if valid_first_scalar(p.rest) {
        lemma_char_complete_or_unfinished(p.rest);
        lemma_char_extends(p.rest, seq![]);
        lemma_advanced(cx, p, length_of_first_scalar(p.rest));
    } else if !char_unfinished(p.rest) {
        lemma_char_given_up(p.rest, seq![]);
        lemma_advanced(cx, p, char_given_up(p.rest));
    }
}

/// Bytes with their length in front take nothing.
proof fn lemma_prefixed<R>(cx: ReadContext<R>, p: Progress<R>)
    ensures
        keeps_to_scope(cx, p, parse_prefixed(p)),
{
    lemma_unsigned(cx, 32, p);
    if let Parsed::Done(n, q) = parse_unsigned(32, p) {
        lemma_bytes(cx, n as nat, q);
        lemma_then(cx, p, q, parse_bytes(n as nat, q));
    }
}

/// Something was read besides bytes.
proof fn lemma_found<R>(cx: ReadContext<R>, p: Progress<R>, origin: Origin<R>)
    requires
        origin matches Origin::Shared(r) ==> is_found(cx, p.recall, r),
    ensures
        keeps_to_scope(cx, p, add_origin(p, origin)),
{
    lemma_nothing(cx, p);
    assert(p.origins.push(origin).take(p.origins.len() as int) =~= p.origins);
}

/// A byte stream takes nothing.
proof fn lemma_byte_stream<R>(cx: ReadContext<R>, path: Seq<usize>, p: Progress<R>)
    ensures
        keeps_to_scope(cx, p, parse_byte_stream(path, p)),
{
    lemma_prefixed(cx, p);
    if let Parsed::Done(bytes, q) = parse_prefixed(p) {
        let origin = if bytes.len() > 0 {
            Origin::Inline(bytes)
        } else {
            Origin::Indexed(path)
        };
        lemma_found(cx, q, origin);
        lemma_then(cx, p, q, add_origin(q, origin));
    }
}

/// The resource under a handle is found in the scope, and taken from there if it
/// is owned.
proof fn lemma_find<R>(cx: ReadContext<R>, owned: bool, id: u128, p: Progress<R>)
    ensures
        keeps_to_scope(cx, p, find_shared(cx, owned, id, p)),
{
    let outcome = find_shared(cx, owned, id, p);
    lemma_nothing(cx, p);
    if p.recall.len() > 0 {
        let q = Progress { recall: p.recall.drop_first(), ..p };
        assert(q.recall =~= p.recall.skip(1));
        let origins = p.origins.push(Origin::Shared(p.recall[0]));
        assert(origins.take(p.origins.len() as int) =~= p.origins);
        assert(p.recall.contains(p.recall[0]));
    } else if let Some(resource) = visible(cx, p.taken, id) {
        let taken = if owned {
            p.taken.push(id)
        } else {
            p.taken
        };
        assert(takes(cx, p.taken, taken)) by {
            assert(taken.take(p.taken.len() as int) =~= p.taken);
        }
        let q = Progress { taken, ..p };
        assert(lookup(cx.entries, cx.scope, id) == Some(resource));
        lemma_found(cx, q, Origin::Shared(resource));
        lemma_then(cx, p, q, outcome);
    }
}

/// A shared resource is found in the scope, and taken from there if it is owned.
proof fn lemma_shared<R>(cx: ReadContext<R>, owned: bool, p: Progress<R>)
    ensures
        keeps_to_scope(cx, p, parse_shared(cx, owned, p)),
{
    let outcome = parse_shared(cx, owned, p);
    lemma_unsigned(cx, 8, p);
    if let Parsed::Done(n, q) = parse_unsigned(8, p) {
        lemma_nothing(cx, q);
        if n == 16 {
            lemma_bytes(cx, 16, q);
            if let Parsed::Done(bytes, r) = parse_bytes(16, q) {
                lemma_nothing(cx, r);
                lemma_find(cx, owned, handle_of(bytes), r);
                lemma_then(cx, q, r, outcome);
            }
        }
        lemma_then(cx, p, q, outcome);
    }
}

/// A resource keeps to the scope.
proof fn lemma_resource<R>(
    cx: ReadContext<R>,
    ty: ResourceType,
    owned: bool,
    path: Seq<usize>,
    p: Progress<R>,
)
    ensures
        keeps_to_scope(cx, p, parse_resource(cx, ty, owned, path, p)),
{
    lemma_byte_stream(cx, path, p);
    lemma_shared(cx, owned, p);
    lemma_prefixed(cx, p);
    if let Parsed::Done(handle, q) = parse_prefixed(p) {
        lemma_found(cx, q, Origin::Remote(handle));
        lemma_then(cx, p, q, parse_remote(p));
    }
}

/// Reading a value takes nothing but handles that the scope sees, each at most
/// once, whether it succeeds or not; the shared resources that it gives out are
/// found in that scope, now or by an earlier attempt; and what it leaves to read, a
/// failed read too, is the end of what was there.
pub proof fn law_reading_keeps_to_scope<R>(
    cx: ReadContext<R>,
    ty: Type,
    path: Seq<usize>,
    p: Progress<R>,
)
    ensures
        keeps_to_scope(cx, p, parse(cx, ty, path, p)),
    decreases ty, 0nat,
{
    lemma_nothing(cx, p);
    let outcome = parse(cx, ty, path, p);
    match ty {
        Type::Bool | Type::S8 | Type::U8 => {
            lemma_byte(cx, p);
        },
        Type::S16 => {
            lemma_signed(cx, 16, p);
        },
        Type::U16 => {
            lemma_unsigned(cx, 16, p);
        },
        Type::S32 => {
            lemma_signed(cx, 32, p);
        },
        Type::U32 => {
            lemma_unsigned(cx, 32, p);
        },
        Type::S64 => {
            lemma_signed(cx, 64, p);
        },
        Type::U64 => {
            lemma_unsigned(cx, 64, p);
        },
        Type::Float32 => {
            lemma_bytes(cx, 4, p);
        },
        Type::Float64 => {
            lemma_bytes(cx, 8, p);
        },
        Type::Char => {
            lemma_char(cx, p);
        },
        Type::String => {
            lemma_prefixed(cx, p);
        },
        Type::List(ty) => {
            lemma_unsigned(cx, 32, p);
            if let Parsed::Done(n, q) = parse_unsigned(32, p) {
                lemma_list(cx, *ty, path, q, n as nat);
                lemma_then(cx, p, q, outcome);
            }
        },
        Type::Record(fields) => {
            lemma_record(cx, fields@, path, p, fields@.len());
        },
        Type::Tuple(tys) => {
            lemma_tuple(cx, tys@, path, p, tys@.len());
        },
        Type::Variant(cases) => {
            lemma_unsigned(cx, 32, p);
            if let Parsed::Done(n, q) = parse_unsigned(32, p) {
                lemma_nothing(cx, q);
                if 0 <= n < cases@.len() {
                    if let Some(ty) = cases@[n].ty {
                        law_reading_keeps_to_scope(cx, ty, path, q);
                    }
                }
                lemma_then(cx, p, q, outcome);
            }
        },
        Type::Enum(names) => {
            lemma_unsigned(cx, 32, p);
        },
        Type::Option(ty) => {
            lemma_byte(cx, p);
            if let Parsed::Done(b, q) = parse_byte(p) {
                lemma_nothing(cx, q);
                if b == 1 {
                    law_reading_keeps_to_scope(cx, *ty, path, q);
                    lemma_then(cx, p, q, outcome);
                }
            }
        },
        Type::Result(ok, err) => {
            lemma_byte(cx, p);
            if let Parsed::Done(b, q) = parse_byte(p) {
                lemma_nothing(cx, q);
                if b == 0 {
                    if let Some(ty) = ok {
                        law_reading_keeps_to_scope(cx, *ty, path, q);
                        lemma_then(cx, p, q, outcome);
                    }
                } else if b == 1 {
                    if let Some(ty) = err {
                        law_reading_keeps_to_scope(cx, *ty, path, q);
                        lemma_then(cx, p, q, outcome);
                    }
                }
            }
        },
        Type::Flags(names) => {
            lemma_bytes(cx, flag_byte_count(names@.len()), p);
        },
        Type::Own(ty) => {
            lemma_resource(cx, ty, true, path, p);
        },
        Type::Borrow(ty) => {
            lemma_resource(cx, ty, false, path, p);
        },
        Type::Stream(_) => {
            lemma_byte_stream(cx, path, p);
        },
        Type::Future | Type::ErrorContext | Type::KeyValueMap | Type::FixedLengthList => {},
    }
}

/// `n` values of one type keep to the scope.
proof fn lemma_list<R>(cx: ReadContext<R>, ty: Type, path: Seq<usize>, p: Progress<R>, n: nat)
    ensures
        keeps_to_scope(cx, p, list_parse(cx, ty, path, p, n)),
    decreases ty, n + 1,
{
    lemma_nothing(cx, p);
    if n > 0 {
        lemma_list(cx, ty, path, p, (n - 1) as nat);
        if let Parsed::Done(_, q) = list_parse(cx, ty, path, p, (n - 1) as nat) {
            law_reading_keeps_to_scope(cx, ty, path.push((n - 1) as usize), q);
            lemma_then(cx, p, q, list_parse(cx, ty, path, p, n));
        }
    }
}

/// Values of the first `n` types keep to the scope.
proof fn lemma_tuple<R>(
    cx: ReadContext<R>,
    tys: Seq<Type>,
    path: Seq<usize>,
    p: Progress<R>,
    n: nat,
)
    requires
        n <= tys.len(),
    ensures
        keeps_to_scope(cx, p, tuple_parse(cx, tys, path, p, n)),
    decreases tys, n,
{
    lemma_nothing(cx, p);
    if n > 0 {
        lemma_tuple(cx, tys, path, p, (n - 1) as nat);
        if let Parsed::Done(_, q) = tuple_parse(cx, tys, path, p, (n - 1) as nat) {
            law_reading_keeps_to_scope(cx, tys[n - 1], path.push((n - 1) as usize), q);
            lemma_then(cx, p, q, tuple_parse(cx, tys, path, p, n));
        }
    }
}

/// Values of the first `n` fields keep to the scope.
proof fn lemma_record<R>(
    cx: ReadContext<R>,
    fields: Seq<Field>,
    path: Seq<usize>,
    p: Progress<R>,
    n: nat,
)
    requires
        n <= fields.len(),
    ensures
        keeps_to_scope(cx, p, record_parse(cx, fields, path, p, n)),
    decreases fields, n,
{
    lemma_nothing(cx, p);
    if n > 0 {
        lemma_record(cx, fields, path, p, (n - 1) as nat);
        if let Parsed::Done(_, q) = record_parse(cx, fields, path, p, (n - 1) as nat) {
            law_reading_keeps_to_scope(cx, fields[n - 1].ty, path.push((n - 1) as usize), q);
            lemma_then(cx, p, q, record_parse(cx, fields, path, p, n));
        }
    }
}

/// A resource that was shared in one scope stays in the table, whatever is read
/// in another.
pub proof fn law_other_scopes_are_untouched<R>(
    cx: ReadContext<R>,
    ty: Type,
    path: Seq<usize>,
    bytes: Seq<u8>,
    found: Seq<R>,
    id: u128,
)
    requires
        cx.entries.contains_key(id),
        cx.entries[id].1 != cx.scope,
    ensures
        ({
            let taken = taken_by(parse(cx, ty, path, resume(bytes, found)));
            let left = cx.entries.remove_keys(taken.to_set());
            left.contains_key(id) && left[id] == cx.entries[id]
        }),
{
    law_reading_keeps_to_scope(cx, ty, path, resume(bytes, found));
    let taken = taken_by(parse(cx, ty, path, resume(bytes, found)));
    assert(!taken.contains(id)) by {
        if taken.contains(id) {
            let i = choose|i: int| 0 <= i < taken.len() && taken[i] == id;
            assert(lookup(cx.entries, cx.scope, taken[i]) is Some);
        }
    }
}

} // verus!
