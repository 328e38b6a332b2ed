//! Several attempts at one value.
//!
//! Each attempt takes the shared resources that it comes to out of the table, and
//! the next one goes on from there. Together they do what a single attempt does
//! when all the bytes are there.

use vstd::prelude::*;

use crate::decode::{
    find_shared, found_by, list_parse, parse, parse_byte, parse_bytes, parse_resource,
    parse_unsigned, record_parse, resume, shared_of, tuple_parse, Origin, Parsed, Progress,
    ReadContext,
};
use crate::handle::handle_of;
use crate::incremental::{
    appended, lemma_byte, lemma_list_stays, lemma_record_stays, lemma_tuple_stays, lemma_unsigned,
};
use crate::scope::{finds, law_reading_keeps_to_scope};
use crate::types::{Field, ResourceType, Type};
use crate::val::Value;

verus! {

/// What is left to read against when these handles were taken.
pub open spec fn after_taking<R>(cx: ReadContext<R>, taken: Seq<u128>) -> ReadContext<R> {
    ReadContext { entries: cx.entries.remove_keys(taken.to_set()), ..cx }
}

/// The same progress, with these handles taken before.
pub open spec fn behind<R>(taken: Seq<u128>, p: Progress<R>) -> Progress<R> {
    Progress { taken: taken + p.taken, ..p }
}

/// The same outcome, with these handles taken before.
pub open spec fn outcome_behind<T, R>(taken: Seq<u128>, outcome: Parsed<T, R>) -> Parsed<T, R> {
    match outcome {
        Parsed::Done(v, q) => Parsed::Done(v, behind(taken, q)),
        Parsed::More(q) => Parsed::More(behind(taken, q)),
        Parsed::Fail(e, then, rest) => Parsed::Fail(e, taken + then, rest),
    }
}

/// The same progress in an attempt after others that have found `found`.
spec fn recalling<R>(found: Seq<R>, p: Progress<R>) -> Progress<R> {
    Progress {
        rest: p.rest,
        taken: seq![],
        origins: p.origins,
        recall: found.skip(shared_of(p.origins).len() as int),
    }
}

/// A value may come in pieces: when the bytes that have come are not enough, to
/// take the shared resources that were found and to go on from there when more
/// bytes have come is to read it all at once.
pub proof fn law_values_may_come_in_pieces<R>(
    cx: ReadContext<R>,
    ty: Type,
    path: Seq<usize>,
    bytes: Seq<u8>,
    found: Seq<R>,
    more: Seq<u8>,
)
    requires
        parse(cx, ty, path, resume(bytes, found)) is More,
    ensures
        ({
            let q = parse(cx, ty, path, resume(bytes, found))->More_0;
            parse(cx, ty, path, resume(bytes + more, found)) == outcome_behind(
                q.taken,
                parse(
                    after_taking(cx, q.taken),
                    ty,
                    path,
                    resume(bytes + more, found_by(q)),
                ),
            )
        }),
{
    let p = resume(bytes, found);
    let q = parse(cx, ty, path, p)->More_0;
    lemma_resumes(cx, ty, path, p, more);
    assert(found_by(q).skip(0) =~= found_by(q));
    assert(appended(p, more) == resume(bytes + more, found));
    assert(appended(recalling(found_by(q), p), more) == resume(bytes + more, found_by(q)));
}

/// What an unfinished attempt has taken, it does not take again; and what it has
/// found, it finds again, whatever the table holds by then: as long as the bytes
/// are not enough, the next attempt takes nothing and gets as far.
pub proof fn law_attempts_keep_what_they_found<R>(
    cx: ReadContext<R>,
    then: ReadContext<R>,
    ty: Type,
    path: Seq<usize>,
    bytes: Seq<u8>,
    found: Seq<R>,
)
    requires
        parse(cx, ty, path, resume(bytes, found)) is More,
        then.resources == cx.resources,
        then.io_streams == cx.io_streams,
    ensures
        ({
            let q = parse(cx, ty, path, resume(bytes, found))->More_0;
            parse(then, ty, path, resume(bytes, found_by(q))) == Parsed::<Value, R>::More(
                Progress { taken: seq![], ..q },
            )
        }),
{
    let p = resume(bytes, found);
    let q = parse(cx, ty, path, p)->More_0;
    lemma_recalls(cx, then, ty, path, p, found_by(q));
    assert(found_by(q).skip(0) =~= found_by(q));
    assert(found_by(q).skip(shared_of(q.origins).len() as int) =~= q.recall);
}

/// The shared resources among the first of these are the first of the shared ones.
proof fn lemma_shared_prefix<R>(a: Seq<Origin<R>>, b: Seq<Origin<R>>)
    requires
        a.len() <= b.len(),
        b.take(a.len() as int) == a,
    ensures
        shared_of(a).is_prefix_of(shared_of(b)),
    decreases b.len(),
{
    if a.len() < b.len() {
        assert(b.drop_last().take(a.len() as int) =~= b.take(a.len() as int));
        lemma_shared_prefix(a, b.drop_last());
    } else {
        assert(a =~= b);
    }
}

/// What was found by the time of `p` is found by the time of `q`.
proof fn lemma_found_prefix<R>(
    cx: ReadContext<R>,
    p: Progress<R>,
    q: Progress<R>,
    found: Seq<R>,
)
    requires
        finds(cx, p, q),
        shared_of(q.origins).is_prefix_of(found),
    ensures
        shared_of(p.origins).is_prefix_of(found),
{
    lemma_shared_prefix(p.origins, q.origins);
    let (a, b) = (shared_of(p.origins), shared_of(q.origins));
    assert(a =~= found.subrange(0, a.len() as int)) by {
        assert(forall|i: int| 0 <= i < a.len() ==> a[i] == b.subrange(0, a.len() as int)[i]);
        assert(forall|i: int| 0 <= i < b.len() ==> b[i] == found.subrange(0, b.len() as int)[i]);
    }
}

/// The progress of an outcome that is one.
spec fn reached<T, R>(outcome: Parsed<T, R>) -> Progress<R> {
    match outcome {
        Parsed::Done(_, q) => q,
        Parsed::More(q) => q,
        Parsed::Fail(_, _, _) => arbitrary(),
    }
}

/// What comes of something that was read before, when it is read again.
spec fn recalled<T, R>(found: Seq<R>, outcome: Parsed<T, R>) -> Parsed<T, R> {
    match outcome {
        Parsed::Done(v, q) => Parsed::Done(v, recalling(found, q)),
        Parsed::More(q) => Parsed::More(recalling(found, q)),
        Parsed::Fail(e, taken, rest) => Parsed::Fail(e, taken, rest),
    }
}

/// Whether `found` holds all that was found by the time of the outcome.
spec fn is_recalled<T, R>(found: Seq<R>, outcome: Parsed<T, R>) -> bool {
    !(outcome is Fail) && shared_of(reached(outcome).origins).is_prefix_of(found)
}

/// A resource is read again.
proof fn lemma_resource_recalls<R>(
    cx: ReadContext<R>,
    then: ReadContext<R>,
    ty: ResourceType,
    owned: bool,
    path: Seq<usize>,
    p: Progress<R>,
    found: Seq<R>,
)
    requires
        then.resources == cx.resources,
        then.io_streams == cx.io_streams,
        is_recalled(found, parse_resource(cx, ty, owned, path, p)),
    ensures
        parse_resource(then, ty, owned, path, recalling(found, p)) == recalled(
            found,
            parse_resource(cx, ty, owned, path, p),
        ),
{
    if let Parsed::Done(_, q) = parse_resource(cx, ty, owned, path, p) {
        assert(q.origins.drop_last() =~= p.origins);
        let n = shared_of(p.origins).len() as int;
        if let Origin::Shared(r) = q.origins.last() {
            let recall = recalling(found, p).recall;
            assert(found.subrange(0, n + 1)[n] == found[n]);
            assert(recall[0] == r);
            assert(recall.drop_first() =~= found.skip(n + 1));
        }
    }
}

/// A value is read again.
proof fn lemma_recalls<R>(
    cx: ReadContext<R>,
    then: ReadContext<R>,
    ty: Type,
    path: Seq<usize>,
    p: Progress<R>,
    found: Seq<R>,
)
    requires
        then.resources == cx.resources,
        then.io_streams == cx.io_streams,
        is_recalled(found, parse(cx, ty, path, p)),
    ensures
        parse(then, ty, path, recalling(found, p)) == recalled(found, parse(cx, ty, path, p)),
    decreases ty, 0nat,
{
    match ty {
        Type::List(ty) => {
            if let Parsed::Done(n, q) = parse_unsigned(32, p) {
                assert(parse_unsigned(32, recalling(found, p)) == Parsed::<int, R>::Done(
                    n,
                    recalling(found, q),
                ));
                lemma_list_recalls(cx, then, *ty, path, q, found, n as nat);
            }
        },
        Type::Record(fields) => {
            lemma_record_recalls(cx, then, fields@, path, p, found, fields@.len());
        },
        Type::Tuple(tys) => {
            lemma_tuple_recalls(cx, then, tys@, path, p, found, tys@.len());
        },
        Type::Variant(cases) => {
            if let Parsed::Done(n, q) = parse_unsigned(32, p) {
                assert(parse_unsigned(32, recalling(found, p)) == Parsed::<int, R>::Done(
                    n,
                    recalling(found, q),
                ));
                if 0 <= n < cases@.len() {
                    if let Some(ty) = cases@[n].ty {
                        lemma_recalls(cx, then, ty, path, q, found);
                    }
                }
            }
        },
        Type::Option(ty) => {
            if let Parsed::Done(b, q) = parse_byte(p) {
                if b == 1 {
                    lemma_recalls(cx, then, *ty, path, q, found);
                }
            }
        },
        Type::Result(ok, err) => {
            if let Parsed::Done(b, q) = parse_byte(p) {
                if b == 0 {
                    if let Some(ty) = ok {
                        lemma_recalls(cx, then, *ty, path, q, found);
                    }
                } else if b == 1 {
                    if let Some(ty) = err {
                        lemma_recalls(cx, then, *ty, path, q, found);
                    }
                }
            }
        },
        Type::Own(ty) => {
            lemma_resource_recalls(cx, then, ty, true, path, p, found);
        },
        Type::Borrow(ty) => {
            lemma_resource_recalls(cx, then, ty, false, path, p, found);
        },
        Type::Stream(_) => {
            if let Parsed::Done(_, q) = parse(cx, ty, path, p) {
                assert(q.origins.drop_last() =~= p.origins);
            }
        },
        _ => {},
    }
}

/// `n` values of one type are read again.
proof fn lemma_list_recalls<R>(
    cx: ReadContext<R>,
    then: ReadContext<R>,
    ty: Type,
    path: Seq<usize>,
    p: Progress<R>,
    found: Seq<R>,
    n: nat,
)
    requires
        then.resources == cx.resources,
        then.io_streams == cx.io_streams,
        is_recalled(found, list_parse(cx, ty, path, p, n)),
    ensures
        list_parse(then, ty, path, recalling(found, p), n) == recalled(
            found,
            list_parse(cx, ty, path, p, n),
        ),
    decreases ty, n + 1,
{
    if n > 0 {
        let m = (n - 1) as nat;
        if let Parsed::Done(_, q) = list_parse(cx, ty, path, p, m) {
            let at = path.push(m as usize);
            law_reading_keeps_to_scope(cx, ty, at, q);
            lemma_found_prefix(cx, q, reached(parse(cx, ty, at, q)), found);
            lemma_recalls(cx, then, ty, at, q, found);
        }
        lemma_list_recalls(cx, then, ty, path, p, found, m);
    }
}

/// Values of the first `n` types are read again.
proof fn lemma_tuple_recalls<R>(
    cx: ReadContext<R>,
    then: ReadContext<R>,
    tys: Seq<Type>,
    path: Seq<usize>,
    p: Progress<R>,
    found: Seq<R>,
    n: nat,
)
    requires
        n <= tys.len(),
        then.resources == cx.resources,
        then.io_streams == cx.io_streams,
        is_recalled(found, tuple_parse(cx, tys, path, p, n)),
    ensures
        tuple_parse(then, tys, path, recalling(found, p), n) == recalled(
            found,
            tuple_parse(cx, tys, path, p, n),
        ),
    decreases tys, n,
{
    if n > 0 {
        let m = (n - 1) as nat;
        if let Parsed::Done(_, q) = tuple_parse(cx, tys, path, p, m) {
            let at = path.push(m as usize);
            law_reading_keeps_to_scope(cx, tys[n - 1], at, q);
            lemma_found_prefix(cx, q, reached(parse(cx, tys[n - 1], at, q)), found);
            lemma_recalls(cx, then, tys[n - 1], at, q, found);
        }
        lemma_tuple_recalls(cx, then, tys, path, p, found, m);
    }
}

/// Values of the first `n` fields are read again.
proof fn lemma_record_recalls<R>(
    cx: ReadContext<R>,
    then: ReadContext<R>,
    fields: Seq<Field>,
    path: Seq<usize>,
    p: Progress<R>,
    found: Seq<R>,
    n: nat,
)
    requires
        n <= fields.len(),
        then.resources == cx.resources,
        then.io_streams == cx.io_streams,
        is_recalled(found, record_parse(cx, fields, path, p, n)),
    ensures
        record_parse(then, fields, path, recalling(found, p), n) == recalled(
            found,
            record_parse(cx, fields, path, p, n),
        ),
    decreases fields, n,
{
    if n > 0 {
        let m = (n - 1) as nat;
        if let Parsed::Done(_, q) = record_parse(cx, fields, path, p, m) {
            let at = path.push(m as usize);
            law_reading_keeps_to_scope(cx, fields[n - 1].ty, at, q);
            lemma_found_prefix(cx, q, reached(parse(cx, fields[n - 1].ty, at, q)), found);
            lemma_recalls(cx, then, fields[n - 1].ty, at, q, found);
        }
        lemma_record_recalls(cx, then, fields, path, p, found, m);
    }
}

/// A handle that was taken is one that is not in the table.
proof fn lemma_find_behind<R>(
    cx: ReadContext<R>,
    taken: Seq<u128>,
    owned: bool,
    id: u128,
    p: Progress<R>,
)
    ensures
        find_shared(cx, owned, id, behind(taken, p)) == outcome_behind(
            taken,
            find_shared(after_taking(cx, taken), owned, id, p),
        ),
{
    let all = taken + p.taken;
    assert(all.contains(id) <==> taken.contains(id) || p.taken.contains(id)) by {
        if taken.contains(id) {
            let i = choose|i: int| 0 <= i < taken.len() && taken[i] == id;
            assert(all[i] == id);
        }
        if p.taken.contains(id) {
            let i = choose|i: int| 0 <= i < p.taken.len() && p.taken[i] == id;
            assert(all[taken.len() + i] == id);
        }
    }
    assert(taken.to_set().contains(id) <==> taken.contains(id));
    assert(all.push(id) =~= taken + p.taken.push(id));
}

/// A resource is read alike, be handles taken or not in the table.
proof fn lemma_resource_behind<R>(
    cx: ReadContext<R>,
    taken: Seq<u128>,
    ty: ResourceType,
    owned: bool,
    path: Seq<usize>,
    p: Progress<R>,
)
    ensures
        parse_resource(cx, ty, owned, path, behind(taken, p)) == outcome_behind(
            taken,
            parse_resource(after_taking(cx, taken), ty, owned, path, p),
        ),
{
    if let Parsed::Done(n, q) = parse_unsigned(8, p) {
        if let Parsed::Done(bytes, r) = parse_bytes(16, q) {
            lemma_find_behind(cx, taken, owned, handle_of(bytes), r);
        }
    }
}

/// A value is read alike, be handles taken or not in the table.
proof fn lemma_behind<R>(
    cx: ReadContext<R>,
    taken: Seq<u128>,
    ty: Type,
    path: Seq<usize>,
    p: Progress<R>,
)
    ensures
        parse(cx, ty, path, behind(taken, p)) == outcome_behind(
            taken,
            parse(after_taking(cx, taken), ty, path, p),
        ),
    decreases ty, 0nat,
{
    match ty {
        Type::List(ty) => {
            if let Parsed::Done(n, q) = parse_unsigned(32, p) {
                lemma_list_behind(cx, taken, *ty, path, q, n as nat);
            }
        },
        Type::Record(fields) => {
            lemma_record_behind(cx, taken, fields@, path, p, fields@.len());
        },
        Type::Tuple(tys) => {
            lemma_tuple_behind(cx, taken, tys@, path, p, tys@.len());
        },
        Type::Variant(cases) => {
            if let Parsed::Done(n, q) = parse_unsigned(32, p) {
                if 0 <= n < cases@.len() {
                    if let Some(ty) = cases@[n].ty {
                        lemma_behind(cx, taken, ty, path, q);
                    }
                }
            }
        },
        Type::Option(ty) => {
            if let Parsed::Done(_, q) = parse_byte(p) {
                lemma_behind(cx, taken, *ty, path, q);
            }
        },
        Type::Result(ok, err) => {
            if let Parsed::Done(_, q) = parse_byte(p) {
                if let Some(ty) = ok {
                    lemma_behind(cx, taken, *ty, path, q);
                }
                if let Some(ty) = err {
                    lemma_behind(cx, taken, *ty, path, q);
                }
            }
        },
        Type::Own(ty) => {
            lemma_resource_behind(cx, taken, ty, true, path, p);
        },
        Type::Borrow(ty) => {
            lemma_resource_behind(cx, taken, ty, false, path, p);
        },
        _ => {},
    }
}

/// `n` values of one type are read alike.
proof fn lemma_list_behind<R>(
    cx: ReadContext<R>,
    taken: Seq<u128>,
    ty: Type,
    path: Seq<usize>,
    p: Progress<R>,
    n: nat,
)
    ensures
        list_parse(cx, ty, path, behind(taken, p), n) == outcome_behind(
            taken,
            list_parse(after_taking(cx, taken), ty, path, p, n),
        ),
    decreases ty, n + 1,
{
    if n > 0 {
        let m = (n - 1) as nat;
        lemma_list_behind(cx, taken, ty, path, p, m);
        if let Parsed::Done(_, q) = list_parse(after_taking(cx, taken), ty, path, p, m) {
            lemma_behind(cx, taken, ty, path.push(m as usize), q);
        }
    }
}

/// Values of the first `n` types are read alike.
proof fn lemma_tuple_behind<R>(
    cx: ReadContext<R>,
    taken: Seq<u128>,
    tys: Seq<Type>,
    path: Seq<usize>,
    p: Progress<R>,
    n: nat,
)
    requires
        n <= tys.len(),
    ensures
        tuple_parse(cx, tys, path, behind(taken, p), n) == outcome_behind(
            taken,
            tuple_parse(after_taking(cx, taken), tys, path, p, n),
        ),
    decreases tys, n,
{
    if n > 0 {
        let m = (n - 1) as nat;
        lemma_tuple_behind(cx, taken, tys, path, p, m);
        if let Parsed::Done(_, q) = tuple_parse(after_taking(cx, taken), tys, path, p, m) {
            lemma_behind(cx, taken, tys[n - 1], path.push(m as usize), q);
        }
    }
}

/// Values of the first `n` fields are read alike.
proof fn lemma_record_behind<R>(
    cx: ReadContext<R>,
    taken: Seq<u128>,
    fields: Seq<Field>,
    path: Seq<usize>,
    p: Progress<R>,
    n: nat,
)
    requires
        n <= fields.len(),
    ensures
        record_parse(cx, fields, path, behind(taken, p), n) == outcome_behind(
            taken,
            record_parse(after_taking(cx, taken), fields, path, p, n),
        ),
    decreases fields, n,
{
    if n > 0 {
        let m = (n - 1) as nat;
        lemma_record_behind(cx, taken, fields, path, p, m);
        if let Parsed::Done(_, q) = record_parse(after_taking(cx, taken), fields, path, p, m) {
            lemma_behind(cx, taken, fields[n - 1].ty, path.push(m as usize), q);
        }
    }
}

/// Whether nothing but bytes was read between the two.
spec fn only_bytes<R>(p: Progress<R>, q: Progress<R>) -> bool {
    q.taken == p.taken && q.origins == p.origins && q.recall == p.recall
}

/// Where the earlier attempt was at its end, the next one is where it was.
proof fn lemma_caught_up<R>(p: Progress<R>, q: Progress<R>, more: Seq<u8>)
    requires
        only_bytes(p, q),
    ensures
        appended(p, more) == behind(q.taken, appended(recalling(found_by(q), p), more)),
{
    assert(found_by(q).skip(shared_of(p.origins).len() as int) =~= p.recall);
    assert(q.taken + Seq::<u128>::empty() =~= p.taken);
}

/// All that was read before the last step is recalled by the next attempt.
proof fn lemma_before<R>(cx: ReadContext<R>, ty: Type, at: Seq<usize>, p: Progress<R>)
    requires
        parse(cx, ty, at, p) is More,
    ensures
        shared_of(p.origins).is_prefix_of(found_by(parse(cx, ty, at, p)->More_0)),
{
    let q = parse(cx, ty, at, p)->More_0;
    law_reading_keeps_to_scope(cx, ty, at, p);
    assert(shared_of(q.origins) =~= found_by(q).subrange(0, shared_of(q.origins).len() as int));
    lemma_found_prefix(cx, p, q, found_by(q));
}

/// The next attempt at a value goes on where the earlier one was.
proof fn lemma_resumes<R>(
    cx: ReadContext<R>,
    ty: Type,
    path: Seq<usize>,
    p: Progress<R>,
    more: Seq<u8>,
)
    requires
        parse(cx, ty, path, p) is More,
    ensures
        ({
            let q = parse(cx, ty, path, p)->More_0;
            parse(cx, ty, path, appended(p, more)) == outcome_behind(
                q.taken,
                parse(
                    after_taking(cx, q.taken),
                    ty,
                    path,
                    appended(recalling(found_by(q), p), more),
                ),
            )
        }),
    decreases ty, 0nat,
{
    let q = parse(cx, ty, path, p)->More_0;
    let again = recalling(found_by(q), p);
    if only_bytes(p, q) {
        lemma_caught_up(p, q, more);
        lemma_behind(cx, q.taken, ty, path, appended(again, more));
    } else {
        match ty {
            Type::List(ty) => {
                lemma_unsigned(32, p, more);
                lemma_unsigned(32, again, more);
                if let Parsed::Done(n, r) = parse_unsigned(32, p) {
                    assert(parse_unsigned(32, again) == Parsed::<int, R>::Done(
                        n,
                        recalling(found_by(q), r),
                    ));
                    lemma_list_resumes(cx, *ty, path, r, more, n as nat);
                }
            },
            Type::Record(fields) => {
                lemma_record_resumes(cx, fields@, path, p, more, fields@.len());
            },
            Type::Tuple(tys) => {
                lemma_tuple_resumes(cx, tys@, path, p, more, tys@.len());
            },
            Type::Variant(cases) => {
                lemma_unsigned(32, p, more);
                lemma_unsigned(32, again, more);
                if let Parsed::Done(n, r) = parse_unsigned(32, p) {
                    assert(parse_unsigned(32, again) == Parsed::<int, R>::Done(
                        n,
                        recalling(found_by(q), r),
                    ));
                    if 0 <= n < cases@.len() {
                        if let Some(ty) = cases@[n].ty {
                            lemma_resumes(cx, ty, path, r, more);
                        }
                    }
                }
            },
            Type::Option(ty) => {
                lemma_byte(p, more);
                lemma_byte(again, more);
                if let Parsed::Done(b, r) = parse_byte(p) {
                    assert(parse_byte(again) == Parsed::<u8, R>::Done(
                        b,
                        recalling(found_by(q), r),
                    ));
                    lemma_resumes(cx, *ty, path, r, more);
                }
            },
            Type::Result(ok, err) => {
                lemma_byte(p, more);
                lemma_byte(again, more);
                if let Parsed::Done(b, r) = parse_byte(p) {
                    assert(parse_byte(again) == Parsed::<u8, R>::Done(
                        b,
                        recalling(found_by(q), r),
                    ));
                    if b == 0 {
                        if let Some(ty) = ok {
                            lemma_resumes(cx, *ty, path, r, more);
                        }
                    } else if b == 1 {
                        if let Some(ty) = err {
                            lemma_resumes(cx, *ty, path, r, more);
                        }
                    }
                }
            },
            _ => {},
        }
    }
}

/// The next attempt at `n` values of one type goes on where the earlier one was.
proof fn lemma_list_resumes<R>(
    cx: ReadContext<R>,
    ty: Type,
    path: Seq<usize>,
    p: Progress<R>,
    more: Seq<u8>,
    n: nat,
)
    requires
        list_parse(cx, ty, path, p, n) is More,
    ensures
        ({
            let q = list_parse(cx, ty, path, p, n)->More_0;
            list_parse(cx, ty, path, appended(p, more), n) == outcome_behind(
                q.taken,
                list_parse(
                    after_taking(cx, q.taken),
                    ty,
                    path,
                    appended(recalling(found_by(q), p), more),
                    n,
                ),
            )
        }),
    decreases ty, n + 1,
{
    let q = list_parse(cx, ty, path, p, n)->More_0;
    let then = after_taking(cx, q.taken);
    let again = recalling(found_by(q), p);
    let m = (n - 1) as nat;
    let at = path.push(m as usize);
    match list_parse(cx, ty, path, p, m) {
        Parsed::Done(_, r) => {
            lemma_before(cx, ty, at, r);
            lemma_list_recalls(cx, then, ty, path, p, found_by(q), m);
            lemma_list_stays(cx, ty, path, p, more, m);
            lemma_list_stays(then, ty, path, again, more, m);
            lemma_resumes(cx, ty, at, r, more);
        },
        _ => {
            lemma_list_resumes(cx, ty, path, p, more, m);
            if let Parsed::Done(_, r) = list_parse(then, ty, path, appended(again, more), m) {
                lemma_behind(cx, q.taken, ty, at, r);
            }
        },
    }
}

/// The next attempt at values of the first `n` types goes on where the earlier one
/// was.
proof fn lemma_tuple_resumes<R>(
    cx: ReadContext<R>,
    tys: Seq<Type>,
    path: Seq<usize>,
    p: Progress<R>,
    more: Seq<u8>,
    n: nat,
)
    requires
        n <= tys.len(),
        tuple_parse(cx, tys, path, p, n) is More,
    ensures
        ({
            let q = tuple_parse(cx, tys, path, p, n)->More_0;
            tuple_parse(cx, tys, path, appended(p, more), n) == outcome_behind(
                q.taken,
                tuple_parse(
                    after_taking(cx, q.taken),
                    tys,
                    path,
                    appended(recalling(found_by(q), p), more),
                    n,
                ),
            )
        }),
    decreases tys, n,
{
    let q = tuple_parse(cx, tys, path, p, n)->More_0;
    let then = after_taking(cx, q.taken);
    let again = recalling(found_by(q), p);
    let m = (n - 1) as nat;
    let at = path.push(m as usize);
    match tuple_parse(cx, tys, path, p, m) {
        Parsed::Done(_, r) => {
            lemma_before(cx, tys[n - 1], at, r);
            lemma_tuple_recalls(cx, then, tys, path, p, found_by(q), m);
            lemma_tuple_stays(cx, tys, path, p, more, m);
            lemma_tuple_stays(then, tys, path, again, more, m);
            lemma_resumes(cx, tys[n - 1], at, r, more);
        },
        _ => {
            lemma_tuple_resumes(cx, tys, path, p, more, m);
            if let Parsed::Done(_, r) = tuple_parse(then, tys, path, appended(again, more), m) {
                lemma_behind(cx, q.taken, tys[n - 1], at, r);
            }
        },
    }
}

/// The next attempt at values of the first `n` fields goes on where the earlier
/// one was.
proof fn lemma_record_resumes<R>(
    cx: ReadContext<R>,
    fields: Seq<Field>,
    path: Seq<usize>,
    p: Progress<R>,
    more: Seq<u8>,
    n: nat,
)
    requires
        n <= fields.len(),
        record_parse(cx, fields, path, p, n) is More,
    ensures
        ({
            let q = record_parse(cx, fields, path, p, n)->More_0;
            record_parse(cx, fields, path, appended(p, more), n) == outcome_behind(
                q.taken,
                record_parse(
                    after_taking(cx, q.taken),
                    fields,
                    path,
                    appended(recalling(found_by(q), p), more),
                    n,
                ),
            )
        }),
    decreases fields, n,
{
    let q = record_parse(cx, fields, path, p, n)->More_0;
    let then = after_taking(cx, q.taken);
    let again = recalling(found_by(q), p);
    let m = (n - 1) as nat;
    let at = path.push(m as usize);
    match record_parse(cx, fields, path, p, m) {
        Parsed::Done(_, r) => {
            lemma_before(cx, fields[n - 1].ty, at, r);
            lemma_record_recalls(cx, then, fields, path, p, found_by(q), m);
            lemma_record_stays(cx, fields, path, p, more, m);
            lemma_record_stays(then, fields, path, again, more, m);
            lemma_resumes(cx, fields[n - 1].ty, at, r, more);
        },
        _ => {
            lemma_record_resumes(cx, fields, path, p, more, m);
            if let Parsed::Done(_, r) = record_parse(
                then,
                fields,
                path,
                appended(again, more),
                m,
            ) {
                lemma_behind(cx, q.taken, fields[n - 1].ty, at, r);
            }
        },
    }
}

} // verus!
