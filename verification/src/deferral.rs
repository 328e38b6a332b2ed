//! Where the bytes of deferred streams go.

use vstd::prelude::*;

use crate::encode::{
    case_names, encoding, list_encoding, record_encoding, tuple_encoding, EncodeContext,
    StreamSource,
};
use crate::types::{Field, Type};
use crate::val::Value;
use crate::writing::{
    is_case, is_stream_type, law_cases_are_written, law_statuses_are_written,
    law_writable_values_are_written,
};

verus! {

/// `path` leads to `at`, or to something around it.
pub open spec fn leads_to(path: Seq<usize>, at: Seq<usize>) -> bool {
    path.len() <= at.len() && at.take(path.len() as int) == path
}

/// The streams are all at or within `path`, and no two of them at one place.
pub open spec fn apart(path: Seq<usize>, streams: Seq<(Seq<usize>, StreamSource)>) -> bool {
    &&& forall|i: int| 0 <= i < streams.len() ==> leads_to(path, (#[trigger] streams[i]).0)
    &&& forall|i: int, j: int|
        0 <= i < j < streams.len() ==> (#[trigger] streams[i]).0 != (#[trigger] streams[j]).0
}

/// The same for the first `n` parts of something at `path`: each stream is within
/// one of them.
spec fn parts_apart(
    path: Seq<usize>,
    n: nat,
    streams: Seq<(Seq<usize>, StreamSource)>,
) -> bool {
    &&& apart(path, streams)
    &&& forall|i: int|
        0 <= i < streams.len() ==> path.len() < (#[trigger] streams[i]).0.len()
            && streams[i].0[path.len() as int] < n
}

/// The streams of one more part are apart from those of the parts before it.
proof fn lemma_one_more_part(
    path: Seq<usize>,
    n: nat,
    before: Seq<(Seq<usize>, StreamSource)>,
    part: Seq<(Seq<usize>, StreamSource)>,
)
    requires
        n <= usize::MAX,
        parts_apart(path, n, before),
        apart(path.push(n as usize), part),
    ensures
        parts_apart(path, n + 1, before + part),
{
    let all = before + part;
    assert forall|i: int| 0 <= i < all.len() implies leads_to(path, (#[trigger] all[i]).0)
        && path.len() < all[i].0.len() && all[i].0[path.len() as int] < n + 1 && (before.len() <= i
        ==> all[i].0[path.len() as int] == n) by {
        if i < before.len() {
            assert(all[i] == before[i]);
        } else {
            let at = part[i - before.len()].0;
            assert(all[i].0 == at);
            let inner = path.push(n as usize);
            assert(leads_to(inner, at));
            assert(at.take(inner.len() as int)[path.len() as int] == n);
            assert(at.take(path.len() as int) =~= at.take(inner.len() as int).take(
                path.len() as int,
            ));
            assert(inner.take(path.len() as int) =~= path);
        }
    }
    assert forall|i: int, j: int| 0 <= i < j < all.len() implies (#[trigger] all[i]).0 != (
    #[trigger] all[j]).0 by {
        if j < before.len() {
            assert(all[i] == before[i] && all[j] == before[j]);
        } else if i >= before.len() {
            assert(all[i] == part[i - before.len()] && all[j] == part[j - before.len()]);
        } else {
            assert(all[i] == before[i]);
            assert(all[j].0[path.len() as int] == n);
        }
    }
}

/// The streams of a value that are deferred go to places of their own: all are
/// within the place of the value, and no two at the same one.
pub proof fn law_streams_have_places_of_their_own(
    cx: EncodeContext,
    v: Value,
    ty: Type,
    path: Seq<usize>,
)
    requires
        encoding(cx, v, ty, path).outcome is Ok,
    ensures
        apart(path, encoding(cx, v, ty, path).outcome->Ok_0),
    decreases v, 0nat,
{
    let streams = encoding(cx, v, ty, path).outcome->Ok_0;
    assert(path.take(path.len() as int) =~= path);
    match (ty, v) {
        (Type::List(ty), Value::List(vs)) => {
            lemma_list(cx, vs, *ty, path, vs.len());
            let inner = list_encoding(cx, vs, *ty, path, vs.len()).outcome->Ok_0;
            assert(streams =~= inner);
        },
        (Type::Record(fields), Value::Record(vs)) => {
            let n = if vs.len() <= fields@.len() {
                vs.len()
            } else {
                fields@.len()
            };
            assert(fields@.len() == fields.len());
            lemma_record(cx, vs, fields@, path, n);
        },
        (Type::Tuple(tys), Value::Tuple(vs)) => {
            let n = if vs.len() <= tys@.len() {
                vs.len()
            } else {
                tys@.len()
            };
            assert(tys@.len() == tys.len());
            lemma_tuple(cx, vs, tys@, path, n);
        },
        (Type::Variant(cases), Value::Variant(name, Some(inner))) => {
            let i = case_names(cases@).index_of_first(name)->Some_0;
            let ty = cases@[i].ty->Some_0;
            law_streams_have_places_of_their_own(cx, *inner, ty, path);
            assert(streams =~= encoding(cx, *inner, ty, path).outcome->Ok_0);
        },
        (Type::Option(ty), Value::Option(Some(inner))) => {
            law_streams_have_places_of_their_own(cx, *inner, *ty, path);
            assert(streams =~= encoding(cx, *inner, *ty, path).outcome->Ok_0);
        },
        (Type::Result(Some(ty), _), Value::Result(Ok(Some(inner)))) => {
            law_streams_have_places_of_their_own(cx, *inner, *ty, path);
            assert(streams =~= encoding(cx, *inner, *ty, path).outcome->Ok_0);
        },
        (Type::Result(_, Some(ty)), Value::Result(Err(Some(inner)))) => {
            law_streams_have_places_of_their_own(cx, *inner, *ty, path);
            assert(streams =~= encoding(cx, *inner, *ty, path).outcome->Ok_0);
        },
        _ => {},
    }
}

/// The streams of the first `n` values of one type are apart.
proof fn lemma_list(cx: EncodeContext, vs: Seq<Value>, ty: Type, path: Seq<usize>, n: nat)
    requires
        n <= vs.len(),
        n <= usize::MAX,
        list_encoding(cx, vs, ty, path, n).outcome is Ok,
    ensures
        parts_apart(path, n, list_encoding(cx, vs, ty, path, n).outcome->Ok_0),
    decreases vs, n,
{
    if n > 0 {
        let k = (n - 1) as nat;
        lemma_list(cx, vs, ty, path, k);
        let at = path.push(k as usize);
        law_streams_have_places_of_their_own(cx, vs[n - 1], ty, at);
        lemma_one_more_part(
            path,
            k,
            list_encoding(cx, vs, ty, path, k).outcome->Ok_0,
            encoding(cx, vs[n - 1], ty, at).outcome->Ok_0,
        );
    }
}

/// The streams of the first `n` values are apart.
proof fn lemma_tuple(cx: EncodeContext, vs: Seq<Value>, tys: Seq<Type>, path: Seq<usize>, n: nat)
    requires
        n <= vs.len(),
        n <= usize::MAX,
        tuple_encoding(cx, vs, tys, path, n).outcome is Ok,
    ensures
        parts_apart(path, n, tuple_encoding(cx, vs, tys, path, n).outcome->Ok_0),
    decreases vs, n,
{
    if n > 0 {
        let k = (n - 1) as nat;
        lemma_tuple(cx, vs, tys, path, k);
        let at = path.push(k as usize);
        law_streams_have_places_of_their_own(cx, vs[n - 1], tys[n - 1], at);
        lemma_one_more_part(
            path,
            k,
            tuple_encoding(cx, vs, tys, path, k).outcome->Ok_0,
            encoding(cx, vs[n - 1], tys[n - 1], at).outcome->Ok_0,
        );
    }
}

/// The streams of the first `n` field values are apart.
proof fn lemma_record(
    cx: EncodeContext,
    vs: Seq<(Seq<char>, Value)>,
    fields: Seq<Field>,
    path: Seq<usize>,
    n: nat,
)
    requires
        n <= vs.len(),
        n <= usize::MAX,
        record_encoding(cx, vs, fields, path, n).outcome is Ok,
    ensures
        parts_apart(path, n, record_encoding(cx, vs, fields, path, n).outcome->Ok_0),
    decreases vs, n,
{
    if n > 0 {
        let k = (n - 1) as nat;
        lemma_record(cx, vs, fields, path, k);
        let at = path.push(k as usize);
        law_streams_have_places_of_their_own(cx, vs[n - 1].1, fields[n - 1].ty, at);
        lemma_one_more_part(
            path,
            k,
            record_encoding(cx, vs, fields, path, k).outcome->Ok_0,
            encoding(cx, vs[n - 1].1, fields[n - 1].ty, at).outcome->Ok_0,
        );
    }
}

/// The streams of the results of a call, or of its parameters, go to places of
/// their own.
pub proof fn law_streams_of_a_call_have_places_of_their_own(
    cx: EncodeContext,
    vs: Seq<Value>,
    tys: Seq<Type>,
    n: nat,
)
    requires
        n <= vs.len(),
        n <= usize::MAX,
        tuple_encoding(cx, vs, tys, seq![], n).outcome is Ok,
    ensures
        apart(seq![], tuple_encoding(cx, vs, tys, seq![], n).outcome->Ok_0),
{
    lemma_tuple(cx, vs, tys, seq![], n);
}

/// The streams that a value of the type has, in order, each with the place at which
/// the value has it: byte streams under their own numbers, and resources that are
/// byte streams under theirs. What is within an element of something is within the
/// place of that element; a payload is where the value is that holds it.
pub open spec fn streams_of(cx: EncodeContext, v: Value, ty: Type, path: Seq<usize>) -> Seq<
    (Seq<usize>, StreamSource),
>
    decreases v, 0nat,
{
    match (ty, v) {
        (Type::Own(ty), Value::Resource(id)) => if is_stream_type(cx, ty) {
            seq![(path, StreamSource::Resource(id))]
        } else {
            seq![]
        },
        (Type::Borrow(ty), Value::Resource(id)) => if is_stream_type(cx, ty) {
            seq![(path, StreamSource::Resource(id))]
        } else {
            seq![]
        },
        (Type::Stream(_), Value::Stream(id)) => seq![(path, StreamSource::Stream(id))],
        (Type::List(item), Value::List(vs)) => streams_of_list(cx, vs, *item, path, vs.len()),
        (Type::Tuple(tys), Value::Tuple(vs)) => streams_of_tuple(cx, vs, tys@, path, vs.len()),
        (Type::Record(fields), Value::Record(vs)) => streams_of_record(
            cx,
            vs,
            fields@,
            path,
            vs.len(),
        ),
        (Type::Variant(cases), Value::Variant(name, Some(v))) => match cases@[choose|i: int|
            is_case(cases@, name, i)].ty {
            Some(ty) => streams_of(cx, *v, ty, path),
            None => seq![],
        },
        (Type::Option(ty), Value::Option(Some(v))) => streams_of(cx, *v, *ty, path),
        (Type::Result(Some(ty), _), Value::Result(Ok(Some(v)))) => streams_of(cx, *v, *ty, path),
        (Type::Result(_, Some(ty)), Value::Result(Err(Some(v)))) => streams_of(cx, *v, *ty, path),
        _ => seq![],
    }
}

/// The streams of the first `n` of these values of one type.
pub open spec fn streams_of_list(
    cx: EncodeContext,
    vs: Seq<Value>,
    ty: Type,
    path: Seq<usize>,
    n: nat,
) -> Seq<(Seq<usize>, StreamSource)>
    decreases vs, n,
{
    if n == 0 || n > vs.len() {
        seq![]
    } else {
        let before = streams_of_list(cx, vs, ty, path, (n - 1) as nat);
        before + streams_of(cx, vs[n - 1], ty, path.push((n - 1) as usize))
    }
}

/// The streams of the first `n` of these values, as far as there are types.
pub open spec fn streams_of_tuple(
    cx: EncodeContext,
    vs: Seq<Value>,
    tys: Seq<Type>,
    path: Seq<usize>,
    n: nat,
) -> Seq<(Seq<usize>, StreamSource)>
    decreases vs, n,
{
    if n == 0 || n > vs.len() {
        seq![]
    } else {
        let before = streams_of_tuple(cx, vs, tys, path, (n - 1) as nat);
        if n <= tys.len() {
            before + streams_of(cx, vs[n - 1], tys[n - 1], path.push((n - 1) as usize))
        } else {
            before
        }
    }
}

/// The streams of the first `n` of these field values, as far as there are fields.
pub open spec fn streams_of_record(
    cx: EncodeContext,
    vs: Seq<(Seq<char>, Value)>,
    fields: Seq<Field>,
    path: Seq<usize>,
    n: nat,
) -> Seq<(Seq<usize>, StreamSource)>
    decreases vs, n,
{
    if n == 0 || n > vs.len() {
        seq![]
    } else {
        let before = streams_of_record(cx, vs, fields, path, (n - 1) as nat);
        if n <= fields.len() {
            before + streams_of(cx, vs[n - 1].1, fields[n - 1].ty, path.push((n - 1) as usize))
        } else {
            before
        }
    }
}

/// What is deferred of a value that was written are the streams that it has, all of
/// them and no others, in order: the bytes that follow at a place are those of the
/// very resource or stream that the value has there.
pub proof fn law_each_stream_is_deferred_as_itself(
    cx: EncodeContext,
    v: Value,
    ty: Type,
    path: Seq<usize>,
)
    requires
        encoding(cx, v, ty, path).outcome is Ok,
    ensures
        encoding(cx, v, ty, path).outcome->Ok_0 == streams_of(cx, v, ty, path),
    decreases v, 0nat,
{
    match (ty, v) {
        (Type::List(item), Value::List(vs)) => {
            lemma_list_streams(cx, vs, *item, path, vs.len());
            let d = list_encoding(cx, vs, *item, path, vs.len()).outcome->Ok_0;
            assert(Seq::<(Seq<usize>, StreamSource)>::empty() + d =~= d);
        },
        (Type::Tuple(tys), Value::Tuple(vs)) => {
            lemma_tuple_streams(cx, vs, tys@, path, vs.len());
        },
        (Type::Record(fields), Value::Record(vs)) => {
            lemma_record_streams(cx, vs, fields@, path, vs.len());
        },
        (Type::Variant(cases), Value::Variant(name, payload)) => {
            law_writable_values_are_written(cx, v, ty, path);
            let i = choose|i: int| is_case(cases@, name, i);
            law_cases_are_written(cx, cases, name, payload, i, path);
            if let (Some(inner), Some(ty)) = (payload, cases@[i].ty) {
                law_each_stream_is_deferred_as_itself(cx, *inner, ty, path);
            }
        },
        (Type::Option(ty), Value::Option(Some(inner))) => {
            law_statuses_are_written(cx, *inner, *ty, None, path);
            law_each_stream_is_deferred_as_itself(cx, *inner, *ty, path);
        },
        (Type::Result(Some(ty), other), Value::Result(Ok(Some(inner)))) => {
            law_statuses_are_written(cx, *inner, *ty, other, path);
            law_each_stream_is_deferred_as_itself(cx, *inner, *ty, path);
        },
        (Type::Result(other, Some(ty)), Value::Result(Err(Some(inner)))) => {
            law_statuses_are_written(cx, *inner, *ty, other, path);
            law_each_stream_is_deferred_as_itself(cx, *inner, *ty, path);
        },
        _ => {},
    }
}

/// The streams of the first `n` values are deferred as themselves.
proof fn lemma_list_streams(
    cx: EncodeContext,
    vs: Seq<Value>,
    ty: Type,
    path: Seq<usize>,
    n: nat,
)
    requires
        n <= vs.len(),
        list_encoding(cx, vs, ty, path, n).outcome is Ok,
    ensures
        list_encoding(cx, vs, ty, path, n).outcome->Ok_0 == streams_of_list(cx, vs, ty, path, n),
    decreases vs, n,
{
    if n > 0 {
        lemma_list_streams(cx, vs, ty, path, (n - 1) as nat);
        law_each_stream_is_deferred_as_itself(cx, vs[n - 1], ty, path.push((n - 1) as usize));
    }
}

/// The streams of the first `n` values are deferred as themselves.
proof fn lemma_tuple_streams(
    cx: EncodeContext,
    vs: Seq<Value>,
    tys: Seq<Type>,
    path: Seq<usize>,
    n: nat,
)
    requires
        n <= vs.len(),
        tuple_encoding(
            cx,
            vs,
            tys,
            path,
            if n <= tys.len() {
                n
            } else {
                tys.len()
            },
        ).outcome is Ok,
    ensures
        tuple_encoding(
            cx,
            vs,
            tys,
            path,
            if n <= tys.len() {
                n
            } else {
                tys.len()
            },
        ).outcome->Ok_0 == streams_of_tuple(cx, vs, tys, path, n),
    decreases vs, n,
{
    if n > 0 {
        lemma_tuple_streams(cx, vs, tys, path, (n - 1) as nat);
        if n <= tys.len() {
            let at = path.push((n - 1) as usize);
            law_each_stream_is_deferred_as_itself(cx, vs[n - 1], tys[n - 1], at);
        }
    }
}

/// The streams of the first `n` field values are deferred as themselves.
proof fn lemma_record_streams(
    cx: EncodeContext,
    vs: Seq<(Seq<char>, Value)>,
    fields: Seq<Field>,
    path: Seq<usize>,
    n: nat,
)
    requires
        n <= vs.len(),
        record_encoding(
            cx,
            vs,
            fields,
            path,
            if n <= fields.len() {
                n
            } else {
                fields.len()
            },
        ).outcome is Ok,
    ensures
        record_encoding(
            cx,
            vs,
            fields,
            path,
            if n <= fields.len() {
                n
            } else {
                fields.len()
            },
        ).outcome->Ok_0 == streams_of_record(cx, vs, fields, path, n),
    decreases vs, n,
{
    if n > 0 {
        lemma_record_streams(cx, vs, fields, path, (n - 1) as nat);
        if n <= fields.len() {
            let at = path.push((n - 1) as usize);
            law_each_stream_is_deferred_as_itself(cx, vs[n - 1].1, fields[n - 1].ty, at);
        }
    }
}

} // verus!
