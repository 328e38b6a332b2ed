//! Reading the parameters of a call.

use bytes::BytesMut;
use vstd::prelude::*;

use crate::buffer::buffer_bytes;
use crate::decode::{
    found_by, origins, parse, read_value, resume, Found, Origin, Parsed, Progress, ReadContext,
    Received,
};
use crate::encode::{chain, encoding, tuple_encoding, EncodeContext};
use crate::error::ReadError;
use crate::attempts::law_values_may_come_in_pieces;
use crate::incremental::{appended, law_bytes_that_follow_change_nothing};
use crate::roundtrip::{arrives_as, delivery, law_read_gives_back_what_was_written};
use crate::shared::SharedResourceTable;
use crate::types::{ResourceType, Type};
use crate::val::Value;

verus! {

/// A parameter could not be read.
#[derive(Clone, Copy, Debug, PartialEq, Eq, Structural)]
pub struct ParamError {
    /// Which one, counted from zero.
    pub index: usize,
    pub error: ReadError,
}

/// How far the parameters of a call were read.
pub struct ParamsRead<R> {
    /// The table of shared resources.
    pub entries: Map<u128, (R, Option<u64>)>,
    /// The bytes that were not read yet.
    pub rest: Seq<u8>,
    /// The shared resources of the next parameter that were found already.
    pub found: Seq<R>,
    /// The parameters, each with its resources and streams by number.
    pub params: Seq<(Value, Seq<Origin<R>>)>,
}

/// What came of reading the parameters of a call.
pub enum ParamsOutcome<R> {
    /// All of them were read.
    All(ParamsRead<R>),
    /// More bytes are needed for the next one.
    More(ParamsRead<R>),
    /// The next one cannot be read.
    Fail(ParamError, ParamsRead<R>),
}

/// The parameters that were received, each with its resources and streams.
pub open spec fn received<R>(params: Seq<Received<R>>) -> Seq<(Value, Seq<Origin<R>>)> {
    Seq::new(params.len(), |i: int| (params[i].val@, origins(params[i].sources@)))
}

/// The parameters from where `read` left off: each stands at the path that is
/// its index, and is read behind the one before it. One that cannot be read is read
/// as far as the byte that shows it, and one that is cut off by the end of the
/// bytes, to that end.
pub open spec fn params_parse<R>(
    cx: ReadContext<R>,
    closed: bool,
    tys: Seq<Type>,
    read: ParamsRead<R>,
) -> ParamsOutcome<R>
    decreases tys.len() - read.params.len(),
{
    let i = read.params.len();
    if i >= tys.len() {
        ParamsOutcome::All(read)
    } else {
        match parse(
            ReadContext { entries: read.entries, ..cx },
            tys[i as int],
            seq![i as usize],
            resume(read.rest, read.found),
        ) {
            Parsed::Done(v, q) => params_parse(
                cx,
                closed,
                tys,
                ParamsRead {
                    entries: read.entries.remove_keys(q.taken.to_set()),
                    rest: q.rest,
                    found: seq![],
                    params: read.params.push((v, q.origins)),
                },
            ),
            Parsed::More(q) => if closed {
                ParamsOutcome::Fail(
                    ParamError { index: i as usize, error: ReadError::UnexpectedEof },
                    ParamsRead {
                        entries: read.entries.remove_keys(q.taken.to_set()),
                        rest: seq![],
                        found: seq![],
                        params: read.params,
                    },
                )
            } else {
                ParamsOutcome::More(
                    ParamsRead {
                        entries: read.entries.remove_keys(q.taken.to_set()),
                        found: found_by(q),
                        ..read
                    },
                )
            },
            Parsed::Fail(error, taken, rest) => ParamsOutcome::Fail(
                ParamError { index: i as usize, error },
                ParamsRead {
                    entries: read.entries.remove_keys(taken.to_set()),
                    rest,
                    found: seq![],
                    params: read.params,
                },
            ),
        }
    }
}

/// Read the parameters of a call that are still missing from `params`, as far as
/// the bytes that have come allow: `true` if all are there.
///
/// `closed` says that no more bytes will come. Handles are looked up in `scope` as
/// they come; the resources that a parameter owns leave the table then, and `found`
/// keeps those of a parameter that is not complete yet. The bytes of the
/// parameters that were read leave `src`, and of one that cannot be read those up
/// to the one that shows it.
pub fn read_params<R: Copy>(
    table: &mut SharedResourceTable<R>,
    scope: Option<u64>,
    src: &mut BytesMut,
    found: &mut Found<R>,
    closed: bool,
    resources: &[ResourceType],
    io_streams: &[ResourceType],
    params_ty: &Vec<Type>,
    params: &mut Vec<Received<R>>,
) -> (r: Result<bool, ParamError>)
    ensures
        ({
            let cx = ReadContext {
                entries: old(table).entries(),
                scope,
                resources: resources@,
                io_streams: io_streams@,
            };
            let before = ParamsRead {
                entries: old(table).entries(),
                rest: buffer_bytes(*old(src)),
                found: old(found)@,
                params: received(old(params)@),
            };
            let after = ParamsRead {
                entries: final(table).entries(),
                rest: buffer_bytes(*final(src)),
                found: final(found)@,
                params: received(final(params)@),
            };
            match params_parse(cx, closed, params_ty@, before) {
                ParamsOutcome::All(read) => r == Ok::<bool, ParamError>(true) && after == read,
                ParamsOutcome::More(read) => r == Ok::<bool, ParamError>(false) && after == read,
                ParamsOutcome::Fail(e, read) => r == Err::<bool, ParamError>(e) && after == read,
            }
        }),
        final(table).capacity() == old(table).capacity(),
        final(table).minted() == old(table).minted(),
        old(table).wf() ==> final(table).wf(),
{
    let ghost cx = ReadContext {
        entries: table.entries(),
        scope,
        resources: resources@,
        io_streams: io_streams@,
    };
    let ghost before = ParamsRead {
        entries: table.entries(),
        rest: buffer_bytes(*src),
        found: found@,
        params: received(params@),
    };
    while params.len() < params_ty.len()
        invariant
            cx == (ReadContext {
                entries: old(table).entries(),
                scope,
                resources: resources@,
                io_streams: io_streams@,
            }),
            before == (ParamsRead {
                entries: old(table).entries(),
                rest: buffer_bytes(*old(src)),
                found: old(found)@,
                params: received(old(params)@),
            }),
            params_parse(cx, closed, params_ty@, before) == params_parse(
                cx,
                closed,
                params_ty@,
                ParamsRead {
                    entries: table.entries(),
                    rest: buffer_bytes(*src),
                    found: found@,
                    params: received(params@),
                },
            ),
            table.capacity() == old(table).capacity(),
            table.minted() == old(table).minted(),
            old(table).wf() ==> table.wf(),
        decreases params_ty@.len() - params@.len(),
    {
        let ghost known = received(params@);
        let i: usize = params.len();
        let mut path: Vec<usize> = Vec::new();
        path.push(i);
        assert(path@ =~= seq![i]);
        match read_value(
            table,
            scope,
            src,
            found,
            closed,
            resources,
            io_streams,
            &params_ty[i],
            &path,
        ) {
            Ok(Some(param)) => {
                params.push(param);
                assert(received(params@) =~= known.push((param.val@, origins(param.sources@))));
            },
            Ok(None) => {
                return Ok(false);
            },
            Err(error) => {
                return Err(ParamError { index: i, error });
            },
        }
    }
    Ok(true)
}

/// The same, with bytes added behind those that were not read yet.
pub open spec fn params_appended<R>(read: ParamsRead<R>, more: Seq<u8>) -> ParamsRead<R> {
    ParamsRead { rest: read.rest + more, ..read }
}

/// The parameters of a call may come in pieces: to read what has come, and to go
/// on from there when more has, is to read it all at once.
pub proof fn law_params_may_come_in_pieces<R>(
    cx: ReadContext<R>,
    closed: bool,
    tys: Seq<Type>,
    read: ParamsRead<R>,
    more: Seq<u8>,
)
    ensures
        params_parse(cx, closed, tys, params_appended(read, more)) == match params_parse(
            cx,
            false,
            tys,
            read,
        ) {
            ParamsOutcome::All(part) => ParamsOutcome::All(params_appended(part, more)),
            ParamsOutcome::More(part) => params_parse(
                cx,
                closed,
                tys,
                params_appended(part, more),
            ),
            ParamsOutcome::Fail(e, part) => ParamsOutcome::Fail(e, params_appended(part, more)),
        },
    decreases tys.len() - read.params.len(),
{
    let i = read.params.len();
    if i < tys.len() {
        let here = ReadContext { entries: read.entries, ..cx };
        let p = resume(read.rest, read.found);
        let (ty, path) = (tys[i as int], seq![i as usize]);
        assert(appended(p, more) == resume(read.rest + more, read.found));
        match parse(here, ty, path, p) {
            Parsed::Done(v, q) => {
                law_bytes_that_follow_change_nothing(here, ty, path, p, more);
                let next = ParamsRead {
                    entries: read.entries.remove_keys(q.taken.to_set()),
                    rest: q.rest,
                    found: seq![],
                    params: read.params.push((v, q.origins)),
                };
                law_params_may_come_in_pieces(cx, closed, tys, next, more);
            },
            Parsed::More(q) => {
                lemma_param_resumes(cx, closed, tys, read, more);
            },
            Parsed::Fail(_, _, _) => {
                law_bytes_that_follow_change_nothing(here, ty, path, p, more);
            },
        }
    }
}

/// A parameter of which a part has come is read on from there.
proof fn lemma_param_resumes<R>(
    cx: ReadContext<R>,
    closed: bool,
    tys: Seq<Type>,
    read: ParamsRead<R>,
    more: Seq<u8>,
)
    requires
        params_parse(cx, false, tys, read) is More,
        read.params.len() < tys.len(),
        parse(
            ReadContext { entries: read.entries, ..cx },
            tys[read.params.len() as int],
            seq![read.params.len() as usize],
            resume(read.rest, read.found),
        ) is More,
    ensures
        params_parse(cx, closed, tys, params_appended(read, more)) == params_parse(
            cx,
            closed,
            tys,
            params_appended(params_parse(cx, false, tys, read)->More_0, more),
        ),
{
    let i = read.params.len();
    let here = ReadContext { entries: read.entries, ..cx };
    let (ty, path) = (tys[i as int], seq![i as usize]);
    let q = parse(here, ty, path, resume(read.rest, read.found))->More_0;
    law_values_may_come_in_pieces(here, ty, path, read.rest, read.found, more);
    let after = read.entries.remove_keys(q.taken.to_set());
    let then = parse(
        ReadContext { entries: after, ..cx },
        ty,
        path,
        resume(read.rest + more, found_by(q)),
    );
    assert forall|taken: Seq<u128>| #[trigger]
        after.remove_keys(taken.to_set()) == read.entries.remove_keys(
            (q.taken + taken).to_set(),
        ) by {
        lemma_removed_in_two_steps(read.entries, q.taken, taken);
    }
}

/// To remove some and then others is to remove them all.
proof fn lemma_removed_in_two_steps<V>(entries: Map<u128, V>, a: Seq<u128>, b: Seq<u128>)
    ensures
        entries.remove_keys(a.to_set()).remove_keys(b.to_set()) == entries.remove_keys(
            (a + b).to_set(),
        ),
{
    assert forall|id: u128| (a + b).to_set().contains(id) <==> a.to_set().contains(id)
        || b.to_set().contains(id) by {
        if a.contains(id) {
            let i = choose|i: int| 0 <= i < a.len() && a[i] == id;
            assert((a + b)[i] == id);
        }
        if b.contains(id) {
            let i = choose|i: int| 0 <= i < b.len() && b[i] == id;
            assert((a + b)[a.len() + i] == id);
        }
    }
    assert(entries.remove_keys(a.to_set()).remove_keys(b.to_set()) =~= entries.remove_keys(
        (a + b).to_set(),
    ));
}

/// What the values from `i` on are written as.
pub open spec fn bytes_from(
    cx: EncodeContext,
    vs: Seq<Value>,
    tys: Seq<Type>,
    i: nat,
) -> Seq<u8>
    decreases vs.len() - i,
{
    if i >= vs.len() {
        seq![]
    } else {
        encoding(cx, vs[i as int], tys[i as int], seq![i as usize]).bytes + bytes_from(
            cx,
            vs,
            tys,
            i + 1,
        )
    }
}

/// The table of shared resources after the first `i` of the values were read as
/// parameters: if they can be.
pub open spec fn entries_after<R>(
    cx: EncodeContext,
    rcx: ReadContext<R>,
    vs: Seq<Value>,
    tys: Seq<Type>,
    i: nat,
) -> Option<Map<u128, (R, Option<u64>)>>
    decreases i,
{
    if i == 0 {
        Some(rcx.entries)
    } else {
        match entries_after(cx, rcx, vs, tys, (i - 1) as nat) {
            Some(entries) => match delivery(
                cx,
                ReadContext { entries, ..rcx },
                vs[i - 1],
                tys[i - 1],
                seq![(i - 1) as usize],
                seq![],
            ) {
                Some(taken) => Some(entries.remove_keys(taken.to_set())),
                None => None,
            },
            None => None,
        }
    }
}

/// The front and the rest are the whole, and all of the front is written.
proof fn lemma_bytes_from(cx: EncodeContext, vs: Seq<Value>, tys: Seq<Type>, i: nat)
    requires
        i <= vs.len(),
        tuple_encoding(cx, vs, tys, seq![], vs.len()).outcome is Ok,
    ensures
        tuple_encoding(cx, vs, tys, seq![], i).outcome is Ok,
        tuple_encoding(cx, vs, tys, seq![], vs.len()).bytes == tuple_encoding(
            cx,
            vs,
            tys,
            seq![],
            i,
        ).bytes + bytes_from(cx, vs, tys, i),
        i < vs.len() ==> encoding(cx, vs[i as int], tys[i as int], seq![i as usize]).outcome is Ok,
    decreases vs.len() - i,
{
    let front = tuple_encoding(cx, vs, tys, seq![], i);
    if i < vs.len() {
        lemma_bytes_from(cx, vs, tys, i + 1);
        assert(Seq::<usize>::empty().push(i as usize) =~= seq![i as usize]);
        let e = encoding(cx, vs[i as int], tys[i as int], seq![i as usize]);
        assert(tuple_encoding(cx, vs, tys, seq![], i + 1) == chain(front, e));
        assert(front.bytes + e.bytes + bytes_from(cx, vs, tys, i + 1) =~= front.bytes + (e.bytes
            + bytes_from(cx, vs, tys, i + 1)));
    } else {
        assert(front.bytes + Seq::<u8>::empty() =~= front.bytes);
    }
}

/// The entries before the last are there if those after it are.
proof fn lemma_entries_before<R>(
    cx: EncodeContext,
    rcx: ReadContext<R>,
    vs: Seq<Value>,
    tys: Seq<Type>,
    i: nat,
    n: nat,
)
    requires
        i <= n,
        entries_after(cx, rcx, vs, tys, n) is Some,
    ensures
        entries_after(cx, rcx, vs, tys, i) is Some,
    decreases n - i,
{
    if i < n {
        lemma_entries_before(cx, rcx, vs, tys, i, (n - 1) as nat);
    }
}

/// The outcome is that the values have arrived as parameters, and that `rest` is
/// left.
pub open spec fn params_have_arrived<R>(
    cx: EncodeContext,
    rcx: ReadContext<R>,
    vs: Seq<Value>,
    tys: Seq<Type>,
    from: nat,
    rest: Seq<u8>,
    outcome: ParamsOutcome<R>,
) -> bool {
    match outcome {
        ParamsOutcome::All(read) => {
            &&& read.params.len() == vs.len()
            &&& forall|i: int|
                from <= i < vs.len() ==> arrives_as(
                    cx,
                    ReadContext {
                        entries: entries_after(cx, rcx, vs, tys, i as nat)->Some_0,
                        ..rcx
                    },
                    vs[i],
                    (#[trigger] read.params[i]).0,
                    tys[i],
                    seq![i as usize],
                    read.params[i].1,
                )
            &&& read.rest == rest
            &&& Some(read.entries) == entries_after(cx, rcx, vs, tys, vs.len())
        },
        _ => false,
    }
}

/// Values that were written one after the other, as the results of a call are, are
/// read back as parameters, each as the value that it arrives as.
pub proof fn law_params_come_back<R>(
    cx: EncodeContext,
    rcx: ReadContext<R>,
    closed: bool,
    vs: Seq<Value>,
    tys: Seq<Type>,
    rest: Seq<u8>,
)
    requires
        vs.len() == tys.len(),
        vs.len() <= usize::MAX,
        tuple_encoding(cx, vs, tys, seq![], vs.len()).outcome is Ok,
        tuple_encoding(cx, vs, tys, seq![], vs.len()).bytes.len() <= usize::MAX,
        entries_after(cx, rcx, vs, tys, vs.len()) is Some,
    ensures
        params_have_arrived(
            cx,
            rcx,
            vs,
            tys,
            0,
            rest,
            params_parse(
                rcx,
                closed,
                tys,
                ParamsRead {
                    entries: rcx.entries,
                    rest: tuple_encoding(cx, vs, tys, seq![], vs.len()).bytes + rest,
                    found: seq![],
                    params: seq![],
                },
            ),
        ),
{
    lemma_bytes_from(cx, vs, tys, 0);
    let bytes = tuple_encoding(cx, vs, tys, seq![], vs.len()).bytes;
    assert(Seq::<u8>::empty() + bytes_from(cx, vs, tys, 0) =~= bytes_from(
        cx,
        vs,
        tys,
        0,
    ));
    let read = ParamsRead {
        entries: rcx.entries,
        rest: bytes + rest,
        found: seq![],
        params: seq![],
    };
    lemma_params_come_back(cx, rcx, closed, vs, tys, rest, read);
}

/// The parameters that are still missing are read back.
#[verifier::spinoff_prover]
proof fn lemma_params_come_back<R>(
    cx: EncodeContext,
    rcx: ReadContext<R>,
    closed: bool,
    vs: Seq<Value>,
    tys: Seq<Type>,
    rest: Seq<u8>,
    read: ParamsRead<R>,
)
    requires
        vs.len() == tys.len(),
        vs.len() <= usize::MAX,
        tuple_encoding(cx, vs, tys, seq![], vs.len()).outcome is Ok,
        tuple_encoding(cx, vs, tys, seq![], vs.len()).bytes.len() <= usize::MAX,
        entries_after(cx, rcx, vs, tys, vs.len()) is Some,
        read.params.len() <= vs.len(),
        Some(read.entries) == entries_after(cx, rcx, vs, tys, read.params.len()),
        read.rest == bytes_from(cx, vs, tys, read.params.len()) + rest,
        read.found == Seq::<R>::empty(),
    ensures
        params_have_arrived(
            cx,
            rcx,
            vs,
            tys,
            read.params.len(),
            rest,
            params_parse(rcx, closed, tys, read),
        ),
        params_parse(rcx, closed, tys, read) matches ParamsOutcome::All(all) && forall|i: int|
            0 <= i < read.params.len() ==> #[trigger] all.params[i] == read.params[i],
    decreases vs.len() - read.params.len(),
{
    let i = read.params.len();
    if i < vs.len() {
        let path = seq![i as usize];
        let here = ReadContext { entries: read.entries, ..rcx };
        let p = resume(read.rest, read.found);
        let e = encoding(cx, vs[i as int], tys[i as int], path);
        let left = bytes_from(cx, vs, tys, i + 1) + rest;
        lemma_bytes_from(cx, vs, tys, i);
        lemma_entries_before(cx, rcx, vs, tys, i + 1, vs.len());
        assert(p.rest =~= e.bytes + left);
        law_read_gives_back_what_was_written(cx, here, vs[i as int], tys[i as int], path, p, left);
        let outcome = parse(here, tys[i as int], path, p);
        let (w, q) = (outcome->Done_0, outcome->Done_1);
        let next = ParamsRead {
            entries: read.entries.remove_keys(q.taken.to_set()),
            rest: q.rest,
            found: seq![],
            params: read.params.push((w, q.origins)),
        };
        lemma_params_come_back(cx, rcx, closed, vs, tys, rest, next);
        let all = params_parse(rcx, closed, tys, read)->All_0;
        assert(all.params[i as int] == next.params[i as int]);
        assert forall|k: int| 0 <= k < i implies #[trigger] all.params[k] == read.params[k] by {
            assert(all.params[k] == next.params[k]);
        }
    } else {
        assert(read.rest =~= rest);
    }
}

/// The parameters are read in turn, from the first that is missing on: the next one
/// at the path that is its number, from the bytes behind those before it and with the
/// resources that they left. One that is complete leaves the table and the bytes to
/// the next; one that is not waits for more bytes, or is cut off if there are none;
/// and the one that cannot be read is named by its number.
pub proof fn law_params_are_read_in_turn<R>(
    cx: ReadContext<R>,
    closed: bool,
    tys: Seq<Type>,
    read: ParamsRead<R>,
)
    ensures
        read.params.len() >= tys.len() ==> params_parse(cx, closed, tys, read)
            == ParamsOutcome::All(read),
        read.params.len() < tys.len() ==> {
            let i = read.params.len();
            let here = ReadContext {
                entries: read.entries,
                scope: cx.scope,
                resources: cx.resources,
                io_streams: cx.io_streams,
            };
            let from = Progress {
                rest: read.rest,
                taken: seq![],
                origins: seq![],
                recall: read.found,
            };
            let outcome = params_parse(cx, closed, tys, read);
            match parse(here, tys[i as int], seq![i as usize], from) {
                Parsed::Done(v, q) => outcome == params_parse(
                    cx,
                    closed,
                    tys,
                    ParamsRead {
                        entries: read.entries.remove_keys(q.taken.to_set()),
                        rest: q.rest,
                        found: seq![],
                        params: read.params.push((v, q.origins)),
                    },
                ),
                Parsed::More(q) if closed => outcome == ParamsOutcome::Fail(
                    ParamError { index: i as usize, error: ReadError::UnexpectedEof },
                    ParamsRead {
                        entries: read.entries.remove_keys(q.taken.to_set()),
                        rest: seq![],
                        found: seq![],
                        params: read.params,
                    },
                ),
                Parsed::More(q) => outcome == ParamsOutcome::More(
                    ParamsRead {
                        entries: read.entries.remove_keys(q.taken.to_set()),
                        rest: read.rest,
                        found: found_by(q),
                        params: read.params,
                    },
                ),
                Parsed::Fail(error, taken, rest) => outcome == ParamsOutcome::Fail(
                    ParamError { index: i as usize, error },
                    ParamsRead {
                        entries: read.entries.remove_keys(taken.to_set()),
                        rest,
                        found: seq![],
                        params: read.params,
                    },
                ),
            }
        },
{
}

/// The view of parameters that were received hides nothing: each is seen with its
/// value and what its resources and streams are made of, in its place.
pub proof fn law_params_are_seen_as_they_are<R>(params: Seq<Received<R>>)
    ensures
        received(params).len() == params.len(),
        forall|i: int|
            0 <= i < params.len() ==> (#[trigger] received(params)[i]).0 == params[i].val@
                && received(params)[i].1 == origins(params[i].sources@),
{
}

} // verus!
