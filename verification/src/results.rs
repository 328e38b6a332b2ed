//! Writing the results of a call.

use bytes::BytesMut;
use vstd::prelude::*;

use crate::buffer::{buffer_bytes, empty_buffer};
use crate::encode::{
    deferrals, encoding, lemma_tuple_stuck, tuple_encoding, write_value, Deferred, EncodeContext,
    EncodeError,
};
use crate::named::Key;
use crate::rpc::{rpc_result, rpc_result_type, HostResources};
use crate::types::{HostResource, ResourceType, Type};
use crate::val::{payload_value, values, Val, Value};

verus! {

/// Why the results of a call were not written.
#[derive(Clone, Copy, Debug, PartialEq, Eq, Structural)]
pub enum ResultsError {
    /// The result of that index, counted from zero, was not written.
    Encode(usize, EncodeError),
    /// The function returned an RPC error, which is the resource of that number.
    Guest(usize),
    /// The function returned an RPC error that is not a resource.
    ErrorNotResource,
    /// What the function returned is not of the type that it has.
    TypeMismatch,
}

/// The results of a call as they are written.
#[derive(Debug)]
pub struct EncodedResults {
    pub bytes: BytesMut,
    /// The streams of the results, each at its path.
    pub deferred: Vec<Deferred>,
}

/// What of the results of a call is to be written.
pub enum Outgoing {
    /// Each result under its type.
    All,
    /// Nothing: the call succeeded and that says it all.
    Nothing,
    /// The value under the type.
    One(Value, Type),
    /// Nothing, for this reason.
    Refused(ResultsError),
}

/// What of the results of a call is to be written. A function whose result is a
/// `result` with an RPC error has only its `ok` value written, and its error is
/// the error of the call.
pub open spec fn outgoing(
    host_resources: Map<Key, (ResourceType, ResourceType)>,
    tys: Seq<Type>,
    results: Seq<Value>,
) -> Outgoing {
    match rpc_result(host_resources, tys) {
        None => Outgoing::All,
        Some(ok) => if results.len() != 1 {
            Outgoing::Refused(ResultsError::TypeMismatch)
        } else {
            match (ok, results[0]) {
                (None, Value::Result(Ok(None))) => Outgoing::Nothing,
                (Some(ty), Value::Result(Ok(Some(v)))) => Outgoing::One(*v, ty),
                (_, Value::Result(Err(Some(err)))) => match *err {
                    Value::Resource(id) => Outgoing::Refused(ResultsError::Guest(id)),
                    _ => Outgoing::Refused(ResultsError::ErrorNotResource),
                },
                _ => Outgoing::Refused(ResultsError::TypeMismatch),
            }
        },
    }
}

/// Whether a function with these results has one result, which is a `result` whose
/// error is an RPC error.
pub open spec fn returns_rpc_result(
    host_resources: Map<Key, (ResourceType, ResourceType)>,
    tys: Seq<Type>,
) -> bool {
    let key = ("wrpc:rpc/error@0.1.0"@, "error"@);
    &&& tys.len() == 1
    &&& host_resources.contains_key(key)
    &&& host_resources[key].1 == ResourceType::Host(HostResource::Error)
    &&& tys[0] matches Type::Result(_, Some(err)) && *err == Type::Own(host_resources[key].0)
}

/// Of a function that returns an RPC result, whatever the type of its `ok` value:
/// an error that is a resource is the error of the call, and nothing else is;
/// another error is no RPC error; an `ok` value is written if and only if the type
/// has one; and anything else does not fit the type.
pub proof fn law_rpc_results_are_unwrapped(
    host_resources: Map<Key, (ResourceType, ResourceType)>,
    ok: Option<Box<Type>>,
    err: Option<Box<Type>>,
    results: Seq<Value>,
    v: Value,
    id: usize,
)
    requires
        returns_rpc_result(host_resources, seq![Type::Result(ok, err)]),
    ensures
        ({
            let o = outgoing(host_resources, seq![Type::Result(ok, err)], results);
            &&& o != Outgoing::All
            &&& results == seq![Value::Result(Err(Some(Box::new(Value::Resource(id)))))] <==> o
                == Outgoing::Refused(ResultsError::Guest(id))
            &&& results == seq![Value::Result(Err(Some(Box::new(v))))] && !(v is Resource) ==> o
                == Outgoing::Refused(ResultsError::ErrorNotResource)
            &&& results == seq![Value::Result(Ok(None))] && ok is None <==> o
                == Outgoing::Nothing
            &&& results == seq![Value::Result(Ok(Some(Box::new(v))))] ==> (o == match ok {
                Some(ty) => Outgoing::One(v, *ty),
                None => Outgoing::Refused(ResultsError::TypeMismatch),
            })
            &&& results == seq![Value::Result(Ok(None))] && ok is Some ==> o == Outgoing::Refused(
                ResultsError::TypeMismatch,
            )
            &&& o is One ==> results.len() == 1 && (results[0] matches Value::Result(
                Ok(Some(w)),
            ) && o->One_0 == *w)
            &&& results.len() != 1 ==> o == Outgoing::Refused(ResultsError::TypeMismatch)
            &&& results.len() == 1 && !(results[0] is Result) ==> o == Outgoing::Refused(
                ResultsError::TypeMismatch,
            )
            &&& results == seq![Value::Result(Err(None))] ==> o == Outgoing::Refused(
                ResultsError::TypeMismatch,
            )
        }),
{
    let tys = seq![Type::Result(ok, err)];
    let o = outgoing(host_resources, tys, results);
    if results.len() == 1 {
        assert(results =~= seq![results[0]]);
    }
}

/// The results of a function that returns no RPC result are all written, each
/// under its type, as long as there are both.
pub proof fn law_other_results_are_written(
    host_resources: Map<Key, (ResourceType, ResourceType)>,
    tys: Seq<Type>,
    results: Seq<Value>,
)
    requires
        !returns_rpc_result(host_resources, tys),
    ensures
        outgoing(host_resources, tys, results) == Outgoing::All,
        paired(results, tys) <= results.len(),
        paired(results, tys) <= tys.len(),
        paired(results, tys) == results.len() || paired(results, tys) == tys.len(),
{
}

/// How many values have both a result and a type.
pub open spec fn paired(results: Seq<Value>, tys: Seq<Type>) -> nat {
    if results.len() <= tys.len() {
        results.len()
    } else {
        tys.len()
    }
}

/// Write the results of a call, each with its streams at the path that begins
/// with its index.
pub fn encode_results(
    cx: &EncodeContext,
    host_resources: &HostResources,
    results_ty: &Vec<Type>,
    results: &Vec<Val>,
) -> (r: Result<EncodedResults, ResultsError>)
    ensures
        match outgoing(host_resources@, results_ty@, values(results@)) {
            Outgoing::All => {
                let vs = values(results@);
                let none = Seq::<usize>::empty();
                let e = tuple_encoding(*cx, vs, results_ty@, none, paired(vs, results_ty@));
                match e.outcome {
                    Ok(d) => r matches Ok(out) && buffer_bytes(out.bytes) == e.bytes && deferrals(
                        out.deferred@,
                    ) == d,
                    Err(x) => r matches Err(ResultsError::Encode(i, y)) && y == x && i < paired(
                        vs,
                        results_ty@,
                    ) && tuple_encoding(*cx, vs, results_ty@, none, i as nat).outcome is Ok
                        && tuple_encoding(*cx, vs, results_ty@, none, (i + 1) as nat).outcome
                        is Err,
                }
            },
            Outgoing::Nothing => r matches Ok(out) && buffer_bytes(out.bytes)
                == Seq::<u8>::empty() && out.deferred@.len() == 0,
            Outgoing::One(v, ty) => {
                let e = encoding(*cx, v, ty, seq![0usize]);
                match e.outcome {
                    Ok(d) => r matches Ok(out) && buffer_bytes(out.bytes) == e.bytes && deferrals(
                        out.deferred@,
                    ) == d,
                    Err(x) => r matches Err(y) && y == ResultsError::Encode(0, x),
                }
            },
            Outgoing::Refused(x) => r matches Err(y) && y == x,
        },
        returns_rpc_result(host_resources@, results_ty@) ==> {
            &&& r is Ok ==> results@.len() == 1 && (values(results@)[0] matches Value::Result(
                Ok(_),
            ))
            &&& results@.len() == 1 ==> match values(results@)[0] {
                Value::Result(Err(Some(err))) => match *err {
                    Value::Resource(id) => r matches Err(x) && x == ResultsError::Guest(id),
                    _ => r matches Err(x) && x == ResultsError::ErrorNotResource,
                },
                _ => true,
            }
        },
{
    let mut bytes: BytesMut = empty_buffer();
    let mut deferred: Vec<Deferred> = Vec::new();
    let mut path: Vec<usize> = Vec::new();
    assert(path@ =~= Seq::<usize>::empty());
    assert(deferrals(deferred@) =~= seq![]);
    match rpc_result_type(host_resources, results_ty) {
        None => {
            let n: usize = if results.len() <= results_ty.len() {
                results.len()
            } else {
                results_ty.len()
            };
            let ghost vs = values(results@);
            for i in 0..n
                invariant
                    vs == values(results@),
                    n == paired(vs, results_ty@),
                    path@ == Seq::<usize>::empty(),
                    rpc_result(host_resources@, results_ty@) is None,
                    ({
                        let e = tuple_encoding(*cx, vs, results_ty@, path@, i as nat);
                        &&& e.outcome is Ok
                        &&& buffer_bytes(bytes) == e.bytes
                        &&& deferrals(deferred@) == e.outcome->Ok_0
                    }),
            {
                let ghost front = tuple_encoding(*cx, vs, results_ty@, path@, i as nat);
                path.push(i);
                let r = write_value(
                    cx,
                    &results[i],
                    &results_ty[i],
                    &path,
                    &mut bytes,
                    &mut deferred,
                );
                path.pop();
                assert(path@ =~= Seq::<usize>::empty());
                assert(vs[i as int] == results@[i as int]@);
                if let Err(error) = r {
                    proof {
                        lemma_tuple_stuck(*cx, vs, results_ty@, path@, (i + 1) as nat, n as nat);
                    }
                    return Err(ResultsError::Encode(i, error));
                }
            }
            Ok(EncodedResults { bytes, deferred })
        },
        Some(ok) => {
            if results.len() != 1 {
                return Err(ResultsError::TypeMismatch);
            }
            assert(values(results@)[0] == results@[0]@);
            proof {
                reveal_with_fuel(Val::value, 3);
                reveal_with_fuel(payload_value, 3);
            }
            match (ok, &results[0]) {
                (None, Val::Result(Ok(None))) => Ok(EncodedResults { bytes, deferred }),
                (Some(ty), Val::Result(Ok(Some(v)))) => {
                    path.push(0);
                    assert(path@ =~= seq![0usize]);
                    let ghost e = encoding(*cx, v@, *ty, path@);
                    let r = write_value(cx, v, ty, &path, &mut bytes, &mut deferred);
                    proof {
                        assert(Seq::<u8>::empty() + e.bytes =~= e.bytes);
                        if let Ok(d) = e.outcome {
                            assert(seq![] + d =~= d);
                        }
                    }
                    match r {
                        Ok(()) => Ok(EncodedResults { bytes, deferred }),
                        Err(error) => Err(ResultsError::Encode(0, error)),
                    }
                },
                (_, Val::Result(Err(Some(err)))) => match &**err {
                    Val::Resource(id) => Err(ResultsError::Guest(*id)),
                    _ => Err(ResultsError::ErrorNotResource),
                },
                _ => Err(ResultsError::TypeMismatch),
            }
        },
    }
}

} // verus!
