use wrpc_wasmtime::call::{guest_call_error, results_call_error, CallError, GuestError, Step};
use wrpc_wasmtime::encode::{EncodeContext, EncodeError, Request, Resolution, StreamSource};
use wrpc_wasmtime::results::{encode_results, ResultsError};
use wrpc_wasmtime::rpc::{rpc_result_type, HostResources};
use wrpc_wasmtime::types::{HostResource, ResourceType, Type};
use wrpc_wasmtime::val::Val;

const GUEST_ERROR: ResourceType = ResourceType::Defined(11);

fn host_resources() -> HostResources {
    let mut hosts = HostResources::new();
    hosts.insert(
        "wrpc:rpc/error@0.1.0".to_string(),
        "error".to_string(),
        (GUEST_ERROR, ResourceType::Host(HostResource::Error)),
    );
    hosts
}

fn rpc_result(ok: Option<Type>) -> Vec<Type> {
    vec![Type::Result(
        ok.map(Box::new),
        Some(Box::new(Type::Own(GUEST_ERROR))),
    )]
}

fn context<'a>(streams: &'a [Resolution]) -> EncodeContext<'a> {
    EncodeContext {
        resources: &[],
        io_streams: &[],
        held: &[],
        streams,
    }
}

fn written(
    hosts: &HostResources,
    tys: &Vec<Type>,
    results: Vec<Val>,
) -> Result<Vec<u8>, ResultsError> {
    let out = encode_results(&context(&[]), hosts, tys, &results)?;
    assert!(out.deferred.is_empty());
    Ok(out.bytes.to_vec())
}

#[test]
fn the_rpc_result_is_recognised() {
    let hosts = host_resources();
    let ty = rpc_result(Some(Type::U8));
    assert!(matches!(
        rpc_result_type(&hosts, &ty),
        Some(Some(Type::U8))
    ));
    assert!(matches!(
        rpc_result_type(&hosts, &rpc_result(None)),
        Some(None)
    ));
    assert!(rpc_result_type(&HostResources::new(), &ty).is_none());
    let mut two = rpc_result(None);
    two.push(Type::U8);
    assert!(rpc_result_type(&hosts, &two).is_none());
    assert!(rpc_result_type(&hosts, &vec![]).is_none());
    assert!(rpc_result_type(&hosts, &vec![Type::U8]).is_none());
    assert!(rpc_result_type(&hosts, &vec![Type::Result(None, None)]).is_none());
    let other = vec![Type::Result(
        None,
        Some(Box::new(Type::Own(ResourceType::Defined(12)))),
    )];
    assert!(rpc_result_type(&hosts, &other).is_none());
    let borrowed = vec![Type::Result(
        None,
        Some(Box::new(Type::Borrow(GUEST_ERROR))),
    )];
    assert!(rpc_result_type(&hosts, &borrowed).is_none());
    let mut foreign = HostResources::new();
    foreign.insert(
        "wrpc:rpc/error@0.1.0".to_string(),
        "error".to_string(),
        (GUEST_ERROR, ResourceType::Defined(1)),
    );
    assert!(rpc_result_type(&foreign, &ty).is_none());
}

#[test]
fn results_are_written_one_after_the_other() {
    let hosts = host_resources();
    let tys = vec![Type::U8, Type::Bool];
    assert_eq!(
        written(&hosts, &tys, vec![Val::U8(5), Val::Bool(true)]),
        Ok(vec![5, 1])
    );
    assert_eq!(written(&hosts, &tys, vec![Val::U8(5)]), Ok(vec![5]));
    assert_eq!(
        written(&hosts, &tys, vec![Val::U8(5), Val::U8(1)]),
        Err(ResultsError::Encode(1, EncodeError::TypeMismatch))
    );
}

#[test]
fn of_an_rpc_result_only_the_value_is_written() {
    let hosts = host_resources();
    let unit = rpc_result(None);
    assert_eq!(
        written(&hosts, &unit, vec![Val::Result(Ok(None))]),
        Ok(vec![])
    );
    let byte = rpc_result(Some(Type::U8));
    assert_eq!(
        written(
            &hosts,
            &byte,
            vec![Val::Result(Ok(Some(Box::new(Val::U8(5)))))]
        ),
        Ok(vec![5])
    );
    assert_eq!(
        written(
            &hosts,
            &byte,
            vec![Val::Result(Ok(Some(Box::new(Val::Bool(true)))))]
        ),
        Err(ResultsError::Encode(0, EncodeError::TypeMismatch))
    );
}

#[test]
fn an_rpc_error_is_the_error_of_the_call() {
    let hosts = host_resources();
    let unit = rpc_result(None);
    let error = |v: Val| vec![Val::Result(Err(Some(Box::new(v))))];
    assert_eq!(
        written(&hosts, &unit, error(Val::Resource(3))),
        Err(ResultsError::Guest(3))
    );
    assert_eq!(
        written(&hosts, &unit, error(Val::U8(3))),
        Err(ResultsError::ErrorNotResource)
    );
    assert_eq!(
        written(&hosts, &unit, vec![Val::Result(Err(None))]),
        Err(ResultsError::TypeMismatch)
    );
    assert_eq!(
        written(&hosts, &unit, vec![Val::U8(1)]),
        Err(ResultsError::TypeMismatch)
    );
    assert_eq!(
        written(&hosts, &unit, vec![]),
        Err(ResultsError::TypeMismatch)
    );
    assert_eq!(
        written(
            &hosts,
            &unit,
            vec![Val::Result(Ok(Some(Box::new(Val::U8(1)))))]
        ),
        Err(ResultsError::TypeMismatch)
    );
}

#[test]
fn streams_of_results_follow_under_their_index() {
    let stream = || Type::Stream(Some(Box::new(Type::U8)));
    let streams = [Resolution::Stream, Resolution::Stream];
    let tys = vec![Type::U8, Type::Tuple(vec![stream(), stream()])];
    let out = encode_results(
        &context(&streams),
        &HostResources::new(),
        &tys,
        &vec![
            Val::U8(1),
            Val::Tuple(vec![Val::Stream(1), Val::Stream(0)]),
        ],
    )
    .unwrap();
    assert_eq!(&out.bytes[..], &[1, 0, 0]);
    assert_eq!(out.deferred.len(), 2);
    assert_eq!(out.deferred[0].path, vec![1, 0]);
    assert_eq!(out.deferred[0].source, StreamSource::Stream(1));
    assert_eq!(out.deferred[1].path, vec![1, 1]);
    assert_eq!(out.deferred[1].source, StreamSource::Stream(0));
    let one = encode_results(
        &context(&streams),
        &host_resources(),
        &rpc_result(Some(stream())),
        &vec![Val::Result(Ok(Some(Box::new(Val::Stream(0)))))],
    )
    .unwrap();
    assert_eq!(&one.bytes[..], &[0]);
    assert_eq!(one.deferred[0].path, vec![0]);
    let waiting = encode_results(
        &context(&[Resolution::Unresolved]),
        &HostResources::new(),
        &vec![stream()],
        &vec![Val::Stream(0)],
    );
    assert_eq!(
        waiting.unwrap_err(),
        ResultsError::Encode(0, EncodeError::Pending(0, Request::DrainStream))
    );
}

fn error_name(r: Result<Step, CallError<&'static str, ()>>) -> String {
    format!("{r:?}")
}

#[test]
fn a_call_that_goes_well_takes_all_steps() {
    let mut steps = vec![];
    let mut step = Step::first();
    while step != Step::Finished {
        steps.push(step);
        step = match step.advance::<&str, ()>(Ok(())) {
            Ok(next) => next,
            Err(e) => panic!("{e:?}"),
        };
    }
    assert_eq!(
        steps,
        vec![
            Step::Decode,
            Step::Observe,
            Step::Invoke,
            Step::Encode,
            Step::Record,
            Step::Transmit,
            Step::Flush,
            Step::Shutdown,
            Step::Defer,
        ]
    );
    assert_eq!(
        error_name(Step::Finished.advance(Ok(()))),
        "Ok(Finished)"
    );
}

#[test]
fn a_failed_step_ends_the_call() {
    assert_eq!(
        error_name(Step::Decode.advance(Err("x"))),
        "Err(Decode(\"x\"))"
    );
    assert_eq!(
        error_name(Step::Observe.advance(Err("x"))),
        "Err(Call(\"x\"))"
    );
    assert_eq!(
        error_name(Step::Invoke.advance(Err("x"))),
        "Err(Call(\"x\"))"
    );
    assert_eq!(
        error_name(Step::Encode.advance(Err("x"))),
        "Err(Encode(\"x\"))"
    );
    assert_eq!(
        error_name(Step::Transmit.advance(Err("x"))),
        "Err(Write(\"x\"))"
    );
    assert_eq!(
        error_name(Step::Flush.advance(Err("x"))),
        "Err(Flush(\"x\"))"
    );
    assert_eq!(
        error_name(Step::Defer.advance(Err("x"))),
        "Err(Deferred(\"x\"))"
    );
}

#[test]
fn a_stream_that_is_not_shut_down_does_no_harm() {
    assert_eq!(error_name(Step::Shutdown.advance(Err("x"))), "Ok(Defer)");
    assert_eq!(error_name(Step::Record.advance(Err("x"))), "Ok(Transmit)");
}

#[test]
fn results_that_are_not_written_are_errors_of_the_call() {
    let encode: Option<CallError<&str, ()>> =
        results_call_error(ResultsError::Encode(0, EncodeError::TypeMismatch), "x");
    assert!(matches!(encode, Some(CallError::Encode("x"))));
    let mismatch: Option<CallError<&str, ()>> = results_call_error(ResultsError::TypeMismatch, "x");
    assert!(matches!(mismatch, Some(CallError::TypeMismatch("x"))));
    let value: Option<CallError<&str, ()>> =
        results_call_error(ResultsError::ErrorNotResource, "x");
    assert!(matches!(value, Some(CallError::TypeMismatch("x"))));
    let guest: Option<CallError<&str, ()>> = results_call_error(ResultsError::Guest(1), "x");
    assert!(guest.is_none());
    assert!(matches!(
        guest_call_error::<&str, u8>(GuestError::Taken(4)),
        CallError::Guest(4)
    ));
    assert!(matches!(
        guest_call_error::<&str, u8>(GuestError::Missing("x")),
        CallError::Table("x")
    ));
    assert!(matches!(
        guest_call_error::<&str, u8>(GuestError::Mismatch("x")),
        CallError::TypeMismatch("x")
    ));
}
