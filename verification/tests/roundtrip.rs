use bytes::BytesMut;
use wrpc_wasmtime::decode::{ByteStream, Found, Source};
use wrpc_wasmtime::encode::{EncodeContext, HeldResource, Resolution};
use wrpc_wasmtime::params::{read_params, ParamError};
use wrpc_wasmtime::error::ReadError;
use wrpc_wasmtime::results::encode_results;
use wrpc_wasmtime::rpc::HostResources;
use wrpc_wasmtime::types::{Case, Field, HostResource, ResourceType, Type};
use wrpc_wasmtime::val::Val;
use wrpc_wasmtime::{read_value, SharedResourceTable, ValEncoder};

fn name(s: &str) -> String {
    s.to_string()
}

fn deep() -> (Type, Val) {
    let ty = Type::Record(vec![
        Field {
            name: name("id"),
            ty: Type::U64,
        },
        Field {
            name: name("tags"),
            ty: Type::List(Box::new(Type::String)),
        },
        Field {
            name: name("at"),
            ty: Type::Tuple(vec![Type::Float64, Type::S16, Type::Char]),
        },
        Field {
            name: name("kind"),
            ty: Type::Variant(vec![
                Case {
                    name: name("plain"),
                    ty: None,
                },
                Case {
                    name: name("with"),
                    ty: Some(Type::Option(Box::new(Type::Result(
                        Some(Box::new(Type::Enum(vec![name("x"), name("y")]))),
                        None,
                    )))),
                },
            ]),
        },
        Field {
            name: name("may"),
            ty: Type::Flags(vec![name("read"), name("write")]),
        },
    ]);
    let y = Val::Enum(name("y"));
    let ok_y = Val::Result(Ok(Some(Box::new(y))));
    let some_y = Val::Option(Some(Box::new(ok_y)));
    let v = Val::Record(vec![
        (name("id"), Val::U64(1 << 40)),
        (
            name("tags"),
            Val::List(vec![Val::String(name("a")), Val::String(name("öß"))]),
        ),
        (
            name("at"),
            Val::Tuple(vec![
                Val::Float64(2.5f64.to_bits()),
                Val::S16(-300),
                Val::Char('𝄞'),
            ]),
        ),
        (
            name("kind"),
            Val::Variant(name("with"), Some(Box::new(some_y))),
        ),
        (name("may"), Val::Flags(vec![name("write")])),
    ]);
    (ty, v)
}

#[test]
fn plain_values_come_back() {
    let (ty, v) = deep();
    let mut dst = BytesMut::new();
    ValEncoder::new(&ty, &[], &[], &[], &[])
        .encode(&v, &mut dst)
        .unwrap();
    dst.extend_from_slice(b"rest");
    let mut table: SharedResourceTable<()> = SharedResourceTable::default();
    let r = read_value(&mut table, None, &mut dst, &mut Found::new(), false, &[], &[], &ty, &vec![])
        .unwrap()
        .unwrap();
    assert_eq!(format!("{:?}", r.val), format!("{v:?}"));
    assert_eq!(&dst[..], b"rest");
}

#[test]
fn pieces_give_what_the_whole_gives() {
    let (ty, v) = deep();
    let mut whole = BytesMut::new();
    ValEncoder::new(&ty, &[], &[], &[], &[])
        .encode(&v, &mut whole)
        .unwrap();
    let mut table: SharedResourceTable<()> = SharedResourceTable::default();
    for cut in 0..whole.len() {
        let mut src = BytesMut::from(&whole[..cut]);
        let mut found = Found::new();
        let r = read_value(
            &mut table, None, &mut src, &mut found, false, &[], &[], &ty, &vec![],
        )
        .unwrap();
        assert!(r.is_none());
        assert_eq!(&src[..], &whole[..cut]);
        src.extend_from_slice(&whole[cut..]);
        let r = read_value(
            &mut table, None, &mut src, &mut found, true, &[], &[], &ty, &vec![],
        )
            .unwrap()
            .unwrap();
        assert_eq!(format!("{:?}", r.val), format!("{v:?}"));
        assert!(src.is_empty());
    }
}

const BLOB: ResourceType = ResourceType::Defined(1);

#[test]
fn handles_and_streams_come_back() {
    let ty = Type::Tuple(vec![
        Type::Own(BLOB),
        Type::Stream(Some(Box::new(Type::U8))),
        Type::Borrow(BLOB),
    ]);
    let v = Val::Tuple(vec![Val::Resource(1), Val::Stream(0), Val::Resource(0)]);
    let mut table = SharedResourceTable::default();
    let a = table.share(Some(1), 'a').unwrap();
    let b = table.share(Some(1), 'b').unwrap();
    let held = [
        HeldResource {
            ty: BLOB,
            resolution: Resolution::Shared(a),
        },
        HeldResource {
            ty: BLOB,
            resolution: Resolution::Shared(b),
        },
    ];
    let streams = [Resolution::Stream];
    let mut dst = BytesMut::new();
    let mut enc = ValEncoder::new(&ty, &[BLOB], &[], &held, &streams);
    enc.encode(&v, &mut dst).unwrap();
    assert_eq!(enc.deferred.len(), 1);
    assert_eq!(enc.deferred[0].path, vec![1]);
    let r = read_value(
        &mut table,
        Some(1),
        &mut dst,
        &mut Found::new(),
        false,
        &[BLOB],
        &[],
        &ty,
        &vec![],
    )
    .unwrap()
    .unwrap();
    assert_eq!(
        format!("{:?}", r.val),
        "Tuple([Resource(0), Stream(1), Resource(2)])"
    );
    assert!(matches!(r.sources[0], Source::Shared('b')));
    assert!(matches!(&r.sources[1], Source::Stream(ByteStream::Indexed(p)) if p == &[1]));
    assert!(matches!(r.sources[2], Source::Shared('a')));
    assert_eq!(table.get(Some(1), &a), Some(&'a'));
    assert_eq!(table.get(Some(1), &b), None);
}

#[test]
fn a_record_takes_the_names_of_its_type() {
    let ty = Type::Record(vec![Field {
        name: name("right"),
        ty: Type::U8,
    }]);
    let v = Val::Record(vec![(name("wrong"), Val::U8(1))]);
    let mut dst = BytesMut::new();
    ValEncoder::new(&ty, &[], &[], &[], &[])
        .encode(&v, &mut dst)
        .unwrap();
    let mut table: SharedResourceTable<()> = SharedResourceTable::default();
    let r = read_value(&mut table, None, &mut dst, &mut Found::new(), false, &[], &[], &ty, &vec![])
        .unwrap()
        .unwrap();
    assert_eq!(format!("{:?}", r.val), "Record([(\"right\", U8(1))])");
}

#[test]
fn params_are_read_one_after_the_other() {
    let tys = vec![Type::U8, Type::Stream(Some(Box::new(Type::U8))), Type::String];
    let mut table: SharedResourceTable<()> = SharedResourceTable::default();
    let mut params = Vec::new();
    let mut src = BytesMut::from(&[7u8, 0][..]);
    let r = read_params(
        &mut table,
        None,
        &mut src,
        &mut Found::new(),
        false,
        &[],
        &[],
        &tys,
        &mut params,
    );
    assert_eq!(r, Ok(false));
    assert_eq!(params.len(), 2);
    assert!(
        matches!(&params[1].sources[..], [Source::Stream(ByteStream::Indexed(p))] if p == &[1])
    );
    src.extend_from_slice(&[2, b'h', b'i', 9]);
    let r = read_params(
        &mut table,
        None,
        &mut src,
        &mut Found::new(),
        false,
        &[],
        &[],
        &tys,
        &mut params,
    );
    assert_eq!(r, Ok(true));
    assert_eq!(params.len(), 3);
    assert_eq!(format!("{:?}", params[2].val), "String(\"hi\")");
    assert_eq!(&src[..], &[9]);
}

#[test]
fn a_param_that_cannot_be_read_is_named() {
    let tys = vec![Type::U8, Type::Bool];
    let mut table: SharedResourceTable<()> = SharedResourceTable::default();
    let mut params = Vec::new();
    let mut src = BytesMut::from(&[7u8, 2][..]);
    let r = read_params(
        &mut table,
        None,
        &mut src,
        &mut Found::new(),
        false,
        &[],
        &[],
        &tys,
        &mut params,
    );
    assert_eq!(
        r,
        Err(ParamError {
            index: 1,
            error: ReadError::InvalidBool(2)
        })
    );
    let mut params = Vec::new();
    let mut src = BytesMut::from(&[7u8][..]);
    let r = read_params(
        &mut table,
        None,
        &mut src,
        &mut Found::new(),
        true,
        &[],
        &[],
        &tys,
        &mut params,
    );
    assert_eq!(
        r,
        Err(ParamError {
            index: 1,
            error: ReadError::UnexpectedEof
        })
    );
}

#[test]
fn a_param_keeps_its_resources_between_attempts() {
    let mut table: SharedResourceTable<char> = SharedResourceTable::default();
    let id = 0x0102_u128;
    table.try_insert(Some(1), id, 'a').unwrap();
    let tys = vec![Type::U8, Type::Tuple(vec![Type::Own(BLOB), Type::U8])];
    let mut bytes = vec![3, 16];
    bytes.extend_from_slice(&[0; 14]);
    bytes.extend_from_slice(&[1, 2]);
    let mut src = BytesMut::from(&bytes[..]);
    let mut found = Found::new();
    let mut params = Vec::new();
    for (last, all) in [(None, false), (Some(9u8), true)] {
        src.extend_from_slice(last.as_slice());
        let r = read_params(
            &mut table,
            Some(1),
            &mut src,
            &mut found,
            false,
            &[BLOB],
            &[],
            &tys,
            &mut params,
        );
        assert_eq!(r, Ok(all));
        assert!(table.is_empty());
    }
    assert_eq!(params.len(), 2);
    assert!(matches!(&params[1].sources[..], [Source::Shared('a')]));
    assert!(src.is_empty());
}

#[test]
fn no_params_need_no_bytes() {
    let mut table: SharedResourceTable<()> = SharedResourceTable::default();
    let mut params = Vec::new();
    let mut src = BytesMut::new();
    let r = read_params(
        &mut table,
        None,
        &mut src,
        &mut Found::new(),
        false,
        &[],
        &[],
        &vec![],
        &mut params,
    );
    assert_eq!(r, Ok(true));
    assert!(params.is_empty());
}

#[test]
fn a_remote_handle_comes_back_whatever_follows_it() {
    let other = ResourceType::Defined(5);
    let ty = Type::Tuple(vec![Type::U8, Type::Own(other), Type::String]);
    let v = Val::Tuple(vec![
        Val::U8(3),
        Val::Resource(0),
        Val::String(name("hi")),
    ]);
    let held = [HeldResource {
        ty: ResourceType::Host(HostResource::Remote),
        resolution: Resolution::Remote(vec![7, 7, 7]),
    }];
    let mut dst = BytesMut::new();
    ValEncoder::new(&ty, &[BLOB], &[], &held, &[])
        .encode(&v, &mut dst)
        .unwrap();
    assert_eq!(&dst[..], &[3, 3, 7, 7, 7, 2, b'h', b'i']);
    dst.extend_from_slice(b"next");
    let mut table: SharedResourceTable<()> = SharedResourceTable::default();
    let r = read_value(
        &mut table,
        None,
        &mut dst,
        &mut Found::new(),
        false,
        &[BLOB],
        &[],
        &ty,
        &vec![],
    )
        .unwrap()
        .unwrap();
    assert_eq!(
        format!("{:?}", r.val),
        "Tuple([U8(3), Resource(0), String(\"hi\")])"
    );
    assert!(matches!(&r.sources[..], [Source::Remote(h)] if h == &[7, 7, 7]));
    assert_eq!(&dst[..], b"next");
}

#[test]
fn a_param_that_fails_is_read_to_the_byte_that_shows_it() {
    let mut table: SharedResourceTable<()> = SharedResourceTable::default();
    let tys = vec![Type::U8, Type::Bool, Type::U8];
    let mut params = Vec::new();
    let mut src = BytesMut::from(&[4u8, 2, 9][..]);
    let r = read_params(
        &mut table,
        None,
        &mut src,
        &mut Found::new(),
        false,
        &[],
        &[],
        &tys,
        &mut params,
    );
    assert_eq!(
        r,
        Err(ParamError {
            index: 1,
            error: ReadError::InvalidBool(2)
        })
    );
    assert_eq!(params.len(), 1);
    assert_eq!(&src[..], &[9]);
    let mut params = Vec::new();
    let mut src = BytesMut::from(&[1u8, 1][..]);
    let tys = vec![Type::U8, Type::String];
    let r = read_params(
        &mut table,
        None,
        &mut src,
        &mut Found::new(),
        true,
        &[],
        &[],
        &tys,
        &mut params,
    );
    assert_eq!(r.unwrap_err().error, ReadError::UnexpectedEof);
    assert!(src.is_empty());
}

#[test]
fn results_are_read_back_as_params() {
    let stream = || Type::Stream(Some(Box::new(Type::U8)));
    let tys = vec![Type::String, Type::Tuple(vec![Type::U8, stream()]), stream()];
    let results = vec![
        Val::String(name("hi")),
        Val::Tuple(vec![Val::U8(1), Val::Stream(1)]),
        Val::Stream(0),
    ];
    let streams = [Resolution::Stream, Resolution::Stream];
    let cx = EncodeContext {
        resources: &[],
        io_streams: &[],
        held: &[],
        streams: &streams,
    };
    let out = encode_results(&cx, &HostResources::new(), &tys, &results).unwrap();
    let mut src = out.bytes;
    let mut table: SharedResourceTable<()> = SharedResourceTable::default();
    let mut params = Vec::new();
    let r = read_params(
        &mut table,
        None,
        &mut src,
        &mut Found::new(),
        false,
        &[],
        &[],
        &tys,
        &mut params,
    );
    assert_eq!(r, Ok(true));
    assert!(src.is_empty());
    assert_eq!(format!("{:?}", params[0].val), "String(\"hi\")");
    assert_eq!(format!("{:?}", params[1].val), "Tuple([U8(1), Stream(0)])");
    assert_eq!(format!("{:?}", params[2].val), "Stream(0)");
    let paths: Vec<Vec<usize>> = out.deferred.into_iter().map(|d| d.path).collect();
    assert_eq!(paths, vec![vec![1, 1], vec![2]]);
    for (param, path) in params[1..].iter().zip(&paths) {
        assert!(
            matches!(&param.sources[..], [Source::Stream(ByteStream::Indexed(p))] if p == path)
        );
    }
}

#[test]
fn different_values_are_written_differently() {
    let (ty, v) = deep();
    let Val::Record(fields) = deep().1 else {
        unreachable!()
    };
    let changed = fields
        .into_iter()
        .map(|(n, v)| {
            if n == "may" {
                (n, Val::Flags(vec![name("read")]))
            } else {
                (n, v)
            }
        })
        .collect();
    let mut a = BytesMut::new();
    let mut b = BytesMut::new();
    let mut enc = ValEncoder::new(&ty, &[], &[], &[], &[]);
    enc.encode(&v, &mut a).unwrap();
    enc.encode(&Val::Record(changed), &mut b).unwrap();
    assert_ne!(a, b);
}
