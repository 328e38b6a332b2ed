use bytes::BytesMut;
use wrpc_wasmtime::encode::{
    resolve, Deferred, EncodeError, HeldResource, Request, Resolution, StreamSource,
};
use wrpc_wasmtime::types::{Case, Field, HostResource, ResourceType, Type};
use wrpc_wasmtime::val::Val;
use wrpc_wasmtime::ValEncoder;

fn encode(v: &Val, ty: &Type) -> Result<Vec<u8>, EncodeError> {
    let mut enc = ValEncoder::new(ty, &[], &[], &[], &[]);
    let mut dst = BytesMut::new();
    enc.encode(v, &mut dst)?;
    assert!(enc.deferred.is_empty());
    Ok(dst.to_vec())
}

fn name(s: &str) -> String {
    s.to_string()
}

fn boxed(v: Val) -> Option<Box<Val>> {
    Some(Box::new(v))
}

#[test]
fn scalars_have_their_bytes() {
    assert_eq!(encode(&Val::Bool(true), &Type::Bool), Ok(vec![1]));
    assert_eq!(encode(&Val::Bool(false), &Type::Bool), Ok(vec![0]));
    assert_eq!(encode(&Val::S8(-2), &Type::S8), Ok(vec![0xfe]));
    assert_eq!(encode(&Val::U8(200), &Type::U8), Ok(vec![200]));
    assert_eq!(encode(&Val::S16(-129), &Type::S16), Ok(vec![0xff, 0x7e]));
    assert_eq!(encode(&Val::U16(300), &Type::U16), Ok(vec![0xac, 0x02]));
    assert_eq!(encode(&Val::S32(-1), &Type::S32), Ok(vec![0x7f]));
    assert_eq!(
        encode(&Val::U32(624485), &Type::U32),
        Ok(vec![0xe5, 0x8e, 0x26])
    );
    assert_eq!(
        encode(&Val::S64(-123456), &Type::S64),
        Ok(vec![0xc0, 0xbb, 0x78])
    );
    assert_eq!(encode(&Val::U64(128), &Type::U64), Ok(vec![0x80, 0x01]));
    assert_eq!(
        encode(&Val::U64(u64::MAX), &Type::U64),
        Ok(vec![0xff, 0xff, 0xff, 0xff, 0xff, 0xff, 0xff, 0xff, 0xff, 0x01])
    );
}

#[test]
fn floats_go_by_their_bits() {
    assert_eq!(
        encode(&Val::Float32(1.5f32.to_bits()), &Type::Float32),
        Ok(1.5f32.to_le_bytes().to_vec())
    );
    assert_eq!(
        encode(&Val::Float64((-0.25f64).to_bits()), &Type::Float64),
        Ok((-0.25f64).to_le_bytes().to_vec())
    );
}

#[test]
fn text_is_utf8() {
    assert_eq!(encode(&Val::Char('a'), &Type::Char), Ok(vec![0x61]));
    assert_eq!(
        encode(&Val::Char('€'), &Type::Char),
        Ok(vec![0xe2, 0x82, 0xac])
    );
    assert_eq!(
        encode(&Val::String(name("né")), &Type::String),
        Ok(vec![3, 0x6e, 0xc3, 0xa9])
    );
    assert_eq!(encode(&Val::String(name("")), &Type::String), Ok(vec![0]));
}

#[test]
fn lists_have_their_length_in_front() {
    let ty = Type::List(Box::new(Type::U16));
    assert_eq!(
        encode(&Val::List(vec![Val::U16(1), Val::U16(300)]), &ty),
        Ok(vec![2, 1, 0xac, 0x02])
    );
    assert_eq!(encode(&Val::List(vec![]), &ty), Ok(vec![0]));
}

#[test]
fn records_and_tuples_are_their_parts() {
    let record = Type::Record(vec![
        Field {
            name: name("a"),
            ty: Type::U8,
        },
        Field {
            name: name("b"),
            ty: Type::Bool,
        },
    ]);
    let v = Val::Record(vec![
        (name("a"), Val::U8(7)),
        (name("b"), Val::Bool(true)),
    ]);
    assert_eq!(encode(&v, &record), Ok(vec![7, 1]));
    let short = Val::Record(vec![(name("a"), Val::U8(7))]);
    assert_eq!(encode(&short, &record), Ok(vec![7]));
    let tuple = Type::Tuple(vec![Type::U8, Type::U8]);
    let long = Val::Tuple(vec![Val::U8(1), Val::U8(2), Val::U8(3)]);
    assert_eq!(encode(&long, &tuple), Ok(vec![1, 2]));
}

fn shape() -> Type {
    Type::Variant(vec![
        Case {
            name: name("none"),
            ty: None,
        },
        Case {
            name: name("size"),
            ty: Some(Type::U32),
        },
    ])
}

#[test]
fn variants_have_their_case_in_front() {
    assert_eq!(
        encode(&Val::Variant(name("none"), None), &shape()),
        Ok(vec![0])
    );
    assert_eq!(
        encode(&Val::Variant(name("size"), boxed(Val::U32(5))), &shape()),
        Ok(vec![1, 5])
    );
    assert_eq!(
        encode(&Val::Variant(name("size"), None), &shape()),
        Ok(vec![1])
    );
    assert_eq!(
        encode(&Val::Variant(name("none"), boxed(Val::U32(5))), &shape()),
        Err(EncodeError::VariantTypeMissing)
    );
    assert_eq!(
        encode(&Val::Variant(name("colour"), None), &shape()),
        Err(EncodeError::UnknownVariantDiscriminant)
    );
}

#[test]
fn enums_are_the_place_of_their_name() {
    let names: Vec<String> = (0..300).map(|i| format!("n{i}")).collect();
    let ty = Type::Enum(names);
    assert_eq!(encode(&Val::Enum(name("n5")), &ty), Ok(vec![5]));
    assert_eq!(encode(&Val::Enum(name("n200")), &ty), Ok(vec![0xc8, 0x01]));
    assert_eq!(
        encode(&Val::Enum(name("n300")), &ty),
        Err(EncodeError::UnknownEnumDiscriminant)
    );
}

#[test]
fn the_first_of_two_equal_names_counts() {
    let ty = Type::Enum(vec![name("x"), name("y"), name("y")]);
    assert_eq!(encode(&Val::Enum(name("y")), &ty), Ok(vec![1]));
}

#[test]
fn options_and_results_have_a_status() {
    let option = Type::Option(Box::new(Type::U8));
    assert_eq!(encode(&Val::Option(None), &option), Ok(vec![0]));
    assert_eq!(
        encode(&Val::Option(boxed(Val::U8(9))), &option),
        Ok(vec![1, 9])
    );
    let both = Type::Result(Some(Box::new(Type::U8)), Some(Box::new(Type::Bool)));
    assert_eq!(
        encode(&Val::Result(Ok(boxed(Val::U8(9)))), &both),
        Ok(vec![0, 9])
    );
    assert_eq!(
        encode(&Val::Result(Err(boxed(Val::Bool(true)))), &both),
        Ok(vec![1, 1])
    );
    assert_eq!(
        encode(&Val::Result(Ok(None)), &both),
        Err(EncodeError::ResultOkMissing)
    );
    assert_eq!(
        encode(&Val::Result(Err(None)), &both),
        Err(EncodeError::ResultErrMissing)
    );
    let none = Type::Result(None, None);
    assert_eq!(encode(&Val::Result(Ok(None)), &none), Ok(vec![0]));
    assert_eq!(encode(&Val::Result(Err(None)), &none), Ok(vec![1]));
    assert_eq!(
        encode(&Val::Result(Ok(boxed(Val::U8(1)))), &none),
        Err(EncodeError::ResultOkUnknownType)
    );
    assert_eq!(
        encode(&Val::Result(Err(boxed(Val::U8(1)))), &none),
        Err(EncodeError::ResultErrUnknownType)
    );
}

#[test]
fn flags_are_bits() {
    let few = Type::Flags(vec![name("a"), name("b"), name("c")]);
    assert_eq!(
        encode(&Val::Flags(vec![name("c"), name("a")]), &few),
        Ok(vec![0b101])
    );
    assert_eq!(encode(&Val::Flags(vec![name("z")]), &few), Ok(vec![0]));
    let none = Type::Flags(vec![]);
    assert_eq!(encode(&Val::Flags(vec![]), &none), Ok(vec![0]));
    let many = Type::Flags((0..17).map(|i| format!("f{i}")).collect());
    assert_eq!(
        encode(&Val::Flags(vec![name("f16"), name("f9")]), &many),
        Ok(vec![0, 2, 1])
    );
    let most = Type::Flags((0..130).map(|i| format!("f{i}")).collect());
    let mut expected = vec![0u8; 17];
    expected[16] = 2;
    expected[0] = 1;
    assert_eq!(
        encode(&Val::Flags(vec![name("f129"), name("f0")]), &most),
        Ok(expected)
    );
}

#[test]
fn a_value_of_another_type_is_refused() {
    assert_eq!(
        encode(&Val::U8(1), &Type::U16),
        Err(EncodeError::TypeMismatch)
    );
    assert_eq!(
        encode(&Val::Option(None), &Type::Result(None, None)),
        Err(EncodeError::TypeMismatch)
    );
    assert_eq!(EncodeError::TypeMismatch.message(), "value type mismatch");
}

#[test]
fn unsupported_types_are_refused() {
    assert_eq!(
        encode(&Val::Future, &Type::Future),
        Err(EncodeError::UnsupportedFuture)
    );
    assert_eq!(
        encode(&Val::U8(0), &Type::ErrorContext),
        Err(EncodeError::UnsupportedFuture)
    );
    assert_eq!(
        encode(&Val::KeyValueMap, &Type::KeyValueMap),
        Err(EncodeError::UnsupportedMap)
    );
    assert_eq!(
        encode(&Val::List(vec![]), &Type::FixedLengthList),
        Err(EncodeError::UnsupportedFixedLengthList)
    );
    assert_eq!(
        encode(&Val::Stream(0), &Type::Stream(None)),
        Err(EncodeError::UnsupportedStream)
    );
    assert_eq!(
        encode(&Val::Stream(0), &Type::Stream(Some(Box::new(Type::U16)))),
        Err(EncodeError::UnsupportedStream)
    );
}

#[test]
fn an_error_leaves_what_was_written() {
    let ty = Type::Tuple(vec![Type::U8, Type::U8]);
    let mut enc = ValEncoder::new(&ty, &[], &[], &[], &[]);
    let mut dst = BytesMut::from(&b"x"[..]);
    let v = Val::Tuple(vec![Val::U8(1), Val::Bool(true)]);
    assert_eq!(enc.encode(&v, &mut dst), Err(EncodeError::TypeMismatch));
    assert_eq!(&dst[..], b"x\x01");
}

const BLOB: ResourceType = ResourceType::Defined(1);
const PIPE: ResourceType = ResourceType::Defined(2);
const INPUT: ResourceType = ResourceType::Host(HostResource::InputStream);
const REMOTE: ResourceType = ResourceType::Host(HostResource::Remote);

fn held(ty: ResourceType, resolution: Resolution) -> HeldResource {
    HeldResource { ty, resolution }
}

fn write_resource(ty: &Type, resource: HeldResource) -> Result<(Vec<u8>, Vec<Deferred>), EncodeError> {
    let held = [resource];
    let mut enc = ValEncoder::new(ty, &[BLOB], &[PIPE], &held, &[]);
    let mut dst = BytesMut::new();
    enc.encode(&Val::Resource(0), &mut dst)?;
    Ok((dst.to_vec(), enc.deferred))
}

#[test]
fn a_shared_resource_is_its_handle() {
    let ty = Type::Own(BLOB);
    assert_eq!(
        write_resource(&ty, held(BLOB, Resolution::Unresolved)).unwrap_err(),
        EncodeError::Pending(0, Request::Share)
    );
    let id: u128 = 0x00112233_4455_6677_8899_aabbccddeeff;
    let (bytes, deferred) = write_resource(&ty, held(BLOB, Resolution::Shared(id))).unwrap();
    assert_eq!(
        bytes,
        vec![
            16, 0x33, 0x22, 0x11, 0x00, 0x55, 0x44, 0x77, 0x66, 0x88, 0x99, 0xaa, 0xbb, 0xcc, 0xdd,
            0xee, 0xff
        ]
    );
    assert!(deferred.is_empty());
    assert_eq!(
        write_resource(&ty, held(BLOB, Resolution::Failed)).unwrap_err(),
        EncodeError::ResourceFailed(0)
    );
}

#[test]
fn a_refused_resource_fails_behind_its_handle() {
    let ty = Type::Own(BLOB);
    let held = [held(BLOB, Resolution::Refused(1))];
    let mut enc = ValEncoder::new(&ty, &[BLOB], &[PIPE], &held, &[]);
    let mut dst = BytesMut::new();
    assert_eq!(
        enc.encode(&Val::Resource(0), &mut dst).unwrap_err(),
        EncodeError::ResourceFailed(0)
    );
    assert_eq!(&dst[..], &[16, 0, 0, 0, 0, 0, 0, 0, 0, 0, 0, 0, 0, 0, 0, 0, 1]);
    assert!(enc.deferred.is_empty());
}

#[test]
fn a_remote_resource_is_its_handle() {
    let ty = Type::Borrow(BLOB);
    assert_eq!(
        write_resource(&ty, held(REMOTE, Resolution::Unresolved)).unwrap_err(),
        EncodeError::Pending(0, Request::DowncastRemote)
    );
    assert_eq!(
        write_resource(&ty, held(REMOTE, Resolution::Downcast { owned: true })).unwrap_err(),
        EncodeError::Pending(0, Request::DeleteRemote)
    );
    assert_eq!(
        write_resource(&ty, held(REMOTE, Resolution::Downcast { owned: false })).unwrap_err(),
        EncodeError::Pending(0, Request::GetRemote)
    );
    let (bytes, _) = write_resource(&ty, held(REMOTE, Resolution::Remote(vec![9, 8]))).unwrap();
    assert_eq!(bytes, vec![2, 9, 8]);
}

#[test]
fn an_input_stream_follows_later() {
    for ty in [INPUT, PIPE] {
        let own = Type::Own(ty);
        assert_eq!(
            write_resource(&own, held(ty, Resolution::Unresolved)).unwrap_err(),
            EncodeError::Pending(0, Request::DowncastStream)
        );
        assert_eq!(
            write_resource(&own, held(ty, Resolution::Downcast { owned: false })).unwrap_err(),
            EncodeError::BorrowedStream
        );
        assert_eq!(
            write_resource(&own, held(ty, Resolution::Downcast { owned: true })).unwrap_err(),
            EncodeError::Pending(0, Request::TakeStream)
        );
        let (bytes, deferred) = write_resource(&own, held(ty, Resolution::Stream)).unwrap();
        assert_eq!(bytes, vec![0]);
        assert_eq!(deferred.len(), 1);
        assert!(deferred[0].path.is_empty());
        assert_eq!(deferred[0].source, StreamSource::Resource(0));
    }
}

#[test]
fn other_resources_are_refused() {
    let other = ResourceType::Defined(7);
    assert_eq!(
        write_resource(&Type::Own(other), held(other, Resolution::Unresolved)).unwrap_err(),
        EncodeError::UnsupportedHostResource
    );
    let mut enc = ValEncoder::new(&Type::Bool, &[BLOB], &[], &[], &[]);
    let own = Type::Own(BLOB);
    let mut enc = enc_with(&mut enc, &own);
    let mut dst = BytesMut::new();
    assert_eq!(
        enc.encode(&Val::Resource(3), &mut dst),
        Err(EncodeError::UnknownHandle(3))
    );
}

fn enc_with<'a>(enc: &mut ValEncoder<'a>, ty: &'a Type) -> ValEncoder<'a> {
    enc.with_type(ty)
}

#[test]
fn streams_are_deferred_at_their_paths() {
    let bytes = || Type::Stream(Some(Box::new(Type::U8)));
    let ty = Type::Tuple(vec![
        Type::U8,
        Type::List(Box::new(Type::Option(Box::new(bytes())))),
        bytes(),
    ]);
    let v = Val::Tuple(vec![
        Val::U8(1),
        Val::List(vec![
            Val::Option(boxed(Val::Stream(1))),
            Val::Option(None),
            Val::Option(boxed(Val::Stream(0))),
        ]),
        Val::Stream(2),
    ]);
    let streams = [Resolution::Stream, Resolution::Stream, Resolution::Stream];
    let mut enc = ValEncoder::new(&ty, &[], &[], &[], &streams);
    let mut dst = BytesMut::new();
    enc.encode(&v, &mut dst).unwrap();
    assert_eq!(&dst[..], &[1, 3, 1, 0, 0, 1, 0, 0]);
    let deferred: Vec<(Vec<usize>, StreamSource)> = enc
        .deferred
        .iter()
        .map(|d| (d.path.clone(), d.source))
        .collect();
    assert_eq!(
        deferred,
        vec![
            (vec![1, 0], StreamSource::Stream(1)),
            (vec![1, 2], StreamSource::Stream(0)),
            (vec![2], StreamSource::Stream(2)),
        ]
    );
    let unresolved = [Resolution::Stream, Resolution::Unresolved, Resolution::Failed];
    let mut enc = ValEncoder::new(&ty, &[], &[], &[], &unresolved);
    let mut dst = BytesMut::new();
    assert_eq!(
        enc.encode(&v, &mut dst),
        Err(EncodeError::Pending(1, Request::DrainStream))
    );
    let failed = [Resolution::Failed];
    let stream = bytes();
    let mut enc = ValEncoder::new(&stream, &[], &[], &[], &failed);
    assert_eq!(
        enc.encode(&Val::Stream(0), &mut dst),
        Err(EncodeError::StreamFailed(0))
    );
}

#[test]
fn answers_lead_to_the_bytes() {
    let ty = Type::Tuple(vec![
        Type::Own(INPUT),
        Type::Own(BLOB),
        Type::Stream(Some(Box::new(Type::U8))),
    ]);
    let v = Val::Tuple(vec![Val::Resource(0), Val::Resource(1), Val::Stream(0)]);
    let mut resources = vec![
        held(INPUT, Resolution::Unresolved),
        held(BLOB, Resolution::Unresolved),
    ];
    let mut streams = vec![Resolution::Unresolved];
    let mut asked = vec![];
    let written = loop {
        let mut dst = BytesMut::new();
        let mut enc = ValEncoder::new(&ty, &[BLOB], &[], &resources, &streams);
        match enc.encode(&v, &mut dst) {
            Ok(()) => break dst.to_vec(),
            Err(EncodeError::Pending(id, request)) => {
                asked.push((id, request));
                let answer = match request {
                    Request::DowncastStream => Resolution::Downcast { owned: true },
                    Request::Share => Resolution::Shared(5),
                    _ => Resolution::Stream,
                };
                assert!(resolve(&mut resources, &mut streams, id, request, answer));
            }
            Err(e) => panic!("{e:?}"),
        }
    };
    assert_eq!(
        asked,
        vec![
            (0, Request::DowncastStream),
            (0, Request::TakeStream),
            (1, Request::Share),
            (0, Request::DrainStream),
        ]
    );
    assert_eq!(written.len(), 1 + 17 + 1);
    assert!(!resolve(
        &mut resources,
        &mut streams,
        2,
        Request::Share,
        Resolution::Failed
    ));
    assert!(!resolve(
        &mut resources,
        &mut streams,
        1,
        Request::DrainStream,
        Resolution::Failed
    ));
}
