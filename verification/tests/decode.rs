use bytes::BytesMut;
use wrpc_wasmtime::decode::{read_value, ByteStream, Found, Received, Source};
use wrpc_wasmtime::error::{ErrorKind, ReadError};
use wrpc_wasmtime::types::{Case, Field, HostResource, ResourceType, Type};
use wrpc_wasmtime::val::Val;
use wrpc_wasmtime::SharedResourceTable;

const BLOB: ResourceType = ResourceType::Defined(1);
const PIPE: ResourceType = ResourceType::Defined(2);
const INPUT: ResourceType = ResourceType::Host(HostResource::InputStream);

fn read(bytes: &[u8], ty: &Type) -> Result<Option<(Val, Vec<u8>)>, ReadError> {
    let mut table: SharedResourceTable<u32> = SharedResourceTable::default();
    let mut src = BytesMut::from(bytes);
    let r = read_value(
        &mut table,
        None,
        &mut src,
        &mut Found::new(),
        false,
        &[],
        &[],
        ty,
        &Vec::new(),
    )?;
    Ok(r.map(|Received { val, .. }| (val, src.to_vec())))
}

fn name(s: &str) -> String {
    s.to_string()
}

fn shown(bytes: &[u8], ty: &Type) -> String {
    let (v, rest) = read(bytes, ty).unwrap().unwrap();
    assert!(rest.is_empty());
    format!("{v:?}")
}

#[test]
fn scalars_are_read() {
    assert_eq!(shown(&[1], &Type::Bool), "Bool(true)");
    assert_eq!(shown(&[0], &Type::Bool), "Bool(false)");
    assert_eq!(shown(&[0xfe], &Type::S8), "S8(-2)");
    assert_eq!(shown(&[200], &Type::U8), "U8(200)");
    assert_eq!(shown(&[0xff, 0x7e], &Type::S16), "S16(-129)");
    assert_eq!(shown(&[0xac, 0x02], &Type::U16), "U16(300)");
    assert_eq!(shown(&[0x7f], &Type::S32), "S32(-1)");
    assert_eq!(shown(&[0xe5, 0x8e, 0x26], &Type::U32), "U32(624485)");
    assert_eq!(shown(&[0xc0, 0xbb, 0x78], &Type::S64), "S64(-123456)");
    assert_eq!(shown(&[0x80, 0x01], &Type::U64), "U64(128)");
    assert_eq!(
        shown(&1.5f32.to_le_bytes(), &Type::Float32),
        format!("Float32({})", 1.5f32.to_bits())
    );
    assert_eq!(
        shown(&(-0.25f64).to_le_bytes(), &Type::Float64),
        format!("Float64({})", (-0.25f64).to_bits())
    );
    assert_eq!(shown(&[0xe2, 0x82, 0xac], &Type::Char), "Char('€')");
    assert_eq!(shown(&[3, 0x6e, 0xc3, 0xa9], &Type::String), "String(\"né\")");
}

#[test]
fn aggregates_are_read() {
    assert_eq!(
        shown(&[2, 1, 0xac, 0x02], &Type::List(Box::new(Type::U16))),
        "List([U16(1), U16(300)])"
    );
    let record = Type::Record(vec![
        Field {
            name: name("a"),
            ty: Type::U8,
        },
        Field {
            name: name("b"),
            ty: Type::Bool,
        },
    ]);
    assert_eq!(
        shown(&[7, 1], &record),
        "Record([(\"a\", U8(7)), (\"b\", Bool(true))])"
    );
    assert_eq!(
        shown(&[7, 1], &Type::Tuple(vec![Type::U8, Type::Bool])),
        "Tuple([U8(7), Bool(true)])"
    );
    let variant = Type::Variant(vec![
        Case {
            name: name("none"),
            ty: None,
        },
        Case {
            name: name("size"),
            ty: Some(Type::U32),
        },
    ]);
    assert_eq!(shown(&[0], &variant), "Variant(\"none\", None)");
    assert_eq!(shown(&[1, 5], &variant), "Variant(\"size\", Some(U32(5)))");
    let e = Type::Enum(vec![name("x"), name("y")]);
    assert_eq!(shown(&[1], &e), "Enum(\"y\")");
    let option = Type::Option(Box::new(Type::U8));
    assert_eq!(shown(&[0], &option), "Option(None)");
    assert_eq!(shown(&[1, 9], &option), "Option(Some(U8(9)))");
    let result = Type::Result(Some(Box::new(Type::U8)), None);
    assert_eq!(shown(&[0, 9], &result), "Result(Ok(Some(U8(9))))");
    assert_eq!(shown(&[1], &result), "Result(Err(None))");
}

#[test]
fn flags_are_read_in_the_order_of_the_type() {
    let few = Type::Flags(vec![name("a"), name("b"), name("c")]);
    assert_eq!(shown(&[0b101], &few), "Flags([\"a\", \"c\"])");
    assert_eq!(shown(&[0b1111_1000], &few), "Flags([])");
    let none = Type::Flags(vec![]);
    assert_eq!(shown(&[0], &none), "Flags([])");
    let many = Type::Flags((0..17).map(|i| format!("f{i}")).collect());
    assert_eq!(shown(&[0, 2, 1], &many), "Flags([\"f9\", \"f16\"])");
    let most = Type::Flags((0..130).map(|i| format!("f{i}")).collect());
    let mut bytes = vec![0u8; 17];
    bytes[16] = 2;
    bytes[0] = 1;
    assert_eq!(shown(&bytes, &most), "Flags([\"f0\", \"f129\"])");
}

#[test]
fn what_follows_is_left() {
    let (v, rest) = read(&[1, 2, 3], &Type::U8).unwrap().unwrap();
    assert!(matches!(v, Val::U8(1)));
    assert_eq!(rest, vec![2, 3]);
}

#[test]
fn incomplete_values_wait() {
    assert!(read(&[], &Type::Bool).unwrap().is_none());
    assert!(read(&[0x80], &Type::U32).unwrap().is_none());
    assert!(read(&[1, 2, 3], &Type::Float32).unwrap().is_none());
    assert!(read(&[0xe2, 0x82], &Type::Char).unwrap().is_none());
    assert!(read(&[3, 0x6e], &Type::String).unwrap().is_none());
    assert!(read(&[2, 1], &Type::List(Box::new(Type::U8))).unwrap().is_none());
    let mut table: SharedResourceTable<u32> = SharedResourceTable::default();
    let mut src = BytesMut::from(&[2u8, 1][..]);
    let ty = Type::List(Box::new(Type::U8));
    let path = Vec::new();
    assert!(
        read_value(&mut table, None, &mut src, &mut Found::new(), false, &[], &[], &ty, &path)
            .unwrap()
            .is_none()
    );
    assert_eq!(&src[..], &[2, 1]);
    src.extend_from_slice(&[5, 6]);
    let v = read_value(&mut table, None, &mut src, &mut Found::new(), false, &[], &[], &ty, &path)
        .unwrap()
        .unwrap();
    assert_eq!(format!("{:?}", v.val), "List([U8(1), U8(5)])");
    assert_eq!(&src[..], &[6]);
}

#[test]
fn an_ended_stream_is_an_error() {
    let mut table: SharedResourceTable<u32> = SharedResourceTable::default();
    let mut src = BytesMut::from(&[2u8, 1][..]);
    let ty = Type::List(Box::new(Type::U8));
    let r = read_value(
        &mut table,
        None,
        &mut src,
        &mut Found::new(),
        true,
        &[],
        &[],
        &ty,
        &Vec::new(),
    );
    let e = r.unwrap_err();
    assert_eq!(e, ReadError::UnexpectedEof);
    assert_eq!(e.kind(), ErrorKind::UnexpectedEof);
}

#[test]
fn wrong_bytes_are_errors() {
    assert_eq!(
        read(&[2], &Type::Bool).unwrap_err(),
        ReadError::InvalidBool(2)
    );
    assert_eq!(
        read(&[0xff, 0xff, 0xff, 0xff, 0x1f], &Type::U32).unwrap_err(),
        ReadError::Overflow
    );
    assert_eq!(
        read(&[0xff, 0xff, 0x04], &Type::U16).unwrap_err(),
        ReadError::Overflow
    );
    assert_eq!(
        read(&[0xff], &Type::Char).unwrap_err(),
        ReadError::InvalidChar
    );
    assert_eq!(
        read(&[1, 0xff], &Type::String).unwrap_err(),
        ReadError::InvalidString
    );
    assert_eq!(
        read(&[2], &Type::Option(Box::new(Type::U8))).unwrap_err(),
        ReadError::InvalidOptionStatus(2)
    );
    assert_eq!(
        read(&[7], &Type::Result(None, None)).unwrap_err(),
        ReadError::InvalidResultStatus(7)
    );
    assert_eq!(
        read(&[3], &Type::Enum(vec![name("x")])).unwrap_err(),
        ReadError::UnknownEnumDiscriminant(3)
    );
    let e = read(&[4], &Type::Variant(vec![])).unwrap_err();
    assert_eq!(e, ReadError::UnknownVariantDiscriminant(4));
    assert_eq!(e.kind(), ErrorKind::InvalidInput);
}

#[test]
fn unsupported_types_are_not_read() {
    let unsupported = [
        (Type::Future, ReadError::UnsupportedFuture),
        (Type::ErrorContext, ReadError::UnsupportedFuture),
        (Type::KeyValueMap, ReadError::UnsupportedMap),
        (Type::FixedLengthList, ReadError::UnsupportedFixedLengthList),
        (Type::Stream(None), ReadError::UnsupportedStream),
    ];
    for (ty, error) in unsupported {
        let e = read(&[0], &ty).unwrap_err();
        assert_eq!(e, error);
        assert_eq!(e.kind(), ErrorKind::Unsupported);
    }
}

const HANDLE: u128 = 0x00112233_4455_6677_8899_aabbccddeeff;

const HANDLE_BYTES: [u8; 17] = [
    16, 0x33, 0x22, 0x11, 0x00, 0x55, 0x44, 0x77, 0x66, 0x88, 0x99, 0xaa, 0xbb, 0xcc, 0xdd, 0xee,
    0xff,
];

fn shared() -> SharedResourceTable<u32> {
    let mut table = SharedResourceTable::default();
    table.try_insert(Some(1), HANDLE, 42).unwrap();
    table
}

#[test]
fn a_borrowed_handle_stays_in_the_table() {
    let mut table = shared();
    let mut src = BytesMut::from(&HANDLE_BYTES[..]);
    let ty = Type::Borrow(BLOB);
    let r = read_value(
        &mut table,
        Some(1),
        &mut src,
        &mut Found::new(),
        false,
        &[BLOB],
        &[],
        &ty,
        &vec![],
    )
        .unwrap()
        .unwrap();
    assert!(matches!(r.val, Val::Resource(0)));
    assert!(matches!(r.sources[..], [Source::Shared(42)]));
    assert_eq!(table.len(), 1);
}

#[test]
fn an_owned_handle_leaves_the_table() {
    let mut table = shared();
    let mut src = BytesMut::from(&HANDLE_BYTES[..]);
    let ty = Type::Own(BLOB);
    let r = read_value(
        &mut table,
        Some(1),
        &mut src,
        &mut Found::new(),
        false,
        &[BLOB],
        &[],
        &ty,
        &vec![],
    )
        .unwrap()
        .unwrap();
    assert!(matches!(r.sources[..], [Source::Shared(42)]));
    assert!(table.is_empty());
    let mut src = BytesMut::from(&HANDLE_BYTES[..]);
    let again = read_value(
        &mut table,
        Some(1),
        &mut src,
        &mut Found::new(),
        false,
        &[BLOB],
        &[],
        &ty,
        &vec![],
    );
    assert_eq!(again.unwrap_err(), ReadError::HandleNotFound);
}

#[test]
fn a_handle_is_inert_in_other_scopes() {
    let mut table = shared();
    for scope in [None, Some(2)] {
        for ty in [Type::Own(BLOB), Type::Borrow(BLOB)] {
            let mut src = BytesMut::from(&HANDLE_BYTES[..]);
            let r = read_value(
                &mut table,
                scope,
                &mut src,
                &mut Found::new(),
                false,
                &[BLOB],
                &[],
                &ty,
                &vec![],
            );
            let e = r.unwrap_err();
            assert_eq!(e, ReadError::HandleNotFound);
            assert_eq!(e.kind(), ErrorKind::NotFound);
            assert_eq!(table.len(), 1);
        }
    }
}

#[test]
fn an_owned_handle_is_read_once() {
    let mut table = shared();
    let mut bytes = HANDLE_BYTES.to_vec();
    bytes.extend_from_slice(&HANDLE_BYTES);
    let mut src = BytesMut::from(&bytes[..]);
    let ty = Type::Tuple(vec![Type::Own(BLOB), Type::Borrow(BLOB)]);
    let r = read_value(
        &mut table,
        Some(1),
        &mut src,
        &mut Found::new(),
        false,
        &[BLOB],
        &[],
        &ty,
        &vec![],
    );
    assert_eq!(r.unwrap_err(), ReadError::HandleNotFound);
    assert!(table.is_empty());
}

fn attempt(
    table: &mut SharedResourceTable<u32>,
    src: &mut BytesMut,
    found: &mut Found<u32>,
    ty: &Type,
) -> Result<Option<Received<u32>>, ReadError> {
    read_value(table, Some(1), src, found, false, &[BLOB], &[], ty, &vec![])
}

#[test]
fn an_owned_handle_leaves_the_table_as_soon_as_it_is_read() {
    let mut table = shared();
    let mut found = Found::new();
    let ty = Type::Tuple(vec![Type::Own(BLOB), Type::U8]);
    let mut src = BytesMut::from(&HANDLE_BYTES[..9]);
    let r = attempt(&mut table, &mut src, &mut found, &ty);
    assert!(r.unwrap().is_none());
    assert_eq!(table.len(), 1);
    src.extend_from_slice(&HANDLE_BYTES[9..]);
    for _ in 0..2 {
        let r = attempt(&mut table, &mut src, &mut found, &ty);
        assert!(r.unwrap().is_none());
        assert!(table.is_empty());
        assert_eq!(&src[..], &HANDLE_BYTES[..]);
    }
    let mut other = BytesMut::from(&HANDLE_BYTES[..]);
    let r = attempt(&mut table, &mut other, &mut Found::new(), &Type::Borrow(BLOB));
    assert_eq!(r.unwrap_err(), ReadError::HandleNotFound);
    src.extend_from_slice(&[5, 6]);
    let r = attempt(&mut table, &mut src, &mut found, &ty).unwrap().unwrap();
    assert_eq!(format!("{:?}", r.val), "Tuple([Resource(0), U8(5)])");
    assert!(matches!(&r.sources[..], [Source::Shared(_)]));
    assert_eq!(&src[..], &[6]);
}

#[test]
fn what_was_found_is_not_looked_up_again() {
    let mut table = shared();
    let mut found = Found::new();
    let ty = Type::Tuple(vec![Type::Borrow(BLOB), Type::Own(BLOB)]);
    let mut src = BytesMut::from(&HANDLE_BYTES[..]);
    assert!(attempt(&mut table, &mut src, &mut found, &ty).unwrap().is_none());
    assert_eq!(table.len(), 1);
    let mut other = BytesMut::from(&HANDLE_BYTES[..]);
    let taken = attempt(&mut table, &mut other, &mut Found::new(), &Type::Own(BLOB));
    assert!(taken.unwrap().is_some());
    assert!(attempt(&mut table, &mut src, &mut found, &ty).unwrap().is_none());
    src.extend_from_slice(&HANDLE_BYTES);
    src.extend_from_slice(&[7]);
    let r = attempt(&mut table, &mut src, &mut found, &ty);
    assert_eq!(r.unwrap_err(), ReadError::HandleNotFound);
    assert_eq!(&src[..], &[7]);
}

#[test]
fn attempts_do_what_one_attempt_does() {
    let ty = Type::Tuple(vec![
        Type::Borrow(BLOB),
        Type::List(Box::new(Type::Own(BLOB))),
        Type::Option(Box::new(Type::Borrow(BLOB))),
    ]);
    let mut whole = HANDLE_BYTES.to_vec();
    whole.push(1);
    whole.extend_from_slice(&HANDLE_BYTES);
    whole.push(0);
    let expected = {
        let mut src = BytesMut::from(&whole[..]);
        let r = attempt(&mut shared(), &mut src, &mut Found::new(), &ty);
        format!("{:?}", r.unwrap().unwrap())
    };
    for cut in 0..whole.len() {
        let mut table = shared();
        let mut found = Found::new();
        let mut src = BytesMut::from(&whole[..cut]);
        assert!(attempt(&mut table, &mut src, &mut found, &ty).unwrap().is_none());
        src.extend_from_slice(&whole[cut..]);
        let r = attempt(&mut table, &mut src, &mut found, &ty);
        assert_eq!(format!("{:?}", r.unwrap().unwrap()), expected);
        assert!(table.is_empty());
    }
}

#[test]
fn a_handle_has_sixteen_bytes() {
    let mut table = shared();
    let mut src = BytesMut::from(&[3u8, 1, 2, 3][..]);
    let ty = Type::Own(BLOB);
    let r = read_value(
        &mut table,
        Some(1),
        &mut src,
        &mut Found::new(),
        false,
        &[BLOB],
        &[],
        &ty,
        &vec![],
    );
    assert_eq!(r.unwrap_err(), ReadError::InvalidHandleLength(3));
}

#[test]
fn a_remote_handle_has_its_length_in_front() {
    let mut table: SharedResourceTable<u32> = SharedResourceTable::default();
    let ty = Type::Own(ResourceType::Defined(9));
    let path = vec![];
    let mut src = BytesMut::from(&[2u8, 7][..]);
    let r = read_value(
        &mut table,
        None,
        &mut src,
        &mut Found::new(),
        false,
        &[BLOB],
        &[],
        &ty,
        &path,
    );
    assert!(r.unwrap().is_none());
    assert_eq!(&src[..], &[2, 7]);
    src.extend_from_slice(&[8, 5]);
    let r = read_value(
        &mut table,
        None,
        &mut src,
        &mut Found::new(),
        false,
        &[BLOB],
        &[],
        &ty,
        &path,
    )
        .unwrap()
        .unwrap();
    assert!(matches!(r.val, Val::Resource(0)));
    assert!(matches!(&r.sources[..], [Source::Remote(h)] if h == &[7, 8]));
    assert_eq!(&src[..], &[5]);
}

#[test]
fn remote_handles_stand_beside_other_values() {
    let mut table: SharedResourceTable<u32> = SharedResourceTable::default();
    let remote = || Type::Own(ResourceType::Defined(9));
    let ty = Type::Tuple(vec![remote(), Type::U8, remote()]);
    let mut src = BytesMut::from(&[1u8, 7, 3, 2, 8, 9][..]);
    let r = read_value(
        &mut table,
        None,
        &mut src,
        &mut Found::new(),
        true,
        &[BLOB],
        &[],
        &ty,
        &vec![],
    )
        .unwrap()
        .unwrap();
    assert_eq!(
        format!("{:?}", r.val),
        "Tuple([Resource(0), U8(3), Resource(1)])"
    );
    assert!(matches!(&r.sources[0], Source::Remote(h) if h == &[7]));
    assert!(matches!(&r.sources[1], Source::Remote(h) if h == &[8, 9]));
    assert!(src.is_empty());
}

fn left(bytes: &[u8], closed: bool, ty: &Type) -> (ReadError, Vec<u8>) {
    let mut table = shared();
    let mut src = BytesMut::from(bytes);
    let r = read_value(
        &mut table,
        Some(1),
        &mut src,
        &mut Found::new(),
        closed,
        &[BLOB],
        &[],
        ty,
        &vec![],
    );
    (r.unwrap_err(), src.to_vec())
}

#[test]
fn a_failed_read_stops_behind_the_byte_that_shows_it() {
    let option = Type::Option(Box::new(Type::U8));
    let result = Type::Result(None, None);
    let names = Type::Enum(vec![name("x")]);
    let cases = Type::Variant(vec![Case {
        name: name("none"),
        ty: None,
    }]);
    assert_eq!(left(&[2, 9], false, &Type::Bool), (ReadError::InvalidBool(2), vec![9]));
    assert_eq!(left(&[2, 9], false, &option), (ReadError::InvalidOptionStatus(2), vec![9]));
    assert_eq!(left(&[3, 9], false, &result), (ReadError::InvalidResultStatus(3), vec![9]));
    assert_eq!(
        left(&[0x81, 0x00, 9], false, &names),
        (ReadError::UnknownEnumDiscriminant(1), vec![9])
    );
    assert_eq!(
        left(&[4, 9], false, &cases),
        (ReadError::UnknownVariantDiscriminant(4), vec![9])
    );
    assert_eq!(
        left(&[1, 0xff, 9], false, &Type::String),
        (ReadError::InvalidString, vec![9])
    );
    let tuple = Type::Tuple(vec![Type::U8, Type::Bool, Type::U8]);
    assert_eq!(left(&[5, 2, 9], false, &tuple), (ReadError::InvalidBool(2), vec![9]));
}

#[test]
fn a_failed_integer_stops_behind_its_last_byte() {
    let bytes = |n: usize| {
        let mut bytes = vec![0xff; n];
        bytes.push(9);
        bytes
    };
    let overflow = |n: usize, ty: Type| {
        let (e, rest) = left(&bytes(12), true, &ty);
        assert_eq!(e, ReadError::Overflow);
        assert_eq!(rest.len(), 13 - n);
    };
    overflow(3, Type::U16);
    overflow(3, Type::S16);
    overflow(5, Type::U32);
    overflow(5, Type::S32);
    overflow(10, Type::U64);
    overflow(10, Type::S64);
    overflow(5, Type::String);
    overflow(2, Type::Own(BLOB));
}

#[test]
fn a_failed_char_stops_behind_the_byte_that_shows_it() {
    let given_up = |bytes: &[u8], n: usize| {
        let (e, rest) = left(bytes, false, &Type::Char);
        assert_eq!(e, ReadError::InvalidChar);
        assert_eq!(rest, bytes[n..].to_vec());
    };
    given_up(&[0x80, 1, 2], 1);
    given_up(&[0xff, 1, 2], 1);
    given_up(&[0xc0, 0x80, 2], 1);
    given_up(&[0xc3, b'a', 2], 2);
    given_up(&[0xe0, 0x80, 0x80, 2], 2);
    given_up(&[0xe2, 0x82, b'a', 2], 3);
    given_up(&[0xed, 0xa0, 0x80, 2], 3);
    given_up(&[0xf0, 0x80, 0x80, 0x80, 2], 2);
    given_up(&[0xf1, 0x80, b'a', 0x80, 2], 3);
    given_up(&[0xf1, 0x80, 0x80, b'a', 2], 4);
    given_up(&[0xf7, 0xbf, 0xbf, 0xbf, 2], 4);
}

#[test]
fn a_failed_handle_is_read() {
    let own = Type::Own(BLOB);
    assert_eq!(
        left(&[3, 1, 2, 3], false, &own),
        (ReadError::InvalidHandleLength(3), vec![1, 2, 3])
    );
    let mut unknown = vec![16u8];
    unknown.extend_from_slice(&[1; 17]);
    assert_eq!(left(&unknown, false, &own), (ReadError::HandleNotFound, vec![1]));
}

#[test]
fn nothing_is_read_of_what_is_not_supported() {
    let (e, rest) = left(&[1, 2], false, &Type::Future);
    assert_eq!(e.kind(), ErrorKind::Unsupported);
    assert_eq!(rest, vec![1, 2]);
    let tuple = Type::Tuple(vec![Type::U8, Type::Future]);
    assert_eq!(left(&[1, 2], false, &tuple).1, vec![2]);
}

#[test]
fn nothing_is_left_at_the_end_of_the_bytes() {
    assert_eq!(left(&[0x80], true, &Type::U16), (ReadError::UnexpectedEof, vec![]));
    assert_eq!(left(&[3, 1], true, &Type::String), (ReadError::UnexpectedEof, vec![]));
    let tuple = Type::Tuple(vec![Type::U8, Type::U32]);
    assert_eq!(left(&[1, 0x80], true, &tuple), (ReadError::UnexpectedEof, vec![]));
}

#[test]
fn byte_streams_are_inline_or_follow_at_their_path() {
    let mut table: SharedResourceTable<u32> = SharedResourceTable::default();
    let ty = Type::Tuple(vec![
        Type::Own(INPUT),
        Type::Own(PIPE),
        Type::List(Box::new(Type::Stream(Some(Box::new(Type::U8))))),
    ]);
    let mut src = BytesMut::from(&[2u8, 5, 6, 0, 2, 0, 1, 9][..]);
    let r = read_value(
        &mut table,
        None,
        &mut src,
        &mut Found::new(),
        false,
        &[],
        &[PIPE],
        &ty,
        &vec![4],
    )
        .unwrap()
        .unwrap();
    assert_eq!(
        format!("{:?}", r.val),
        "Tuple([Resource(0), Resource(1), List([Stream(2), Stream(3)])])"
    );
    assert!(
        matches!(&r.sources[0], Source::Stream(ByteStream::Inline(bytes)) if bytes == &[5, 6])
    );
    assert!(
        matches!(&r.sources[1], Source::Stream(ByteStream::Indexed(path)) if path == &[4, 1])
    );
    assert!(
        matches!(&r.sources[2], Source::Stream(ByteStream::Indexed(path)) if path == &[4, 2, 0])
    );
    assert!(matches!(&r.sources[3], Source::Stream(ByteStream::Inline(bytes)) if bytes == &[9]));
}
