use bytes::{Bytes, BytesMut};
use wrpc_wasmtime::stream::{
    next_chunk, transmit_step, BytesProducer, ChannelConsumer, Chunk, Consumed, Delivery, Fetched,
    Polled, StreamStatus, Transmission,
};

fn chunk(bytes: &[u8]) -> Polled {
    Polled::Chunk(Bytes::copy_from_slice(bytes))
}

#[test]
fn a_chunk_is_handed_over_as_there_is_room() {
    let mut producer = BytesProducer::new();
    assert!(producer.resume(Some(2)).is_none());
    let (given, status) = producer.produce(Some(2), chunk(b"hello"), false);
    assert!(matches!(given, Delivery::Direct(b) if &b[..] == b"he"));
    assert_eq!(status, StreamStatus::Completed);
    assert!(matches!(
        producer.resume(Some(0)),
        Some((Delivery::Nothing, StreamStatus::Completed))
    ));
    assert!(matches!(
        producer.resume(Some(2)),
        Some((Delivery::Direct(b), StreamStatus::Completed)) if &b[..] == b"ll"
    ));
    assert!(matches!(
        producer.resume(None),
        Some((Delivery::Buffer(b), StreamStatus::Completed)) if &b[..] == b"o"
    ));
    assert!(producer.resume(None).is_none());
}

#[test]
fn a_chunk_waits_when_there_is_no_room() {
    let mut producer = BytesProducer::new();
    let (given, status) = producer.produce(Some(0), chunk(b"ab"), false);
    assert!(matches!(given, Delivery::Nothing));
    assert_eq!(status, StreamStatus::Completed);
    assert!(matches!(
        producer.resume(Some(9)),
        Some((Delivery::Direct(b), StreamStatus::Completed)) if &b[..] == b"ab"
    ));
    assert!(producer.resume(Some(9)).is_none());
}

#[test]
fn without_a_limit_all_is_handed_over() {
    let mut producer = BytesProducer::new();
    let (given, status) = producer.produce(None, chunk(b"abc"), true);
    assert!(matches!(given, Delivery::Buffer(b) if &b[..] == b"abc"));
    assert_eq!(status, StreamStatus::Completed);
    assert!(producer.resume(None).is_none());
}

#[test]
fn a_producer_without_bytes_says_why() {
    let mut producer = BytesProducer::new();
    let (given, status) = producer.produce(Some(1), Polled::End, false);
    assert!(matches!(given, Delivery::Nothing));
    assert_eq!(status, StreamStatus::Dropped);
    assert_eq!(
        producer.produce(Some(1), Polled::Pending, false).1,
        StreamStatus::Pending
    );
    assert_eq!(
        producer.produce(Some(1), Polled::Pending, true).1,
        StreamStatus::Cancelled
    );
}

#[test]
fn no_byte_is_lost_on_the_way() {
    let mut producer = BytesProducer::new();
    let came: [&[u8]; 3] = [b"one", b"", b"three"];
    let mut given = vec![];
    let take = |delivery: Delivery, given: &mut Vec<u8>| match delivery {
        Delivery::Nothing => {}
        Delivery::Direct(b) | Delivery::Buffer(b) => given.extend_from_slice(&b),
    };
    for bytes in came {
        take(producer.produce(Some(2), chunk(bytes), false).0, &mut given);
        while let Some((delivery, _)) = producer.resume(Some(2)) {
            take(delivery, &mut given);
        }
    }
    assert_eq!(given, b"onethree");
}

#[test]
fn a_consumer_forwards_until_nobody_listens() {
    let mut consumer = ChannelConsumer::new();
    assert_eq!(consumer.consume(3, false), Consumed::Forward);
    assert_eq!(consumer.forwarded(true), Consumed::Completed);
    assert!(consumer.is_forwarding());
    assert_eq!(consumer.consume(0, false), Consumed::Completed);
    assert_eq!(consumer.consume(3, true), Consumed::Forward);
    assert_eq!(consumer.forwarded(false), Consumed::Dropped);
    assert!(!consumer.is_forwarding());
    assert_eq!(consumer.consume(3, false), Consumed::Completed);
}

#[test]
fn a_consumer_ends_with_the_stream() {
    let mut consumer = ChannelConsumer::new();
    assert_eq!(consumer.consume(0, true), Consumed::Dropped);
    assert!(!consumer.is_forwarding());
}

#[test]
fn a_stream_comes_back_in_its_chunks() {
    let long = vec![7u8; 200];
    let chunks: [&[u8]; 3] = [b"a", b"bcd", &long];
    let mut wire = BytesMut::new();
    for chunk in chunks {
        match transmit_step(Fetched::Chunk(Bytes::copy_from_slice(chunk))) {
            Transmission::Write(frame) => wire.extend_from_slice(&frame),
            other => panic!("{other:?}"),
        }
    }
    match transmit_step(Fetched::Closed) {
        Transmission::Finish(frame) => wire.extend_from_slice(&frame),
        other => panic!("{other:?}"),
    }
    assert_eq!(&wire[..8], &[1, b'a', 3, b'b', b'c', b'd', 0xc8, 0x01]);
    assert_eq!(wire[wire.len() - 1], 0);
    for chunk in chunks {
        match next_chunk(&mut wire, false) {
            Chunk::Bytes(bytes) => assert_eq!(&bytes[..], chunk),
            other => panic!("{other:?}"),
        }
    }
    wire.extend_from_slice(b"next");
    assert!(matches!(next_chunk(&mut wire, false), Chunk::End));
    assert_eq!(&wire[..], b"next");
}

#[test]
fn only_the_end_of_a_stream_is_an_empty_chunk() {
    assert!(matches!(
        transmit_step(Fetched::Chunk(Bytes::new())),
        Transmission::Skip
    ));
    assert!(matches!(transmit_step(Fetched::Closed), Transmission::Finish(f) if &f[..] == &[0]));
    assert!(matches!(transmit_step(Fetched::Failed), Transmission::Fail));
    let fetched = vec![
        Fetched::Chunk(Bytes::from_static(b"one")),
        Fetched::Chunk(Bytes::new()),
        Fetched::Chunk(Bytes::from_static(b"two")),
        Fetched::Closed,
    ];
    let mut wire = BytesMut::new();
    let mut finished = 0;
    for fetched in fetched {
        match transmit_step(fetched) {
            Transmission::Write(frame) => wire.extend_from_slice(&frame),
            Transmission::Skip => {}
            Transmission::Finish(frame) => {
                wire.extend_from_slice(&frame);
                finished += 1;
            }
            other => panic!("{other:?}"),
        }
    }
    assert_eq!(&wire[..], b"\x03one\x03two\x00");
    assert_eq!(finished, 1);
}

#[test]
fn an_unfinished_chunk_waits_for_more() {
    let mut wire = BytesMut::from(&[3u8, b'a'][..]);
    assert!(matches!(next_chunk(&mut wire, false), Chunk::More));
    assert_eq!(&wire[..], &[3, b'a']);
    assert!(matches!(next_chunk(&mut wire, true), Chunk::End));
    wire.extend_from_slice(b"bc");
    assert!(matches!(next_chunk(&mut wire, true), Chunk::Bytes(b) if &b[..] == b"abc"));
    assert!(matches!(next_chunk(&mut wire, false), Chunk::More));
    assert!(matches!(next_chunk(&mut wire, true), Chunk::End));
}

#[test]
fn what_is_no_chunk_ends_the_stream() {
    let mut wire = BytesMut::from(&[0xffu8, 0xff, 0xff, 0xff, 0xff, 0x01][..]);
    assert!(matches!(next_chunk(&mut wire, false), Chunk::End));
}
