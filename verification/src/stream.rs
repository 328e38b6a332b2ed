//! Bridges between the byte streams of the transport and the streams of a
//! component: what the component reads is produced from the one, what it writes
//! is consumed into the other. On the transport a stream goes in chunks, and an
//! empty chunk ends it.

use bytes::{Bytes, BytesMut};
use tokio_util::codec::Decoder;
use vstd::arithmetic::power2::lemma2_to64;
use vstd::prelude::*;
use wrpc_transport::ListDecoderU8;

use crate::buffer::{
    buffer_bytes, chunk_bytes, chunk_len, chunk_slice, copy_buffer, empty_buffer, put_u8,
    split_chunk,
};
use crate::decode::{parse_prefixed, start, Parsed};
use crate::leb128::{
    lemma_unsigned_bounds, lemma_unsigned_roundtrip, read_unsigned, unsigned_leb128, Leb,
};
use crate::text::{encode_prefixed, prefixed};

verus! {

/// How a chunk is handed to the component.
#[derive(Debug)]
pub enum Delivery {
    /// Not at all: it has no room.
    Nothing,
    /// Copied into the room that the component has.
    Direct(Bytes),
    /// As a buffer that is left with the component.
    Buffer(Bytes),
}

impl Delivery {
    /// The bytes that are handed over.
    pub open spec fn bytes(self) -> Seq<u8> {
        match self {
            Delivery::Nothing => seq![],
            Delivery::Direct(chunk) => chunk_bytes(chunk),
            Delivery::Buffer(chunk) => chunk_bytes(chunk),
        }
    }
}

/// What the transport has for a producer.
#[derive(Debug)]
pub enum Polled {
    /// A chunk.
    Chunk(Bytes),
    /// Nothing, now or ever.
    End,
    /// Nothing yet.
    Pending,
}

/// What the component is told about a stream.
#[derive(Clone, Copy, Debug, PartialEq, Eq, Structural)]
pub enum StreamStatus {
    /// The request was served; there may be more.
    Completed,
    /// The stream is at its end.
    Dropped,
    /// The request was withdrawn before anything came.
    Cancelled,
    /// Nothing has come yet.
    Pending,
}

/// A byte stream of the transport as a producer: what the component reads.
#[derive(Debug)]
pub struct BytesProducer {
    pending: Option<Bytes>,
}

impl BytesProducer {
    /// The bytes that have come and were not handed over yet, if any have.
    pub closed spec fn pending(&self) -> Option<Seq<u8>> {
        match self.pending {
            Some(chunk) => Some(chunk_bytes(chunk)),
            None => None,
        }
    }

    /// A producer that nothing has come for yet.
    pub fn new() -> (producer: BytesProducer)
        ensures
            producer.pending() is None,
    {
        BytesProducer { pending: None }
    }

    /// Hand over as much of a chunk as the component has room for, and keep the
    /// rest. Without a limit the component takes all of it.
    fn emit(&mut self, data: Bytes, cap: Option<usize>) -> (delivery: Delivery)
        requires
            old(self).pending() is None,
        ensures
            emitted(chunk_bytes(data), cap, delivery, final(self).pending()),
    {
        match cap {
            None => Delivery::Buffer(data),
            Some(cap) => {
                if cap == 0 {
                    self.pending = Some(data);
                    return Delivery::Nothing;
                }
                let mut data: Bytes = data;
                let ghost all = chunk_bytes(data);
                if chunk_len(&data) > cap {
                    self.pending = Some(split_chunk(&mut data, cap));
                    assert(all =~= all.take(cap as int) + all.skip(cap as int));
                }
                Delivery::Direct(data)
            },
        }
    }

    /// Hand over what was kept, as far as there is room, and complete the request:
    /// `None` if nothing was kept, and the transport is to be asked.
    pub fn resume(&mut self, cap: Option<usize>) -> (r: Option<(Delivery, StreamStatus)>)
        ensures
            match old(self).pending() {
                Some(bytes) => r matches Some((delivery, status)) && status
                    == StreamStatus::Completed && emitted(
                    bytes,
                    cap,
                    delivery,
                    final(self).pending(),
                ),
                None => r is None && final(self).pending() is None,
            },
    {
        match self.pending.take() {
            Some(data) => Some((self.emit(data, cap), StreamStatus::Completed)),
            None => None,
        }
    }

    /// Hand over what the transport has, as far as there is room. `finish` says
    /// that the component waits no longer.
    pub fn produce(&mut self, cap: Option<usize>, polled: Polled, finish: bool) -> (r: (
        Delivery,
        StreamStatus,
    ))
        requires
            old(self).pending() is None,
        ensures
            match polled {
                Polled::Chunk(chunk) => r.1 == StreamStatus::Completed && emitted(
                    chunk_bytes(chunk),
                    cap,
                    r.0,
                    final(self).pending(),
                ),
                Polled::End => {
                    &&& r.0 is Nothing
                    &&& r.1 == StreamStatus::Dropped
                    &&& final(self).pending() is None
                },
                Polled::Pending => r.0 is Nothing && r.1 == (if finish {
                    StreamStatus::Cancelled
                } else {
                    StreamStatus::Pending
                }) && final(self).pending() is None,
            },
    {
        match polled {
            Polled::Chunk(chunk) => (self.emit(chunk, cap), StreamStatus::Completed),
            Polled::End => (Delivery::Nothing, StreamStatus::Dropped),
            Polled::Pending => if finish {
                (Delivery::Nothing, StreamStatus::Cancelled)
            } else {
                (Delivery::Nothing, StreamStatus::Pending)
            },
        }
    }
}

/// What comes of `data` when there is room for `cap` bytes: as many are handed
/// over as there is room for, and the others are kept.
pub open spec fn emitted(
    data: Seq<u8>,
    cap: Option<usize>,
    delivery: Delivery,
    kept: Option<Seq<u8>>,
) -> bool {
    match cap {
        None => delivery is Buffer && delivery.bytes() == data && kept is None,
        Some(cap) => if cap == 0 {
            delivery is Nothing && kept == Some(data)
        } else if data.len() > cap {
            delivery is Direct && delivery.bytes() == data.take(cap as int) && kept == Some(
                data.skip(cap as int),
            )
        } else {
            delivery is Direct && delivery.bytes() == data && kept is None
        },
    }
}

/// All the room that there is is used, and no more: a component that sets no limit
/// gets all that is there, as a buffer; one that has room gets as many bytes as fit,
/// the first ones, directly; one that has none gets nothing; and what was not handed
/// over is kept.
pub proof fn law_room_is_used(
    data: Seq<u8>,
    cap: Option<usize>,
    delivery: Delivery,
    kept: Option<Seq<u8>>,
)
    requires
        emitted(data, cap, delivery, kept),
    ensures
        delivery.bytes() + or_nothing(kept) == data,
        cap is None ==> delivery is Buffer && delivery.bytes() == data && kept is None,
        cap matches Some(n) ==> delivery.bytes().len() == (if data.len() <= n {
            data.len()
        } else {
            n as nat
        }),
        cap matches Some(n) ==> (n == 0 <==> delivery is Nothing) && (n > 0
            <==> delivery is Direct) && (kept is None <==> n > 0 && data.len() <= n),
{
    assert(delivery.bytes() + or_nothing(kept) =~= data);
}

/// All the bytes of the chunks, in order.
pub open spec fn joined(chunks: Seq<Seq<u8>>) -> Seq<u8>
    decreases chunks.len(),
{
    if chunks.len() == 0 {
        seq![]
    } else {
        joined(chunks.drop_last()) + chunks.last()
    }
}

/// What was kept, or nothing.
pub open spec fn or_nothing(kept: Option<Seq<u8>>) -> Seq<u8> {
    match kept {
        Some(bytes) => bytes,
        None => seq![],
    }
}

/// The producer loses no byte, doubles none and keeps them in order. Let `came[i]`
/// be the chunk that came in the `i`-th of its turns that had bytes (none in a
/// turn that serves what was kept), `given[i]` what it handed over then, and
/// `kept[i + 1]` what it kept: all that came is what was handed over, and what is
/// still kept.
pub proof fn law_no_byte_is_lost(
    came: Seq<Seq<u8>>,
    caps: Seq<Option<usize>>,
    given: Seq<Delivery>,
    kept: Seq<Option<Seq<u8>>>,
)
    requires
        caps.len() == came.len(),
        given.len() == came.len(),
        kept.len() == came.len() + 1,
        forall|i: int|
            0 <= i < came.len() ==> emitted(
                or_nothing(kept[i]) + came[i],
                caps[i],
                #[trigger] given[i],
                kept[i + 1],
            ),
    ensures
        or_nothing(kept[0]) + joined(came) == joined(
            given.map_values(|delivery: Delivery| delivery.bytes()),
        ) + or_nothing(kept[came.len() as int]),
    decreases came.len(),
{
    let bytes = |delivery: Delivery| delivery.bytes();
    if came.len() == 0 {
        assert(or_nothing(kept[0]) + Seq::<u8>::empty() =~= or_nothing(kept[0]));
        assert(given.map_values(bytes) =~= seq![]);
        assert(Seq::<u8>::empty() + or_nothing(kept[0]) =~= or_nothing(kept[0]));
    } else {
        let n = came.len() - 1;
        assert forall|i: int| 0 <= i < n implies emitted(
            or_nothing(kept.drop_last()[i]) + came.drop_last()[i],
            caps.drop_last()[i],
            #[trigger] given.drop_last()[i],
            kept.drop_last()[i + 1],
        ) by {
            assert(given[i] == given.drop_last()[i]);
        }
        law_no_byte_is_lost(
            came.drop_last(),
            caps.drop_last(),
            given.drop_last(),
            kept.drop_last(),
        );
        assert(given.map_values(bytes).drop_last() =~= given.drop_last().map_values(bytes));
        let before = joined(given.drop_last().map_values(bytes));
        let data = or_nothing(kept[n]) + came[n];
        assert(emitted(data, caps[n], given[n], kept[n + 1]));
        assert(data =~= given[n].bytes() + or_nothing(kept[n + 1]));
        assert(or_nothing(kept[0]) + (joined(came.drop_last()) + came[n]) =~= or_nothing(kept[0])
            + joined(came.drop_last()) + came[n]);
        assert(before + or_nothing(kept[n]) + came[n] =~= before + data);
        assert(before + (given[n].bytes() + or_nothing(kept[n + 1])) =~= before + given[n].bytes()
            + or_nothing(kept[n + 1]));
    }
}

/// What a consumer does next.
#[derive(Clone, Copy, Debug, PartialEq, Eq, Structural)]
pub enum Consumed {
    /// Forward the bytes that are there, and say how that went.
    Forward,
    /// The bytes, if there are any, were consumed; there may be more.
    Completed,
    /// The consumer takes no more.
    Dropped,
}

/// A consumer that forwards to a channel: what the host reads of a stream that
/// the component writes. The channel ends when the component's end is gone.
#[derive(Debug)]
pub struct ChannelConsumer {
    open: bool,
}

impl ChannelConsumer {
    /// Whether the channel is still there.
    pub closed spec fn is_open(&self) -> bool {
        self.open
    }

    /// A consumer whose channel is there.
    pub fn new() -> (consumer: ChannelConsumer)
        ensures
            consumer.is_open(),
    {
        ChannelConsumer { open: true }
    }

    /// What to do with the `available` bytes that the component has written.
    /// `finish` says that it will not write more: when nothing is left, the
    /// channel ends.
    pub fn consume(&mut self, available: usize, finish: bool) -> (r: Consumed)
        ensures
            r == (if available > 0 {
                if old(self).is_open() {
                    Consumed::Forward
                } else {
                    Consumed::Completed
                }
            } else if finish {
                Consumed::Dropped
            } else {
                Consumed::Completed
            }),
            final(self).is_open() == (old(self).is_open() && !(available == 0 && finish)),
    {
        if available > 0 {
            if self.open {
                Consumed::Forward
            } else {
                Consumed::Completed
            }
        } else if finish {
            self.open = false;
            Consumed::Dropped
        } else {
            Consumed::Completed
        }
    }

    /// What follows when bytes were forwarded, and `sent` says whether anybody
    /// was there to take them.
    pub fn forwarded(&mut self, sent: bool) -> (r: Consumed)
        ensures
            r == (if sent {
                Consumed::Completed
            } else {
                Consumed::Dropped
            }),
            final(self).is_open() == (old(self).is_open() && sent),
    {
        if sent {
            Consumed::Completed
        } else {
            self.open = false;
            Consumed::Dropped
        }
    }

    /// Whether the channel is still there.
    pub fn is_forwarding(&self) -> (open: bool)
        ensures
            open == self.is_open(),
    {
        self.open
    }
}

/// A chunk of a stream as it is transmitted: `None` if it has more bytes than
/// fit in 32 bits.
fn frame_chunk(chunk: &[u8]) -> (r: Option<BytesMut>)
    ensures
        match r {
            Some(frame) => chunk@.len() <= u32::MAX && buffer_bytes(frame) == prefixed(chunk@),
            None => chunk@.len() > u32::MAX,
        },
{
    let mut frame: BytesMut = empty_buffer();
    assert(buffer_bytes(frame) + prefixed(chunk@) =~= prefixed(chunk@));
    match encode_prefixed(&mut frame, chunk) {
        Ok(()) => Some(frame),
        Err(_) => None,
    }
}

/// The end of a stream as it is transmitted: an empty chunk.
fn end_frame() -> (frame: BytesMut)
    ensures
        buffer_bytes(frame) == prefixed(seq![]),
{
    let mut frame: BytesMut = empty_buffer();
    put_u8(&mut frame, 0);
    assert(buffer_bytes(frame) =~= prefixed(seq![]));
    frame
}

/// What was fetched of a stream that is being transmitted.
#[derive(Debug)]
pub enum Fetched {
    /// A chunk, which may be empty.
    Chunk(Bytes),
    /// Nothing: the stream is at its end.
    Closed,
    /// Nothing: the stream cannot be read.
    Failed,
}

/// What the transmitter of a stream does next.
#[derive(Debug)]
pub enum Transmission {
    /// Write these bytes, and fetch more.
    Write(BytesMut),
    /// Fetch more; there is nothing to write.
    Skip,
    /// Give up: the chunk has more bytes than fit in 32 bits.
    TooLong,
    /// Write these bytes; they are the last.
    Finish(BytesMut),
    /// Give up: the stream cannot be read.
    Fail,
}

impl Transmission {
    /// The bytes that are written.
    pub open spec fn bytes(self) -> Seq<u8> {
        match self {
            Transmission::Write(frame) => buffer_bytes(frame),
            Transmission::Finish(frame) => buffer_bytes(frame),
            _ => seq![],
        }
    }
}

/// `t` is what the transmitter does with what was fetched: each chunk is written
/// with its length in front, unless it is empty; an empty chunk is written at the
/// end of the stream, and nowhere else.
pub open spec fn transmits(fetched: Fetched, t: Transmission) -> bool {
    match fetched {
        Fetched::Chunk(chunk) => if chunk_bytes(chunk).len() == 0 {
            t is Skip
        } else if chunk_bytes(chunk).len() > u32::MAX {
            t is TooLong
        } else {
            t is Write && t.bytes() == prefixed(chunk_bytes(chunk))
        },
        Fetched::Closed => t is Finish && t.bytes() == prefixed(seq![]),
        Fetched::Failed => t is Fail,
    }
}

/// What to do with what was fetched of a stream that is being transmitted.
pub fn transmit_step(fetched: Fetched) -> (t: Transmission)
    ensures
        transmits(fetched, t),
        match fetched {
            Fetched::Chunk(chunk) => {
                &&& t is Skip <==> chunk_bytes(chunk).len() == 0
                &&& t is TooLong <==> chunk_bytes(chunk).len() > u32::MAX
                &&& t is Write <==> 0 < chunk_bytes(chunk).len() <= u32::MAX
                &&& t is Write ==> t.bytes() == prefixed(chunk_bytes(chunk))
            },
            Fetched::Closed => t is Finish && t.bytes() == seq![0u8],
            Fetched::Failed => t is Fail,
        },
{
    match fetched {
        Fetched::Chunk(chunk) => {
            if chunk_len(&chunk) == 0 {
                return Transmission::Skip;
            }
            match frame_chunk(chunk_slice(&chunk)) {
                Some(frame) => Transmission::Write(frame),
                None => Transmission::TooLong,
            }
        },
        Fetched::Closed => Transmission::Finish(end_frame()),
        Fetched::Failed => Transmission::Fail,
    }
}

/// All the bytes that are written in the steps.
pub open spec fn written(steps: Seq<Transmission>) -> Seq<u8>
    decreases steps.len(),
{
    if steps.len() == 0 {
        seq![]
    } else {
        steps[0].bytes() + written(steps.drop_first())
    }
}

/// The chunks that were fetched and are not empty, in order.
pub open spec fn fetched_chunks(fetched: Seq<Fetched>) -> Seq<Seq<u8>>
    decreases fetched.len(),
{
    if fetched.len() == 0 {
        seq![]
    } else {
        let tail = fetched_chunks(fetched.drop_first());
        match fetched[0] {
            Fetched::Chunk(chunk) => if chunk_bytes(chunk).len() > 0 {
                seq![chunk_bytes(chunk)] + tail
            } else {
                tail
            },
            _ => tail,
        }
    }
}

/// Whether a chunk was fetched that can be written.
pub open spec fn fits(fetched: Fetched) -> bool {
    fetched matches Fetched::Chunk(chunk) && chunk_bytes(chunk).len() <= u32::MAX
}

/// A transmitter that fetches chunks up to the end of a stream writes the chunks
/// that are not empty, in order, and one empty chunk behind them; it is done then
/// and not before; and the other end receives just those chunks.
pub proof fn law_streams_are_transmitted(
    fetched: Seq<Fetched>,
    steps: Seq<Transmission>,
    rest: Seq<u8>,
)
    requires
        fetched.len() == steps.len() > 0,
        forall|i: int| 0 <= i < fetched.len() ==> transmits(fetched[i], #[trigger] steps[i]),
        forall|i: int| 0 <= i < fetched.len() - 1 ==> fits(#[trigger] fetched[i]),
        fetched.last() is Closed,
    ensures
        written(steps) == frames(fetched_chunks(fetched)),
        steps.last() is Finish,
        forall|i: int|
            0 <= i < steps.len() - 1 ==> (#[trigger] steps[i] is Write || steps[i] is Skip),
        unframed(written(steps) + rest) == Some((fetched_chunks(fetched), rest)),
{
    lemma_transmitted(fetched, steps);
    law_streams_come_back(fetched_chunks(fetched), rest);
    assert forall|i: int| 0 <= i < steps.len() - 1 implies (#[trigger] steps[i] is Write
        || steps[i] is Skip) by {
        assert(fits(fetched[i]));
    }
}

/// What is written is the stream, in chunks that can be received.
proof fn lemma_transmitted(fetched: Seq<Fetched>, steps: Seq<Transmission>)
    requires
        fetched.len() == steps.len() > 0,
        forall|i: int| 0 <= i < fetched.len() ==> transmits(fetched[i], #[trigger] steps[i]),
        forall|i: int| 0 <= i < fetched.len() - 1 ==> fits(#[trigger] fetched[i]),
        fetched.last() is Closed,
    ensures
        written(steps) == frames(fetched_chunks(fetched)),
        forall|i: int|
            0 <= i < fetched_chunks(fetched).len() ==> 0 < (#[trigger] fetched_chunks(
                fetched,
            )[i]).len() <= u32::MAX,
    decreases fetched.len(),
{
    let (rest, after) = (fetched.drop_first(), steps.drop_first());
    assert(transmits(fetched[0], steps[0]));
    if fetched.len() == 1 {
        assert(written(after) =~= seq![]);
        assert(fetched_chunks(rest) =~= seq![]);
        assert(steps[0].bytes() + Seq::<u8>::empty() =~= steps[0].bytes());
    } else {
        assert forall|i: int| 0 <= i < rest.len() implies transmits(
            rest[i],
            #[trigger] after[i],
        ) by {
            assert(transmits(fetched[i + 1], steps[i + 1]));
        }
        assert forall|i: int| 0 <= i < rest.len() - 1 implies fits(#[trigger] rest[i]) by {
            assert(fits(fetched[i + 1]));
        }
        lemma_transmitted(rest, after);
        assert(fits(fetched[0]));
        let bytes = chunk_bytes(fetched[0]->Chunk_0);
        if bytes.len() > 0 {
            let chunks = seq![bytes] + fetched_chunks(rest);
            assert(chunks.drop_first() =~= fetched_chunks(rest));
            assert(frames(chunks) == prefixed(bytes) + frames(fetched_chunks(rest)));
        } else {
            assert(Seq::<u8>::empty() + written(after) =~= written(after));
        }
    }
}

/// What is at the front of a stream.
#[derive(Debug)]
pub enum Chunk {
    /// These bytes.
    Bytes(Vec<u8>),
    /// Not a whole chunk yet.
    More,
    /// The end of the stream.
    End,
}

/// `ListDecoderU8::decode`, on a decoder that was just made: the bytes at the
/// front of the buffer that have their length in front of them; nothing while
/// they are incomplete; an error if the length does not fit in 32 bits. A length
/// that is whole is taken out of the buffer even while the bytes behind it are
/// incomplete; otherwise the buffer is left alone where no bytes are returned.
#[verifier::external_body]
fn decode_list(src: &mut BytesMut) -> (r: Result<Option<Vec<u8>>, std::io::Error>)
    ensures
        match read_unsigned(32, buffer_bytes(*old(src))) {
            Leb::Done(n, k) => if buffer_bytes(*old(src)).len() >= k + n {
                &&& r matches Ok(Some(bytes)) && bytes@ == buffer_bytes(*old(src)).subrange(
                    k as int,
                    k + n,
                )
                &&& buffer_bytes(*final(src)) == buffer_bytes(*old(src)).skip(k + n)
            } else {
                &&& r matches Ok(None)
                &&& buffer_bytes(*final(src)) == buffer_bytes(*old(src)).skip(k as int)
            },
            Leb::More => r matches Ok(None) && buffer_bytes(*final(src)) == buffer_bytes(
                *old(src),
            ),
            Leb::Overflow(_) => r is Err && buffer_bytes(*final(src)) == buffer_bytes(
                *old(src),
            ),
        },
{
    ListDecoderU8::default().decode(src)
}

/// Take the next chunk of a stream out of the bytes that have come. `closed` says
/// that no more will come. An empty chunk ends the stream, and so does anything
/// that is not a chunk.
pub fn next_chunk(src: &mut BytesMut, closed: bool) -> (r: Chunk)
    ensures
        match parse_prefixed(start::<()>(buffer_bytes(*old(src)))) {
            Parsed::Done(bytes, q) => {
                &&& if bytes.len() > 0 {
                    r matches Chunk::Bytes(chunk) && chunk@ == bytes
                } else {
                    r is End
                }
                &&& buffer_bytes(*final(src)) == q.rest
            },
            Parsed::More(_) => {
                &&& r == (if closed {
                    Chunk::End
                } else {
                    Chunk::More
                })
                &&& buffer_bytes(*final(src)) == buffer_bytes(*old(src))
            },
            Parsed::Fail(_, _, _) => {
                &&& r is End
                &&& buffer_bytes(*final(src)) == buffer_bytes(*old(src))
            },
        },
{
    proof {
        let s = buffer_bytes(*src);
        lemma_unsigned_bounds(32, s);
        if let Leb::Done(n, k) = read_unsigned(32, s) {
            if s.len() >= k + n {
                assert(s.skip(k as int).take(n) =~= s.subrange(k as int, k + n));
                assert(s.skip(k as int).skip(n) =~= s.skip(k + n));
            }
        }
    }
    let mut rest: BytesMut = copy_buffer(src);
    match decode_list(&mut rest) {
        Ok(Some(bytes)) => {
            *src = rest;
            if bytes.len() == 0 {
                Chunk::End
            } else {
                Chunk::Bytes(bytes)
            }
        },
        Ok(None) => if closed {
            Chunk::End
        } else {
            Chunk::More
        },
        Err(_) => Chunk::End,
    }
}

/// A stream as it is transmitted: its chunks, and the empty one.
pub open spec fn frames(chunks: Seq<Seq<u8>>) -> Seq<u8>
    decreases chunks.len(),
{
    if chunks.len() == 0 {
        prefixed(seq![])
    } else {
        prefixed(chunks[0]) + frames(chunks.drop_first())
    }
}

/// The chunks at the front of the bytes up to the empty one, and what follows
/// it.
pub open spec fn unframed(bytes: Seq<u8>) -> Option<(Seq<Seq<u8>>, Seq<u8>)>
    decreases bytes.len(),
{
    match parse_prefixed(start::<()>(bytes)) {
        Parsed::Done(chunk, q) => if chunk.len() == 0 {
            Some((seq![], q.rest))
        } else if q.rest.len() < bytes.len() {
            match unframed(q.rest) {
                Some((chunks, rest)) => Some((seq![chunk] + chunks, rest)),
                None => None,
            }
        } else {
            None
        },
        _ => None,
    }
}

/// A stream that was transmitted in chunks that are not empty is received in the
/// same chunks, and ends where it ended.
pub proof fn law_streams_come_back(chunks: Seq<Seq<u8>>, rest: Seq<u8>)
    requires
        forall|i: int| 0 <= i < chunks.len() ==> 0 < (#[trigger] chunks[i]).len() <= u32::MAX,
    ensures
        unframed(frames(chunks) + rest) == Some((chunks, rest)),
    decreases chunks.len(),
{
    if chunks.len() == 0 {
        lemma_frame(seq![], rest);
        assert(chunks =~= seq![]);
    } else {
        let tail = chunks.drop_first();
        assert forall|i: int| 0 <= i < tail.len() implies 0 < (#[trigger] tail[i]).len()
            <= u32::MAX by {
            assert(tail[i] == chunks[i + 1]);
        }
        law_streams_come_back(tail, rest);
        lemma_frame(chunks[0], frames(tail) + rest);
        assert(frames(chunks) + rest =~= prefixed(chunks[0]) + (frames(tail) + rest));
        assert(seq![chunks[0]] + tail =~= chunks);
    }
}

/// A chunk is read back from its frame.
proof fn lemma_frame(chunk: Seq<u8>, rest: Seq<u8>)
    requires
        chunk.len() <= u32::MAX,
    ensures
        parse_prefixed(start::<()>(prefixed(chunk) + rest)) == Parsed::<Seq<u8>, ()>::Done(
            chunk,
            start(rest),
        ),
        rest.len() < (prefixed(chunk) + rest).len(),
{
    lemma2_to64();
    let s = prefixed(chunk) + rest;
    let k = unsigned_leb128(chunk.len()).len();
    assert(s =~= unsigned_leb128(chunk.len()) + (chunk + rest));
    lemma_unsigned_roundtrip(32, chunk.len(), chunk + rest);
    assert(s.skip(k as int) =~= chunk + rest);
    assert((chunk + rest).take(chunk.len() as int) =~= chunk);
    assert((chunk + rest).skip(chunk.len() as int) =~= rest);
}

} // verus!
