//! LEB128, the variable-length integers of the wire format.
//!
//! The encoding itself is that of the `leb128-tokio` crate, reached through
//! `wasm-tokio`. The spec functions of this module say what the encoding is; the
//! lemmas say that what was written reads back.

use bytes::BytesMut;
use tokio_util::codec::{Decoder, Encoder};
use vstd::arithmetic::power2::{lemma2_to64, lemma_pow2_adds, lemma_pow2_strictly_increases, pow2};
use vstd::prelude::*;
use wasm_tokio::{
    Leb128DecoderI16, Leb128DecoderI32, Leb128DecoderI64, Leb128DecoderU16, Leb128DecoderU32,
    Leb128DecoderU64, Leb128DecoderU8, Leb128Encoder,
};

use crate::buffer::buffer_bytes;

verus! {

/// What the front of a byte sequence says about an integer.
pub enum Leb {
    /// The integer, and how many bytes it takes.
    Done(int, nat),
    /// The bytes end before the integer does.
    More,
    /// The integer does not fit in its width, which shows at the last of this
    /// many bytes.
    Overflow(nat),
}

/// The unsigned encoding of `v`: seven bits a byte, least significant first,
/// with the top bit set on all bytes but the last.
pub open spec fn unsigned_leb128(v: nat) -> Seq<u8>
    decreases v,
{
    if v < 128 {
        seq![v as u8]
    } else {
        seq![(128 + v % 128) as u8] + unsigned_leb128(v / 128)
    }
}

/// The signed encoding of `v`: as the unsigned one, of the two's complement
/// representation, up to the byte whose bit 6 is the sign.
pub open spec fn signed_leb128(v: int) -> Seq<u8>
    decreases if v < 0 { -v } else { v },
{
    if -64 <= v < 64 {
        seq![(v % 128) as u8]
    } else {
        seq![(128 + v % 128) as u8] + signed_leb128(v / 128)
    }
}

/// The unsigned integer of at most `bits` bits at the front of `s`.
pub open spec fn read_unsigned(bits: nat, s: Seq<u8>) -> Leb
    decreases bits,
{
    if s.len() == 0 {
        Leb::More
    } else if bits <= 7 {
        if s[0] < pow2(bits) {
            Leb::Done(s[0] as int, 1)
        } else {
            Leb::Overflow(1)
        }
    } else if s[0] < 128 {
        Leb::Done(s[0] as int, 1)
    } else {
        match read_unsigned((bits - 7) as nat, s.skip(1)) {
            Leb::Done(v, n) => Leb::Done(s[0] - 128 + 128 * v, n + 1),
            Leb::More => Leb::More,
            Leb::Overflow(n) => Leb::Overflow(n + 1),
        }
    }
}

/// The signed integer of at most `bits` bits at the front of `s`.
pub open spec fn read_signed(bits: nat, s: Seq<u8>) -> Leb
    decreases bits,
{
    if s.len() == 0 {
        Leb::More
    } else if bits <= 7 {
        if s[0] < pow2((bits - 1) as nat) {
            Leb::Done(s[0] as int, 1)
        } else if 128 - pow2((bits - 1) as nat) <= s[0] < 128 {
            Leb::Done(s[0] - 128, 1)
        } else {
            Leb::Overflow(1)
        }
    } else if s[0] < 64 {
        Leb::Done(s[0] as int, 1)
    } else if s[0] < 128 {
        Leb::Done(s[0] - 128, 1)
    } else {
        match read_signed((bits - 7) as nat, s.skip(1)) {
            Leb::Done(v, n) => Leb::Done(s[0] - 128 + 128 * v, n + 1),
            Leb::More => Leb::More,
            Leb::Overflow(n) => Leb::Overflow(n + 1),
        }
    }
}

/// A read integer fits in its width, and lies within the bytes. One that does not
/// fit is given up at the last byte that its width has room for.
pub proof fn lemma_unsigned_bounds(bits: nat, s: Seq<u8>)
    requires
        bits > 0,
    ensures
        read_unsigned(bits, s) matches Leb::Done(v, n) ==> 0 <= v < pow2(bits) && 0 < n <= s.len(),
        read_unsigned(bits, s) matches Leb::Overflow(n) ==> n == (bits + 6) / 7 && n <= s.len(),
    decreases bits,
{
    lemma2_to64();
    if s.len() > 0 && bits > 7 {
        lemma_unsigned_bounds((bits - 7) as nat, s.skip(1));
        lemma_pow2_adds(7, (bits - 7) as nat);
        lemma_pow2_increases(7, bits);
    }
}

/// A read integer fits in its width, and lies within the bytes. One that does not
/// fit is given up at the last byte that its width has room for.
pub proof fn lemma_signed_bounds(bits: nat, s: Seq<u8>)
    requires
        bits > 0,
    ensures
        read_signed(bits, s) matches Leb::Done(v, n) ==> -pow2((bits - 1) as nat) <= v < pow2(
            (bits - 1) as nat,
        ) && 0 < n <= s.len(),
        read_signed(bits, s) matches Leb::Overflow(n) ==> n == (bits + 6) / 7 && n <= s.len(),
    decreases bits,
{
    lemma2_to64();
    if s.len() > 0 && bits > 7 {
        lemma_signed_bounds((bits - 7) as nat, s.skip(1));
        lemma_pow2_adds(7, (bits - 8) as nat);
        lemma_pow2_increases(6, (bits - 1) as nat);
    }
}

/// Bytes that follow do not change what was read.
pub proof fn lemma_unsigned_extends(bits: nat, s: Seq<u8>, t: Seq<u8>)
    requires
        bits > 0,
        !(read_unsigned(bits, s) is More),
    ensures
        read_unsigned(bits, s + t) == read_unsigned(bits, s),
    decreases bits,
{
    assert((s + t)[0] == s[0]);
    if bits > 7 && s[0] >= 128 {
        lemma_unsigned_extends((bits - 7) as nat, s.skip(1), t);
        assert((s + t).skip(1) =~= s.skip(1) + t);
    }
}

/// Bytes that follow do not change what was read.
pub proof fn lemma_signed_extends(bits: nat, s: Seq<u8>, t: Seq<u8>)
    requires
        bits > 0,
        !(read_signed(bits, s) is More),
    ensures
        read_signed(bits, s + t) == read_signed(bits, s),
    decreases bits,
{
    assert((s + t)[0] == s[0]);
    if bits > 7 && s[0] >= 128 {
        lemma_signed_extends((bits - 7) as nat, s.skip(1), t);
        assert((s + t).skip(1) =~= s.skip(1) + t);
    }
}

/// An unsigned integer that was written reads back as itself, whatever follows,
/// at every width that holds it.
pub proof fn lemma_unsigned_roundtrip(bits: nat, v: nat, rest: Seq<u8>)
    requires
        bits > 0,
        v < pow2(bits),
    ensures
        read_unsigned(bits, unsigned_leb128(v) + rest) == Leb::Done(
            v as int,
            unsigned_leb128(v).len(),
        ),
    decreases bits,
{
    lemma2_to64();
    let s = unsigned_leb128(v) + rest;
    if bits <= 7 {
        lemma_pow2_increases(bits, 7);
        assert(s[0] == v as u8);
    } else if v < 128 {
        assert(s[0] == v as u8);
    } else {
        lemma_pow2_adds(7, (bits - 7) as nat);
        lemma_unsigned_roundtrip((bits - 7) as nat, v / 128, rest);
        assert(s[0] == (128 + v % 128) as u8);
        assert(s.skip(1) =~= unsigned_leb128(v / 128) + rest);
    }
}

/// A signed integer that was written reads back as itself, whatever follows,
/// at every width that holds it.
pub proof fn lemma_signed_roundtrip(bits: nat, v: int, rest: Seq<u8>)
    requires
        bits > 0,
        -pow2((bits - 1) as nat) <= v < pow2((bits - 1) as nat),
    ensures
        read_signed(bits, signed_leb128(v) + rest) == Leb::Done(v, signed_leb128(v).len()),
    decreases bits,
{
    lemma2_to64();
    let s = signed_leb128(v) + rest;
    if bits <= 7 {
        lemma_pow2_increases((bits - 1) as nat, 6);
        assert(s[0] == (v % 128) as u8);
    } else if -64 <= v < 64 {
        assert(s[0] == (v % 128) as u8);
    } else {
        lemma_pow2_adds(7, (bits - 8) as nat);
        lemma_signed_roundtrip((bits - 7) as nat, v / 128, rest);
        assert(s[0] == (128 + v % 128) as u8);
        assert(s.skip(1) =~= signed_leb128(v / 128) + rest);
    }
}

/// `pow2` does not decrease.
proof fn lemma_pow2_increases(a: nat, b: nat)
    requires
        a <= b,
    ensures
        pow2(a) <= pow2(b),
{
    if a < b {
        lemma_pow2_strictly_increases(a, b);
    }
}

/// `Leb128Encoder::encode` for `u16`: never fails, and appends the unsigned
/// encoding.
#[verifier::external_body]
pub(crate) fn encode_u16(dst: &mut BytesMut, v: u16)
    ensures
        buffer_bytes(*final(dst)) == buffer_bytes(*old(dst)) + unsigned_leb128(v as nat),
{
    Leb128Encoder.encode(v, dst).unwrap()
}

/// `Leb128Encoder::encode` for `u32`: never fails, and appends the unsigned
/// encoding.
#[verifier::external_body]
pub(crate) fn encode_u32(dst: &mut BytesMut, v: u32)
    ensures
        buffer_bytes(*final(dst)) == buffer_bytes(*old(dst)) + unsigned_leb128(v as nat),
{
    Leb128Encoder.encode(v, dst).unwrap()
}

/// `Leb128Encoder::encode` for `u64`: never fails, and appends the unsigned
/// encoding.
#[verifier::external_body]
pub(crate) fn encode_u64(dst: &mut BytesMut, v: u64)
    ensures
        buffer_bytes(*final(dst)) == buffer_bytes(*old(dst)) + unsigned_leb128(v as nat),
{
    Leb128Encoder.encode(v, dst).unwrap()
}

/// `Leb128Encoder::encode` for `i16`: never fails, and appends the signed
/// encoding.
#[verifier::external_body]
pub(crate) fn encode_i16(dst: &mut BytesMut, v: i16)
    ensures
        buffer_bytes(*final(dst)) == buffer_bytes(*old(dst)) + signed_leb128(v as int),
{
    Leb128Encoder.encode(v, dst).unwrap()
}

/// `Leb128Encoder::encode` for `i32`: never fails, and appends the signed
/// encoding.
#[verifier::external_body]
pub(crate) fn encode_i32(dst: &mut BytesMut, v: i32)
    ensures
        buffer_bytes(*final(dst)) == buffer_bytes(*old(dst)) + signed_leb128(v as int),
{
    Leb128Encoder.encode(v, dst).unwrap()
}

/// `Leb128Encoder::encode` for `i64`: never fails, and appends the signed
/// encoding.
#[verifier::external_body]
pub(crate) fn encode_i64(dst: &mut BytesMut, v: i64)
    ensures
        buffer_bytes(*final(dst)) == buffer_bytes(*old(dst)) + signed_leb128(v as int),
{
    Leb128Encoder.encode(v, dst).unwrap()
}

/// `Leb128DecoderU8::decode`: the unsigned integer at the front of the buffer is
/// taken out; an integer that does not fit is the one error; the buffer is left
/// alone while the integer is incomplete, and on the error.
#[verifier::external_body]
pub(crate) fn decode_u8(src: &mut BytesMut) -> (r: Result<
    Option<u8>,
    std::io::Error,
>)
    ensures
        match read_unsigned(8, buffer_bytes(*old(src))) {
            Leb::Done(v, n) => r matches Ok(Some(x)) && x == v && buffer_bytes(*final(src))
                == buffer_bytes(*old(src)).skip(n as int),
            Leb::More => r matches Ok(None) && buffer_bytes(*final(src)) == buffer_bytes(
                *old(src),
            ),
            Leb::Overflow(_) => r is Err && buffer_bytes(*final(src)) == buffer_bytes(
                *old(src),
            ),
        },
{
    Leb128DecoderU8.decode(src)
}

/// `Leb128DecoderU16::decode`: the unsigned integer at the front of the buffer is
/// taken out; an integer that does not fit is the one error; the buffer is left
/// alone while the integer is incomplete, and on the error.
#[verifier::external_body]
pub(crate) fn decode_u16(src: &mut BytesMut) -> (r: Result<
    Option<u16>,
    std::io::Error,
>)
    ensures
        match read_unsigned(16, buffer_bytes(*old(src))) {
            Leb::Done(v, n) => r matches Ok(Some(x)) && x == v && buffer_bytes(*final(src))
                == buffer_bytes(*old(src)).skip(n as int),
            Leb::More => r matches Ok(None) && buffer_bytes(*final(src)) == buffer_bytes(
                *old(src),
            ),
            Leb::Overflow(_) => r is Err && buffer_bytes(*final(src)) == buffer_bytes(
                *old(src),
            ),
        },
{
    Leb128DecoderU16.decode(src)
}

/// `Leb128DecoderU32::decode`: the unsigned integer at the front of the buffer is
/// taken out; an integer that does not fit is the one error; the buffer is left
/// alone while the integer is incomplete, and on the error.
#[verifier::external_body]
pub(crate) fn decode_u32(src: &mut BytesMut) -> (r: Result<
    Option<u32>,
    std::io::Error,
>)
    ensures
        match read_unsigned(32, buffer_bytes(*old(src))) {
            Leb::Done(v, n) => r matches Ok(Some(x)) && x == v && buffer_bytes(*final(src))
                == buffer_bytes(*old(src)).skip(n as int),
            Leb::More => r matches Ok(None) && buffer_bytes(*final(src)) == buffer_bytes(
                *old(src),
            ),
            Leb::Overflow(_) => r is Err && buffer_bytes(*final(src)) == buffer_bytes(
                *old(src),
            ),
        },
{
    Leb128DecoderU32.decode(src)
}

/// `Leb128DecoderU64::decode`: the unsigned integer at the front of the buffer is
/// taken out; an integer that does not fit is the one error; the buffer is left
/// alone while the integer is incomplete, and on the error.
#[verifier::external_body]
pub(crate) fn decode_u64(src: &mut BytesMut) -> (r: Result<
    Option<u64>,
    std::io::Error,
>)
    ensures
        match read_unsigned(64, buffer_bytes(*old(src))) {
            Leb::Done(v, n) => r matches Ok(Some(x)) && x == v && buffer_bytes(*final(src))
                == buffer_bytes(*old(src)).skip(n as int),
            Leb::More => r matches Ok(None) && buffer_bytes(*final(src)) == buffer_bytes(
                *old(src),
            ),
            Leb::Overflow(_) => r is Err && buffer_bytes(*final(src)) == buffer_bytes(
                *old(src),
            ),
        },
{
    Leb128DecoderU64.decode(src)
}

/// `Leb128DecoderI16::decode`: the signed integer at the front of the buffer is
/// taken out; an integer that does not fit is the one error; the buffer is left
/// alone while the integer is incomplete, and on the error.
#[verifier::external_body]
pub(crate) fn decode_i16(src: &mut BytesMut) -> (r: Result<
    Option<i16>,
    std::io::Error,
>)
    ensures
        match read_signed(16, buffer_bytes(*old(src))) {
            Leb::Done(v, n) => r matches Ok(Some(x)) && x == v && buffer_bytes(*final(src))
                == buffer_bytes(*old(src)).skip(n as int),
            Leb::More => r matches Ok(None) && buffer_bytes(*final(src)) == buffer_bytes(
                *old(src),
            ),
            Leb::Overflow(_) => r is Err && buffer_bytes(*final(src)) == buffer_bytes(
                *old(src),
            ),
        },
{
    Leb128DecoderI16.decode(src)
}

/// `Leb128DecoderI32::decode`: the signed integer at the front of the buffer is
/// taken out; an integer that does not fit is the one error; the buffer is left
/// alone while the integer is incomplete, and on the error.
#[verifier::external_body]
pub(crate) fn decode_i32(src: &mut BytesMut) -> (r: Result<
    Option<i32>,
    std::io::Error,
>)
    ensures
        match read_signed(32, buffer_bytes(*old(src))) {
            Leb::Done(v, n) => r matches Ok(Some(x)) && x == v && buffer_bytes(*final(src))
                == buffer_bytes(*old(src)).skip(n as int),
            Leb::More => r matches Ok(None) && buffer_bytes(*final(src)) == buffer_bytes(
                *old(src),
            ),
            Leb::Overflow(_) => r is Err && buffer_bytes(*final(src)) == buffer_bytes(
                *old(src),
            ),
        },
{
    Leb128DecoderI32.decode(src)
}

/// `Leb128DecoderI64::decode`: the signed integer at the front of the buffer is
/// taken out; an integer that does not fit is the one error; the buffer is left
/// alone while the integer is incomplete, and on the error.
#[verifier::external_body]
pub(crate) fn decode_i64(src: &mut BytesMut) -> (r: Result<
    Option<i64>,
    std::io::Error,
>)
    ensures
        match read_signed(64, buffer_bytes(*old(src))) {
            Leb::Done(v, n) => r matches Ok(Some(x)) && x == v && buffer_bytes(*final(src))
                == buffer_bytes(*old(src)).skip(n as int),
            Leb::More => r matches Ok(None) && buffer_bytes(*final(src)) == buffer_bytes(
                *old(src),
            ),
            Leb::Overflow(_) => r is Err && buffer_bytes(*final(src)) == buffer_bytes(
                *old(src),
            ),
        },
{
    Leb128DecoderI64.decode(src)
}

/// The number that these bytes spell, seven bits a byte, least significant first.
pub open spec fn base_128(s: Seq<u8>) -> nat
    decreases s.len(),
{
    if s.len() == 0 {
        0
    } else {
        (s[0] % 128) as nat + 128 * base_128(s.skip(1))
    }
}

/// Whether these are the bytes of one integer: all but the last say that more follow.
pub open spec fn one_integer(s: Seq<u8>) -> bool {
    &&& s.len() > 0
    &&& s.last() < 128
    &&& forall|i: int| 0 <= i < s.len() - 1 ==> #[trigger] s[i] >= 128
}

/// The unsigned encoding spells the number, and no shorter one does.
pub proof fn law_unsigned_bytes_spell_the_number(v: nat)
    ensures
        one_integer(unsigned_leb128(v)),
        base_128(unsigned_leb128(v)) == v,
        unsigned_leb128(v).len() > 1 ==> unsigned_leb128(v).last() != 0,
    decreases v,
{
    let s = unsigned_leb128(v);
    if v < 128 {
        assert(s.skip(1) =~= seq![]);
        assert(base_128(s.skip(1)) == 0);
    } else {
        law_unsigned_bytes_spell_the_number(v / 128);
        let tail = unsigned_leb128(v / 128);
        assert(s.skip(1) =~= tail);
        assert(s[0] == 128 + v % 128);
        assert(forall|i: int| 0 < i < s.len() ==> s[i] == tail[i - 1]);
    }
}

/// An unsigned integer that is read is the number that its bytes spell, however many
/// they are; it is waited for as long as all the bytes say that more follow and there
/// can be more.
pub proof fn law_unsigned_integers_are_what_their_bytes_spell(bits: nat, s: Seq<u8>)
    requires
        bits > 0,
    ensures
        read_unsigned(bits, s) matches Leb::Done(v, n) ==> n <= s.len() && one_integer(
            s.take(n as int),
        ) && v == base_128(s.take(n as int)) && v < pow2(bits),
        read_unsigned(bits, s) is More <==> s.len() < (bits + 6) / 7 && forall|i: int|
            0 <= i < s.len() ==> #[trigger] s[i] >= 128,
    decreases bits,
{
    lemma_unsigned_bounds(bits, s);
    lemma2_to64();
    if s.len() > 0 {
        if bits <= 7 {
            lemma_pow2_increases(bits, 7);
        }
        if bits <= 7 || s[0] < 128 {
            assert(s.take(1).skip(1) =~= seq![]);
            assert(base_128(s.take(1).skip(1)) == 0);
            assert(s.take(1)[0] == s[0]);
        } else {
            let tail = s.skip(1);
            law_unsigned_integers_are_what_their_bytes_spell((bits - 7) as nat, tail);
            assert(forall|i: int| 0 <= i < tail.len() ==> tail[i] == s[i + 1]);
            if let Leb::Done(_, n) = read_unsigned((bits - 7) as nat, tail) {
                let front = s.take(n + 1int);
                assert(front.skip(1) =~= tail.take(n as int));
                let inner = tail.take(n as int);
                assert(front[0] == s[0]);
                assert(front.last() == inner.last());
                assert forall|i: int| 0 <= i < front.len() - 1 implies #[trigger] front[i]
                    >= 128 by {
                    if i > 0 {
                        assert(front[i] == inner[i - 1]);
                    }
                }
            }
            if forall|i: int| 0 <= i < s.len() ==> #[trigger] s[i] >= 128 {
                assert(forall|i: int| 0 <= i < tail.len() ==> #[trigger] tail[i] >= 128);
            }
            if read_unsigned((bits - 7) as nat, tail) is More {
                assert forall|i: int| 0 <= i < s.len() implies #[trigger] s[i] >= 128 by {
                    if i > 0 {
                        assert(tail[i - 1] >= 128);
                    }
                }
            }
        }
    }
}

/// The signed encoding spells the number in two's complement: as many bits as it has
/// bytes for, of which the topmost is the sign; and no shorter one does.
pub proof fn law_signed_bytes_spell_the_number(v: int)
    ensures
        one_integer(signed_leb128(v)),
        base_128(signed_leb128(v)) == (if v >= 0 {
            v
        } else {
            v + pow2(7 * signed_leb128(v).len())
        }),
        signed_leb128(v).last() >= 64 <==> v < 0,
    decreases if v < 0 { -v } else { v },
{
    lemma2_to64();
    let s = signed_leb128(v);
    if -64 <= v < 64 {
        assert(s.skip(1) =~= seq![]);
        assert(base_128(s.skip(1)) == 0);
    } else {
        law_signed_bytes_spell_the_number(v / 128);
        let tail = signed_leb128(v / 128);
        assert(s.skip(1) =~= tail);
        assert(s[0] == 128 + v % 128);
        assert(forall|i: int| 0 < i < s.len() ==> s[i] == tail[i - 1]);
        lemma_pow2_adds(7, 7 * tail.len());
        assert(7 * s.len() == 7 + 7 * tail.len());
    }
}

} // verus!
