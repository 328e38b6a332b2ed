//! Characters and strings on the wire: UTF-8, strings with their length in
//! front.

use bytes::BytesMut;
use tokio_util::codec::{Decoder, Encoder};
use vstd::prelude::*;
use vstd::utf8::{
    codepoint_width_2, codepoint_width_3, codepoint_width_4, decode_first_scalar, decode_utf8,
    encode_scalar, encode_utf8, is_continuation_byte, is_leading_byte_width_2,
    is_leading_byte_width_3, is_leading_byte_width_4, length_of_first_scalar, valid_first_scalar,
    valid_utf8,
};
use wasm_tokio::{CoreNameEncoder, CoreVecEncoderBytes, Utf8Codec};

use crate::buffer::{buffer_bytes, buffer_len, get_u8};
use crate::error::ReadError;
use crate::leb128::unsigned_leb128;

verus! {

/// A byte sequence with its length in front, as strings, resource handles and
/// stream chunks are written.
pub open spec fn prefixed(bytes: Seq<u8>) -> Seq<u8> {
    unsigned_leb128(bytes.len()) + bytes
}

/// Whether `s` is the beginning of a character whose bytes do not end within
/// `s`, as far as a reader that goes byte by byte can tell.
pub open spec fn char_unfinished(s: Seq<u8>) -> bool {
    ||| s.len() == 0
    ||| s.len() == 1 && is_leading_byte_width_2(s[0]) && s[0] >= 0xc2
    ||| is_leading_byte_width_3(s[0]) && s.len() < 3 && char_tail_plausible(s, 0xe0, 0xa0)
    ||| is_leading_byte_width_4(s[0]) && s.len() < 4 && char_tail_plausible(s, 0xf0, 0x90)
}

/// Whether the bytes after the first are continuation bytes, with the second at
/// least `least` after the first byte `lead` (a smaller one is an overlong
/// encoding).
pub open spec fn char_tail_plausible(s: Seq<u8>, lead: u8, least: u8) -> bool {
    &&& s.len() >= 2 ==> is_continuation_byte(s[1]) && (s[0] == lead ==> s[1] >= least)
    &&& s.len() >= 3 ==> is_continuation_byte(s[2])
}

/// How many bytes a reader that goes byte by byte has read when it sees that
/// they begin no character.
pub open spec fn char_given_up(s: Seq<u8>) -> int {
    if is_leading_byte_width_2(s[0]) {
        if s[0] < 0xc2 {
            1
        } else {
            2
        }
    } else if is_leading_byte_width_3(s[0]) {
        if !char_tail_plausible(s.take(2), 0xe0, 0xa0) {
            2
        } else {
            3
        }
    } else if is_leading_byte_width_4(s[0]) {
        if !char_tail_plausible(s.take(2), 0xf0, 0x90) {
            2
        } else if !is_continuation_byte(s[2]) {
            3
        } else {
            4
        }
    } else {
        1
    }
}

/// Whether `s` begins with all the bytes of something that looks like a character
/// of three or four bytes.
pub open spec fn char_whole(s: Seq<u8>) -> bool {
    ||| is_leading_byte_width_3(s[0]) && s.len() >= 3 && char_tail_plausible(s, 0xe0, 0xa0)
    ||| is_leading_byte_width_4(s[0]) && s.len() >= 4 && char_tail_plausible(s, 0xf0, 0x90)
        && is_continuation_byte(s[3])
}

/// `Utf8Codec::encode` for `char`: never fails, and appends the UTF-8 encoding.
#[verifier::external_body]
pub(crate) fn encode_char(dst: &mut BytesMut, c: char)
    ensures
        buffer_bytes(*final(dst)) == buffer_bytes(*old(dst)) + encode_scalar(c as u32),
{
    Utf8Codec.encode(c, dst).unwrap()
}

/// `Utf8Codec::decode`: the character at the front of the buffer is taken out;
/// the buffer is left alone while the character is incomplete; bytes that begin
/// no character are the one error, on which the buffer is left alone too, unless
/// all the bytes of what looked like a character are there: these are taken out.
#[verifier::external_body]
fn decode_char(src: &mut BytesMut) -> (r: Result<
    Option<char>,
    std::io::Error,
>)
    ensures
        valid_first_scalar(buffer_bytes(*old(src))) ==> {
            &&& r matches Ok(Some(c)) && c == decode_first_scalar(buffer_bytes(*old(src))) as char
            &&& buffer_bytes(*final(src)) == buffer_bytes(*old(src)).skip(
                length_of_first_scalar(buffer_bytes(*old(src))),
            )
        },
        char_unfinished(buffer_bytes(*old(src))) ==> {
            &&& r matches Ok(None)
            &&& buffer_bytes(*final(src)) == buffer_bytes(*old(src))
        },
        !valid_first_scalar(buffer_bytes(*old(src))) && !char_unfinished(buffer_bytes(*old(src)))
            ==> {
            &&& r is Err
            &&& buffer_bytes(*final(src)) == (if char_whole(buffer_bytes(*old(src))) {
                buffer_bytes(*old(src)).skip(char_given_up(buffer_bytes(*old(src))))
            } else {
                buffer_bytes(*old(src))
            })
        },
{
    Utf8Codec.decode(src)
}

/// Take out the bytes at the front of the buffer that begin no character, up to
/// the one that shows it.
fn skip_no_char(src: &mut BytesMut)
    requires
        !valid_first_scalar(buffer_bytes(*old(src))),
        !char_unfinished(buffer_bytes(*old(src))),
    ensures
        buffer_bytes(*final(src)) == buffer_bytes(*old(src)).skip(
            char_given_up(buffer_bytes(*old(src))),
        ),
{
    let ghost s = buffer_bytes(*src);
    proof {
        lemma_char_given_up(s, seq![]);
        assert(s.len() >= 2 ==> s.skip(1).skip(1) =~= s.skip(2));
        assert(s.len() >= 3 ==> s.skip(2).skip(1) =~= s.skip(3));
        assert(s.len() >= 4 ==> s.skip(3).skip(1) =~= s.skip(4));
    }
    let a: u8 = get_u8(src);
    if 0xc0 <= a && a <= 0xdf {
        if a >= 0xc2 {
            get_u8(src);
        }
    } else if 0xe0 <= a && a <= 0xef {
        let b: u8 = get_u8(src);
        if 0x80 <= b && b <= 0xbf && (a != 0xe0 || b >= 0xa0) {
            get_u8(src);
        }
    } else if 0xf0 <= a && a <= 0xf7 {
        let b: u8 = get_u8(src);
        if 0x80 <= b && b <= 0xbf && (a != 0xf0 || b >= 0x90) {
            let c: u8 = get_u8(src);
            if 0x80 <= c && c <= 0xbf {
                get_u8(src);
            }
        }
    }
}

/// Take the character at the front of the buffer out; nothing while it is
/// incomplete. Bytes that begin no character are taken out up to the one that
/// shows it.
pub(crate) fn read_char(src: &mut BytesMut) -> (r: Result<Option<char>, ReadError>)
    ensures
        ({
            let s = buffer_bytes(*old(src));
            if valid_first_scalar(s) {
                &&& r matches Ok(Some(c)) && c == decode_first_scalar(s) as char
                &&& buffer_bytes(*final(src)) == s.skip(length_of_first_scalar(s))
            } else if char_unfinished(s) {
                &&& r matches Ok(None)
                &&& buffer_bytes(*final(src)) == s
            } else {
                &&& r matches Err(e) && e == ReadError::InvalidChar
                &&& buffer_bytes(*final(src)) == s.skip(char_given_up(s))
            }
        }),
{
    let n: usize = buffer_len(src);
    let ghost s = buffer_bytes(*src);
    proof {
        lemma_char_complete_or_unfinished(s);
    }
    match decode_char(src) {
        Ok(c) => Ok(c),
        Err(_) => {
            proof {
                lemma_char_given_up(s, seq![]);
            }
            if buffer_len(src) == n {
                skip_no_char(src);
            }
            Err(ReadError::InvalidChar)
        },
    }
}

/// `CoreNameEncoder::encode`: appends the UTF-8 encoding of the string with its
/// length in front; fails, and appends nothing, if the length does not fit in
/// 32 bits.
#[verifier::external_body]
pub(crate) fn encode_name(dst: &mut BytesMut, s: &str) -> (r: Result<(), std::io::Error>)
    ensures
        r is Ok <==> encode_utf8(s@).len() <= u32::MAX,
        r is Ok ==> buffer_bytes(*final(dst)) == buffer_bytes(*old(dst)) + prefixed(
            encode_utf8(s@),
        ),
        r is Err ==> buffer_bytes(*final(dst)) == buffer_bytes(*old(dst)),
{
    CoreNameEncoder.encode(s, dst)
}

/// `CoreVecEncoderBytes::encode`: appends the bytes with their length in front;
/// fails, and appends nothing, if the length does not fit in 32 bits.
#[verifier::external_body]
pub(crate) fn encode_prefixed(dst: &mut BytesMut, bytes: &[u8]) -> (r: Result<(), std::io::Error>)
    ensures
        r is Ok <==> bytes@.len() <= u32::MAX,
        r is Ok ==> buffer_bytes(*final(dst)) == buffer_bytes(*old(dst)) + prefixed(bytes@),
        r is Err ==> buffer_bytes(*final(dst)) == buffer_bytes(*old(dst)),
{
    CoreVecEncoderBytes.encode(bytes, dst)
}

/// `std::string::FromUtf8Error`, of which nothing is known.
#[verifier::external_type_specification]
#[verifier::external_body]
pub struct ExFromUtf8Error(std::string::FromUtf8Error);

/// `String::from_utf8`: the string that the bytes encode, if they are UTF-8.
#[verifier::external_body]
pub(crate) fn string_from_utf8(bytes: Vec<u8>) -> (r: Result<
    String,
    std::string::FromUtf8Error,
>)
    ensures
        valid_utf8(bytes@) ==> r is Ok && r->Ok_0@ == decode_utf8(bytes@),
        !valid_utf8(bytes@) ==> r is Err,
{
    String::from_utf8(bytes)
}

/// A character is never both complete and unfinished.
pub proof fn lemma_char_complete_or_unfinished(s: Seq<u8>)
    ensures
        !(valid_first_scalar(s) && char_unfinished(s)),
{
}

/// Bytes that follow do not change what was read.
pub proof fn lemma_char_extends(s: Seq<u8>, t: Seq<u8>)
    requires
        !char_unfinished(s),
    ensures
        !char_unfinished(s + t),
        valid_first_scalar(s + t) == valid_first_scalar(s),
        valid_first_scalar(s) ==> decode_first_scalar(s + t) == decode_first_scalar(s)
            && length_of_first_scalar(s + t) == length_of_first_scalar(s),
        valid_first_scalar(s) ==> length_of_first_scalar(s) <= s.len(),
{
    let u = s + t;
    assert(forall|i: int| 0 <= i < s.len() ==> u[i] == s[i]);
    if valid_first_scalar(u) && !valid_first_scalar(s) {
        // Only an overlong encoding is refused before its last byte is seen.
        if is_leading_byte_width_2(u[0]) {
            let (a, b) = (u[0], u[1]);
            assert(0xc0 <= a < 0xc2 ==> codepoint_width_2(a, b) < 0x80) by (bit_vector);
        } else if is_leading_byte_width_3(u[0]) {
            let (a, b, c) = (u[0], u[1], u[2]);
            assert(a == 0xe0 && 0x80 <= b < 0xa0 ==> codepoint_width_3(a, b, c) < 0x800)
                by (bit_vector);
        } else if is_leading_byte_width_4(u[0]) {
            let (a, b, c, d) = (u[0], u[1], u[2], u[3]);
            assert(a == 0xf0 && 0x80 <= b < 0x90 ==> codepoint_width_4(a, b, c, d) < 0x10000)
                by (bit_vector);
        }
    }
}

/// The byte that shows that there is no character is there, and bytes that follow
/// do not change which one it is.
pub proof fn lemma_char_given_up(s: Seq<u8>, t: Seq<u8>)
    requires
        !valid_first_scalar(s),
        !char_unfinished(s),
    ensures
        1 <= char_given_up(s) <= s.len(),
        char_given_up(s + t) == char_given_up(s),
{
    let u = s + t;
    assert(forall|i: int| 0 <= i < s.len() ==> u[i] == s[i]);
    if s.len() >= 2 {
        assert(u.take(2) =~= s.take(2));
    }
}

/// A character that was written reads back as itself, whatever follows.
pub proof fn lemma_char_roundtrip(c: char, rest: Seq<u8>)
    ensures
        valid_first_scalar(encode_scalar(c as u32) + rest),
        !char_unfinished(encode_scalar(c as u32) + rest),
        decode_first_scalar(encode_scalar(c as u32) + rest) as char == c,
        length_of_first_scalar(encode_scalar(c as u32) + rest) == encode_scalar(c as u32).len(),
{
    let bytes = encode_scalar(c as u32);
    assert(encode_utf8(seq![c]) =~= bytes) by {
        assert(seq![c].drop_first() =~= Seq::<char>::empty());
        reveal_with_fuel(encode_utf8, 2);
    }
    vstd::utf8::encode_utf8_first_scalar(seq![c]);
    lemma_char_complete_or_unfinished(bytes);
    lemma_char_extends(bytes, rest);
}

/// A reader that goes byte by byte gives up on a character at the first byte that
/// shows that there is none: with the bytes before it there could still be one,
/// with it there cannot.
pub proof fn law_chars_are_given_up_at_the_first_wrong_byte(s: Seq<u8>)
    requires
        !valid_first_scalar(s),
        !char_unfinished(s),
    ensures
        1 <= char_given_up(s) <= s.len(),
        char_unfinished(s.take(char_given_up(s) - 1)),
        !char_unfinished(s.take(char_given_up(s))),
        !valid_first_scalar(s.take(char_given_up(s))),
{
    lemma_char_given_up(s, seq![]);
    let k = char_given_up(s);
    let front = s.take(k);
    assert(forall|i: int| 0 <= i < k ==> front[i] == s[i]);
    assert(front + s.skip(k) =~= s);
    if s.len() >= 2 {
        assert(s.take(2)[0] == s[0] && s.take(2)[1] == s[1]);
    }
    if !char_unfinished(front) {
        lemma_char_extends(front, s.skip(k));
    }
}

} // verus!
