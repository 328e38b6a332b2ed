//! The handles by which a peer names a shared resource: UUIDs, held as the
//! 128-bit numbers that they spell.

use uuid::Uuid;
use vstd::prelude::*;

verus! {

/// Byte `k` of the number, the most significant one first.
pub open spec fn handle_byte(id: u128, k: u128) -> u8 {
    ((id >> ((8 * (15 - k)) as u128)) & 0xff) as u8
}

/// A handle as it is written: the three leading fields of the UUID in
/// little-endian order, its other bytes as they stand.
pub open spec fn handle_bytes(id: u128) -> Seq<u8> {
    seq![
        handle_byte(id, 3),
        handle_byte(id, 2),
        handle_byte(id, 1),
        handle_byte(id, 0),
        handle_byte(id, 5),
        handle_byte(id, 4),
        handle_byte(id, 7),
        handle_byte(id, 6),
        handle_byte(id, 8),
        handle_byte(id, 9),
        handle_byte(id, 10),
        handle_byte(id, 11),
        handle_byte(id, 12),
        handle_byte(id, 13),
        handle_byte(id, 14),
        handle_byte(id, 15),
    ]
}

/// The handle that is written with these sixteen bytes.
pub open spec fn handle_of(bytes: Seq<u8>) -> u128 {
    ((bytes[0] as u128) << 96u128)
        | ((bytes[1] as u128) << 104u128)
        | ((bytes[2] as u128) << 112u128)
        | ((bytes[3] as u128) << 120u128)
        | ((bytes[4] as u128) << 80u128)
        | ((bytes[5] as u128) << 88u128)
        | ((bytes[6] as u128) << 64u128)
        | ((bytes[7] as u128) << 72u128)
        | ((bytes[8] as u128) << 56u128)
        | ((bytes[9] as u128) << 48u128)
        | ((bytes[10] as u128) << 40u128)
        | ((bytes[11] as u128) << 32u128)
        | ((bytes[12] as u128) << 24u128)
        | ((bytes[13] as u128) << 16u128)
        | ((bytes[14] as u128) << 8u128)
        | ((bytes[15] as u128) << 0u128)
}

/// Two handles that are written alike are the same.
pub proof fn lemma_handle_bytes_injective(a: u128, b: u128)
    requires
        handle_bytes(a) == handle_bytes(b),
    ensures
        a == b,
{
    let x = handle_bytes(a);
    let y = handle_bytes(b);
    assert(forall|i: int| 0 <= i < 16 ==> x[i] == y[i]);
    assert(x[0] == y[0] && x[1] == y[1] && x[2] == y[2] && x[3] == y[3]);
    assert(x[4] == y[4] && x[5] == y[5] && x[6] == y[6] && x[7] == y[7]);
    assert(x[8] == y[8] && x[9] == y[9] && x[10] == y[10] && x[11] == y[11]);
    assert(x[12] == y[12] && x[13] == y[13] && x[14] == y[14] && x[15] == y[15]);
    assert({
        &&& handle_byte(a, 0) == handle_byte(b, 0)
        &&& handle_byte(a, 1) == handle_byte(b, 1)
        &&& handle_byte(a, 2) == handle_byte(b, 2)
        &&& handle_byte(a, 3) == handle_byte(b, 3)
        &&& handle_byte(a, 4) == handle_byte(b, 4)
        &&& handle_byte(a, 5) == handle_byte(b, 5)
        &&& handle_byte(a, 6) == handle_byte(b, 6)
        &&& handle_byte(a, 7) == handle_byte(b, 7)
        &&& handle_byte(a, 8) == handle_byte(b, 8)
        &&& handle_byte(a, 9) == handle_byte(b, 9)
        &&& handle_byte(a, 10) == handle_byte(b, 10)
        &&& handle_byte(a, 11) == handle_byte(b, 11)
        &&& handle_byte(a, 12) == handle_byte(b, 12)
        &&& handle_byte(a, 13) == handle_byte(b, 13)
        &&& handle_byte(a, 14) == handle_byte(b, 14)
        &&& handle_byte(a, 15) == handle_byte(b, 15)
    } ==> a == b) by (bit_vector);
}

/// Sixteen bytes are those of their handle, and of no other.
pub proof fn lemma_handle_of(bytes: Seq<u8>)
    requires
        bytes.len() == 16,
    ensures
        handle_bytes(handle_of(bytes)) == bytes,
        forall|id: u128| #[trigger] handle_bytes(id) == bytes ==> id == handle_of(bytes),
{
    let b0 = bytes[0];
    let b1 = bytes[1];
    let b2 = bytes[2];
    let b3 = bytes[3];
    let b4 = bytes[4];
    let b5 = bytes[5];
    let b6 = bytes[6];
    let b7 = bytes[7];
    let b8 = bytes[8];
    let b9 = bytes[9];
    let b10 = bytes[10];
    let b11 = bytes[11];
    let b12 = bytes[12];
    let b13 = bytes[13];
    let b14 = bytes[14];
    let b15 = bytes[15];
    let id = handle_of(bytes);
    assert(id == (
        ((b0 as u128) << 96u128)
        | ((b1 as u128) << 104u128)
        | ((b2 as u128) << 112u128)
        | ((b3 as u128) << 120u128)
        | ((b4 as u128) << 80u128)
        | ((b5 as u128) << 88u128)
        | ((b6 as u128) << 64u128)
        | ((b7 as u128) << 72u128)
        | ((b8 as u128) << 56u128)
        | ((b9 as u128) << 48u128)
        | ((b10 as u128) << 40u128)
        | ((b11 as u128) << 32u128)
        | ((b12 as u128) << 24u128)
        | ((b13 as u128) << 16u128)
        | ((b14 as u128) << 8u128)
        | ((b15 as u128) << 0u128)
    ) ==> {
        &&& handle_byte(id, 3) == b0
        &&& handle_byte(id, 2) == b1
        &&& handle_byte(id, 1) == b2
        &&& handle_byte(id, 0) == b3
        &&& handle_byte(id, 5) == b4
        &&& handle_byte(id, 4) == b5
        &&& handle_byte(id, 7) == b6
        &&& handle_byte(id, 6) == b7
        &&& handle_byte(id, 8) == b8
        &&& handle_byte(id, 9) == b9
        &&& handle_byte(id, 10) == b10
        &&& handle_byte(id, 11) == b11
        &&& handle_byte(id, 12) == b12
        &&& handle_byte(id, 13) == b13
        &&& handle_byte(id, 14) == b14
        &&& handle_byte(id, 15) == b15
    }) by (bit_vector);
    assert(handle_bytes(id) =~= bytes);
    assert forall|other: u128| #[trigger] handle_bytes(other) == bytes implies other == id by {
        lemma_handle_bytes_injective(other, id);
    }
}

/// `Uuid::to_bytes_le`, of the UUID that the number spells.
#[verifier::external_body]
pub(crate) fn handle_to_bytes(id: u128) -> (bytes: [u8; 16])
    ensures
        bytes@ == handle_bytes(id),
{
    Uuid::from_u128(id).to_bytes_le()
}

/// `Uuid::from_bytes_le`, as the number that the UUID spells: the one that is
/// written with these bytes.
#[verifier::external_body]
pub(crate) fn handle_from_bytes(bytes: [u8; 16]) -> (id: u128)
    ensures
        handle_bytes(id) == bytes@,
{
    Uuid::from_bytes_le(bytes).as_u128()
}

/// `Uuid::now_v7`: a fresh UUID of version 7. It is made from the time and from
/// random bits, so that nothing is said of it but its version and its variant;
/// in particular, that no two calls give the same one is not stated.
#[verifier::external_body]
pub(crate) fn fresh_handle() -> (id: u128)
    ensures
        handle_byte(id, 6) >> 4 == 7,
        handle_byte(id, 8) >> 6 == 2,
{
    Uuid::now_v7().as_u128()
}

} // verus!
