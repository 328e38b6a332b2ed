//! Flags on the wire: a bit for each name of the type, the first name in the
//! lowest bit of the first byte.

use vstd::prelude::*;

use crate::val::names_of;

verus! {

/// Bit `k` of a byte.
pub open spec fn bit(b: u8, k: int) -> bool {
    b & (1u8 << (k as u8)) != 0
}

/// How many bytes the flags of a type with `n` names take.
pub open spec fn flag_byte_count(n: nat) -> nat {
    if n <= 8 {
        1
    } else {
        (n + 7) / 8
    }
}

/// Whether the type has a name at `i` that is among `flags`.
pub open spec fn flag_set(names: Seq<Seq<char>>, flags: Seq<Seq<char>>, i: int) -> bool {
    0 <= i < names.len() && flags.contains(names[i])
}

/// Byte `j` of the flags.
pub open spec fn flag_byte(names: Seq<Seq<char>>, flags: Seq<Seq<char>>, j: int) -> u8 {
    (if flag_set(names, flags, 8 * j) {
        1u8
    } else {
        0
    }) | (if flag_set(names, flags, 8 * j + 1) {
        2u8
    } else {
        0
    }) | (if flag_set(names, flags, 8 * j + 2) {
        4u8
    } else {
        0
    }) | (if flag_set(names, flags, 8 * j + 3) {
        8u8
    } else {
        0
    }) | (if flag_set(names, flags, 8 * j + 4) {
        16u8
    } else {
        0
    }) | (if flag_set(names, flags, 8 * j + 5) {
        32u8
    } else {
        0
    }) | (if flag_set(names, flags, 8 * j + 6) {
        64u8
    } else {
        0
    }) | (if flag_set(names, flags, 8 * j + 7) {
        128u8
    } else {
        0
    })
}

/// The bytes of the flags of a type with these names.
pub open spec fn flag_bytes(names: Seq<Seq<char>>, flags: Seq<Seq<char>>) -> Seq<u8> {
    Seq::new(flag_byte_count(names.len()), |j: int| flag_byte(names, flags, j))
}

/// The names among the first `n` whose bits are set, in the order of the type.
pub open spec fn flags_chosen(names: Seq<Seq<char>>, bytes: Seq<u8>, n: nat) -> Seq<Seq<char>>
    decreases n,
{
    if n == 0 {
        seq![]
    } else {
        let front = flags_chosen(names, bytes, (n - 1) as nat);
        if bit(bytes[(n - 1) / 8], (n - 1) % 8) {
            front.push(names[n - 1])
        } else {
            front
        }
    }
}

/// A bit of a byte of the flags tells whether the name is among them.
pub proof fn lemma_flag_byte_bits(names: Seq<Seq<char>>, flags: Seq<Seq<char>>, j: int, k: int)
    requires
        0 <= k < 8,
    ensures
        bit(flag_byte(names, flags, j), k) == flag_set(names, flags, 8 * j + k),
{
    let a0 = flag_set(names, flags, 8 * j);
    let a1 = flag_set(names, flags, 8 * j + 1);
    let a2 = flag_set(names, flags, 8 * j + 2);
    let a3 = flag_set(names, flags, 8 * j + 3);
    let a4 = flag_set(names, flags, 8 * j + 4);
    let a5 = flag_set(names, flags, 8 * j + 5);
    let a6 = flag_set(names, flags, 8 * j + 6);
    let a7 = flag_set(names, flags, 8 * j + 7);
    let b = flag_byte(names, flags, j);
    let kk = k as u8;
    assert(kk < 8 && b == (if a0 { 1u8 } else { 0 }) | (if a1 { 2u8 } else { 0 }) | (if a2 {
        4u8
    } else {
        0
    }) | (if a3 { 8u8 } else { 0 }) | (if a4 { 16u8 } else { 0 }) | (if a5 { 32u8 } else { 0 }) | (
    if a6 { 64u8 } else { 0 }) | (if a7 { 128u8 } else { 0 }) ==> (b & (1u8 << kk) != 0) == (
    if kk == 0 {
        a0
    } else if kk == 1 {
        a1
    } else if kk == 2 {
        a2
    } else if kk == 3 {
        a3
    } else if kk == 4 {
        a4
    } else if kk == 5 {
        a5
    } else if kk == 6 {
        a6
    } else {
        a7
    })) by (bit_vector);
}

/// Two bytes with the same bits are the same.
proof fn lemma_same_bits(a: u8, b: u8)
    requires
        forall|k: int| 0 <= k < 8 ==> bit(a, k) == bit(b, k),
    ensures
        a == b,
{
    assert(bit(a, 0) == bit(b, 0));
    assert(bit(a, 1) == bit(b, 1));
    assert(bit(a, 2) == bit(b, 2));
    assert(bit(a, 3) == bit(b, 3));
    assert(bit(a, 4) == bit(b, 4));
    assert(bit(a, 5) == bit(b, 5));
    assert(bit(a, 6) == bit(b, 6));
    assert(bit(a, 7) == bit(b, 7));
    assert({
        &&& (a & (1u8 << 0u8) != 0) == (b & (1u8 << 0u8) != 0)
        &&& (a & (1u8 << 1u8) != 0) == (b & (1u8 << 1u8) != 0)
        &&& (a & (1u8 << 2u8) != 0) == (b & (1u8 << 2u8) != 0)
        &&& (a & (1u8 << 3u8) != 0) == (b & (1u8 << 3u8) != 0)
        &&& (a & (1u8 << 4u8) != 0) == (b & (1u8 << 4u8) != 0)
        &&& (a & (1u8 << 5u8) != 0) == (b & (1u8 << 5u8) != 0)
        &&& (a & (1u8 << 6u8) != 0) == (b & (1u8 << 6u8) != 0)
        &&& (a & (1u8 << 7u8) != 0) == (b & (1u8 << 7u8) != 0)
    } ==> a == b) by (bit_vector);
}

/// Whether `name` is one of `names`.
fn contains_name(names: &Vec<String>, name: &String) -> (found: bool)
    ensures
        found == names_of(names@).contains(name@),
{
    for i in 0..names.len()
        invariant
            forall|j: int| 0 <= j < i ==> names@[j]@ != name@,
    {
        if names[i] == *name {
            assert(names_of(names@)[i as int] == name@);
            return true;
        }
    }
    false
}

/// The bytes of `flags` under a type with these names: bit `i` is set if and
/// only if name `i` is among the flags. A flag that the type does not name
/// leaves no trace.
pub fn flag_bits(names: &Vec<String>, flags: &Vec<String>) -> (bytes: Vec<u8>)
    ensures
        bytes@ == flag_bytes(names_of(names@), names_of(flags@)),
{
    let n: usize = names.len();
    let mut count: usize = n / 8;
    if n % 8 != 0 {
        count = count + 1;
    }
    if count == 0 {
        count = 1;
    }
    let ghost ns = names_of(names@);
    let ghost fs = names_of(flags@);
    let mut bytes: Vec<u8> = vec![0u8; count];
    assert forall|j: int, k: int| 0 <= j < count && 0 <= k < 8 implies !#[trigger] bit(
        bytes@[j],
        k,
    ) by {
        let kk = k as u8;
        assert(0u8 & (1u8 << kk) == 0) by (bit_vector);
    }
    for i in 0..n
        invariant
            n == names@.len(),
            count == flag_byte_count(n as nat),
            bytes@.len() == count,
            ns == names_of(names@),
            fs == names_of(flags@),
            forall|j: int, k: int|
                0 <= j < count && 0 <= k < 8 ==> #[trigger] bit(bytes@[j], k) == (8 * j + k < i
                    && flag_set(ns, fs, 8 * j + k)),
    {
        let ghost before = bytes@;
        if contains_name(flags, &names[i]) {
            let b: u8 = bytes[i / 8];
            let shift: u8 = (i % 8) as u8;
            bytes.set(i / 8, b | (1u8 << shift));
            assert forall|j: int, k: int| 0 <= j < count && 0 <= k < 8 implies #[trigger] bit(
                bytes@[j],
                k,
            ) == (8 * j + k < i + 1 && flag_set(ns, fs, 8 * j + k)) by {
                assert(bit(before[j], k) == (8 * j + k < i && flag_set(ns, fs, 8 * j + k)));
                if j == i / 8 {
                    let kk = k as u8;
                    assert(kk < 8 && shift < 8 ==> ((b | (1u8 << shift)) & (1u8 << kk) != 0) == ((b
                        & (1u8 << kk) != 0) || kk == shift)) by (bit_vector);
                }
            }
        }
    }
    assert forall|j: int| 0 <= j < count implies bytes@[j] == flag_byte(ns, fs, j) by {
        assert forall|k: int| 0 <= k < 8 implies bit(bytes@[j], k) == bit(
            flag_byte(ns, fs, j),
            k,
        ) by {
            lemma_flag_byte_bits(ns, fs, j, k);
        }
        lemma_same_bits(bytes@[j], flag_byte(ns, fs, j));
    }
    assert(bytes@ =~= flag_bytes(ns, fs));
    bytes
}

/// The names of the type whose bits are set in `bytes`, in the order of the
/// type.
pub fn chosen_flags(names: &Vec<String>, bytes: &Vec<u8>) -> (flags: Vec<String>)
    requires
        bytes@.len() == flag_byte_count(names@.len()),
    ensures
        names_of(flags@) == flags_chosen(names_of(names@), bytes@, names@.len()),
{
    let mut flags: Vec<String> = Vec::new();
    let ghost ns = names_of(names@);
    for i in 0..names.len()
        invariant
            bytes@.len() == flag_byte_count(names@.len()),
            ns == names_of(names@),
            names_of(flags@) =~= flags_chosen(ns, bytes@, i as nat),
    {
        let b: u8 = bytes[i / 8];
        let shift: u8 = (i % 8) as u8;
        if b & (1u8 << shift) != 0 {
            flags.push(names[i].clone());
        }
        assert(flags_chosen(ns, bytes@, (i + 1) as nat) == if bit(b, i as int % 8) {
            flags_chosen(ns, bytes@, i as nat).push(ns[i as int])
        } else {
            flags_chosen(ns, bytes@, i as nat)
        });
    }
    flags
}

/// Flags that were written read back as the names of the type that are among
/// them: each once, in the order of the type.
pub proof fn lemma_flags_roundtrip(names: Seq<Seq<char>>, flags: Seq<Seq<char>>, n: nat)
    requires
        n <= names.len(),
    ensures
        flags_chosen(names, flag_bytes(names, flags), n) == names.take(n as int).filter(
            |name: Seq<char>| flags.contains(name),
        ),
    decreases n,
{
    let keep = |name: Seq<char>| flags.contains(name);
    reveal(Seq::filter);
    if n > 0 {
        lemma_flags_roundtrip(names, flags, (n - 1) as nat);
        lemma_flag_byte_bits(names, flags, (n - 1) / 8, (n - 1) % 8);
        assert(names.take(n as int).drop_last() =~= names.take(n - 1));
    }
}

/// There is a bit for each name, in no more bytes than that takes, but in one at
/// least: bit `i % 8` of byte `i / 8` is set if and only if name `i` is among the
/// flags, and no bit is set that has no name.
pub proof fn law_each_name_has_its_bit(names: Seq<Seq<char>>, flags: Seq<Seq<char>>, i: int)
    requires
        0 <= i < 8 * flag_bytes(names, flags).len(),
    ensures
        flag_bytes(names, flags).len() >= 1,
        names.len() <= 8 * flag_bytes(names, flags).len(),
        flag_bytes(names, flags).len() == 1 || names.len() > 8 * (flag_bytes(names, flags).len()
            - 1),
        (flag_bytes(names, flags)[i / 8] & (1u8 << ((i % 8) as u8)) != 0) <==> i < names.len()
            && flags.contains(names[i]),
{
    lemma_flag_byte_bits(names, flags, i / 8, i % 8);
}

/// The flags that are read are the names whose bits are set, in the order of the
/// type.
pub proof fn law_set_bits_are_the_flags(names: Seq<Seq<char>>, bytes: Seq<u8>, n: nat)
    requires
        n <= names.len(),
    ensures
        flags_chosen(names, bytes, n) == Seq::new(n, |i: int| i).filter(
            |i: int| bytes[i / 8] & (1u8 << ((i % 8) as u8)) != 0,
        ).map_values(|i: int| names[i]),
    decreases n,
{
    reveal(Seq::filter);
    let set = |i: int| bytes[i / 8] & (1u8 << ((i % 8) as u8)) != 0;
    let name = |i: int| names[i];
    if n > 0 {
        law_set_bits_are_the_flags(names, bytes, (n - 1) as nat);
        let all = Seq::new(n, |i: int| i);
        let front = Seq::new((n - 1) as nat, |i: int| i);
        assert(all.drop_last() =~= front);
        let last: int = n - 1;
        if set(last) {
            assert(front.filter(set).push(last).map_values(name) =~= front.filter(set).map_values(
                name,
            ).push(names[last]));
        }
    } else {
        assert(Seq::new(n, |i: int| i).filter(set).map_values(name) =~= seq![]);
    }
}

} // verus!
