//! Little-endian integers: what the bytes of a number are, and what number
//! bytes spell.

use vstd::prelude::*;

verus! {

/// The lowest byte of `v` in two's complement: its digit of weight one in
/// base 256.
pub open spec fn low_byte(v: int) -> u8 {
    (v % 256) as u8
}

/// The `n` low-order bytes of `v` in two's complement, least significant byte
/// first, for the widths of the wire format: one, two, four and eight bytes.
pub open spec fn le_bytes(v: int, n: nat) -> Seq<u8> {
    let v1 = v / 256;
    let v2 = v1 / 256;
    let v3 = v2 / 256;
    let v4 = v3 / 256;
    let v5 = v4 / 256;
    let v6 = v5 / 256;
    let v7 = v6 / 256;
    if n == 1 {
        seq![low_byte(v)]
    } else if n == 2 {
        seq![low_byte(v), low_byte(v1)]
    } else if n == 4 {
        seq![low_byte(v), low_byte(v1), low_byte(v2), low_byte(v3)]
    } else if n == 8 {
        seq![
            low_byte(v),
            low_byte(v1),
            low_byte(v2),
            low_byte(v3),
            low_byte(v4),
            low_byte(v5),
            low_byte(v6),
            low_byte(v7),
        ]
    } else {
        Seq::empty()
    }
}

/// The natural number that the bytes `s` spell, least significant byte first,
/// where `s` has one of the widths of the wire format.
pub open spec fn le_unsigned(s: Seq<u8>) -> nat {
    if s.len() == 1 {
        s[0] as nat
    } else if s.len() == 2 {
        s[0] as nat + 0x100 * s[1] as nat
    } else if s.len() == 4 {
        s[0] as nat + 0x100 * s[1] as nat + 0x1_0000 * s[2] as nat + 0x100_0000 * s[3] as nat
    } else if s.len() == 8 {
        s[0] as nat + 0x100 * s[1] as nat + 0x1_0000 * s[2] as nat + 0x100_0000 * s[3] as nat
            + 0x1_0000_0000 * s[4] as nat + 0x100_0000_0000 * s[5] as nat + 0x1_0000_0000_0000
            * s[6] as nat + 0x100_0000_0000_0000 * s[7] as nat
    } else {
        0
    }
}

/// The number of values that `n` bytes can hold, for the widths of the wire
/// format.
pub open spec fn radix(n: nat) -> nat {
    if n == 1 {
        0x100
    } else if n == 2 {
        0x1_0000
    } else if n == 4 {
        0x1_0000_0000
    } else if n == 8 {
        0x1_0000_0000_0000_0000
    } else {
        1
    }
}

/// Whether `n` is one of the widths of the wire format.
pub open spec fn is_width(n: nat) -> bool {
    n == 1 || n == 2 || n == 4 || n == 8
}

/// The integer that the bytes `s` spell in two's complement, least
/// significant byte first, where `s` has one of the widths of the wire
/// format.
pub open spec fn le_signed(s: Seq<u8>) -> int {
    if 2 * le_unsigned(s) >= radix(s.len()) {
        le_unsigned(s) - radix(s.len())
    } else {
        le_unsigned(s) as int
    }
}

/// Reading back the bytes of a natural number that `n` bytes can hold gives
/// the number.
#[verifier::rlimit(50)]
pub proof fn lemma_le_unsigned_inverts(v: int, n: nat)
    requires
        is_width(n),
        0 <= v < radix(n),
    ensures
        le_bytes(v, n).len() == n,
        le_unsigned(le_bytes(v, n)) == v,
{
}

/// Reading back the bytes of an integer within the two's complement range of
/// `n` bytes gives the integer.
#[verifier::rlimit(50)]
pub proof fn lemma_le_signed_inverts(v: int, n: nat)
    requires
        is_width(n),
        -(radix(n) as int) <= 2 * v < radix(n),
    ensures
        le_bytes(v, n).len() == n,
        le_signed(le_bytes(v, n)) == v,
{
}

} // verus!
