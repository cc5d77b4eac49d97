//! Numbers as the wire carries them: least significant byte first.

use vstd::prelude::*;

verus! {

/// The `width` low bytes of `value`, least significant first.
pub open spec fn le_bytes(value: nat, width: nat) -> Seq<u8>
    decreases width,
{
    if width == 0 {
        Seq::empty()
    } else {
        seq![(value % 256) as u8] + le_bytes(value / 256, (width - 1) as nat)
    }
}

/// The number that `bytes` write, least significant first.
pub open spec fn le_value(bytes: Seq<u8>) -> nat
    decreases bytes.len(),
{
    if bytes.len() == 0 {
        0
    } else {
        bytes[0] as nat + 256 * le_value(bytes.drop_first())
    }
}

/// `value` as two's complement of 32 bits writes it.
pub open spec fn twos_complement_32(value: int) -> nat {
    (value % 0x1_0000_0000) as nat
}

/// The signed number that 32 bits of two's complement write.
pub open spec fn signed_32(bits: nat) -> int {
    if bits < 0x8000_0000 {
        bits as int
    } else {
        bits - 0x1_0000_0000
    }
}

/// `value`, or `most` where `value` is more.
pub open spec fn saturated(value: nat, most: nat) -> nat {
    if value <= most {
        value
    } else {
        most
    }
}

/// The number of which the byte at `at` counts ones, and the next 256s.
pub open spec fn u16_at(bytes: Seq<u8>, at: int) -> int {
    bytes[at] + 256 * bytes[at + 1]
}

/// The number of which the byte at `at` counts ones, and each byte behind it
/// 256 times as much as the one before.
pub open spec fn u32_at(bytes: Seq<u8>, at: int) -> int {
    bytes[at] + 256 * bytes[at + 1] + 0x1_0000 * bytes[at + 2] + 0x100_0000 * bytes[at + 3]
}

/// The bytes of a number of two bytes, or four, one by one.
pub proof fn lemma_le_bytes_unfold(value: nat)
    ensures
        le_bytes(value, 2) =~= seq![(value % 256) as u8, (value / 256 % 256) as u8],
        le_bytes(value, 4) =~= seq![
            (value % 256) as u8,
            (value / 256 % 256) as u8,
            (value / 0x1_0000 % 256) as u8,
            (value / 0x100_0000 % 256) as u8,
        ],
{
    reveal_with_fuel(le_bytes, 5);
    assert(value / 256 / 256 == value / 0x1_0000);
    assert(value / 256 / 256 / 256 == value / 0x100_0000);
}

/// The number that two bytes, or four, write, byte by byte.
pub proof fn lemma_le_value_unfold(bytes: Seq<u8>)
    ensures
        bytes.len() == 2 ==> le_value(bytes) == bytes[0] + 256 * bytes[1],
        bytes.len() == 4 ==> le_value(bytes) == bytes[0] + 256 * bytes[1] + 0x1_0000 * bytes[2]
            + 0x100_0000 * bytes[3],
{
    reveal_with_fuel(le_value, 5);
}

/// Little-endian bytes are as many as they are asked to be.
pub proof fn lemma_le_bytes_len(value: nat, width: nat)
    ensures
        le_bytes(value, width).len() == width,
    decreases width,
{
    if width > 0 {
        lemma_le_bytes_len(value / 256, (width - 1) as nat);
    }
}

/// Law: a number that fits two bytes, or four, reads back from the bytes
/// that write it.
pub proof fn law_le_reads_back(value: nat)
    ensures
        value < 0x1_0000 ==> le_value(le_bytes(value, 2)) == value,
        value < 0x1_0000_0000 ==> le_value(le_bytes(value, 4)) == value,
{
    lemma_le_bytes_unfold(value);
    lemma_le_value_unfold(le_bytes(value, 2));
    lemma_le_value_unfold(le_bytes(value, 4));
}

/// Law: of the bytes that write a number, the first counts ones and each
/// other 256 times as much as the one before it.
pub proof fn law_first_byte_counts_ones(value: nat)
    ensures
        le_bytes(value, 2).len() == 2,
        le_bytes(value, 4).len() == 4,
        u16_at(le_bytes(value, 2), 0) == value % 0x1_0000,
        u32_at(le_bytes(value, 4), 0) == value % 0x1_0000_0000,
{
    lemma_le_bytes_unfold(value);
    let (second, third, fourth, over) = (
        value / 256,
        value / 0x1_0000,
        value / 0x100_0000,
        value / 0x1_0000_0000,
    );
    assert(value == 256 * second + value % 256);
    assert(second == 256 * third + second % 256) by {
        assert(second / 256 == third);
    }
    assert(third == 256 * fourth + third % 256) by {
        assert(third / 256 == fourth);
    }
    assert(fourth == 256 * over + fourth % 256) by {
        assert(fourth / 256 == over);
    }
    assert(u16_at(le_bytes(value, 2), 0) == value - 0x1_0000 * third);
    assert(u32_at(le_bytes(value, 4), 0) == value - 0x1_0000_0000 * over);
}

/// Law: the number that two bytes, or four, write is the one of which the
/// first counts ones and each other 256 times as much as the one before it.
pub proof fn law_first_byte_is_read_as_ones(bytes: Seq<u8>, at: int)
    ensures
        0 <= at && at + 2 <= bytes.len() ==> le_value(bytes.subrange(at, at + 2)) == u16_at(
            bytes,
            at,
        ),
        0 <= at && at + 4 <= bytes.len() ==> le_value(bytes.subrange(at, at + 4)) == u32_at(
            bytes,
            at,
        ),
{
    if 0 <= at && at + 2 <= bytes.len() {
        lemma_le_value_unfold(bytes.subrange(at, at + 2));
    }
    if 0 <= at && at + 4 <= bytes.len() {
        lemma_le_value_unfold(bytes.subrange(at, at + 4));
    }
}

/// Law: a signed number and the 32 bits that write it differ by a multiple of
/// two to the power of 32, both ways.
pub proof fn law_twos_complement_wraps_once(bits: nat, value: int)
    requires
        bits < 0x1_0000_0000,
        -0x8000_0000 <= value < 0x8000_0000,
    ensures
        -0x8000_0000 <= signed_32(bits) < 0x8000_0000,
        signed_32(bits) == bits || signed_32(bits) == bits - 0x1_0000_0000,
        twos_complement_32(value) == value || twos_complement_32(value) == value + 0x1_0000_0000,
{
}

/// Law: a signed number of 32 bits reads back from its two's complement.
pub proof fn law_twos_complement_reads_back(value: int)
    requires
        -0x8000_0000 <= value < 0x8000_0000,
    ensures
        twos_complement_32(value) < 0x1_0000_0000,
        signed_32(twos_complement_32(value)) == value,
{
}

/// Write `bytes` at the end of `out`.
pub fn put_bytes(out: &mut Vec<u8>, bytes: &[u8])
    ensures
        final(out)@ == old(out)@ + bytes@,
{
    let ghost before = out@;
    out.extend_from_slice(bytes);
    assert(out@ =~= before + bytes@);
}

/// Write `value` in two bytes at the end of `out`.
pub fn put_u16(out: &mut Vec<u8>, value: u16)
    ensures
        final(out)@ == old(out)@ + le_bytes(value as nat, 2),
{
    proof {
        lemma_le_bytes_unfold(value as nat);
    }
    out.push((value % 256) as u8);
    out.push((value / 256) as u8);
}

/// Write `value` in four bytes at the end of `out`.
pub fn put_u32(out: &mut Vec<u8>, value: u32)
    ensures
        final(out)@ == old(out)@ + le_bytes(value as nat, 4),
{
    proof {
        lemma_le_bytes_unfold(value as nat);
    }
    out.push((value % 256) as u8);
    out.push((value / 256 % 256) as u8);
    out.push((value / 0x1_0000 % 256) as u8);
    out.push((value / 0x100_0000) as u8);
}

/// Write `value` in four bytes of two's complement at the end of `out`.
pub fn put_i32(out: &mut Vec<u8>, value: i32)
    ensures
        final(out)@ == old(out)@ + le_bytes(twos_complement_32(value as int), 4),
{
    let bits: u32 = if value < 0 {
        (value as i64 + 0x1_0000_0000) as u32
    } else {
        value as u32
    };
    put_u32(out, bits);
}

/// The number in the two bytes of `bytes` from `at`.
pub fn get_u16(bytes: &[u8], at: usize) -> (value: u16)
    requires
        at + 2 <= bytes@.len(),
    ensures
        value == le_value(bytes@.subrange(at as int, at + 2)),
{
    proof {
        lemma_le_value_unfold(bytes@.subrange(at as int, at + 2));
    }
    bytes[at] as u16 + 256 * bytes[at + 1] as u16
}

/// The number in the four bytes of `bytes` from `at`.
pub fn get_u32(bytes: &[u8], at: usize) -> (value: u32)
    requires
        at + 4 <= bytes@.len(),
    ensures
        value == le_value(bytes@.subrange(at as int, at + 4)),
{
    proof {
        lemma_le_value_unfold(bytes@.subrange(at as int, at + 4));
    }
    bytes[at] as u32 + 256 * bytes[at + 1] as u32 + 0x1_0000 * bytes[at + 2] as u32 + 0x100_0000
        * bytes[at + 3] as u32
}

/// The signed number in the four bytes of `bytes` from `at`.
pub fn get_i32(bytes: &[u8], at: usize) -> (value: i32)
    requires
        at + 4 <= bytes@.len(),
    ensures
        value == signed_32(le_value(bytes@.subrange(at as int, at + 4))),
{
    let bits: u32 = get_u32(bytes, at);
    if bits < 0x8000_0000 {
        bits as i32
    } else {
        (bits as i64 - 0x1_0000_0000) as i32
    }
}

} // verus!
