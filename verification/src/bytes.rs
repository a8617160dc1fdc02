//! Little-endian numbers inside byte buffers.

use vstd::prelude::*;

verus! {

/// The 16-bit number at `offset`, low byte first.
pub open spec fn le16(data: Seq<u8>, offset: int) -> int {
    data[offset] + 256 * data[offset + 1]
}

/// The 32-bit number at `offset`, low byte first.
pub open spec fn le32(data: Seq<u8>, offset: int) -> int {
    le16(data, offset) + 0x1_0000 * le16(data, offset + 2)
}

/// The 64-bit number at `offset`, low byte first.
pub open spec fn le64(data: Seq<u8>, offset: int) -> int {
    le32(data, offset) + 0x1_0000_0000 * le32(data, offset + 4)
}

/// The two bytes of a 16-bit number, low byte first.
pub open spec fn le16_bytes(value: int) -> Seq<u8> {
    seq![(value % 256) as u8, (value / 256 % 256) as u8]
}

/// The four bytes of a 32-bit number, low byte first.
pub open spec fn le32_bytes(value: int) -> Seq<u8> {
    le16_bytes(value) + le16_bytes(value / 0x1_0000)
}

/// Reads a 16-bit number.
pub fn read_u16(data: &[u8], offset: usize) -> (value: u16)
    requires
        offset + 2 <= data.len(),
    ensures
        value == le16(data@, offset as int),
{
    data[offset] as u16 + 256 * (data[offset + 1] as u16)
}

/// Reads a 32-bit number.
pub fn read_u32(data: &[u8], offset: usize) -> (value: u32)
    requires
        offset + 4 <= data.len(),
    ensures
        value == le32(data@, offset as int),
{
    read_u16(data, offset) as u32 + 0x1_0000 * (read_u16(data, offset + 2) as u32)
}

/// Reads a 64-bit number.
pub fn read_u64(data: &[u8], offset: usize) -> (value: u64)
    requires
        offset + 8 <= data.len(),
    ensures
        value == le64(data@, offset as int),
{
    read_u32(data, offset) as u64 + 0x1_0000_0000 * (read_u32(data, offset + 4) as u64)
}

/// The signed number with the bit pattern of a 64-bit number.
pub open spec fn signed64(value: int) -> int {
    if value < 0x8000_0000_0000_0000 {
        value
    } else {
        value - 0x1_0000_0000_0000_0000
    }
}

/// Reads a signed 64-bit number.
pub fn read_i64(data: &[u8], offset: usize) -> (value: i64)
    requires
        offset + 8 <= data.len(),
    ensures
        value == signed64(le64(data@, offset as int)),
{
    let value: u64 = read_u64(data, offset);
    if value < 0x8000_0000_0000_0000 {
        value as i64
    } else {
        -((u64::MAX - value) as i64) - 1
    }
}

/// Appends a 16-bit number.
pub fn push_u16(output: &mut Vec<u8>, value: u16)
    ensures
        final(output)@ == old(output)@ + le16_bytes(value as int),
{
    let ghost before = output@;
    output.push((value % 256) as u8);
    output.push((value / 256) as u8);
    proof {
        assert(output@ =~= before + le16_bytes(value as int));
    }
}

proof fn lemma_low_half(value: int)
    ensures
        le16_bytes(value % 0x1_0000) == le16_bytes(value),
{
    assert(value % 0x1_0000 % 256 == value % 256);
    assert(value % 0x1_0000 / 256 % 256 == value / 256 % 256);
}

/// Appends a 32-bit number.
pub fn push_u32(output: &mut Vec<u8>, value: u32)
    ensures
        final(output)@ == old(output)@ + le32_bytes(value as int),
{
    let ghost before = output@;
    proof {
        lemma_low_half(value as int);
    }
    push_u16(output, (value % 0x1_0000) as u16);
    push_u16(output, (value / 0x1_0000) as u16);
    proof {
        assert(output@ =~= before + le32_bytes(value as int));
    }
}

/// What is written as two or four bytes is read back as the same number.
pub proof fn lemma_le_round_trip(value: int)
    ensures
        0 <= value < 0x1_0000 ==> le16(le16_bytes(value), 0) == value,
        0 <= value < 0x1_0000_0000 ==> le32(le32_bytes(value), 0) == value,
{
}

/// The number that `count` bytes from `offset` on are, each counting 256 times as much as the one before.
pub open spec fn little_endian(data: Seq<u8>, offset: int, count: nat) -> int
    decreases count,
{
    if count == 0 {
        0
    } else {
        data[offset] + 256 * little_endian(data, offset + 1, (count - 1) as nat)
    }
}

/// Numbers of two, four and eight bytes are read low byte first, with every byte.
pub proof fn lemma_numbers_are_little_endian(data: Seq<u8>, offset: int)
    ensures
        le16(data, offset) == little_endian(data, offset, 2),
        le32(data, offset) == little_endian(data, offset, 4),
        le64(data, offset) == little_endian(data, offset, 8),
        0 <= little_endian(data, offset, 2) < 0x1_0000,
        0 <= little_endian(data, offset, 4) < 0x1_0000_0000,
        0 <= little_endian(data, offset, 8) < 0x1_0000_0000_0000_0000,
{
    reveal_with_fuel(little_endian, 9);
}

/// Reading a number gives what its bytes are.
pub proof fn lemma_reading_is_little_endian(
    data: &[u8],
    offset: usize,
    two: u16,
    four: u32,
    eight: u64,
    signed: i64,
)
    requires
        offset + 8 <= data@.len(),
        call_ensures(read_u16, (data, offset), two),
        call_ensures(read_u32, (data, offset), four),
        call_ensures(read_u64, (data, offset), eight),
        call_ensures(read_i64, (data, offset), signed),
    ensures
        two == little_endian(data@, offset as int, 2),
        four == little_endian(data@, offset as int, 4),
        eight == little_endian(data@, offset as int, 8),
        signed == if data@[offset + 7] < 128 {
            eight as int
        } else {
            eight - 0x1_0000_0000_0000_0000
        },
{
    lemma_numbers_are_little_endian(data@, offset as int);
}

/// A number that is written is appended low byte first, and nothing before it changes.
pub proof fn lemma_writing_is_little_endian(
    output: &mut Vec<u8>,
    two: u16,
    written: (),
    other: &mut Vec<u8>,
    four: u32,
    other_written: (),
    i: int,
)
    requires
        call_ensures(push_u16, (output, two), written),
        call_ensures(push_u32, (other, four), other_written),
        0 <= i,
    ensures
        final(output)@.len() == old(output)@.len() + 2,
        final(other)@.len() == old(other)@.len() + 4,
        little_endian(final(output)@, old(output)@.len() as int, 2) == two,
        little_endian(final(other)@, old(other)@.len() as int, 4) == four,
        i < old(output)@.len() ==> final(output)@[i] == old(output)@[i],
        i < old(other)@.len() ==> final(other)@[i] == old(other)@[i],
{
    let start = old(output)@.len() as int;
    let other_start = old(other)@.len() as int;
    lemma_numbers_are_little_endian(final(output)@, start);
    lemma_numbers_are_little_endian(final(other)@, other_start);
    lemma_le_round_trip(two as int);
    lemma_le_round_trip(four as int);
}

} // verus!
