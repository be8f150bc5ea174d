//! The extracted value, bit by bit.
//!
//! The payload is a stream of bits: bit `p` of the stream is bit `p % 8` of
//! byte `p / 8`. A signal is a run of that stream, and bit `k` of its value is
//! bit `k` of the run.

use vstd::prelude::*;
use crate::extract::{higher_part, higher_sum, lower_part, signal_value};

verus! {

/// Bit `k` of a byte.
pub open spec fn byte_bit(byte: u8, k: u32) -> bool {
    (byte >> k) & 1 == 1
}

/// Bit `k` of a 32-bit value.
pub open spec fn value_bit(value: u32, k: u32) -> bool {
    (value >> k) & 1 == 1
}

/// Bit `position` of the payload read as a stream of bits.
pub open spec fn payload_bit(payload: Seq<u8>, position: int) -> bool {
    byte_bit(payload[position / 8], (position % 8) as u32)
}

/// The position in the stream of a signal's least significant bit.
pub open spec fn first_bit(start_byte: int, start_bit: int) -> int {
    8 * (start_byte - 1) + start_bit
}

/// `value` is what stands in the payload at the signal's place: each of its
/// lowest `bit_length` bits is the payload's bit at that offset from the
/// signal's first bit, and its other bits are clear.
pub open spec fn holds_value(
    payload: Seq<u8>,
    start_byte: int,
    start_bit: int,
    bit_length: int,
    value: u32,
) -> bool {
    forall|k: u32|
        k < 32 ==> #[trigger] value_bit(value, k) == (k < bit_length && payload_bit(
            payload,
            first_bit(start_byte, start_bit) + k,
        ))
}

/// The bits of `value` below `shift` are clear.
pub open spec fn low_clear(value: u32, shift: u32) -> bool {
    ((value >> shift) << shift) == value
}

/// Bit `k` of the start byte's contribution is the byte's bit `start_bit + k`
/// for the bits taken, and clear above them.
pub proof fn lemma_lower_part_bit(byte: u8, start_bit: u32, width: u32, k: u32)
    by (bit_vector)
    requires
        start_bit <= 7,
        start_bit + width <= 8,
        k < 8,
    ensures
        byte_bit(lower_part(byte, start_bit, width), k) == (k < width && byte_bit(
            byte,
            (start_bit + k) as u32,
        )),
{
}

/// Bit `k` of a later byte's contribution is the byte's bit `k - shift` for
/// the bits taken, and clear elsewhere.
pub proof fn lemma_higher_part_bit(byte: u8, bits: u32, shift: u32, k: u32)
    by (bit_vector)
    requires
        bits <= 8,
        shift < 32,
        k < 32,
    ensures
        value_bit(higher_part(byte, bits, shift), k) == (shift <= k && k - shift < bits
            && byte_bit(byte, (k - shift) as u32)),
{
}

proof fn lemma_zero_bits(k: u32)
    by (bit_vector)
    requires
        k < 32,
    ensures
        !value_bit(0u32, k),
{
}

proof fn lemma_join(byte: u8, bits: u32, shift: u32, rest: u32, k: u32)
    by (bit_vector)
    requires
        1 <= bits <= 8,
        shift + bits <= 32,
        k < 32,
        rest == 0 || (bits == 8 && shift + 8 < 32 && low_clear(rest, (shift + 8) as u32)),
    ensures
        higher_part(byte, bits, shift) + rest <= 0xffff_ffff,
        low_clear((higher_part(byte, bits, shift) + rest) as u32, shift),
        value_bit((higher_part(byte, bits, shift) + rest) as u32, k) == (if k < shift {
            false
        } else if k < shift + 8 {
            k - shift < bits && byte_bit(byte, (k - shift) as u32)
        } else {
            value_bit(rest, k)
        }),
{
}

proof fn lemma_join_start(byte: u8, start_bit: u32, width: u32, rest: u32, k: u32)
    by (bit_vector)
    requires
        start_bit <= 7,
        1 <= width,
        start_bit + width <= 8,
        k < 32,
        rest == 0 || (start_bit + width == 8 && low_clear(rest, (8 - start_bit) as u32)),
    ensures
        lower_part(byte, start_bit, width) + rest <= 0xffff_ffff,
        value_bit((lower_part(byte, start_bit, width) + rest) as u32, k) == (if k < 8
            - start_bit {
            k < width && byte_bit(byte, (start_bit + k) as u32)
        } else {
            value_bit(rest, k)
        }),
{
}

proof fn lemma_all_bits(a: u32, b: u32)
    by (bit_vector)
    requires
        value_bit(a, 0) == value_bit(b, 0),
        value_bit(a, 1) == value_bit(b, 1),
        value_bit(a, 2) == value_bit(b, 2),
        value_bit(a, 3) == value_bit(b, 3),
        value_bit(a, 4) == value_bit(b, 4),
        value_bit(a, 5) == value_bit(b, 5),
        value_bit(a, 6) == value_bit(b, 6),
        value_bit(a, 7) == value_bit(b, 7),
        value_bit(a, 8) == value_bit(b, 8),
        value_bit(a, 9) == value_bit(b, 9),
        value_bit(a, 10) == value_bit(b, 10),
        value_bit(a, 11) == value_bit(b, 11),
        value_bit(a, 12) == value_bit(b, 12),
        value_bit(a, 13) == value_bit(b, 13),
        value_bit(a, 14) == value_bit(b, 14),
        value_bit(a, 15) == value_bit(b, 15),
        value_bit(a, 16) == value_bit(b, 16),
        value_bit(a, 17) == value_bit(b, 17),
        value_bit(a, 18) == value_bit(b, 18),
        value_bit(a, 19) == value_bit(b, 19),
        value_bit(a, 20) == value_bit(b, 20),
        value_bit(a, 21) == value_bit(b, 21),
        value_bit(a, 22) == value_bit(b, 22),
        value_bit(a, 23) == value_bit(b, 23),
        value_bit(a, 24) == value_bit(b, 24),
        value_bit(a, 25) == value_bit(b, 25),
        value_bit(a, 26) == value_bit(b, 26),
        value_bit(a, 27) == value_bit(b, 27),
        value_bit(a, 28) == value_bit(b, 28),
        value_bit(a, 29) == value_bit(b, 29),
        value_bit(a, 30) == value_bit(b, 30),
        value_bit(a, 31) == value_bit(b, 31),
    ensures
        a == b,
{
}

/// Two 32-bit values with the same bits are the same value.
pub proof fn lemma_same_bits(a: u32, b: u32)
    requires
        forall|k: u32| k < 32 ==> #[trigger] value_bit(a, k) == value_bit(b, k),
    ensures
        a == b,
{
    lemma_all_bits(a, b);
}

/// The contributions of the bytes after the start byte fit in 32 bits, and
/// bit `k` of their sum is the payload's bit `k - shift` counted from byte
/// `index`, for the `bits_left` bits from `shift` on; every other bit is
/// clear.
proof fn lemma_higher_bits(payload: Seq<u8>, index: int, bits_left: int, shift: int)
    requires
        0 <= index,
        0 <= shift,
        bits_left > 0 ==> shift + bits_left <= 32 && index + (bits_left + 7) / 8 <= payload.len(),
    ensures
        0 <= higher_sum(payload, index, bits_left, shift) <= u32::MAX,
        bits_left <= 0 ==> higher_sum(payload, index, bits_left, shift) == 0,
        bits_left > 0 ==> low_clear(
            higher_sum(payload, index, bits_left, shift) as u32,
            shift as u32,
        ),
        forall|k: u32|
            k < 32 ==> #[trigger] value_bit(higher_sum(payload, index, bits_left, shift) as u32, k)
                == (shift <= k < shift + bits_left && payload_bit(
                payload,
                8 * index + (k - shift),
            )),
    decreases bits_left,
{
    let sum = higher_sum(payload, index, bits_left, shift);
    if bits_left <= 0 {
        assert forall|k: u32| k < 32 implies #[trigger] value_bit(sum as u32, k) == (shift <= k
            < shift + bits_left && payload_bit(payload, 8 * index + (k - shift))) by {
            lemma_zero_bits(k);
        }
    } else {
        let take = if bits_left > 8 { 8 } else { bits_left };
        let byte = payload[index];
        let rest = higher_sum(payload, index + 1, bits_left - take, shift + 8);
        lemma_higher_bits(payload, index + 1, bits_left - take, shift + 8);
        assert(sum == higher_part(byte, take as u32, shift as u32) + rest);
        lemma_join(byte, take as u32, shift as u32, rest as u32, 0);
        assert forall|k: u32| k < 32 implies #[trigger] value_bit(sum as u32, k) == (shift <= k
            < shift + bits_left && payload_bit(payload, 8 * index + (k - shift))) by {
            lemma_join(byte, take as u32, shift as u32, rest as u32, k);
            if shift <= k < shift + 8 {
                assert((8 * index + (k - shift)) / 8 == index);
                assert((8 * index + (k - shift)) % 8 == k - shift);
            } else if k >= shift + 8 {
                assert(8 * (index + 1) + (k - (shift + 8)) == 8 * index + (k - shift));
                assert(value_bit(rest as u32, k) == (shift + 8 <= k < shift + 8 + (bits_left
                    - take) && payload_bit(payload, 8 * (index + 1) + (k - (shift + 8)))));
            }
        }
    }
}

/// The extracted value fits in 32 bits, and it is what stands in the payload
/// at the signal's place: bit `k` of the value is bit `k` of the signal's run
/// of the payload's bit stream, and the bits from `bit_length` on are clear.
pub proof fn lemma_signal_bits(payload: Seq<u8>, start_byte: int, start_bit: int, bit_length: int)
    requires
        1 <= start_byte,
        0 <= start_bit <= 7,
        1 <= bit_length <= 32,
        start_byte - 1 + (start_bit + bit_length + 7) / 8 <= payload.len(),
    ensures
        0 <= signal_value(payload, start_byte, start_bit, bit_length) <= u32::MAX,
        holds_value(
            payload,
            start_byte,
            start_bit,
            bit_length,
            signal_value(payload, start_byte, start_bit, bit_length) as u32,
        ),
{
    let value = signal_value(payload, start_byte, start_bit, bit_length);
    let byte = payload[start_byte - 1];
    let width = if bit_length >= 8 - start_bit { 8 - start_bit } else { bit_length };
    let bits_left = bit_length - (8 - start_bit);
    let shift = 8 - start_bit;
    let rest = higher_sum(payload, start_byte, bits_left, shift);
    lemma_higher_bits(payload, start_byte, bits_left, shift);
    assert(value == lower_part(byte, start_bit as u32, width as u32) + rest);
    lemma_join_start(byte, start_bit as u32, width as u32, rest as u32, 0);
    assert forall|k: u32| k < 32 implies #[trigger] value_bit(value as u32, k) == (k < bit_length
        && payload_bit(payload, first_bit(start_byte, start_bit) + k)) by {
        lemma_join_start(byte, start_bit as u32, width as u32, rest as u32, k);
        let position = first_bit(start_byte, start_bit) + k;
        if k < 8 - start_bit {
            assert(position / 8 == start_byte - 1);
            assert(position % 8 == start_bit + k);
        } else {
            assert(8 * start_byte + (k - shift) == position);
            assert(value_bit(rest as u32, k) == (shift <= k < shift + bits_left && payload_bit(
                payload,
                8 * start_byte + (k - shift),
            )));
        }
    }
}

/// Extraction undoes embedding: from a payload that holds `value` at a
/// signal's place, bit for bit, the signal is extracted as `value`.
pub proof fn lemma_embedded_value_is_extracted(
    payload: Seq<u8>,
    start_byte: int,
    start_bit: int,
    bit_length: int,
    value: u32,
)
    requires
        1 <= start_byte,
        0 <= start_bit <= 7,
        1 <= bit_length <= 32,
        start_byte - 1 + (start_bit + bit_length + 7) / 8 <= payload.len(),
        holds_value(payload, start_byte, start_bit, bit_length, value),
    ensures
        signal_value(payload, start_byte, start_bit, bit_length) == value,
{
    lemma_signal_bits(payload, start_byte, start_bit, bit_length);
    let extracted = signal_value(payload, start_byte, start_bit, bit_length) as u32;
    assert forall|k: u32| k < 32 implies #[trigger] value_bit(extracted, k) == value_bit(
        value,
        k,
    ) by {}
    lemma_same_bits(extracted, value);
}

} // verus!
