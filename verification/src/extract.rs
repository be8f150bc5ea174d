//! Bit-field extraction: the raw unsigned value of a signal in a payload.
//!
//! Bit 0 is the least significant bit of a byte. A signal starts in its start
//! byte at its start bit and runs on through the following bytes; the bits of
//! the lowest byte are the least significant bits of the value.

use vstd::prelude::*;
use crate::bits::{
    byte_bit,
    holds_value,
    lemma_higher_part_bit,
    lemma_lower_part_bit,
    lemma_signal_bits,
    value_bit,
};
use crate::error::DecodeError;
use crate::schema::CanSignal;

verus! {

/// The byte whose lowest `n` bits are set and whose other bits are clear.
pub open spec fn low_mask(n: u32) -> u8 {
    if n >= 8 {
        0xffu8
    } else {
        ((1u8 << n) - 1) as u8
    }
}

/// Bits `start_bit .. start_bit + width` of `byte`, moved down to bit 0: the
/// byte is masked to that range and then shifted right.
pub open spec fn lower_part(byte: u8, start_bit: u32, width: u32) -> u8 {
    (byte & (low_mask((start_bit + width) as u32) & !low_mask(start_bit))) >> start_bit
}

/// The lowest `bits` bits of `byte`, moved up by `shift` inside 32 bits.
pub open spec fn higher_part(byte: u8, bits: u32, shift: u32) -> u32 {
    ((byte & low_mask(bits)) as u32) << shift
}

/// How many bits of a signal its start byte holds.
pub open spec fn bits_in_start_byte(start_bit: int, bit_len: int) -> int {
    if bit_len <= 0 {
        0
    } else if bit_len >= 8 - start_bit {
        8 - start_bit
    } else {
        bit_len
    }
}

/// What the start byte contributes to a signal's value.
pub open spec fn lower_payload(byte: u8, start_bit: int, bit_len: int) -> u8 {
    lower_part(byte, start_bit as u32, bits_in_start_byte(start_bit, bit_len) as u32)
}

/// What a later byte contributes: its lowest `bits_to_take` bits, placed at
/// bit `shift_by` of the value.
pub open spec fn higher_payload(byte: u8, bits_to_take: int, shift_by: int) -> u32 {
    higher_part(byte, (if bits_to_take <= 0 { 0 } else { bits_to_take }) as u32, shift_by as u32)
}

/// The sum of the contributions of the bytes from `index` on, when
/// `bits_left` bits are still to be taken and the next one lands at bit
/// `shift` of the value. Each byte gives up to eight bits.
pub open spec fn higher_sum(payload: Seq<u8>, index: int, bits_left: int, shift: int) -> int
    decreases bits_left,
{
    if bits_left <= 0 {
        0
    } else {
        let take = if bits_left > 8 { 8 } else { bits_left };
        higher_payload(payload[index], take, shift) + higher_sum(
            payload,
            index + 1,
            bits_left - take,
            shift + 8,
        )
    }
}

/// The raw value of the signal at (`start_byte`, `start_bit`) of width
/// `bit_length`: the start byte's contribution plus those of the bytes after
/// it. `start_byte` counts from 1.
pub open spec fn signal_value(
    payload: Seq<u8>,
    start_byte: int,
    start_bit: int,
    bit_length: int,
) -> int {
    lower_payload(payload[start_byte - 1], start_bit, bit_length) + higher_sum(
        payload,
        start_byte,
        bit_length - (8 - start_bit),
        8 - start_bit,
    )
}

/// What extraction of `s` from `payload` gives: the width is checked first,
/// then the reach of the signal, and only then is there a value.
pub open spec fn signal_outcome(payload: Seq<u8>, s: CanSignal) -> Result<u32, DecodeError> {
    if s.bit_length > 32 {
        Err(DecodeError::UnsupportedBitWidth { signal: s.name, bit_length: s.bit_length })
    } else if s.last_byte() > payload.len() {
        Err(DecodeError::PayloadTooShort { signal: s.name })
    } else {
        Ok(signal_value(payload, s.start_byte as int, s.start_bit as int, s.bit_length as int) as u32)
    }
}

/// Computes `low_mask(n)`.
pub fn mask_of(n: u32) -> (mask: u8)
    ensures
        mask == low_mask(n),
{
    if n >= 8 {
        0xff
    } else {
        assert((1u8 << n) >= 1u8) by (bit_vector)
            requires
                n < 8,
        ;
        (1u8 << n) - 1
    }
}

/// The contribution of a byte after the start byte: its lowest
/// `bits_to_take` bits, placed at bit `shift_by`. Bits pushed past bit 31 are
/// lost.
pub fn get_higher_payload(payload: &u8, bits_to_take: i32, shift_by: i32) -> (high: u32)
    requires
        bits_to_take <= 8,
        0 <= shift_by < 32,
    ensures
        high == higher_payload(*payload, bits_to_take as int, shift_by as int),
        forall|k: u32|
            k < 32 ==> #[trigger] value_bit(high, k) == (shift_by <= k < shift_by + bits_to_take
                && byte_bit(*payload, (k - shift_by) as u32)),
{
    let bits: u32 = if bits_to_take <= 0 { 0 } else { bits_to_take as u32 };
    let mask: u8 = mask_of(bits);
    let high: u32 = ((*payload & mask) as u32) << (shift_by as u32);
    proof {
        assert forall|k: u32| k < 32 implies #[trigger] value_bit(high, k) == (shift_by <= k
            < shift_by + bits_to_take && byte_bit(*payload, (k - shift_by) as u32)) by {
            lemma_higher_part_bit(*payload, bits, shift_by as u32, k);
        }
    }
    high
}

/// The contribution of the start byte: its bits from `start_bit` on, as many
/// as the signal has there, moved down to bit 0.
pub fn get_lower_payload(payload: &u8, start_bit: i32, bit_len: i32) -> (low: u8)
    requires
        0 <= start_bit <= 7,
    ensures
        low == lower_payload(*payload, start_bit as int, bit_len as int),
        forall|k: u32|
            k < 8 ==> #[trigger] byte_bit(low, k) == (k < bits_in_start_byte(
                start_bit as int,
                bit_len as int,
            ) && byte_bit(*payload, (start_bit + k) as u32)),
{
    let first: u32 = start_bit as u32;
    let width: u32 = if bit_len <= 0 {
        0
    } else if bit_len >= 8 - start_bit {
        8 - first
    } else {
        bit_len as u32
    };
    let mask: u8 = mask_of(first + width) & !mask_of(first);
    let low: u8 = (*payload & mask) >> first;
    proof {
        assert forall|k: u32| k < 8 implies #[trigger] byte_bit(low, k) == (k < width && byte_bit(
            *payload,
            (start_bit + k) as u32,
        )) by {
            lemma_lower_part_bit(*payload, first, width, k);
        }
    }
    low
}

proof fn lemma_start_byte_bound(byte: u8, start_bit: u32)
    by (bit_vector)
    requires
        start_bit <= 7,
    ensures
        (lower_part(byte, start_bit, (8 - start_bit) as u32) as u64) < (1u64 << ((8 - start_bit) as u32)),
{
}

proof fn lemma_step_bound(value: u32, byte: u8, bits: u32, shift: u32)
    by (bit_vector)
    requires
        1 <= bits <= 8,
        shift + bits <= 32,
        (value as u64) < (1u64 << shift),
    ensures
        value + higher_part(byte, bits, shift) <= 0xffff_ffff,
        bits == 8 && shift < 24 ==> ((value + higher_part(byte, bits, shift)) as u64) < (1u64 << (
        (shift + 8) as u32)),
{
}

/// The raw value of signal `s` in `payload`.
///
/// A signal wider than 32 bits is refused, and so is one that reaches past
/// the end of the payload; the width is looked at first. Otherwise the value
/// is assembled byte by byte, and it is what stands in the payload at the
/// signal's place, bit for bit.
pub fn get_signal_val(payload: &Vec<u8>, s: &CanSignal) -> (r: Result<u32, DecodeError>)
    requires
        s.well_formed(),
    ensures
        r == signal_outcome(payload@, *s),
        r is Ok <==> s.bit_length <= 32 && s.last_byte() <= payload@.len(),
        r matches Ok(value) ==> holds_value(
            payload@,
            s.start_byte as int,
            s.start_bit as int,
            s.bit_length as int,
            value,
        ),
{
    if s.bit_length > 32 {
        return Err(
            DecodeError::UnsupportedBitWidth { signal: s.name.clone(), bit_length: s.bit_length },
        );
    }
    let span: usize = ((s.start_bit + s.bit_length + 7) / 8) as usize;
    let first: usize = (s.start_byte - 1) as usize;
    if first >= payload.len() || span > payload.len() - first {
        return Err(DecodeError::PayloadTooShort { signal: s.name.clone() });
    }
    let mut value: u32 = get_lower_payload(&payload[first], s.start_bit, s.bit_length) as u32;
    let mut bits_left: i32 = s.bit_length - (8 - s.start_bit);
    let mut shift_by: i32 = 8 - s.start_bit;
    let mut i: usize = first + 1;
    proof {
        if bits_left > 0 {
            lemma_start_byte_bound(payload@[first as int], s.start_bit as u32);
        }
    }
    while bits_left > 0
        invariant
            s.well_formed(),
            s.bit_length <= 32,
            first + span <= payload@.len(),
            span == s.span_bytes(),
            first == s.start_byte - 1,
            1 <= shift_by,
            value + higher_sum(payload@, i as int, bits_left as int, shift_by as int)
                == signal_value(
                payload@,
                s.start_byte as int,
                s.start_bit as int,
                s.bit_length as int,
            ),
            bits_left > 0 ==> shift_by + bits_left == s.bit_length,
            bits_left > 0 ==> (value as u64) < (1u64 << (shift_by as u32)),
            bits_left > 0 ==> i + (bits_left + 7) / 8 == first + span,
        decreases bits_left,
    {
        let bits_to_take: i32 = if bits_left > 8 { 8 } else { bits_left };
        let part: u32 = get_higher_payload(&payload[i], bits_to_take, shift_by);
        proof {
            lemma_step_bound(value, payload@[i as int], bits_to_take as u32, shift_by as u32);
        }
        value = value + part;
        i = i + 1;
        shift_by = shift_by + 8;
        bits_left = bits_left - bits_to_take;
    }
    proof {
        lemma_signal_bits(payload@, s.start_byte as int, s.start_bit as int, s.bit_length as int);
    }
    Ok(value)
}

proof fn lemma_inside_one_byte(byte: u8, start_bit: u32, width: u32)
    by (bit_vector)
    requires
        start_bit <= 7,
        1 <= width,
        start_bit + width <= 8,
    ensures
        lower_part(byte, start_bit, width) as u32 == ((byte as u32) >> start_bit) & (((1u32
            << width) - 1) as u32),
{
}

proof fn lemma_two_bytes(low: u8, high: u8, start_bit: u32, bits: u32)
    by (bit_vector)
    requires
        start_bit <= 7,
        1 <= bits <= 8,
    ensures
        lower_part(low, start_bit, (8 - start_bit) as u32) + higher_part(
            high,
            bits,
            (8 - start_bit) as u32,
        ) == ((((low as u32) >> start_bit) | (((high & low_mask(bits)) as u32) << ((8
            - start_bit) as u32))) as u32),
{
}

/// A signal that lies inside one byte is that byte shifted right by the
/// start bit and cut to the signal's width.
pub proof fn lemma_single_byte_signal(
    payload: Seq<u8>,
    start_byte: int,
    start_bit: int,
    bit_length: int,
)
    requires
        1 <= start_byte <= payload.len(),
        0 <= start_bit <= 7,
        1 <= bit_length,
        start_bit + bit_length <= 8,
    ensures
        signal_value(payload, start_byte, start_bit, bit_length) == ((payload[start_byte - 1] as u32)
            >> (start_bit as u32)) & (((1u32 << (bit_length as u32)) - 1) as u32),
{
    lemma_inside_one_byte(payload[start_byte - 1], start_bit as u32, bit_length as u32);
}

/// A signal that ends in the byte after its start byte is the start byte
/// shifted right by the start bit, OR'd with the bits it takes of the next
/// byte shifted left by `8 - start_bit`.
pub proof fn lemma_two_byte_signal(
    payload: Seq<u8>,
    start_byte: int,
    start_bit: int,
    bit_length: int,
)
    requires
        1 <= start_byte < payload.len(),
        0 <= start_bit <= 7,
        8 < start_bit + bit_length <= 16,
    ensures
        signal_value(payload, start_byte, start_bit, bit_length) == ((payload[start_byte - 1] as u32)
            >> (start_bit as u32)) | (((payload[start_byte] & low_mask(
            (start_bit + bit_length - 8) as u32,
        )) as u32) << ((8 - start_bit) as u32)),
{
    let bits = start_bit + bit_length - 8;
    lemma_two_bytes(payload[start_byte - 1], payload[start_byte], start_bit as u32, bits as u32);
    assert(higher_sum(payload, start_byte + 1, 0, 16 - start_bit) == 0);
    assert(higher_sum(payload, start_byte, bits, 8 - start_bit) == higher_payload(
        payload[start_byte],
        bits,
        8 - start_bit,
    ));
}

} // verus!
