use can_decode::error::DecodeError;
use can_decode::extract::{get_higher_payload, get_lower_payload, get_signal_val, mask_of};
use can_decode::schema::CanSignal;

fn signal(start_byte: i32, start_bit: i32, bit_length: i32) -> CanSignal {
    CanSignal {
        name: String::from("sig"),
        description: String::new(),
        start_byte,
        start_bit,
        bit_length,
        signal_value_names: Vec::new(),
    }
}

/// Writes the low `bit_length` bits of `value` into `payload`, starting at
/// bit `start_bit` of the byte `start_byte` (counted from 1).
fn embed(payload: &mut Vec<u8>, start_byte: usize, start_bit: u32, bit_length: u32, value: u32) {
    for k in 0..bit_length {
        let position = start_bit + k;
        let index = start_byte - 1 + (position / 8) as usize;
        let bit = 1u8 << (position % 8);
        if (value >> k) & 1 == 1 {
            payload[index] |= bit;
        } else {
            payload[index] &= !bit;
        }
    }
}

#[test]
fn mask_of_every_width() {
    let expected: [u8; 9] = [0x00, 0x01, 0x03, 0x07, 0x0f, 0x1f, 0x3f, 0x7f, 0xff];
    for n in 0..9u32 {
        assert_eq!(mask_of(n), expected[n as usize]);
    }
    assert_eq!(mask_of(9), 0xff);
    assert_eq!(mask_of(u32::MAX), 0xff);
}

#[test]
fn lower_payload_takes_the_named_bits() {
    assert_eq!(get_lower_payload(&0b1011_0110, 1, 3), 0b011);
    assert_eq!(get_lower_payload(&0b1011_0110, 4, 4), 0b1011);
    assert_eq!(get_lower_payload(&0b1011_0110, 4, 20), 0b1011);
    assert_eq!(get_lower_payload(&0xff, 0, 8), 0xff);
    assert_eq!(get_lower_payload(&0xff, 7, 1), 1);
    assert_eq!(get_lower_payload(&0x7f, 7, 1), 0);
    assert_eq!(get_lower_payload(&0xff, 3, 0), 0);
    assert_eq!(get_lower_payload(&0xff, 3, -4), 0);
    assert_eq!(get_lower_payload(&0xff, 0, i32::MAX), 0xff);
}

#[test]
fn higher_payload_masks_then_shifts() {
    assert_eq!(get_higher_payload(&0xff, 3, 8), 0x0700);
    assert_eq!(get_higher_payload(&0xa5, 8, 4), 0x0a50);
    assert_eq!(get_higher_payload(&0xa5, 8, 24), 0xa500_0000);
    assert_eq!(get_higher_payload(&0xff, 8, 31), 0x8000_0000);
    assert_eq!(get_higher_payload(&0xff, 0, 5), 0);
    assert_eq!(get_higher_payload(&0xff, -1, 5), 0);
    assert_eq!(get_higher_payload(&0x01, 1, 0), 1);
}

#[test]
fn signal_inside_one_byte() {
    for byte in 0..=255u8 {
        for start_bit in 0..8i32 {
            for bit_length in 1..=(8 - start_bit) {
                let payload = vec![0xaa, byte, 0x55];
                let got = get_signal_val(&payload, &signal(2, start_bit, bit_length));
                let expected = ((byte as u32) >> start_bit) & ((1u32 << bit_length) - 1);
                assert_eq!(got, Ok(expected));
            }
        }
    }
}

#[test]
fn signal_across_two_bytes() {
    let lows: [u8; 4] = [0x00, 0xff, 0xa5, 0x3c];
    let highs: [u8; 4] = [0x00, 0xff, 0x5a, 0xc3];
    for low in lows {
        for high in highs {
            for start_bit in 0..8i32 {
                for bit_length in (9 - start_bit)..=(16 - start_bit) {
                    let payload = vec![low, high];
                    let got = get_signal_val(&payload, &signal(1, start_bit, bit_length));
                    let taken = bit_length - (8 - start_bit);
                    let high_part = (high as u32) & ((1u32 << taken) - 1);
                    let expected = ((low as u32) >> start_bit) | (high_part << (8 - start_bit));
                    assert_eq!(got, Ok(expected));
                }
            }
        }
    }
}

#[test]
fn embedded_value_comes_back() {
    let lengths: [u32; 6] = [1, 4, 8, 12, 16, 24];
    let patterns: [u32; 5] = [0, 0xffff_ffff, 0xa5a5_a5a5, 0x1234_5678, 0x8000_0001];
    let backgrounds: [u8; 3] = [0x00, 0xff, 0x5a];
    for bit_length in lengths {
        for start_bit in 0..8u32 {
            for pattern in patterns {
                for background in backgrounds {
                    let value = pattern & ((1u32 << bit_length) - 1);
                    let mut payload = vec![background; 8];
                    embed(&mut payload, 3, start_bit, bit_length, value);
                    let got = get_signal_val(
                        &payload,
                        &signal(3, start_bit as i32, bit_length as i32),
                    );
                    assert_eq!(got, Ok(value));
                }
            }
        }
    }
}

#[test]
fn full_width_signal_at_every_start_bit() {
    for start_bit in 0..8u32 {
        let value = 0xdead_beefu32;
        let mut payload = vec![0xffu8; 6];
        embed(&mut payload, 2, start_bit, 32, value);
        let got = get_signal_val(&payload, &signal(2, start_bit as i32, 32));
        assert_eq!(got, Ok(value));
    }
}

#[test]
fn bytes_are_assembled_low_byte_first() {
    let payload = vec![0x78, 0x56, 0x34, 0x12];
    assert_eq!(get_signal_val(&payload, &signal(1, 0, 32)), Ok(0x1234_5678));
    assert_eq!(get_signal_val(&payload, &signal(1, 0, 24)), Ok(0x0034_5678));
    assert_eq!(get_signal_val(&payload, &signal(2, 0, 16)), Ok(0x3456));
    assert_eq!(get_signal_val(&payload, &signal(1, 4, 12)), Ok(0x0567));
    assert_eq!(get_signal_val(&payload, &signal(4, 4, 4)), Ok(0x1));
}

#[test]
fn known_frame_payload_values() {
    let payload = vec![0x00, 0x07, 0x00, 0x00, 0xC8, 0xE0, 0x01, 0x00];
    assert_eq!(get_signal_val(&payload, &signal(2, 0, 8)), Ok(7));
    assert_eq!(get_signal_val(&payload, &signal(1, 0, 16)), Ok(1792));
    assert_eq!(get_signal_val(&payload, &signal(1, 0, 16)), Ok(0x0700));
}

#[test]
fn signal_past_the_end_is_refused() {
    let payload = vec![0x11, 0x22];
    let too_short = Err(DecodeError::PayloadTooShort { signal: String::from("sig") });
    assert_eq!(get_signal_val(&payload, &signal(3, 0, 1)), too_short);
    assert_eq!(get_signal_val(&payload, &signal(2, 0, 9)), too_short);
    assert_eq!(get_signal_val(&payload, &signal(2, 1, 8)), too_short);
    assert_eq!(get_signal_val(&payload, &signal(1, 0, 17)), too_short);
    assert_eq!(get_signal_val(&payload, &signal(i32::MAX, 7, 32)), too_short);
    assert_eq!(get_signal_val(&Vec::new(), &signal(1, 0, 1)), too_short);
    assert_eq!(get_signal_val(&payload, &signal(2, 0, 8)), Ok(0x22));
    assert_eq!(get_signal_val(&payload, &signal(1, 0, 16)), Ok(0x2211));
}

#[test]
fn signal_wider_than_32_bits_is_refused() {
    let payload = vec![0u8; 8];
    assert_eq!(
        get_signal_val(&payload, &signal(1, 0, 33)),
        Err(DecodeError::UnsupportedBitWidth { signal: String::from("sig"), bit_length: 33 })
    );
    assert_eq!(
        get_signal_val(&Vec::new(), &signal(9, 0, i32::MAX)),
        Err(DecodeError::UnsupportedBitWidth { signal: String::from("sig"), bit_length: i32::MAX })
    );
    assert_eq!(get_signal_val(&payload, &signal(1, 0, 32)), Ok(0));
}
