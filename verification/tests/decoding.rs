use can_decode::decode::{decode_frame, decode_signals, DecodedSignal};
use can_decode::error::DecodeError;
use can_decode::schema::{CanCommunicationMatrix, CanFrame, CanSignal, SignalValueNames};

fn signal(name: &str, start_byte: i32, start_bit: i32, bit_length: i32) -> CanSignal {
    CanSignal {
        name: String::from(name),
        description: String::from("test signal"),
        start_byte,
        start_bit,
        bit_length,
        signal_value_names: Vec::new(),
    }
}

fn labelled(mut s: CanSignal, labels: &[(&str, i32)]) -> CanSignal {
    for (name, value) in labels {
        s.signal_value_names.push(SignalValueNames { name: String::from(*name), value: *value });
    }
    s
}

fn frame(id: &str, length: i32, signals: Vec<CanSignal>) -> CanFrame {
    CanFrame { id: String::from(id), protocol: String::from("CAN"), length, signals }
}

fn shown(name: &str, value: &str) -> DecodedSignal {
    DecodedSignal { name: String::from(name), value: String::from(value) }
}

fn sample_matrix() -> CanCommunicationMatrix {
    CanCommunicationMatrix {
        can_frames: vec![
            frame(
                "0x12DD5570",
                8,
                vec![
                    labelled(signal("gear", 2, 0, 8), &[("park", 0), ("drive", 7)]),
                    signal("word", 1, 0, 16),
                    signal("speed", 5, 0, 16),
                    labelled(signal("flag", 7, 0, 1), &[("clear", 0), ("set", 1)]),
                ],
            ),
            frame("0x100", 2, vec![signal("a", 1, 4, 8)]),
            frame("0x100", 1, vec![signal("shadowed", 1, 0, 8)]),
            frame("0x200", 0, Vec::new()),
        ],
    }
}

const SAMPLE: [u8; 8] = [0x00, 0x07, 0x00, 0x00, 0xC8, 0xE0, 0x01, 0x00];

#[test]
fn known_frame_is_decoded_in_declaration_order() {
    let matrix = sample_matrix();
    assert!(matrix.is_well_formed());
    let got = decode_frame(&matrix, "0x12DD5570", &SAMPLE.to_vec());
    assert_eq!(
        got,
        Ok(vec![
            shown("gear", "drive"),
            shown("word", "1792"),
            shown("speed", "57544"),
            shown("flag", "set"),
        ])
    );
}

#[test]
fn unknown_frame_is_not_found() {
    let matrix = sample_matrix();
    let got = decode_frame(&matrix, "0x7FF", &SAMPLE.to_vec());
    assert_eq!(got, Err(DecodeError::FrameNotFound { id: String::from("0x7FF") }));
    let empty = CanCommunicationMatrix { can_frames: Vec::new() };
    let got = decode_frame(&empty, "0x12DD5570", &SAMPLE.to_vec());
    assert_eq!(got, Err(DecodeError::FrameNotFound { id: String::from("0x12DD5570") }));
}

#[test]
fn shorter_payload_is_a_length_mismatch() {
    let matrix = sample_matrix();
    let got = decode_frame(&matrix, "0x12DD5570", &SAMPLE[..7].to_vec());
    assert_eq!(
        got,
        Err(DecodeError::LengthMismatch { id: String::from("0x12DD5570"), expected: 8, actual: 7 })
    );
    let got = decode_frame(&matrix, "0x12DD5570", &Vec::new());
    assert_eq!(
        got,
        Err(DecodeError::LengthMismatch { id: String::from("0x12DD5570"), expected: 8, actual: 0 })
    );
}

#[test]
fn longer_payload_is_a_length_mismatch() {
    let matrix = sample_matrix();
    let mut payload = SAMPLE.to_vec();
    payload.push(0);
    let got = decode_frame(&matrix, "0x12DD5570", &payload);
    assert_eq!(
        got,
        Err(DecodeError::LengthMismatch { id: String::from("0x12DD5570"), expected: 8, actual: 9 })
    );
}

#[test]
fn length_is_checked_before_any_signal() {
    let matrix = CanCommunicationMatrix {
        can_frames: vec![frame("0x1", 4, vec![signal("wide", 1, 0, 40)])],
    };
    let got = decode_frame(&matrix, "0x1", &vec![0u8; 3]);
    assert_eq!(
        got,
        Err(DecodeError::LengthMismatch { id: String::from("0x1"), expected: 4, actual: 3 })
    );
}

#[test]
fn first_frame_of_an_identifier_is_used() {
    let matrix = sample_matrix();
    let found = matrix.find_frame("0x100");
    assert_eq!(found.map(|f| f.length), Some(2));
    assert!(matrix.find_frame("0x101").is_none());
    let got = decode_frame(&matrix, "0x100", &vec![0x5a, 0xc3]);
    assert_eq!(got, Ok(vec![shown("a", "53")]));
}

#[test]
fn frame_without_signals_decodes_to_nothing() {
    let matrix = sample_matrix();
    assert_eq!(decode_frame(&matrix, "0x200", &Vec::new()), Ok(Vec::new()));
}

#[test]
fn failing_signal_leaves_no_partial_result() {
    let f = frame(
        "0x1",
        2,
        vec![signal("fits", 1, 0, 8), signal("reaches", 2, 4, 8), signal("wide", 1, 0, 33)],
    );
    assert!(f.is_well_formed());
    let got = decode_signals(&f, &vec![1, 2]);
    assert_eq!(got, Err(DecodeError::PayloadTooShort { signal: String::from("reaches") }));
    let matrix = CanCommunicationMatrix { can_frames: vec![f] };
    let got = decode_frame(&matrix, "0x1", &vec![1, 2]);
    assert_eq!(got, Err(DecodeError::PayloadTooShort { signal: String::from("reaches") }));
}

#[test]
fn too_wide_signal_is_reported() {
    let matrix = CanCommunicationMatrix {
        can_frames: vec![frame("0x1", 8, vec![signal("ok", 1, 0, 32), signal("wide", 1, 0, 33)])],
    };
    let got = decode_frame(&matrix, "0x1", &vec![0u8; 8]);
    assert_eq!(
        got,
        Err(DecodeError::UnsupportedBitWidth { signal: String::from("wide"), bit_length: 33 })
    );
}

#[test]
fn well_formedness_is_checked_field_by_field() {
    assert!(signal("s", 1, 0, 1).is_well_formed());
    assert!(signal("s", 1, 7, 64).is_well_formed());
    assert!(!signal("s", 0, 0, 1).is_well_formed());
    assert!(!signal("s", 1, -1, 1).is_well_formed());
    assert!(!signal("s", 1, 8, 1).is_well_formed());
    assert!(!signal("s", 1, 0, 0).is_well_formed());
    assert!(frame("f", 0, Vec::new()).is_well_formed());
    assert!(!frame("f", -1, Vec::new()).is_well_formed());
    assert!(!frame("f", 8, vec![signal("a", 1, 0, 1), signal("b", 1, 8, 1)]).is_well_formed());
    let bad = CanCommunicationMatrix {
        can_frames: vec![frame("f", 1, Vec::new()), frame("g", 1, vec![signal("s", 0, 0, 1)])],
    };
    assert!(!bad.is_well_formed());
    assert!(sample_matrix().is_well_formed());
}

#[test]
fn constructors_refuse_unusable_layouts() {
    let made = CanSignal::new(String::from("s"), String::new(), 2, 3, 12, Vec::new());
    assert_eq!(made, Some(signal_with_description("s", "", 2, 3, 12)));
    assert_eq!(CanSignal::new(String::from("s"), String::new(), 0, 0, 8, Vec::new()), None);
    assert_eq!(CanSignal::new(String::from("s"), String::new(), 1, 8, 8, Vec::new()), None);
    assert_eq!(CanSignal::new(String::from("s"), String::new(), 1, -1, 8, Vec::new()), None);
    assert_eq!(CanSignal::new(String::from("s"), String::new(), 1, 0, 0, Vec::new()), None);

    let good = vec![signal("a", 1, 0, 8)];
    let bad = vec![signal("a", 1, 0, 8), signal("b", 1, 0, -2)];
    let made = CanFrame::new(String::from("f"), String::from("CAN"), 1, good.clone());
    assert_eq!(made, Some(frame("f", 1, good.clone())));
    assert_eq!(CanFrame::new(String::from("f"), String::from("CAN"), -1, good.clone()), None);
    assert_eq!(CanFrame::new(String::from("f"), String::from("CAN"), 1, bad.clone()), None);

    let made = CanCommunicationMatrix::new(vec![frame("f", 1, good.clone())]);
    assert_eq!(made, Some(CanCommunicationMatrix { can_frames: vec![frame("f", 1, good)] }));
    assert_eq!(CanCommunicationMatrix::new(vec![frame("f", 1, bad)]), None);
    assert_eq!(
        CanCommunicationMatrix::new(Vec::new()),
        Some(CanCommunicationMatrix { can_frames: Vec::new() })
    );
}

fn signal_with_description(
    name: &str,
    description: &str,
    start_byte: i32,
    start_bit: i32,
    bit_length: i32,
) -> CanSignal {
    CanSignal {
        name: String::from(name),
        description: String::from(description),
        start_byte,
        start_bit,
        bit_length,
        signal_value_names: Vec::new(),
    }
}

#[test]
fn fitting_frame_always_decodes() {
    let matrix = sample_matrix();
    for f in &matrix.can_frames {
        assert!(f.is_well_formed());
        assert!(f.all_signals_fit());
        let payload = vec![0xa5u8; f.length as usize];
        let got = decode_signals(f, &payload);
        assert_eq!(got.map(|signals| signals.len()), Ok(f.signals.len()));
    }
    let reaches = frame("f", 2, vec![signal("a", 1, 0, 16), signal("b", 2, 1, 8)]);
    assert!(!reaches.all_signals_fit());
    let wide = frame("f", 8, vec![signal("a", 1, 0, 33)]);
    assert!(!wide.all_signals_fit());
    let exact = frame("f", 5, vec![signal("a", 1, 7, 32), signal("b", 5, 7, 1)]);
    assert!(exact.all_signals_fit());
    let far = frame("f", 5, vec![signal("a", i32::MAX, 7, 32)]);
    assert!(!far.all_signals_fit());
}
