//! Tests for the signal decoder and encoder against a loaded document.

use can_viz::bits::{extract_bits, ByteOrder};
use can_viz::decode::SignalDecoder;
use can_viz::dbc::{DbcFile, DbcMessage, DbcSignal, Multiplexor, ValueType};
use can_viz::frame::CanMessage;
use can_viz::frame::HexParseError;
use can_viz::num::{Dec, Physical};

fn physical_as_f64(p: &Physical) -> f64 {
    (p.mantissa as f64) / 10f64.powi(p.scale as i32)
}

#[test]
fn test_decode_signal() {
    let mut dbc = DbcFile::new();
    dbc.add_message(DbcMessage {
        id: 0x123,
        name: b"TestMessage".to_vec(),
        size: 8,
        signals: vec![DbcSignal {
            name: b"TestSignal".to_vec(),
            start_bit: 0,
            bit_length: 8,
            byte_order: ByteOrder::Intel,
            value_type: ValueType::Unsigned,
            factor: Dec { mantissa: 5, scale: 1 },  // 0.5
            offset: Dec { mantissa: -40, scale: 0 }, // -40.0
            minimum: None,
            maximum: None,
            unit: Some(b"degC".to_vec()),
            multiplexor: None,
        }],
    });

    let decoder = SignalDecoder::new();
    let mut decoder = decoder;
    decoder.set_dbc(dbc);

    let msg = CanMessage::new(0, 0x123, vec![100u8]);
    let signals = decoder.decode_message(&msg);

    assert_eq!(signals.len(), 1);
    assert_eq!(signals[0].name, b"TestSignal".to_vec());
    assert_eq!(signals[0].raw_value, 100);
    assert_eq!(physical_as_f64(&signals[0].physical_value), 10.0); // 100 * 0.5 - 40 = 10
}

#[test]
fn test_decode_message_without_document() {
    let decoder = SignalDecoder::new();
    let msg = CanMessage::new(0, 0x42, vec![1, 2, 3]);
    assert!(decoder.decode_message(&msg).is_empty());
}

#[test]
fn test_decode_message_unmatched_id() {
    let mut dbc = DbcFile::new();
    dbc.add_message(DbcMessage::new(0x100, b"M", 8));
    let mut decoder = SignalDecoder::new();
    decoder.set_dbc(dbc);
    let msg = CanMessage::new(0, 0x200, vec![1, 2, 3]);
    assert!(decoder.decode_message(&msg).is_empty());
}

#[test]
fn test_decode_signed_signal() {
    let mut msg_def = DbcMessage::new(0x7, b"M", 8);
    msg_def.add_signal(DbcSignal::with_options(
        b"S",
        0,
        8,
        ByteOrder::Intel,
        ValueType::Signed,
        Dec { mantissa: 1, scale: 0 },
        Dec { mantissa: 0, scale: 0 },
    ));
    let mut dbc = DbcFile::new();
    dbc.add_message(msg_def);
    let mut decoder = SignalDecoder::new();
    decoder.set_dbc(dbc);
    // 0xFF as a signed 8-bit field is -1
    let msg = CanMessage::new(0, 0x7, vec![0xFF]);
    let signals = decoder.decode_message(&msg);
    assert_eq!(signals.len(), 1);
    assert_eq!(signals[0].raw_value as i64, -1);
    assert_eq!(physical_as_f64(&signals[0].physical_value), -1.0);
}

#[test]
fn test_decode_signal_out_of_bounds() {
    let mut msg_def = DbcMessage::new(0x7, b"M", 8);
    msg_def.add_signal(DbcSignal::new(b"S", 40, 8));
    let mut dbc = DbcFile::new();
    dbc.add_message(msg_def);
    let mut decoder = SignalDecoder::new();
    decoder.set_dbc(dbc);
    // the payload holds only two bytes, so the signal at bit 40 is omitted
    let msg = CanMessage::new(0, 0x7, vec![1, 2]);
    assert!(decoder.decode_message(&msg).is_empty());
}

#[test]
fn test_clear_dbc() {
    let mut dbc = DbcFile::new();
    let mut m = DbcMessage::new(0x1, b"M", 1);
    m.add_signal(DbcSignal::new(b"S", 0, 8));
    dbc.add_message(m);
    let mut decoder = SignalDecoder::new();
    decoder.set_dbc(dbc);
    let msg = CanMessage::new(0, 0x1, vec![7]);
    assert_eq!(decoder.decode_message(&msg).len(), 1);
    decoder.clear_dbc();
    assert!(decoder.decode_message(&msg).is_empty());
}

#[test]
fn test_encode_signal_roundtrip() {
    let decoder = SignalDecoder::new();
    let signal = DbcSignal::with_options(
        b"S",
        0,
        8,
        ByteOrder::Intel,
        ValueType::Unsigned,
        Dec { mantissa: 5, scale: 1 },  // 0.5
        Dec { mantissa: -40, scale: 0 }, // -40
    );
    let mut data = [0u8; 8];
    // physical 10 => raw (10 - (-40)) / 0.5 = 100
    assert!(decoder.encode_signal(&mut data, &signal, Dec { mantissa: 10, scale: 0 }));
    assert_eq!(extract_bits(&data, 0, 8, ByteOrder::Intel), Some(100));
}

#[test]
fn test_encode_signal_negative_value() {
    let decoder = SignalDecoder::new();
    let signal = DbcSignal::with_options(
        b"S",
        0,
        8,
        ByteOrder::Intel,
        ValueType::Signed,
        Dec { mantissa: 1, scale: 0 },
        Dec { mantissa: 0, scale: 0 },
    );
    let mut data = [0u8; 8];
    // physical -2 encodes as two's complement in the 8-bit field
    assert!(decoder.encode_signal(&mut data, &signal, Dec { mantissa: -2, scale: 0 }));
    assert_eq!(data[0], 0xFE);
}

#[test]
fn test_encode_signal_out_of_bounds() {
    let decoder = SignalDecoder::new();
    let signal = DbcSignal::new(b"S", 16, 8);
    let mut data = [0u8; 1];
    assert!(!decoder.encode_signal(&mut data, &signal, Dec { mantissa: 1, scale: 0 }));
    assert_eq!(data[0], 0);
}

#[test]
fn test_multiplexor_marker_is_not_consulted() {
    // every signal decodes regardless of its multiplexor marker
    let mut msg_def = DbcMessage::new(0x9, b"M", 8);
    let mut sel = DbcSignal::new(b"Sel", 0, 4);
    sel.multiplexor = Some(Multiplexor::Signal);
    let mut cond = DbcSignal::new(b"Cond", 4, 4);
    cond.multiplexor = Some(Multiplexor::Value(3));
    msg_def.add_signal(sel);
    msg_def.add_signal(cond);
    let mut dbc = DbcFile::new();
    dbc.add_message(msg_def);
    let mut decoder = SignalDecoder::new();
    decoder.set_dbc(dbc);
    let msg = CanMessage::new(0, 0x9, vec![0x21]);
    let signals = decoder.decode_message(&msg);
    assert_eq!(signals.len(), 2);
    assert_eq!(signals[0].raw_value, 1);
    assert_eq!(signals[1].raw_value, 2);
}

#[test]
fn test_frame_helpers() {
    let msg = CanMessage::new(1, 0x7FF, vec![0x12, 0xAB]);
    assert!(!msg.is_extended());
    let ext = CanMessage::new(1, 0x800, vec![]);
    assert!(ext.is_extended());
    assert_eq!(msg.hex_data(), b"12 AB".to_vec());
    assert_eq!(msg.bus, 1);
}

#[test]
fn test_parse_hex() {
    assert_eq!(
        CanMessage::parse_hex(b"12 34 AB CD").unwrap(),
        vec![0x12, 0x34, 0xAB, 0xCD]
    );
    assert_eq!(
        CanMessage::parse_hex(b"1234ABCD").unwrap(),
        vec![0x12, 0x34, 0xAB, 0xCD]
    );
}

#[test]
fn test_parse_hex_errors() {
    assert_eq!(CanMessage::parse_hex(b"123"), Err(HexParseError::OddLength));
    assert_eq!(CanMessage::parse_hex(b"zz"), Err(HexParseError::InvalidDigit));
    assert_eq!(CanMessage::parse_hex(b"0x1234").unwrap(), vec![0x12, 0x34]);
    assert_eq!(CanMessage::parse_hex(b"0X00ff").unwrap(), vec![0x00, 0xFF]);
    assert_eq!(CanMessage::parse_hex(b"").unwrap(), Vec::<u8>::new());
}
