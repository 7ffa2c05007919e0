//! Tests for the DBC model: line parsers, document parse and serialize,
//! mutation, and validation.

use can_viz::bits::ByteOrder;
use can_viz::dbc::{
    parse_message_line, parse_min_max, parse_order_and_type, parse_signal_line, parse_val_line,
    DbcFile, DbcMessage, DbcSignal, ValueType,
};
use can_viz::num::{parse_dec, Dec};

#[test]
fn test_parse_message_line() {
    let line = b"BO_ 256 StatusMessage: 8 Vector__XXX";
    let msg = parse_message_line(line).unwrap();
    assert_eq!(msg.id, 256);
    assert_eq!(msg.name, b"StatusMessage".to_vec());
    assert_eq!(msg.size, 8);
}

#[test]
fn test_parse_signal_line() {
    let line = b"SG_ Speed : 0|16@1+ (0.1,0) [0|6553.5] \"km/h\" Vector__XXX";
    let signal = parse_signal_line(line).unwrap();
    assert_eq!(signal.name, b"Speed".to_vec());
    assert_eq!(signal.start_bit, 0);
    assert_eq!(signal.bit_length, 16);
    assert_eq!(signal.byte_order, ByteOrder::Intel);
    assert_eq!(signal.value_type, ValueType::Unsigned);
    assert_eq!(signal.factor, Dec { mantissa: 1, scale: 1 }); // 0.1
    assert_eq!(signal.offset, Dec { mantissa: 0, scale: 0 });
    assert_eq!(signal.unit, Some(b"km/h".to_vec()));
}

#[test]
fn test_dbc_roundtrip() {
    let mut dbc = DbcFile::new();
    dbc.version = b"1.0".to_vec();

    let mut msg = DbcMessage::new(0x100, b"TestMessage", 8);
    msg.add_signal(DbcSignal::with_options(
        b"Signal1",
        0,
        8,
        ByteOrder::Intel,
        ValueType::Unsigned,
        Dec { mantissa: 1, scale: 0 },
        Dec { mantissa: 0, scale: 0 },
    ));
    dbc.add_message(msg);

    let output = dbc.to_dbc_string();
    let parsed = DbcFile::parse(&output);

    assert_eq!(parsed.version, b"1.0".to_vec());
    assert_eq!(parsed.messages.len(), 1);
    assert_eq!(parsed.messages[0].id, 0x100);
    assert_eq!(parsed.messages[0].signals.len(), 1);
}

#[test]
fn test_message_validation() {
    let mut msg = DbcMessage::new(0x100, b"Test", 8);

    // Add overlapping signals
    msg.add_signal(DbcSignal::new(b"Sig1", 0, 16));
    msg.add_signal(DbcSignal::new(b"Sig2", 8, 16)); // Overlaps with Sig1

    let errors = msg.validate();
    assert!(!errors.is_empty());
    assert!(String::from_utf8(errors[0].clone()).unwrap().contains("overlap"));
}

#[test]
fn test_message_validation_clean() {
    let mut msg = DbcMessage::new(0x100, b"Test", 8);
    msg.add_signal(DbcSignal::new(b"Sig1", 0, 8));
    msg.add_signal(DbcSignal::new(b"Sig2", 8, 8));
    assert!(msg.validate().is_empty());
}

#[test]
fn test_message_validation_dlc_and_bounds() {
    let mut msg = DbcMessage::new(0x100, b"Test", 9);
    msg.add_signal(DbcSignal::new(b"Sig1", 70, 16));
    let errors = msg.validate();
    let texts: Vec<String> = errors
        .iter()
        .map(|e| String::from_utf8(e.clone()).unwrap())
        .collect();
    assert_eq!(texts.len(), 2);
    assert_eq!(texts[0], "Message Test has invalid DLC: 9");
    assert_eq!(texts[1], "Signal 'Sig1' extends beyond message boundary (86 > 72)");
}

#[test]
fn test_parse_order_and_type_variants() {
    assert_eq!(
        parse_order_and_type(b"@1+"),
        Some((ByteOrder::Intel, ValueType::Unsigned))
    );
    assert_eq!(
        parse_order_and_type(b"@0-"),
        Some((ByteOrder::Motorola, ValueType::Signed))
    );
    assert_eq!(parse_order_and_type(b"@2+"), None);
    assert_eq!(parse_order_and_type(b"@1*"), None);
    assert_eq!(parse_order_and_type(b"1+"), None);
    assert_eq!(parse_order_and_type(b"@1"), None);
}

#[test]
fn test_parse_min_max_forms() {
    assert_eq!(
        parse_min_max(b"[0|255]"),
        (
            Some(Dec { mantissa: 0, scale: 0 }),
            Some(Dec { mantissa: 255, scale: 0 })
        )
    );
    assert_eq!(
        parse_min_max(b"[-1.5|6553.5]"),
        (
            Some(Dec { mantissa: -15, scale: 1 }),
            Some(Dec { mantissa: 65535, scale: 1 })
        )
    );
    assert_eq!(parse_min_max(b"[0]"), (None, None));
}

#[test]
fn test_parse_val_line_entries() {
    let line = b"VAL_ 256 Status 0 \"Off\" 1 \"On\" ;";
    let (name, values) = parse_val_line(line).unwrap();
    assert_eq!(name, b"Status".to_vec());
    assert_eq!(values.len(), 2);
    assert_eq!(values[0].value, 0);
    assert_eq!(values[0].description, b"Off".to_vec());
    assert_eq!(values[1].value, 1);
    assert_eq!(values[1].description, b"On".to_vec());
}

#[test]
fn test_parse_document() {
    let text = b"VERSION \"2.0\"\n\nBO_ 291 Engine: 8 Vector__XXX\n SG_ Rpm : 0|16@1+ (1,0) [0|65535] \"rpm\" Vector__XXX\n SG_ Temp : 16|8@1- (0.5,-40) [-40|87.5] \"degC\" Vector__XXX\n\nVAL_ 291 Rpm 0 \"Idle\" ;\nnoise line to be skipped\n";
    let doc = DbcFile::parse(text);
    assert_eq!(doc.version, b"2.0".to_vec());
    assert_eq!(doc.messages.len(), 1);
    assert_eq!(doc.messages[0].id, 291);
    assert_eq!(doc.messages[0].name, b"Engine".to_vec());
    assert_eq!(doc.messages[0].signals.len(), 2);
    assert_eq!(doc.messages[0].signals[1].value_type, ValueType::Signed);
    assert_eq!(doc.messages[0].signals[1].factor, Dec { mantissa: 5, scale: 1 });
    assert_eq!(doc.messages[0].signals[1].offset, Dec { mantissa: -40, scale: 0 });
    assert_eq!(doc.value_tables.len(), 1);
    assert_eq!(doc.value_tables[0].signal_name, b"Rpm".to_vec());
}

#[test]
fn test_value_table_roundtrip() {
    let text = b"BO_ 291 Engine: 8 Vector__XXX\nVAL_ 291 Rpm 0 \"Idle\" 1 \"Running\" ;\n";
    let doc = DbcFile::parse(text);
    assert_eq!(doc.value_tables.len(), 1);
    let out = doc.to_dbc_string();
    let again = DbcFile::parse(&out);
    assert_eq!(again.value_tables.len(), 1);
    assert_eq!(again.value_tables[0].signal_name, b"Rpm".to_vec());
    assert_eq!(again.value_tables[0].entries.len(), 2);
}

#[test]
fn test_duplicate_id_policy() {
    // a later definition wins in the lookup while both stay in the list
    let text = b"BO_ 5 First: 8 Vector__XXX\nBO_ 5 Second: 4 Vector__XXX\n";
    let doc = DbcFile::parse(text);
    assert_eq!(doc.messages.len(), 2);
    assert_eq!(doc.get_message(5).unwrap().name, b"Second".to_vec());
}

#[test]
fn test_mutation_api() {
    let mut dbc = DbcFile::new();
    assert!(dbc.is_empty());
    dbc.add_message(DbcMessage::new(1, b"A", 8));
    dbc.add_message(DbcMessage::new(2, b"B", 8));
    dbc.add_message(DbcMessage::new(1, b"C", 4));
    assert!(!dbc.is_empty());
    assert_eq!(dbc.message_ids(), vec![1, 2, 1]);
    assert_eq!(dbc.get_message(1).unwrap().name, b"C".to_vec());
    assert_eq!(dbc.get_message(9).map(|m| m.id), None);
    let removed = dbc.remove_message(1).unwrap();
    assert_eq!(removed.name, b"C".to_vec());
    assert_eq!(dbc.message_ids(), vec![2]);
}

#[test]
fn test_get_signal() {
    let mut msg = DbcMessage::new(1, b"M", 8);
    msg.add_signal(DbcSignal::new(b"X", 0, 8));
    msg.add_signal(DbcSignal::new(b"Y", 8, 8));
    assert_eq!(msg.get_signal(b"Y").unwrap().start_bit, 8);
    assert!(msg.get_signal(b"Z").is_none());
}

#[test]
fn test_signal_builders() {
    let s = DbcSignal::new(b"S", 0, 8)
        .with_unit(b"V")
        .with_range(Dec { mantissa: 0, scale: 0 }, Dec { mantissa: 12, scale: 0 });
    assert_eq!(s.unit, Some(b"V".to_vec()));
    assert_eq!(s.minimum, Some(Dec { mantissa: 0, scale: 0 }));
    assert_eq!(s.maximum, Some(Dec { mantissa: 12, scale: 0 }));
    assert_eq!(s.raw_range(), (0, 255));
}

#[test]
fn test_parse_dec_literals() {
    assert_eq!(parse_dec(b"0.1"), Some(Dec { mantissa: 1, scale: 1 }));
    assert_eq!(parse_dec(b"-40"), Some(Dec { mantissa: -40, scale: 0 }));
    assert_eq!(parse_dec(b"+6553.5"), Some(Dec { mantissa: 65535, scale: 1 }));
    assert_eq!(parse_dec(b"1."), Some(Dec { mantissa: 1, scale: 0 }));
    assert_eq!(parse_dec(b".5"), Some(Dec { mantissa: 5, scale: 1 }));
    assert_eq!(parse_dec(b""), None);
    assert_eq!(parse_dec(b"1.2.3"), None);
    assert_eq!(parse_dec(b"abc"), None);
}
