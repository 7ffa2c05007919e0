//! Tests for the input-format detection, the hardware data model, and the
//! pure panel state.

use can_viz::frame::CanMessage;
use can_viz::hardware::{BusIdAllocator, CanConfig, InterfaceType};
use can_viz::input::{detect_columns, detect_format, find_column, parse_can_id, InputFormat};
use can_viz::panels::{
    AboutDialog, ExportDialog, ExportType, LiveCanConfig, LiveMessageWindow, MessageSenderWindow,
    PatternAnalyzer, PlottableSignal, SignalBrowser, SignalInfo, SignalListWindow,
    ValueTableEditor,
};
use can_viz::timeline::{ClassicTimeline, TimelineVariant};
use can_viz::viz;

#[test]
fn test_detect_format_variants() {
    assert!(matches!(detect_format(b"bzxxxxxxxxxx"), InputFormat::Rlog));
    assert!(matches!(
        detect_format(b"time,bus,id,data\n0.0,0,291,12 34\n"),
        InputFormat::Csv
    ));
    assert!(matches!(detect_format(b"short"), InputFormat::Unknown));
    // enough text but too few commas per line
    assert!(matches!(detect_format(b"hello world, one comma\n"), InputFormat::Unknown));
    // invalid UTF-8 is never CSV
    assert!(matches!(
        detect_format(&[0xFF, 0xFE, 44, 44, 44, 44, 44, 44, 44, 44, 44, 44]),
        InputFormat::Unknown
    ));
}

#[test]
fn test_find_and_detect_columns() {
    let headers: Vec<Vec<u8>> = vec![
        b"Timestamp".to_vec(),
        b"Bus".to_vec(),
        b"CAN_ID".to_vec(),
        b"Data".to_vec(),
    ];
    let names: Vec<Vec<u8>> = vec![b"time".to_vec(), b"timestamp".to_vec()];
    assert_eq!(find_column(&headers, &names), Some(0));
    assert_eq!(detect_columns(&headers), Some((0, 1, 2, 3)));
    let missing: Vec<Vec<u8>> = vec![b"x".to_vec()];
    assert_eq!(detect_columns(&missing), None);
}

#[test]
fn test_parse_can_id_forms() {
    assert_eq!(parse_can_id(b"0x123"), Some(0x123));
    assert_eq!(parse_can_id(b"0X7ff"), Some(0x7FF));
    assert_eq!(parse_can_id(b"291"), Some(291));
    assert_eq!(parse_can_id(b"zz"), None);
    assert_eq!(parse_can_id(b"0x"), None);
    assert_eq!(parse_can_id(b"4294967296"), None);
}

#[test]
fn test_bus_id_allocator() {
    let mut alloc = BusIdAllocator::new();
    assert_eq!(alloc.allocate(), 0);
    assert_eq!(alloc.allocate(), 1);
    assert_eq!(alloc.allocate(), 2);
    alloc.free(1);
    alloc.free(0);
    // the lowest freed id is reused first
    assert_eq!(alloc.allocate(), 0);
    assert_eq!(alloc.allocate(), 1);
    assert_eq!(alloc.allocate(), 3);
    alloc.free_all();
    assert_eq!(alloc.allocate(), 0);
}

#[test]
fn test_mock_interfaces() {
    let list = can_viz::hardware::list_mock_interfaces();
    assert_eq!(list.len(), 1);
    assert_eq!(list[0].name, "mock0");
    assert_eq!(list[0].interface_type, InterfaceType::Virtual);
    assert!(list[0].available);
}

#[test]
fn test_can_config_default() {
    let c = CanConfig::default();
    assert_eq!(c.bitrate, 500_000);
    assert!(!c.fd_mode);
    assert!(!c.listen_only);
}

#[test]
fn test_signal_info_names() {
    let info = SignalInfo {
        name: b"Speed".to_vec(),
        msg_id: 0x123,
        bus: 2,
        msg_name: b"Engine".to_vec(),
        unit: b"km/h".to_vec(),
    };
    assert_eq!(info.display_name(), b"Speed [Bus 2]".to_vec());
    assert_eq!(info.key(), b"Speed@bus2".to_vec());
}

#[test]
fn test_signal_browser() {
    let mut b = SignalBrowser::new();
    assert!(!b.is_visible(b"A"));
    b.add_signal(b"A");
    b.add_signal(b"B");
    b.add_signal(b"A"); // no duplicate
    assert!(b.is_visible(b"A"));
    assert_eq!(b.visible_signals.len(), 2);
    b.toggle_signal(b"A");
    assert!(!b.is_visible(b"A"));
    b.toggle_signal(b"C");
    assert!(b.is_visible(b"C"));
    b.remove_signal(b"B");
    assert_eq!(b.visible_signals.len(), 1);
}

#[test]
fn test_signal_list_window() {
    let mut w = SignalListWindow::new();
    w.plottable_signals.push(PlottableSignal {
        message_id: 1,
        message_name: b"M".to_vec(),
        signal_name: b"S1".to_vec(),
        unit: None,
        is_plotted: false,
    });
    w.plottable_signals.push(PlottableSignal {
        message_id: 1,
        message_name: b"M".to_vec(),
        signal_name: b"S2".to_vec(),
        unit: Some(b"V".to_vec()),
        is_plotted: false,
    });
    assert!(w.get_plotted_signals().is_empty());
    w.toggle_plot(1, b"S2");
    assert_eq!(w.get_plotted_signals(), vec![(1u32, b"S2".to_vec())]);
    w.set_plot(1, b"S1", true);
    assert_eq!(w.get_plotted_signals().len(), 2);
    w.toggle_plot(9, b"S1"); // no match, nothing changes
    assert_eq!(w.get_plotted_signals().len(), 2);
    w.clear_all_plots();
    assert!(w.get_plotted_signals().is_empty());
}

#[test]
fn test_value_table_editor() {
    let mut e = ValueTableEditor::new();
    let rows: Vec<(u32, Vec<u8>)> = vec![(0, b"Off".to_vec()), (1, b"On".to_vec())];
    e.set_signal(b"Status", &rows);
    assert_eq!(e.signal_name, b"Status".to_vec());
    assert_eq!(e.values, rows);
}

#[test]
fn test_dialogs() {
    let mut d = ExportDialog::new();
    assert!(!d.show);
    assert_eq!(d.export_type, ExportType::Csv);
    d.show();
    assert!(d.show);
    let mut a = AboutDialog::new();
    assert!(!a.show);
    a.show();
    assert!(a.show);
}

#[test]
fn test_live_mode_defaults() {
    let c = LiveCanConfig::default();
    assert_eq!(c.bitrate, 500_000);
    assert!(c.listen_only);
    assert!(c.auto_start);
    let w = LiveMessageWindow::new();
    assert!(w.auto_scroll);
    assert!(w.show_timestamp);
    assert_eq!(w.filter_id, "");
    let s = MessageSenderWindow::new();
    assert_eq!(s.id_input, "0x000");
    assert_eq!(s.data_input, "00 00 00 00 00 00 00 00");
    assert!(s.last_error.is_none());
}

#[test]
fn test_pattern_analyzer() {
    let mut analyzer = PatternAnalyzer::new();
    let messages = vec![
        CanMessage::new(0, 0x10, vec![1, 2]),
        CanMessage::new(0, 0x20, vec![9]),
        CanMessage::new(0, 0x10, vec![1, 3]),
        CanMessage::new(0, 0x10, vec![1, 3]),
    ];
    analyzer.analyze(&messages);
    // only the id seen at least twice is analysed
    assert_eq!(analyzer.analyzed_ids(), vec![0x10]);
    let pats = analyzer.get_patterns(0x10).unwrap();
    assert_eq!(pats.len(), 2);
    assert_eq!(pats[0].byte_index, 0);
    assert!(pats[0].is_constant);
    assert_eq!(pats[0].constant_value, Some(1));
    assert_eq!(pats[0].unique_values, 1);
    assert!(!pats[1].is_constant);
    assert_eq!(pats[1].unique_values, 2);
    assert_eq!(pats[1].changes, 1);
    assert!(analyzer.get_patterns(0x20).is_none());
    analyzer.clear();
    assert!(analyzer.analyzed_ids().is_empty());
}

#[test]
fn test_timeline_variants() {
    assert_eq!(TimelineVariant::Minimal.name(), "Minimal");
    assert_eq!(TimelineVariant::Classic.name(), "Classic");
    assert_eq!(
        TimelineVariant::all(),
        vec![TimelineVariant::Minimal, TimelineVariant::Classic]
    );
    assert_eq!(TimelineVariant::default(), TimelineVariant::Minimal);
    let t = ClassicTimeline::new();
    assert!(!t.hovered_region);
}

#[test]
fn test_bit_grid_positions() {
    let s = viz::SignalInfo {
        name: b"S".to_vec(),
        start_bit: 4,
        bit_length: 4,
        byte_order: can_viz::bits::ByteOrder::Intel,
        color_idx: 0,
        bus_id: 0,
    };
    assert_eq!(s.get_bit_positions(), vec![4, 5, 6, 7]);
    assert_eq!(s.get_msb_pos(), 7);
    assert_eq!(s.get_lsb_pos(), 4);
    let m = viz::SignalInfo {
        byte_order: can_viz::bits::ByteOrder::Motorola,
        ..s
    };
    assert_eq!(m.get_msb_pos(), 4);
    assert_eq!(m.get_lsb_pos(), 7);
}

#[test]
fn test_list_interfaces_shape() {
    // whatever ports the system reports, every entry is an available
    // serial interface whose description names its port
    for info in can_viz::hardware::list_interfaces() {
        assert_eq!(info.interface_type, InterfaceType::Serial);
        assert!(info.available);
        let desc = info.description.expect("serial interfaces carry a description");
        assert_eq!(desc, format!("Serial port: {}", info.name));
    }
}
