use comchan::config::{
    describe_port_type, find_usb_port, merge_config_and_args, parse_data_bits, parse_flow_control,
    parse_parity, parse_stop_bits, DataBits, FlowControl, Parity, PortKind, SettingsPatch,
    StopBits,
};

fn empty_patch() -> SettingsPatch {
    SettingsPatch {
        port: None,
        baud: None,
        data_bits: None,
        stop_bits: None,
        parity: None,
        flow_control: None,
        timeout_ms: None,
        reset_delay_ms: None,
        log_file: None,
        verbose: None,
        plot: None,
        plot_points: None,
        list_ports: false,
    }
}

#[test]
fn defaults_fill_everything() {
    let merged = merge_config_and_args(empty_patch(), empty_patch());
    assert_eq!(merged.port, None);
    assert_eq!(merged.baud, 9600);
    assert_eq!(merged.data_bits, 8);
    assert_eq!(merged.stop_bits, 1);
    assert_eq!(merged.parity, "none");
    assert_eq!(merged.flow_control, "none");
    assert_eq!(merged.timeout_ms, 500);
    assert_eq!(merged.reset_delay_ms, 1000);
    assert_eq!(merged.log_file, None);
    assert!(!merged.list_ports);
    assert!(!merged.verbose);
    assert!(!merged.plot);
    assert_eq!(merged.plot_points, 100);
}

#[test]
fn stock_configuration_prefers_auto_detection() {
    let merged = merge_config_and_args(SettingsPatch::default(), empty_patch());
    assert_eq!(merged.port.as_deref(), Some("auto"));
    assert_eq!(merged.baud, 9600);
}

#[test]
fn arguments_override_file_overrides_default() {
    let mut config = empty_patch();
    config.baud = Some(115200);
    config.timeout_ms = Some(250);
    let mut args = empty_patch();
    args.baud = Some(57600);
    let merged = merge_config_and_args(config, args);
    assert_eq!(merged.baud, 57600);
    assert_eq!(merged.timeout_ms, 250);
    assert_eq!(merged.reset_delay_ms, 1000);
}

#[test]
fn data_bits_accepted_and_refused() {
    assert_eq!(parse_data_bits(5), Ok(DataBits::Five));
    assert_eq!(parse_data_bits(6), Ok(DataBits::Six));
    assert_eq!(parse_data_bits(7), Ok(DataBits::Seven));
    assert_eq!(parse_data_bits(8), Ok(DataBits::Eight));
    assert_eq!(
        parse_data_bits(9),
        Err("Invalid data bits: 9. Must be 5, 6, 7, or 8".to_string())
    );
}

#[test]
fn stop_bits_accepted_and_refused() {
    assert_eq!(parse_stop_bits(1), Ok(StopBits::One));
    assert_eq!(parse_stop_bits(2), Ok(StopBits::Two));
    assert_eq!(parse_stop_bits(3), Err("Invalid stop bits: 3. Must be 1 or 2".to_string()));
}

#[test]
fn parity_words_fold_case() {
    assert_eq!(parse_parity(b"none"), Ok(Parity::NoParity));
    assert_eq!(parse_parity(b"N"), Ok(Parity::NoParity));
    assert_eq!(parse_parity(b"Odd"), Ok(Parity::Odd));
    assert_eq!(parse_parity(b"o"), Ok(Parity::Odd));
    assert_eq!(parse_parity(b"EVEN"), Ok(Parity::Even));
    assert_eq!(parse_parity(b"e"), Ok(Parity::Even));
    assert_eq!(
        parse_parity(b"zebra"),
        Err("Invalid parity: zebra. Must be 'none', 'odd', or 'even'".to_string())
    );
}

#[test]
fn flow_control_words_fold_case() {
    assert_eq!(parse_flow_control(b"none"), Ok(FlowControl::NoFlow));
    assert_eq!(parse_flow_control(b"n"), Ok(FlowControl::NoFlow));
    assert_eq!(parse_flow_control(b"Software"), Ok(FlowControl::Software));
    assert_eq!(parse_flow_control(b"s"), Ok(FlowControl::Software));
    assert_eq!(parse_flow_control(b"HARDWARE"), Ok(FlowControl::Hardware));
    assert_eq!(parse_flow_control(b"h"), Ok(FlowControl::Hardware));
    assert_eq!(
        parse_flow_control(b"x"),
        Err("Invalid flow control: x. Must be 'none', 'software', or 'hardware'".to_string())
    );
}

#[test]
fn port_descriptions() {
    assert_eq!(
        describe_port_type(PortKind::Usb { vid: 0x2341, pid: 0x0043 }),
        "USB Device (VID: 2341, PID: 0043)"
    );
    assert_eq!(describe_port_type(PortKind::Bluetooth), "Bluetooth");
    assert_eq!(describe_port_type(PortKind::Pci), "PCI");
    assert_eq!(describe_port_type(PortKind::Unknown), "Unknown");
}

#[test]
fn first_usb_port_wins() {
    let ports = vec![
        ("/dev/ttyS0".to_string(), PortKind::Pci),
        ("/dev/ttyUSB0".to_string(), PortKind::Usb { vid: 1, pid: 2 }),
        ("/dev/ttyUSB1".to_string(), PortKind::Usb { vid: 3, pid: 4 }),
    ];
    assert_eq!(find_usb_port(&ports), Some("/dev/ttyUSB0".to_string()));
    let none = vec![("/dev/ttyS0".to_string(), PortKind::Unknown)];
    assert_eq!(find_usb_port(&none), None);
}
