use wifiscan::report::render_record;
use wifiscan::report::render_report;
use wifiscan::report::signal_to_text;
use wifiscan::record::NetworkRecord;
use wifiscan::scan::Platform;

#[test]
fn excellent_signal_is_wrapped_in_green() {
    colored::control::set_override(true);
    assert_eq!(signal_to_text(90), "\x1b[32m90\x1b[0m");
    assert_eq!(signal_to_text(81), "\x1b[32m81\x1b[0m");
    assert_eq!(signal_to_text(100), "\x1b[32m100\x1b[0m");
}

#[test]
fn low_bands_are_wrapped_in_some_color() {
    colored::control::set_override(true);
    for s in [5, 35, 73] {
        let t = signal_to_text(s);
        assert!(t.starts_with("\x1b["), "colored prefix expected: {:?}", t);
        assert!(t.ends_with("\x1b[0m"), "reset suffix expected: {:?}", t);
        assert!(t.contains(&s.to_string()), "number expected: {:?}", t);
        assert_ne!(t, s.to_string(), "the band must add a color");
    }
}

#[test]
fn plain_band_stays_bare_even_with_colors_on() {
    colored::control::set_override(true);
    assert_eq!(signal_to_text(-1), "-1");
    assert_eq!(signal_to_text(101), "101");
}

#[test]
fn row_colors_name_green_and_address_yellow() {
    colored::control::set_override(true);
    let rec = NetworkRecord {
        name: String::from("Alpha"),
        hardware_address: String::from("AA:BB:CC:DD:EE:FF"),
        signal_strength: 90,
    };
    let row = render_record(Platform::Linux, &rec);
    assert!(row.contains("\x1b[32mAlpha\x1b[0m"), "green name expected: {:?}", row);
    assert!(
        row.contains("\x1b[33mAA:BB:CC:DD:EE:FF\x1b[0m"),
        "yellow address expected: {:?}",
        row
    );
    assert!(row.contains("\x1b[32m90\x1b[0m%"), "green strength expected: {:?}", row);
    assert!(row.starts_with("SSID: "), "header expected: {:?}", row);
}

#[test]
fn report_rows_are_colorized_per_band() {
    colored::control::set_override(true);
    let records = vec![
        NetworkRecord {
            name: String::from("Beta"),
            hardware_address: String::from("11:22:33:44:55:66"),
            signal_strength: 90,
        },
        NetworkRecord {
            name: String::from("Gamma"),
            hardware_address: String::from("77:88:99:AA:BB:CC"),
            signal_strength: 10,
        },
    ];
    let lines = render_report(Platform::Linux, &records);
    assert_eq!(lines.len(), 3);
    assert_eq!(lines[0], "Available Networks: ");
    assert!(lines[1].contains("\x1b[32m90\x1b[0m%"), "green strength: {:?}", lines[1]);
    let weak = &lines[2];
    let tail = weak.split("Strength: ").nth(1).expect("strength field");
    assert!(tail.starts_with("\x1b["), "weak strength colored: {:?}", weak);
    assert!(tail.contains("10"), "weak strength number: {:?}", weak);
}
