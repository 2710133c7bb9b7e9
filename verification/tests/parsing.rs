use wifiscan::num::i32_to_string;
use wifiscan::num::parse_i32;
use wifiscan::parse::parse_linux_line;
use wifiscan::parse::parse_linux_output;
use wifiscan::parse::parse_macos_line;
use wifiscan::parse::parse_windows_output;
use wifiscan::record::upsert;
use wifiscan::record::NetworkRecord;
use wifiscan::text::split_lines;
use wifiscan::text::tokens_of;
use wifiscan::text::trim_str;

#[test]
fn linux_line_well_formed() {
    let rec = parse_linux_line("MyNetwork:AA:BB:CC:DD:EE:FF:73").expect("record expected");
    assert_eq!(rec.name, "MyNetwork");
    assert_eq!(rec.hardware_address, "AA:BB:CC:DD:EE:FF");
    assert_eq!(rec.signal_strength, 73);
}

#[test]
fn linux_line_non_numeric_signal_discarded() {
    assert!(parse_linux_line("MyNetwork:AA:BB:CC:DD:EE:FF:n/a").is_none());
}

#[test]
fn linux_line_empty_ssid_discarded() {
    assert!(parse_linux_line(":AA:BB:CC:DD:EE:FF:73").is_none());
}

#[test]
fn linux_line_blank_ssid_discarded() {
    assert!(parse_linux_line("   :AA:BB:CC:DD:EE:FF:73").is_none());
}

#[test]
fn linux_line_without_mac_discarded() {
    assert!(parse_linux_line("OnlyName:73").is_none());
    assert!(parse_linux_line("73").is_none());
    assert!(parse_linux_line("").is_none());
}

#[test]
fn linux_line_strips_backslashes_from_mac() {
    let rec = parse_linux_line("Net:AA\\:BB\\:CC:50").expect("record expected");
    assert_eq!(rec.name, "Net");
    assert_eq!(rec.hardware_address, "AA:BB:CC");
    assert_eq!(rec.signal_strength, 50);
}

#[test]
fn linux_name_may_hold_colons() {
    // The cut happens at the last colon and then at the first one, so the
    // middle keeps every inner colon as part of the address.
    let rec = parse_linux_line("a:b:c:42").expect("record expected");
    assert_eq!(rec.name, "a");
    assert_eq!(rec.hardware_address, "b:c");
    assert_eq!(rec.signal_strength, 42);
}

#[test]
fn linux_dedup_last_write_wins() {
    let rs = parse_linux_output("Net:AA:BB:CC:DD:EE:FF:10\nNet:11:22:33:44:55:66:90\n");
    assert_eq!(rs.len(), 1);
    assert_eq!(rs[0].name, "Net");
    assert_eq!(rs[0].hardware_address, "11:22:33:44:55:66");
    assert_eq!(rs[0].signal_strength, 90);
}

#[test]
fn linux_output_mixed_lines() {
    let text = "Alpha:AA:BB:CC:DD:EE:FF:73\nbad line\nBeta:11:22:33:44:55:66:90\n";
    let rs = parse_linux_output(text);
    assert_eq!(rs.len(), 2);
    assert_eq!(rs[0].name, "Alpha");
    assert_eq!(rs[1].name, "Beta");
}

#[test]
fn macos_line_well_formed() {
    let rec = parse_macos_line("HomeWiFi aa:bb:cc:dd:ee:ff 65").expect("record expected");
    assert_eq!(rec.name, "HomeWiFi");
    assert_eq!(rec.hardware_address, "aa:bb:cc:dd:ee:ff");
    assert_eq!(rec.signal_strength, 65);
}

#[test]
fn macos_line_two_fields_discarded() {
    assert!(parse_macos_line("HomeWiFi aa:bb:cc:dd:ee:ff").is_none());
}

#[test]
fn macos_line_non_numeric_signal_discarded() {
    assert!(parse_macos_line("HomeWiFi aa:bb:cc:dd:ee:ff strong").is_none());
}

#[test]
fn macos_name_with_spaces_splits_wrongly_by_design() {
    // The column format cannot carry names with embedded spaces: the second
    // word lands in the address column, and the real address in the signal
    // column makes the line unreadable.
    assert!(parse_macos_line("My Home aa:bb:cc:dd:ee:ff 65").is_none());
    let rec = parse_macos_line("My Home 65").expect("record expected");
    assert_eq!(rec.name, "My");
    assert_eq!(rec.hardware_address, "Home");
    assert_eq!(rec.signal_strength, 65);
}

#[test]
fn windows_output_pairs_every_ssid_with_first_bssid_and_signal() {
    // The netsh reader keeps the tool's historical behaviour: the first
    // BSSID line and the first Signal line anywhere in the text are reused
    // for every line that mentions SSID -- and a BSSID line mentions SSID
    // too, while `split(':').nth(1)` cuts a colon-separated address at its
    // second colon.
    let text = "SSID 1 : Net1\nBSSID 1 : aa:bb:cc:dd:ee:ff\nSignal : 75\n";
    let rs = parse_windows_output(text);
    assert_eq!(rs.len(), 2);
    assert_eq!(rs[0].name, "Net1");
    assert_eq!(rs[0].hardware_address, "aa");
    assert_eq!(rs[0].signal_strength, 75);
    assert_eq!(rs[1].name, "aa");
    assert_eq!(rs[1].hardware_address, "aa");
    assert_eq!(rs[1].signal_strength, 75);
}

#[test]
fn windows_output_without_signal_yields_nothing() {
    let text = "SSID 1 : Net1\nBSSID 1 : aa:bb:cc:dd:ee:ff\n";
    let rs = parse_windows_output(text);
    assert_eq!(rs.len(), 0);
}

#[test]
fn parse_i32_accepts_signs_and_rejects_junk() {
    assert_eq!(parse_i32("73"), Some(73));
    assert_eq!(parse_i32("+73"), Some(73));
    assert_eq!(parse_i32("-5"), Some(-5));
    assert_eq!(parse_i32("0"), Some(0));
    assert_eq!(parse_i32("2147483647"), Some(i32::MAX));
    assert_eq!(parse_i32("-2147483648"), Some(i32::MIN));
    assert_eq!(parse_i32("2147483648"), None);
    assert_eq!(parse_i32("-2147483649"), None);
    assert_eq!(parse_i32("99999999999999999999"), None);
    assert_eq!(parse_i32(""), None);
    assert_eq!(parse_i32("+"), None);
    assert_eq!(parse_i32("-"), None);
    assert_eq!(parse_i32(" 73"), None);
    assert_eq!(parse_i32("73 "), None);
    assert_eq!(parse_i32("7a"), None);
    assert_eq!(parse_i32("n/a"), None);
}

#[test]
fn i32_to_string_renders_decimals() {
    assert_eq!(i32_to_string(0), "0");
    assert_eq!(i32_to_string(73), "73");
    assert_eq!(i32_to_string(-42), "-42");
    assert_eq!(i32_to_string(i32::MAX), "2147483647");
    assert_eq!(i32_to_string(i32::MIN), "-2147483648");
}

#[test]
fn split_lines_matches_str_lines() {
    let texts = ["", "a", "a\n", "a\r\n", "a\nb", "a\r\nb\n", "\n\n", "a\rb\n"];
    for text in texts {
        let got = split_lines(text);
        let want: Vec<&str> = text.lines().collect();
        assert_eq!(got.len(), want.len(), "line count for {:?}", text);
        for (g, w) in got.iter().zip(want.iter()) {
            assert_eq!(g, w, "lines of {:?}", text);
        }
    }
}

#[test]
fn tokens_match_split_whitespace() {
    let texts = ["", "  ", "a b  c", "  a\tb ", "one"];
    for text in texts {
        let got = tokens_of(text);
        let want: Vec<&str> = text.split_whitespace().collect();
        assert_eq!(got.len(), want.len(), "token count for {:?}", text);
        for (g, w) in got.iter().zip(want.iter()) {
            assert_eq!(g, w, "tokens of {:?}", text);
        }
    }
}

#[test]
fn trim_matches_str_trim() {
    let texts = ["", "  ", " a ", "a", "\t a b \r\n"];
    for text in texts {
        assert_eq!(trim_str(text), text.trim());
    }
}

#[test]
fn upsert_replaces_in_place() {
    let mut rs: Vec<NetworkRecord> = Vec::new();
    upsert(
        &mut rs,
        NetworkRecord {
            name: String::from("Net"),
            hardware_address: String::from("AA"),
            signal_strength: 10,
        },
    );
    upsert(
        &mut rs,
        NetworkRecord {
            name: String::from("Other"),
            hardware_address: String::from("BB"),
            signal_strength: 20,
        },
    );
    upsert(
        &mut rs,
        NetworkRecord {
            name: String::from("Net"),
            hardware_address: String::from("CC"),
            signal_strength: 30,
        },
    );
    assert_eq!(rs.len(), 2);
    assert_eq!(rs[0].name, "Net");
    assert_eq!(rs[0].hardware_address, "CC");
    assert_eq!(rs[0].signal_strength, 30);
    assert_eq!(rs[1].name, "Other");
}
