use wifiscan::report::render_report;
use wifiscan::report::signal_to_text;
use wifiscan::scan::collect_networks;
use wifiscan::scan::CapturedOutput;
use wifiscan::scan::Platform;
use wifiscan::scan::ScanError;

#[test]
fn signal_text_plain_is_bare_number() {
    colored::control::set_override(false);
    assert_eq!(signal_to_text(73), "73");
    assert_eq!(signal_to_text(0), "0");
    assert_eq!(signal_to_text(100), "100");
    assert_eq!(signal_to_text(-1), "-1");
    assert_eq!(signal_to_text(101), "101");
}

#[test]
fn command_failure_surfaces_stderr_and_no_listing() {
    colored::control::set_override(false);
    let captured = CapturedOutput {
        success: false,
        stdout: String::from("Alpha:AA:BB:CC:DD:EE:FF:73\n"),
        stderr: String::from("Device not ready"),
    };
    match collect_networks(Platform::Linux, &captured) {
        Err(ScanError::CommandFailed(msg)) => assert_eq!(msg, "Device not ready"),
        Err(_) => panic!("wrong error kind"),
        Ok(_) => panic!("a failed command must not yield a listing"),
    }
}

#[test]
fn successful_run_renders_header_and_three_rows() {
    colored::control::set_override(false);
    let captured = CapturedOutput {
        success: true,
        stdout: String::from(
            "Alpha:AA:BB:CC:DD:EE:FF:73\nBeta:11:22:33:44:55:66:90\nGamma:77:88:99:AA:BB:CC:10\n",
        ),
        stderr: String::new(),
    };
    let records = collect_networks(Platform::Linux, &captured).expect("listing expected");
    assert_eq!(records.len(), 3);
    let lines = render_report(Platform::Linux, &records);
    assert_eq!(lines.len(), 4);
    assert_eq!(lines[0], "Available Networks: ");
    assert_eq!(lines[1], "SSID: Alpha  BSSID: AA:BB:CC:DD:EE:FF  Strength: 73%");
    assert_eq!(lines[2], "SSID: Beta  BSSID: 11:22:33:44:55:66  Strength: 90%");
    assert_eq!(lines[3], "SSID: Gamma  BSSID: 77:88:99:AA:BB:CC  Strength: 10%");
}

#[test]
fn empty_output_renders_header_alone() {
    colored::control::set_override(false);
    let captured = CapturedOutput {
        success: true,
        stdout: String::new(),
        stderr: String::new(),
    };
    let records = collect_networks(Platform::Linux, &captured).expect("listing expected");
    assert_eq!(records.len(), 0);
    let lines = render_report(Platform::Linux, &records);
    assert_eq!(lines.len(), 1);
    assert_eq!(lines[0], "Available Networks: ");
}

#[test]
fn non_linux_rows_have_no_percent_sign() {
    colored::control::set_override(false);
    let captured = CapturedOutput {
        success: true,
        stdout: String::from("HomeWiFi aa:bb:cc:dd:ee:ff 65\n"),
        stderr: String::new(),
    };
    let records = collect_networks(Platform::MacOs, &captured).expect("listing expected");
    let lines = render_report(Platform::MacOs, &records);
    assert_eq!(lines.len(), 2);
    assert_eq!(lines[1], "SSID: HomeWiFi  BSSID: aa:bb:cc:dd:ee:ff  Strength: 65");
}
