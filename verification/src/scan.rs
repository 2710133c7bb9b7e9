use vstd::prelude::*;

use crate::parse::linux_map_of;
use crate::parse::macos_map_of;
use crate::parse::parse_linux_output;
use crate::parse::parse_macos_output;
use crate::parse::parse_windows_output;
use crate::parse::windows_mac;
use crate::parse::windows_map_of;
use crate::parse::windows_sig;
use crate::record::all_wf;
use crate::record::as_map;
use crate::record::lemma_as_map_correspond;
use crate::record::unique_names;
use crate::record::views;
use crate::record::NetworkRecord;
use crate::record::RecordV;
use crate::text::spec_lines;

verus! {

/// Which scan utility's output format is being read: `nmcli` on Linux,
/// `netsh` on Windows, `airport` on macOS.
#[derive(Clone, Copy, PartialEq, Eq, Debug, Structural)]
pub enum Platform {
    Linux,
    Windows,
    MacOs,
}

/// The captured run of the platform's scan command: whether it exited
/// successfully, and its two output streams decoded as text.
pub struct CapturedOutput {
    pub success: bool,
    pub stdout: String,
    pub stderr: String,
}

/// Why no network list was produced. `SpawnFailed` and
/// `UnsupportedPlatform` arise at the process boundary, before there is any
/// output to read; `CommandFailed` carries the command's own error text.
#[derive(Debug)]
pub enum ScanError {
    SpawnFailed(String),
    CommandFailed(String),
    UnsupportedPlatform,
}

/// The name-keyed record mapping that a platform's output text denotes.
pub open spec fn networks_of(p: Platform, text: Seq<char>) -> Map<Seq<char>, RecordV> {
    match p {
        Platform::Linux => linux_map_of(spec_lines(text)),
        Platform::MacOs => macos_map_of(spec_lines(text)),
        Platform::Windows => windows_map_of(
            spec_lines(text),
            windows_mac(spec_lines(text)),
            windows_sig(spec_lines(text)),
        ),
    }
}

/// Parses a platform's output text into the record set it denotes: records
/// keyed by name, last occurrence winning, every record well-formed.
pub fn parse_output(p: Platform, text: &str) -> (rs: Vec<NetworkRecord>)
    ensures
        unique_names(views(rs@)),
        all_wf(views(rs@)),
        as_map(views(rs@)) == networks_of(p, text@),
        rs@.len() == networks_of(p, text@).dom().len(),
{
    let rs = match p {
        Platform::Linux => parse_linux_output(text),
        Platform::MacOs => parse_macos_output(text),
        Platform::Windows => parse_windows_output(text),
    };
    proof {
        lemma_as_map_correspond(views(rs@));
    }
    rs
}

/// The decision the program takes on a captured command run: a successful
/// run is parsed into the record set of its standard output; a failed one
/// yields `CommandFailed` carrying the standard error text, and nothing is
/// parsed.
pub fn collect_networks(p: Platform, captured: &CapturedOutput) -> (r: Result<
    Vec<NetworkRecord>,
    ScanError,
>)
    ensures
        captured.success ==> (r matches Ok(rs) && unique_names(views(rs@)) && all_wf(views(rs@))
            && as_map(views(rs@)) == networks_of(p, captured.stdout@) && rs@.len() == networks_of(
            p,
            captured.stdout@,
        ).dom().len()),
        !captured.success ==> (r matches Err(e) && e matches ScanError::CommandFailed(m) && m@
            == captured.stderr@),
{
    if captured.success {
        Ok(parse_output(p, captured.stdout.as_str()))
    } else {
        Err(ScanError::CommandFailed(captured.stderr.clone()))
    }
}

} // verus!
