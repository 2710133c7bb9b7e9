use vstd::prelude::*;

use colored::Colorize;

use crate::num::i32_dec;
use crate::num::i32_to_string;
use crate::num::is_digit_char;
use crate::num::lemma_dec_rep_digits;
use crate::record::views;
use crate::record::NetworkRecord;
use crate::record::RecordV;
use crate::signal::band_of;
use crate::signal::classify_signal;
use crate::signal::SignalBand;
use crate::scan::Platform;

verus! {

/// Holds no ANSI escape character, so colorizing wraps it verbatim.
pub open spec fn esc_free(s: Seq<char>) -> bool {
    forall|i: int| 0 <= i < s.len() ==> #[trigger] s[i] != '\u{1b}'
}

/// The ANSI sequence that ends a colored span.
pub open spec fn reset_seq() -> Seq<char> {
    seq!['\u{1b}', '[', '0', 'm']
}

/// The ANSI prefix that opens a green span.
pub open spec fn green_prefix() -> Seq<char> {
    seq!['\u{1b}', '[', '3', '2', 'm']
}

/// The ANSI prefix that opens a yellow span.
pub open spec fn yellow_prefix() -> Seq<char> {
    seq!['\u{1b}', '[', '3', '3', 'm']
}

pub open spec fn wrapped_with(inner: Seq<char>, outer: Seq<char>, style: Seq<char>) -> bool {
    outer == seq!['\u{1b}', '['] + style + seq!['m'] + inner + reset_seq()
}

/// `outer` is `inner` wrapped in one ANSI color prefix and the reset suffix.
pub open spec fn ansi_wrapped(inner: Seq<char>, outer: Seq<char>) -> bool {
    exists|style: Seq<char>| #[trigger] wrapped_with(inner, outer, style)
}

/// Relies on colored's `Colorize::green` and the `Display` of
/// `ColoredString`: with colors disabled the input comes back unchanged;
/// with colors enabled it comes back between `ESC [ 3 2 m` and the reset
/// sequence, verbatim whenever it holds no escape character.
#[verifier::external_body]
fn green_text(s: &str) -> (r: String)
    ensures
        esc_free(s@) ==> (r@ == s@ || r@ == green_prefix() + s@ + reset_seq()),
{
    s.green().to_string()
}

/// Relies on colored's `Colorize::yellow`, as `green_text` does on `green`.
#[verifier::external_body]
fn yellow_text(s: &str) -> (r: String)
    ensures
        esc_free(s@) ==> (r@ == s@ || r@ == yellow_prefix() + s@ + reset_seq()),
{
    s.yellow().to_string()
}

/// Relies on colored's `Colorize::truecolor`: unchanged with colors
/// disabled; otherwise wrapped in a single ANSI prefix (the exact code
/// depends on the terminal's truecolor support) and the reset sequence.
#[verifier::external_body]
fn truecolor_text(s: &str, red: u8, grn: u8, blu: u8) -> (r: String)
    ensures
        esc_free(s@) ==> (r@ == s@ || ansi_wrapped(s@, r@)),
{
    s.truecolor(red, grn, blu).to_string()
}

proof fn lemma_i32_dec_esc_free(v: int)
    ensures
        esc_free(i32_dec(v)),
{
    if v < 0 {
        lemma_dec_rep_digits((-v) as nat);
        assert forall|i: int| 0 <= i < i32_dec(v).len() implies #[trigger] i32_dec(v)[i]
            != '\u{1b}' by {
            if i > 0 {
                assert(is_digit_char(i32_dec(v)[i]));
            }
        }
    } else {
        lemma_dec_rep_digits(v as nat);
        assert forall|i: int| 0 <= i < i32_dec(v).len() implies #[trigger] i32_dec(v)[i]
            != '\u{1b}' by {
            assert(is_digit_char(i32_dec(v)[i]));
        }
    }
}

/// The displayed signal text: the decimal number, wrapped per its band —
/// some truecolor prefix for the three low bands, the green prefix for
/// `Excellent`, and bare for `Plain` — or bare whenever colors are off.
pub open spec fn signal_text_ok(v: int, t: Seq<char>) -> bool {
    match band_of(v) {
        SignalBand::Weak => t == i32_dec(v) || ansi_wrapped(i32_dec(v), t),
        SignalBand::BelowAverage => t == i32_dec(v) || ansi_wrapped(i32_dec(v), t),
        SignalBand::Good => t == i32_dec(v) || ansi_wrapped(i32_dec(v), t),
        SignalBand::Excellent => t == i32_dec(v) || t == green_prefix() + i32_dec(v) + reset_seq(),
        SignalBand::Plain => t == i32_dec(v),
    }
}

/// Renders a signal strength with its band's color: dark red, orange and
/// yellow truecolor for the three low bands, green for the high one, plain
/// text outside 0..=100.
pub fn signal_to_text(strength: i32) -> (t: String)
    ensures
        signal_text_ok(strength as int, t@),
{
    let digits = i32_to_string(strength);
    proof {
        lemma_i32_dec_esc_free(strength as int);
    }
    match classify_signal(strength) {
        SignalBand::Weak => truecolor_text(digits.as_str(), 139, 0, 0),
        SignalBand::BelowAverage => truecolor_text(digits.as_str(), 255, 165, 0),
        SignalBand::Good => truecolor_text(digits.as_str(), 255, 255, 0),
        SignalBand::Excellent => green_text(digits.as_str()),
        SignalBand::Plain => digits,
    }
}

pub open spec fn line_suffix(p: Platform) -> Seq<char> {
    if p is Linux {
        seq!['%']
    } else {
        Seq::empty()
    }
}

pub open spec fn report_line_parts(
    p: Platform,
    r: RecordV,
    l: Seq<char>,
    g: Seq<char>,
    y: Seq<char>,
    t: Seq<char>,
) -> bool {
    &&& l == "SSID: "@ + g + "  BSSID: "@ + y + "  Strength: "@ + t + line_suffix(p)
    &&& (esc_free(r.name) ==> (g == r.name || g == green_prefix() + r.name + reset_seq()))
    &&& (esc_free(r.mac) ==> (y == r.mac || y == yellow_prefix() + r.mac + reset_seq()))
    &&& signal_text_ok(r.signal, t)
}

/// One displayed row: the record's name in green, its hardware address in
/// yellow, its signal text per band, with a trailing percent sign on Linux.
pub open spec fn is_report_line(p: Platform, r: RecordV, l: Seq<char>) -> bool {
    exists|g: Seq<char>, y: Seq<char>, t: Seq<char>| #[trigger] report_line_parts(p, r, l, g, y, t)
}

/// Renders one record as its display row.
pub fn render_record(p: Platform, rec: &NetworkRecord) -> (l: String)
    ensures
        is_report_line(p, rec@, l@),
{
    let mut l = "SSID: ".to_owned();
    let g = green_text(rec.name.as_str());
    l.append(g.as_str());
    l.append("  BSSID: ");
    let y = yellow_text(rec.hardware_address.as_str());
    l.append(y.as_str());
    l.append("  Strength: ");
    let t = signal_to_text(rec.signal_strength);
    l.append(t.as_str());
    match p {
        Platform::Linux => {
            l.append("%");
            proof {
                reveal_strlit("%");
                assert("%"@ =~= seq!['%']);
                assert(l@ == "SSID: "@ + g@ + "  BSSID: "@ + y@ + "  Strength: "@ + t@
                    + line_suffix(p));
            }
        },
        _ => {
            proof {
                assert(l@ =~= l@ + Seq::<char>::empty());
                assert(l@ == "SSID: "@ + g@ + "  BSSID: "@ + y@ + "  Strength: "@ + t@
                    + line_suffix(p));
            }
        },
    }
    proof {
        assert(report_line_parts(p, rec@, l@, g@, y@, t@));
    }
    l
}

/// Renders the whole report: the header line, then one row per record, in
/// the record set's own order.
pub fn render_report(p: Platform, records: &Vec<NetworkRecord>) -> (lines: Vec<String>)
    ensures
        lines@.len() == records@.len() + 1,
        lines.deep_view()[0] == "Available Networks: "@,
        forall|i: int|
            0 <= i < records@.len() ==> is_report_line(
                p,
                views(records@)[i],
                #[trigger] lines.deep_view()[i + 1],
            ),
{
    let mut lines: Vec<String> = Vec::new();
    lines.push("Available Networks: ".to_owned());
    let n = records.len();
    let mut i: usize = 0;
    while i < n
        invariant
            0 <= i <= n,
            n == records@.len(),
            lines@.len() == i + 1,
            lines.deep_view()[0] == "Available Networks: "@,
            forall|k: int|
                0 <= k < i ==> is_report_line(
                    p,
                    views(records@)[k],
                    #[trigger] lines.deep_view()[k + 1],
                ),
        decreases n - i,
    {
        let row = render_record(p, &records[i]);
        let ghost old_dv = lines.deep_view();
        lines.push(row);
        proof {
            assert(lines.deep_view() =~= old_dv.push(lines@.last()@));
            assert forall|k: int|
                0 <= k < i + 1 implies is_report_line(
                p,
                views(records@)[k],
                #[trigger] lines.deep_view()[k + 1],
            ) by {
                if k < i {
                    assert(lines.deep_view()[k + 1] == old_dv[k + 1]);
                }
            }
        }
        i = i + 1;
    }
    lines
}

} // verus!
