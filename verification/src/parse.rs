use vstd::prelude::*;

use crate::num::parse_i32;
use crate::num::spec_parse_i32;
use crate::record::all_wf;
use crate::record::as_map;
use crate::record::unique_names;
use crate::record::upsert;
use crate::record::views;
use crate::record::NetworkRecord;
use crate::record::RecordV;
use crate::text::all_white;
use crate::text::contains_seq;
use crate::text::contains_str;
use crate::text::find_first;
use crate::text::find_last;
use crate::text::first_idx_or_len;
use crate::text::is_blank;
use crate::text::last_idx_of;
use crate::text::lemma_tokens_nonempty;
use crate::text::nth1_str;
use crate::text::spec_lines;
use crate::text::spec_nth1;
use crate::text::spec_strip_bs;
use crate::text::spec_tokens;
use crate::text::spec_trim;
use crate::text::split_lines;
use crate::text::strip_backslashes;
use crate::text::tokens_of;
use crate::text::trim_str;

verus! {

/// What one line of `nmcli -t -f SSID,BSSID,SIGNAL dev wifi` yields. The line
/// is cut at its *last* colon (the piece after it must read as an integer)
/// and the rest at its *first* colon, because the hardware address itself is
/// colon-separated while the name may hold colons of its own. A line whose
/// name or raw address is blank, or whose address is nothing but
/// backslashes, yields no record.
pub open spec fn linux_line_record(l: Seq<char>) -> Option<RecordV> {
    let j = last_idx_of(l, ':');
    if j < 0 {
        None
    } else {
        let head = l.subrange(0, j);
        let sig = l.subrange(j + 1, l.len() as int);
        match spec_parse_i32(sig) {
            None => None,
            Some(v) => {
                let i = first_idx_or_len(head, ':');
                if i == head.len() {
                    None
                } else {
                    let name = head.subrange(0, i);
                    let mac_raw = head.subrange(i + 1, head.len() as int);
                    if all_white(name) || all_white(mac_raw) {
                        None
                    } else {
                        let mac = spec_strip_bs(mac_raw);
                        if mac.len() == 0 {
                            None
                        } else {
                            Some(RecordV { name, mac, signal: v })
                        }
                    }
                }
            },
        }
    }
}

/// What one line of `airport -s` yields: at least three whitespace-separated
/// columns, the third an integer.
pub open spec fn macos_line_record(l: Seq<char>) -> Option<RecordV> {
    let toks = spec_tokens(l);
    if toks.len() < 3 {
        None
    } else {
        match spec_parse_i32(toks[2]) {
            None => None,
            Some(v) => Some(RecordV { name: toks[0], mac: toks[1], signal: v }),
        }
    }
}

/// The first line in which `pat` occurs.
pub open spec fn first_line_with(ls: Seq<Seq<char>>, pat: Seq<char>) -> Option<Seq<char>>
    decreases ls.len(),
{
    if ls.len() == 0 {
        None
    } else if contains_seq(ls[0], pat) {
        Some(ls[0])
    } else {
        first_line_with(ls.drop_first(), pat)
    }
}

/// The hardware address `netsh` output yields: the trimmed second
/// colon-piece of the first line anywhere that mentions `BSSID`.
pub open spec fn windows_mac(ls: Seq<Seq<char>>) -> Option<Seq<char>> {
    match first_line_with(ls, "BSSID"@) {
        None => None,
        Some(l) => match spec_nth1(l) {
            None => None,
            Some(p) => Some(spec_trim(p)),
        },
    }
}

/// The signal strength `netsh` output yields: the trimmed second colon-piece
/// of the first line anywhere that mentions `Signal`, read as an integer.
pub open spec fn windows_sig(ls: Seq<Seq<char>>) -> Option<int> {
    match first_line_with(ls, "Signal"@) {
        None => None,
        Some(l) => match spec_nth1(l) {
            None => None,
            Some(p) => spec_parse_i32(spec_trim(p)),
        },
    }
}

/// What one `netsh` line yields, given the single address/signal pair drawn
/// from the whole text. Every line mentioning `SSID` (the `BSSID` lines do
/// too) is paired with that same `mac` and `sig`; a blank name or a missing
/// pair yields no record.
pub open spec fn windows_line_record(
    l: Seq<char>,
    mac: Option<Seq<char>>,
    sig: Option<int>,
) -> Option<RecordV> {
    if !contains_seq(l, "SSID"@) {
        None
    } else {
        match spec_nth1(l) {
            None => None,
            Some(p) => {
                let name = spec_trim(p);
                if mac is Some && sig is Some {
                    if name.len() == 0 || mac.unwrap().len() == 0 {
                        None
                    } else {
                        Some(RecordV { name, mac: mac.unwrap(), signal: sig.unwrap() })
                    }
                } else {
                    None
                }
            },
        }
    }
}

/// The name-keyed mapping that the Linux lines build up, in order; a later
/// line with the same name overwrites an earlier one.
pub open spec fn linux_map_of(ls: Seq<Seq<char>>) -> Map<Seq<char>, RecordV>
    decreases ls.len(),
{
    if ls.len() == 0 {
        Map::empty()
    } else {
        let m = linux_map_of(ls.drop_last());
        match linux_line_record(ls.last()) {
            Some(r) => m.insert(r.name, r),
            None => m,
        }
    }
}

pub open spec fn macos_map_of(ls: Seq<Seq<char>>) -> Map<Seq<char>, RecordV>
    decreases ls.len(),
{
    if ls.len() == 0 {
        Map::empty()
    } else {
        let m = macos_map_of(ls.drop_last());
        match macos_line_record(ls.last()) {
            Some(r) => m.insert(r.name, r),
            None => m,
        }
    }
}

pub open spec fn windows_map_of(
    ls: Seq<Seq<char>>,
    mac: Option<Seq<char>>,
    sig: Option<int>,
) -> Map<Seq<char>, RecordV>
    decreases ls.len(),
{
    if ls.len() == 0 {
        Map::empty()
    } else {
        let m = windows_map_of(ls.drop_last(), mac, sig);
        match windows_line_record(ls.last(), mac, sig) {
            Some(r) => m.insert(r.name, r),
            None => m,
        }
    }
}

/// Reads one `nmcli` line; `None` when the line is discarded.
pub fn parse_linux_line(line: &str) -> (r: Option<NetworkRecord>)
    ensures
        match r {
            Some(rec) => linux_line_record(line@) == Some(rec@) && rec@.wf(),
            None => linux_line_record(line@) is None,
        },
{
    let n = line.unicode_len();
    let j = match find_last(line, ':') {
        None => {
            return None;
        },
        Some(j) => j,
    };
    let head = line.substring_char(0, j);
    let sig = line.substring_char(j + 1, n);
    let v = match parse_i32(sig) {
        None => {
            return None;
        },
        Some(v) => v,
    };
    let hn = head.unicode_len();
    let i = find_first(head, ':');
    if i == hn {
        return None;
    }
    let name = head.substring_char(0, i);
    let mac_raw = head.substring_char(i + 1, hn);
    if is_blank(name) || is_blank(mac_raw) {
        return None;
    }
    let mac = strip_backslashes(mac_raw);
    if mac.unicode_len() == 0 {
        return None;
    }
    Some(NetworkRecord { name: name.to_owned(), hardware_address: mac, signal_strength: v })
}

/// Reads one `airport -s` line; `None` when the line is discarded.
pub fn parse_macos_line(line: &str) -> (r: Option<NetworkRecord>)
    ensures
        match r {
            Some(rec) => macos_line_record(line@) == Some(rec@) && rec@.wf(),
            None => macos_line_record(line@) is None,
        },
{
    let toks = tokens_of(line);
    if toks.len() < 3 {
        return None;
    }
    proof {
        assert(toks@[2]@ == spec_tokens(line@)[2]);
        assert(toks@[0]@ == spec_tokens(line@)[0]);
        assert(toks@[1]@ == spec_tokens(line@)[1]);
        lemma_tokens_nonempty(line@, Seq::empty());
    }
    let v = match parse_i32(toks[2].as_str()) {
        None => {
            return None;
        },
        Some(v) => v,
    };
    Some(
        NetworkRecord {
            name: toks[0].clone(),
            hardware_address: toks[1].clone(),
            signal_strength: v,
        },
    )
}

/// Collects the records of `nmcli -t -f SSID,BSSID,SIGNAL dev wifi` output,
/// one line at a time, keyed by name with last-write-wins.
#[verifier::loop_isolation(false)]
pub fn parse_linux_output(text: &str) -> (rs: Vec<NetworkRecord>)
    ensures
        unique_names(views(rs@)),
        all_wf(views(rs@)),
        as_map(views(rs@)) == linux_map_of(spec_lines(text@)),
{
    let lines = split_lines(text);
    let ghost ls = spec_lines(text@);
    let mut rs: Vec<NetworkRecord> = Vec::new();
    let mut i: usize = 0;
    proof {
        assert(ls.subrange(0, 0) =~= Seq::<Seq<char>>::empty());
        assert(views(rs@) =~= Seq::<RecordV>::empty());
    }
    while i < lines.len()
        invariant
            0 <= i <= lines.len(),
            ls == lines.deep_view(),
            unique_names(views(rs@)),
            all_wf(views(rs@)),
            as_map(views(rs@)) == linux_map_of(ls.subrange(0, i as int)),
        decreases lines.len() - i,
    {
        proof {
            assert(lines[i as int]@ == ls[i as int]);
            assert(ls.subrange(0, i + 1int).drop_last() =~= ls.subrange(0, i as int));
            assert(ls.subrange(0, i + 1int).last() == ls[i as int]);
        }
        match parse_linux_line(lines[i].as_str()) {
            Some(rec) => {
                upsert(&mut rs, rec);
            },
            None => {},
        }
        i = i + 1;
    }
    proof {
        assert(ls.subrange(0, lines.deep_view().len() as int) =~= ls);
    }
    rs
}

/// Collects the records of `airport -s` output, keyed by name with
/// last-write-wins.
#[verifier::loop_isolation(false)]
pub fn parse_macos_output(text: &str) -> (rs: Vec<NetworkRecord>)
    ensures
        unique_names(views(rs@)),
        all_wf(views(rs@)),
        as_map(views(rs@)) == macos_map_of(spec_lines(text@)),
{
    let lines = split_lines(text);
    let ghost ls = spec_lines(text@);
    let mut rs: Vec<NetworkRecord> = Vec::new();
    let mut i: usize = 0;
    proof {
        assert(ls.subrange(0, 0) =~= Seq::<Seq<char>>::empty());
        assert(views(rs@) =~= Seq::<RecordV>::empty());
    }
    while i < lines.len()
        invariant
            0 <= i <= lines.len(),
            ls == lines.deep_view(),
            unique_names(views(rs@)),
            all_wf(views(rs@)),
            as_map(views(rs@)) == macos_map_of(ls.subrange(0, i as int)),
        decreases lines.len() - i,
    {
        proof {
            assert(lines[i as int]@ == ls[i as int]);
            assert(ls.subrange(0, i + 1int).drop_last() =~= ls.subrange(0, i as int));
            assert(ls.subrange(0, i + 1int).last() == ls[i as int]);
        }
        match parse_macos_line(lines[i].as_str()) {
            Some(rec) => {
                upsert(&mut rs, rec);
            },
            None => {},
        }
        i = i + 1;
    }
    proof {
        assert(ls.subrange(0, lines.deep_view().len() as int) =~= ls);
    }
    rs
}

proof fn lemma_first_line_with_unique(ls: Seq<Seq<char>>, pat: Seq<char>, i: int)
    requires
        0 <= i <= ls.len(),
        forall|k: int| 0 <= k < i ==> !contains_seq(#[trigger] ls[k], pat),
        i < ls.len() ==> contains_seq(ls[i], pat),
    ensures
        i < ls.len() ==> first_line_with(ls, pat) == Some(ls[i]),
        i == ls.len() ==> first_line_with(ls, pat) is None,
    decreases ls.len(),
{
    if ls.len() > 0 && !contains_seq(ls[0], pat) {
        assert(i > 0);
        assert forall|k: int| 0 <= k < i - 1 implies !contains_seq(
            #[trigger] ls.drop_first()[k],
            pat,
        ) by {
            assert(!contains_seq(ls[k + 1], pat));
        }
        lemma_first_line_with_unique(ls.drop_first(), pat, i - 1);
    }
}

/// The first line in which `pat` occurs, scanned from the top.
#[verifier::loop_isolation(false)]
fn find_line_with<'a>(lines: &'a Vec<String>, pat: &str) -> (r: Option<&'a String>)
    ensures
        match r {
            Some(l) => first_line_with(lines.deep_view(), pat@) == Some(l@),
            None => first_line_with(lines.deep_view(), pat@) is None,
        },
{
    let mut k: usize = 0;
    while k < lines.len()
        invariant
            0 <= k <= lines.len(),
            forall|t: int| 0 <= t < k ==> !contains_seq(#[trigger] lines.deep_view()[t], pat@),
        decreases lines.len() - k,
    {
        if contains_str(lines[k].as_str(), pat) {
            proof {
                lemma_first_line_with_unique(lines.deep_view(), pat@, k as int);
            }
            return Some(&lines[k]);
        }
        k = k + 1;
    }
    proof {
        lemma_first_line_with_unique(lines.deep_view(), pat@, lines.deep_view().len() as int);
    }
    None
}

/// Collects the records of `netsh wlan show network mode=bssid` output.
/// This keeps the historical behaviour of the tool faithfully: the first
/// `BSSID` line and the first `Signal` line found anywhere in the text are
/// paired with every `SSID` line alike, so several networks all show the
/// same address and strength.
#[verifier::loop_isolation(false)]
pub fn parse_windows_output(text: &str) -> (rs: Vec<NetworkRecord>)
    ensures
        unique_names(views(rs@)),
        all_wf(views(rs@)),
        as_map(views(rs@)) == windows_map_of(
            spec_lines(text@),
            windows_mac(spec_lines(text@)),
            windows_sig(spec_lines(text@)),
        ),
{
    let lines = split_lines(text);
    let ghost ls = spec_lines(text@);
    let mac: Option<String> = match find_line_with(&lines, "BSSID") {
        None => None,
        Some(l) => match nth1_str(l.as_str()) {
            None => None,
            Some(p) => Some(trim_str(p.as_str()).to_owned()),
        },
    };
    proof {
        match &mac {
            Some(m) => assert(windows_mac(ls) == Some(m@)),
            None => assert(windows_mac(ls) is None),
        }
    }
    let sig: Option<i32> = match find_line_with(&lines, "Signal") {
        None => None,
        Some(l) => match nth1_str(l.as_str()) {
            None => None,
            Some(p) => parse_i32(trim_str(p.as_str())),
        },
    };
    proof {
        match &sig {
            Some(v) => assert(windows_sig(ls) == Some(*v as int)),
            None => assert(windows_sig(ls) is None),
        }
    }
    let ghost gmac = windows_mac(ls);
    let ghost gsig = windows_sig(ls);
    let mut rs: Vec<NetworkRecord> = Vec::new();
    let mut i: usize = 0;
    proof {
        assert(ls.subrange(0, 0) =~= Seq::<Seq<char>>::empty());
        assert(views(rs@) =~= Seq::<RecordV>::empty());
    }
    while i < lines.len()
        invariant
            0 <= i <= lines.len(),
            ls == lines.deep_view(),
            gmac == windows_mac(ls),
            gsig == windows_sig(ls),
            match mac {
                Some(m) => gmac == Some(m@),
                None => gmac is None,
            },
            match sig {
                Some(v) => gsig == Some(v as int),
                None => gsig is None,
            },
            unique_names(views(rs@)),
            all_wf(views(rs@)),
            as_map(views(rs@)) == windows_map_of(ls.subrange(0, i as int), gmac, gsig),
        decreases lines.len() - i,
    {
        proof {
            assert(lines[i as int]@ == ls[i as int]);
            assert(ls.subrange(0, i + 1int).drop_last() =~= ls.subrange(0, i as int));
            assert(ls.subrange(0, i + 1int).last() == ls[i as int]);
        }
        if contains_str(lines[i].as_str(), "SSID") {
            match nth1_str(lines[i].as_str()) {
                None => {},
                Some(p) => {
                    let name = trim_str(p.as_str());
                    if let (Some(m), Some(v)) = (&mac, &sig) {
                        if name.unicode_len() > 0 && m.as_str().unicode_len() > 0 {
                            let rec = NetworkRecord {
                                name: name.to_owned(),
                                hardware_address: m.clone(),
                                signal_strength: *v,
                            };
                            proof {
                                assert(windows_line_record(ls[i as int], gmac, gsig) == Some(
                                    rec@,
                                ));
                            }
                            upsert(&mut rs, rec);
                        }
                    }
                },
            }
        }
        i = i + 1;
    }
    proof {
        assert(ls.subrange(0, lines.deep_view().len() as int) =~= ls);
    }
    rs
}

/// Last write wins: when a later Linux line carries the same name as an
/// earlier one, and no line after it does, the collected mapping holds the
/// later line's record.
pub proof fn lemma_last_write_wins(ls: Seq<Seq<char>>, i: int, j: int)
    requires
        0 <= i < j < ls.len(),
        linux_line_record(ls[i]) is Some,
        linux_line_record(ls[j]) is Some,
        linux_line_record(ls[i]).unwrap().name == linux_line_record(ls[j]).unwrap().name,
        forall|k: int|
            j < k < ls.len() ==> (linux_line_record(#[trigger] ls[k]) is Some
                ==> linux_line_record(ls[k]).unwrap().name != linux_line_record(
                ls[j],
            ).unwrap().name),
    ensures
        linux_map_of(ls).contains_key(linux_line_record(ls[j]).unwrap().name),
        linux_map_of(ls)[linux_line_record(ls[j]).unwrap().name] == linux_line_record(
            ls[j],
        ).unwrap(),
    decreases ls.len(),
{
    let nm = linux_line_record(ls[j]).unwrap().name;
    if j == ls.len() - 1 {
        assert(ls.last() == ls[j]);
    } else {
        assert forall|k: int|
            j < k < ls.drop_last().len() && linux_line_record(
            #[trigger] ls.drop_last()[k]) is Some implies linux_line_record(
            ls.drop_last()[k],
        ).unwrap().name != nm by {
            assert(ls.drop_last()[k] == ls[k]);
        }
        assert(ls.drop_last()[i] == ls[i]);
        assert(ls.drop_last()[j] == ls[j]);
        lemma_last_write_wins(ls.drop_last(), i, j);
        match linux_line_record(ls.last()) {
            Some(r) => {
                assert(r.name != nm);
            },
            None => {},
        }
    }
}

} // verus!
