use vstd::prelude::*;

verus! {

/// A Unicode `White_Space` character, the set `char::is_whitespace` reports.
pub open spec fn is_white_char(c: char) -> bool {
    let u = c as u32;
    u == 0x09 || u == 0x0A || u == 0x0B || u == 0x0C || u == 0x0D || u == 0x20 || u == 0x85 || u
        == 0xA0 || u == 0x1680 || (0x2000 <= u && u <= 0x200A) || u == 0x2028 || u == 0x2029 || u
        == 0x202F || u == 0x205F || u == 0x3000
}

pub fn is_white(c: char) -> (b: bool)
    ensures
        b == is_white_char(c),
{
    let u = c as u32;
    u == 0x09 || u == 0x0A || u == 0x0B || u == 0x0C || u == 0x0D || u == 0x20 || u == 0x85 || u
        == 0xA0 || u == 0x1680 || (0x2000 <= u && u <= 0x200A) || u == 0x2028 || u == 0x2029 || u
        == 0x202F || u == 0x205F || u == 0x3000
}

/// Nothing but whitespace (or nothing at all): what `s.trim().is_empty()` tests.
pub open spec fn all_white(s: Seq<char>) -> bool {
    forall|i: int| 0 <= i < s.len() ==> is_white_char(#[trigger] s[i])
}

#[verifier::loop_isolation(false)]
pub fn is_blank(s: &str) -> (b: bool)
    ensures
        b == all_white(s@),
{
    let n = s.unicode_len();
    let mut i: usize = 0;
    while i < n
        invariant
            0 <= i <= n,
            forall|k: int| 0 <= k < i ==> is_white_char(#[trigger] s@[k]),
        decreases n - i,
    {
        if !is_white(s.get_char(i)) {
            return false;
        }
        i = i + 1;
    }
    true
}

/// Index of the first occurrence of `c` in `s`, or `s.len()` when absent.
pub open spec fn first_idx_or_len(s: Seq<char>, c: char) -> int
    decreases s.len(),
{
    if s.len() == 0 {
        0
    } else if s[0] == c {
        0
    } else {
        1 + first_idx_or_len(s.drop_first(), c)
    }
}

pub proof fn lemma_first_idx(s: Seq<char>, c: char)
    ensures
        0 <= first_idx_or_len(s, c) <= s.len(),
        first_idx_or_len(s, c) < s.len() ==> s[first_idx_or_len(s, c)] == c,
        forall|k: int| 0 <= k < first_idx_or_len(s, c) ==> s[k] != c,
    decreases s.len(),
{
    if s.len() > 0 && s[0] != c {
        lemma_first_idx(s.drop_first(), c);
        let f = first_idx_or_len(s, c);
        assert forall|k: int| 0 <= k < f implies s[k] != c by {
            if k > 0 {
                assert(s.drop_first()[k - 1] != c);
            }
        }
    }
}

pub proof fn lemma_first_idx_unique(s: Seq<char>, c: char, i: int)
    requires
        0 <= i <= s.len(),
        forall|k: int| 0 <= k < i ==> s[k] != c,
        i < s.len() ==> s[i] == c,
    ensures
        first_idx_or_len(s, c) == i,
    decreases s.len(),
{
    if s.len() > 0 && s[0] != c {
        assert(i > 0);
        assert forall|k: int| 0 <= k < i - 1 implies s.drop_first()[k] != c by {
            assert(s[k + 1] != c);
        }
        lemma_first_idx_unique(s.drop_first(), c, i - 1);
    }
}

#[verifier::loop_isolation(false)]
pub fn find_first(s: &str, c: char) -> (i: usize)
    ensures
        i as int == first_idx_or_len(s@, c),
        i <= s@.len(),
{
    let n = s.unicode_len();
    let mut i: usize = 0;
    while i < n
        invariant
            0 <= i <= n,
            forall|k: int| 0 <= k < i ==> s@[k] != c,
        decreases n - i,
    {
        if s.get_char(i) == c {
            proof {
                lemma_first_idx_unique(s@, c, i as int);
            }
            return i;
        }
        i = i + 1;
    }
    proof {
        lemma_first_idx_unique(s@, c, n as int);
    }
    n
}

/// Index of the last occurrence of `c` in `s`, or `-1` when absent.
pub open spec fn last_idx_of(s: Seq<char>, c: char) -> int
    decreases s.len(),
{
    if s.len() == 0 {
        -1
    } else if s.last() == c {
        s.len() - 1
    } else {
        last_idx_of(s.drop_last(), c)
    }
}

pub proof fn lemma_last_idx(s: Seq<char>, c: char)
    ensures
        -1 <= last_idx_of(s, c) < s.len(),
        last_idx_of(s, c) >= 0 ==> s[last_idx_of(s, c)] == c,
        forall|k: int| last_idx_of(s, c) < k < s.len() ==> s[k] != c,
    decreases s.len(),
{
    if s.len() > 0 && s.last() != c {
        lemma_last_idx(s.drop_last(), c);
        let f = last_idx_of(s, c);
        assert forall|k: int| f < k < s.len() implies s[k] != c by {
            if k < s.len() - 1 {
                assert(s.drop_last()[k] != c);
            }
        }
    }
}

pub proof fn lemma_last_idx_unique(s: Seq<char>, c: char, i: int)
    requires
        -1 <= i < s.len(),
        i >= 0 ==> s[i] == c,
        forall|k: int| i < k < s.len() ==> s[k] != c,
    ensures
        last_idx_of(s, c) == i,
    decreases s.len(),
{
    if s.len() > 0 {
        if s.last() == c {
            assert(i == s.len() - 1);
        } else {
            assert(i < s.len() - 1);
            assert forall|k: int| i < k < s.drop_last().len() implies s.drop_last()[k] != c by {
                assert(s[k] != c);
            }
            lemma_last_idx_unique(s.drop_last(), c, i);
        }
    }
}

#[verifier::loop_isolation(false)]
pub fn find_last(s: &str, c: char) -> (r: Option<usize>)
    ensures
        match r {
            Some(i) => i < s@.len() && last_idx_of(s@, c) == i as int,
            None => last_idx_of(s@, c) == -1,
        },
{
    let n = s.unicode_len();
    let mut found: Option<usize> = None;
    let mut i: usize = 0;
    while i < n
        invariant
            0 <= i <= n,
            match found {
                Some(j) => j < i && s@[j as int] == c && forall|k: int| j < k < i ==> s@[k] != c,
                None => forall|k: int| 0 <= k < i ==> s@[k] != c,
            },
        decreases n - i,
    {
        if s.get_char(i) == c {
            found = Some(i);
        }
        i = i + 1;
    }
    proof {
        match found {
            Some(j) => lemma_last_idx_unique(s@, c, j as int),
            None => lemma_last_idx_unique(s@, c, -1),
        }
    }
    found
}

/// What `str::trim_start` leaves.
pub open spec fn spec_trim_start(s: Seq<char>) -> Seq<char>
    decreases s.len(),
{
    if s.len() == 0 {
        s
    } else if is_white_char(s[0]) {
        spec_trim_start(s.drop_first())
    } else {
        s
    }
}

/// What `str::trim_end` leaves.
pub open spec fn spec_trim_end(s: Seq<char>) -> Seq<char>
    decreases s.len(),
{
    if s.len() == 0 {
        s
    } else if is_white_char(s.last()) {
        spec_trim_end(s.drop_last())
    } else {
        s
    }
}

/// What `str::trim` leaves: no leading and no trailing whitespace.
pub open spec fn spec_trim(s: Seq<char>) -> Seq<char> {
    spec_trim_end(spec_trim_start(s))
}

proof fn lemma_trim_start_at(s: Seq<char>, i: int)
    requires
        0 <= i <= s.len(),
        forall|k: int| 0 <= k < i ==> is_white_char(#[trigger] s[k]),
        i < s.len() ==> !is_white_char(s[i]),
    ensures
        spec_trim_start(s) == s.subrange(i, s.len() as int),
    decreases i,
{
    if i == 0 {
        assert(s.subrange(0, s.len() as int) =~= s);
    } else {
        assert(is_white_char(s[0]));
        assert forall|k: int| 0 <= k < i - 1 implies is_white_char(
            #[trigger] s.drop_first()[k],
        ) by {
            assert(is_white_char(s[k + 1]));
        }
        lemma_trim_start_at(s.drop_first(), i - 1);
        assert(s.drop_first().subrange(i - 1, s.drop_first().len() as int) =~= s.subrange(
            i,
            s.len() as int,
        ));
    }
}

proof fn lemma_trim_end_at(s: Seq<char>, j: int)
    requires
        0 <= j <= s.len(),
        forall|k: int| j <= k < s.len() ==> is_white_char(#[trigger] s[k]),
        j > 0 ==> !is_white_char(s[j - 1]),
    ensures
        spec_trim_end(s) == s.subrange(0, j),
    decreases s.len(),
{
    if j == s.len() {
        assert(s.subrange(0, j) =~= s);
    } else {
        assert(is_white_char(s.last()));
        assert forall|k: int| j <= k < s.drop_last().len() implies is_white_char(
            #[trigger] s.drop_last()[k],
        ) by {
            assert(is_white_char(s[k]));
        }
        lemma_trim_end_at(s.drop_last(), j);
        assert(s.drop_last().subrange(0, j) =~= s.subrange(0, j));
    }
}

/// Removes leading and trailing whitespace, as `str::trim` does.
#[verifier::loop_isolation(false)]
pub fn trim_str<'a>(s: &'a str) -> (r: &'a str)
    ensures
        r@ == spec_trim(s@),
{
    let n = s.unicode_len();
    let mut a: usize = 0;
    while a < n && is_white(s.get_char(a))
        invariant
            0 <= a <= n,
            forall|k: int| 0 <= k < a ==> is_white_char(#[trigger] s@[k]),
        decreases n - a,
    {
        a = a + 1;
    }
    let mut b: usize = n;
    while b > a && is_white(s.get_char(b - 1))
        invariant
            a <= b <= n,
            forall|k: int| b <= k < n ==> is_white_char(#[trigger] s@[k]),
        decreases b,
    {
        b = b - 1;
    }
    proof {
        lemma_trim_start_at(s@, a as int);
        let t = s@.subrange(a as int, n as int);
        assert forall|k: int| b - a <= k < t.len() implies is_white_char(#[trigger] t[k]) by {
            assert(is_white_char(s@[k + a]));
        }
        lemma_trim_end_at(t, b - a);
        assert(t.subrange(0, b - a) =~= s@.subrange(a as int, b as int));
    }
    s.substring_char(a, b)
}

/// `pat` occurs somewhere in `s` as a contiguous run.
pub open spec fn contains_seq(s: Seq<char>, pat: Seq<char>) -> bool {
    exists|i: int|
        0 <= i && i + pat.len() <= s.len() && #[trigger] s.subrange(i, i + pat.len() as int)
            == pat
}

/// Substring search, as `str::contains` answers it.
#[verifier::loop_isolation(false)]
pub fn contains_str(s: &str, pat: &str) -> (b: bool)
    ensures
        b == contains_seq(s@, pat@),
{
    let n = s.unicode_len();
    let m = pat.unicode_len();
    if m > n {
        return false;
    }
    let mut i: usize = 0;
    while i <= n - m
        invariant
            0 <= i <= n - m + 1,
            m <= n,
            forall|j: int|
                0 <= j < i ==> #[trigger] s@.subrange(j, j + pat@.len() as int) != pat@,
        decreases n - i,
    {
        let mut k: usize = 0;
        while k < m && s.get_char(i + k) == pat.get_char(k)
            invariant
                0 <= k <= m,
                i + m <= n,
                forall|t: int| 0 <= t < k ==> s@[i + t] == pat@[t],
            decreases m - k,
        {
            k = k + 1;
        }
        if k == m {
            proof {
                assert(s@.subrange(i as int, i + m as int) =~= pat@);
            }
            return true;
        }
        proof {
            assert(s@.subrange(i as int, i + m as int)[k as int] == s@[i + k]);
            assert(s@.subrange(i as int, i + m as int) != pat@);
        }
        i = i + 1;
    }
    proof {
        assert forall|j: int| 0 <= j && j + pat@.len() <= s@.len() implies #[trigger] s@.subrange(
            j,
            j + pat@.len() as int,
        ) != pat@ by {
            assert(j < i);
        }
    }
    false
}

/// The non-empty maximal runs of non-whitespace, in order: what
/// `str::split_whitespace` yields. `cur` carries the run in progress.
pub open spec fn spec_tokens_ac(s: Seq<char>, cur: Seq<char>) -> Seq<Seq<char>>
    decreases s.len(),
{
    if s.len() == 0 {
        if cur.len() == 0 {
            Seq::empty()
        } else {
            seq![cur]
        }
    } else if is_white_char(s[0]) {
        if cur.len() == 0 {
            spec_tokens_ac(s.drop_first(), Seq::empty())
        } else {
            seq![cur] + spec_tokens_ac(s.drop_first(), Seq::empty())
        }
    } else {
        spec_tokens_ac(s.drop_first(), cur.push(s[0]))
    }
}

pub open spec fn spec_tokens(s: Seq<char>) -> Seq<Seq<char>> {
    spec_tokens_ac(s, Seq::empty())
}

/// `split_whitespace` never yields an empty piece.
pub proof fn lemma_tokens_nonempty(s: Seq<char>, cur: Seq<char>)
    ensures
        forall|k: int|
            0 <= k < spec_tokens_ac(s, cur).len() ==> (#[trigger] spec_tokens_ac(s, cur)[k]).len()
                > 0,
    decreases s.len(),
{
    if s.len() == 0 {
        if cur.len() > 0 {
            assert(spec_tokens_ac(s, cur) == seq![cur]);
            assert(spec_tokens_ac(s, cur)[0] == cur);
        }
    } else if is_white_char(s[0]) {
        lemma_tokens_nonempty(s.drop_first(), Seq::empty());
        if cur.len() == 0 {
            assert(spec_tokens_ac(s, cur) == spec_tokens_ac(s.drop_first(), Seq::empty()));
        }
        if cur.len() > 0 {
            assert forall|k: int| 0 <= k < spec_tokens_ac(s, cur).len() implies (
            #[trigger] spec_tokens_ac(s, cur)[k]).len() > 0 by {
                if k > 0 {
                    assert(spec_tokens_ac(s, cur)[k] == spec_tokens_ac(
                        s.drop_first(),
                        Seq::empty(),
                    )[k - 1]);
                } else {
                    assert(spec_tokens_ac(s, cur)[k] == cur);
                }
            }
        }
    } else {
        lemma_tokens_nonempty(s.drop_first(), cur.push(s[0]));
        assert(spec_tokens_ac(s, cur) == spec_tokens_ac(s.drop_first(), cur.push(s[0])));
    }
}

/// Splits on runs of whitespace, as `str::split_whitespace` does.
#[verifier::loop_isolation(false)]
pub fn tokens_of(s: &str) -> (out: Vec<String>)
    ensures
        out.deep_view() == spec_tokens(s@),
{
    let n = s.unicode_len();
    let mut out: Vec<String> = Vec::new();
    let mut start: usize = 0;
    let mut i: usize = 0;
    proof {
        assert(s@.subrange(0, n as int) =~= s@);
        assert(s@.subrange(0, 0) =~= Seq::<char>::empty());
        assert(out.deep_view() =~= Seq::<Seq<char>>::empty());
        assert(out.deep_view() + spec_tokens_ac(s@.subrange(0, n as int), s@.subrange(0, 0))
            =~= spec_tokens(s@));
    }
    while i < n
        invariant
            0 <= start <= i <= n,
            out.deep_view() + spec_tokens_ac(
                s@.subrange(i as int, n as int),
                s@.subrange(start as int, i as int),
            ) =~= spec_tokens(s@),
        decreases n - i,
    {
        let ghost rest = s@.subrange(i as int, n as int);
        let ghost cur = s@.subrange(start as int, i as int);
        proof {
            assert(rest[0] == s@[i as int]);
            assert(rest.drop_first() =~= s@.subrange(i + 1int, n as int));
        }
        let c = s.get_char(i);
        if is_white(c) {
            if i > start {
                let tok = s.substring_char(start, i).to_owned();
                let ghost old_dv = out.deep_view();
                out.push(tok);
                proof {
                    assert(out.deep_view() =~= old_dv.push(cur));
                    assert(spec_tokens_ac(rest, cur) == seq![cur] + spec_tokens_ac(
                        rest.drop_first(),
                        Seq::empty(),
                    ));
                    assert(old_dv.push(cur) =~= old_dv + seq![cur]);
                    assert(out.deep_view() + spec_tokens_ac(rest.drop_first(), Seq::empty())
                        =~= spec_tokens(s@));
                    assert(s@.subrange(i + 1int, i + 1int) =~= Seq::<char>::empty());
                }
            } else {
                proof {
                    assert(cur =~= Seq::<char>::empty());
                    assert(s@.subrange(i + 1int, i + 1int) =~= Seq::<char>::empty());
                }
            }
            start = i + 1;
        } else {
            proof {
                assert(cur.push(s@[i as int]) =~= s@.subrange(start as int, i + 1int));
            }
        }
        i = i + 1;
    }
    proof {
        assert(s@.subrange(n as int, n as int) =~= Seq::<char>::empty());
    }
    if start < n {
        let tok = s.substring_char(start, n).to_owned();
        let ghost old_dv = out.deep_view();
        out.push(tok);
        proof {
            assert(out.deep_view() =~= old_dv.push(s@.subrange(start as int, n as int)));
            assert(old_dv.push(s@.subrange(start as int, n as int)) =~= old_dv + seq![
                s@.subrange(start as int, n as int),
            ]);
        }
    }
    out
}

/// Drops one trailing carriage return, the way `str::lines` treats `\r\n`.
pub open spec fn strip_cr(s: Seq<char>) -> Seq<char> {
    if s.len() > 0 && s.last() == '\r' {
        s.drop_last()
    } else {
        s
    }
}

/// The lines of `s`, split at `\n` with a `\r` dropped before each split
/// point, exactly as `str::lines` yields them. `cur` carries the line in
/// progress.
pub open spec fn spec_lines_ac(s: Seq<char>, cur: Seq<char>) -> Seq<Seq<char>>
    decreases s.len(),
{
    if s.len() == 0 {
        if cur.len() == 0 {
            Seq::empty()
        } else {
            seq![cur]
        }
    } else if s[0] == '\n' {
        seq![strip_cr(cur)] + spec_lines_ac(s.drop_first(), Seq::empty())
    } else {
        spec_lines_ac(s.drop_first(), cur.push(s[0]))
    }
}

pub open spec fn spec_lines(s: Seq<char>) -> Seq<Seq<char>> {
    spec_lines_ac(s, Seq::empty())
}

/// Splits into lines, as `str::lines` does: terminators are not kept, a
/// final terminator opens no empty line, and `\r\n` counts as one break.
#[verifier::loop_isolation(false)]
pub fn split_lines(s: &str) -> (out: Vec<String>)
    ensures
        out.deep_view() == spec_lines(s@),
{
    let n = s.unicode_len();
    let mut out: Vec<String> = Vec::new();
    let mut start: usize = 0;
    let mut i: usize = 0;
    proof {
        assert(s@.subrange(0, n as int) =~= s@);
        assert(s@.subrange(0, 0) =~= Seq::<char>::empty());
        assert(out.deep_view() =~= Seq::<Seq<char>>::empty());
        assert(out.deep_view() + spec_lines_ac(s@.subrange(0, n as int), s@.subrange(0, 0))
            =~= spec_lines(s@));
    }
    while i < n
        invariant
            0 <= start <= i <= n,
            out.deep_view() + spec_lines_ac(
                s@.subrange(i as int, n as int),
                s@.subrange(start as int, i as int),
            ) =~= spec_lines(s@),
        decreases n - i,
    {
        let ghost rest = s@.subrange(i as int, n as int);
        let ghost cur = s@.subrange(start as int, i as int);
        proof {
            assert(rest[0] == s@[i as int]);
            assert(rest.drop_first() =~= s@.subrange(i + 1int, n as int));
        }
        let c = s.get_char(i);
        if c == '\n' {
            let line = if i > start && s.get_char(i - 1) == '\r' {
                s.substring_char(start, i - 1)
            } else {
                s.substring_char(start, i)
            };
            proof {
                if i > start && s@[i - 1int] == '\r' {
                    assert(cur.last() == s@[i - 1int]);
                    assert(cur.drop_last() =~= s@.subrange(start as int, i - 1int));
                    assert(line@ == strip_cr(cur));
                } else {
                    if cur.len() > 0 {
                        assert(cur.last() == s@[i - 1int]);
                    }
                    assert(line@ == strip_cr(cur));
                }
            }
            let ghost old_dv = out.deep_view();
            out.push(line.to_owned());
            proof {
                assert(out.deep_view() =~= old_dv.push(strip_cr(cur)));
                assert(old_dv.push(strip_cr(cur)) =~= old_dv + seq![strip_cr(cur)]);
                assert(spec_lines_ac(rest, cur) == seq![strip_cr(cur)] + spec_lines_ac(
                    rest.drop_first(),
                    Seq::empty(),
                ));
                assert(out.deep_view() + spec_lines_ac(rest.drop_first(), Seq::empty())
                    =~= spec_lines(s@));
                assert(s@.subrange(i + 1int, i + 1int) =~= Seq::<char>::empty());
            }
            start = i + 1;
        } else {
            proof {
                assert(cur.push(s@[i as int]) =~= s@.subrange(start as int, i + 1int));
            }
        }
        i = i + 1;
    }
    proof {
        assert(s@.subrange(n as int, n as int) =~= Seq::<char>::empty());
    }
    if start < n {
        let line = s.substring_char(start, n).to_owned();
        let ghost old_dv = out.deep_view();
        out.push(line);
        proof {
            assert(out.deep_view() =~= old_dv.push(s@.subrange(start as int, n as int)));
            assert(old_dv.push(s@.subrange(start as int, n as int)) =~= old_dv + seq![
                s@.subrange(start as int, n as int),
            ]);
        }
    }
    out
}

/// The piece at index 1 of `s.split(':')`: what lies between the first colon
/// and the next one (or the end). `None` when `s` has no colon.
pub open spec fn spec_nth1(s: Seq<char>) -> Option<Seq<char>> {
    let i = first_idx_or_len(s, ':');
    if i == s.len() {
        None
    } else {
        let rest = s.subrange(i + 1, s.len() as int);
        Some(rest.subrange(0, first_idx_or_len(rest, ':')))
    }
}

/// The second piece of a colon split, as `s.split(":").nth(1)` returns it.
pub fn nth1_str(s: &str) -> (r: Option<String>)
    ensures
        match r {
            Some(p) => spec_nth1(s@) == Some(p@),
            None => spec_nth1(s@) is None,
        },
{
    let n = s.unicode_len();
    let i = find_first(s, ':');
    if i == n {
        return None;
    }
    let rest = s.substring_char(i + 1, n);
    let j = find_first(rest, ':');
    proof {
        lemma_first_idx(rest@, ':');
    }
    Some(rest.substring_char(0, j).to_owned())
}

/// `s` with every backslash removed, as `s.replace("\\", "")` leaves it.
pub open spec fn spec_strip_bs(s: Seq<char>) -> Seq<char>
    decreases s.len(),
{
    if s.len() == 0 {
        Seq::empty()
    } else if s.last() == '\\' {
        spec_strip_bs(s.drop_last())
    } else {
        spec_strip_bs(s.drop_last()).push(s.last())
    }
}

/// Removes every backslash, as `s.replace("\\", "")` does.
#[verifier::loop_isolation(false)]
pub fn strip_backslashes(s: &str) -> (r: String)
    ensures
        r@ == spec_strip_bs(s@),
{
    let n = s.unicode_len();
    let mut r = String::new();
    let mut i: usize = 0;
    proof {
        assert(s@.subrange(0, 0) =~= Seq::<char>::empty());
    }
    while i < n
        invariant
            0 <= i <= n,
            r@ == spec_strip_bs(s@.subrange(0, i as int)),
        decreases n - i,
    {
        let ghost pre = s@.subrange(0, i + 1int);
        proof {
            assert(pre.drop_last() =~= s@.subrange(0, i as int));
            assert(pre.last() == s@[i as int]);
        }
        let c = s.get_char(i);
        if c != '\\' {
            let piece = s.substring_char(i, i + 1);
            proof {
                assert(piece@ =~= seq![s@[i as int]]);
            }
            r.append(piece);
            proof {
                assert(r@ =~= spec_strip_bs(s@.subrange(0, i as int)).push(s@[i as int]));
            }
        }
        i = i + 1;
    }
    proof {
        assert(s@.subrange(0, n as int) =~= s@);
    }
    r
}

} // verus!
