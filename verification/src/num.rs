use vstd::prelude::*;

verus! {

/// An ASCII decimal digit.
pub open spec fn is_digit_char(c: char) -> bool {
    48 <= c as u32 && c as u32 <= 57
}

pub open spec fn digit_val(c: char) -> int {
    c as u32 - 48
}

pub open spec fn all_digits(s: Seq<char>) -> bool {
    forall|i: int| 0 <= i < s.len() ==> is_digit_char(#[trigger] s[i])
}

/// Value of a string of digit characters read in base ten; the empty string
/// counts as zero.
pub open spec fn digits_val(s: Seq<char>) -> int
    decreases s.len(),
{
    if s.len() == 0 {
        0
    } else {
        digits_val(s.drop_last()) * 10 + digit_val(s.last())
    }
}

pub proof fn lemma_digits_val_nonneg(s: Seq<char>)
    requires
        all_digits(s),
    ensures
        digits_val(s) >= 0,
    decreases s.len(),
{
    if s.len() > 0 {
        assert(forall|i: int| 0 <= i < s.drop_last().len() ==> is_digit_char(
            #[trigger] s.drop_last()[i],
        ));
        lemma_digits_val_nonneg(s.drop_last());
    }
}

/// Appending digits to a digit string never shrinks its value.
pub proof fn lemma_digits_val_prefix(s: Seq<char>, i: int)
    requires
        0 <= i <= s.len(),
        all_digits(s),
    ensures
        digits_val(s) >= digits_val(s.subrange(0, i)),
    decreases s.len() - i,
{
    if i < s.len() {
        let t = s.subrange(0, i + 1);
        assert(t.drop_last() =~= s.subrange(0, i));
        assert(forall|j: int| 0 <= j < s.subrange(0, i).len() ==> is_digit_char(
            #[trigger] s.subrange(0, i)[j],
        ));
        lemma_digits_val_nonneg(s.subrange(0, i));
        assert(digits_val(t) >= digits_val(s.subrange(0, i)));
        lemma_digits_val_prefix(s, i + 1);
    } else {
        assert(s.subrange(0, i) =~= s);
    }
}

/// What `str::parse::<i32>` accepts: an optional sign followed by at least one
/// ASCII digit, whose signed value fits the type.
pub open spec fn spec_parse_i32(s: Seq<char>) -> Option<int> {
    let body = if s.len() > 0 && (s[0] == '-' || s[0] == '+') {
        s.drop_first()
    } else {
        s
    };
    let neg = s.len() > 0 && s[0] == '-';
    if body.len() > 0 && all_digits(body) {
        let v = if neg {
            -digits_val(body)
        } else {
            digits_val(body)
        };
        if i32::MIN <= v <= i32::MAX {
            Some(v)
        } else {
            None
        }
    } else {
        None
    }
}

/// Reads a decimal integer exactly as `str::parse::<i32>` does: an optional
/// leading `+` or `-`, then one or more digits, nothing else, no overflow.
#[verifier::loop_isolation(false)]
pub fn parse_i32(s: &str) -> (r: Option<i32>)
    ensures
        match r {
            Some(v) => spec_parse_i32(s@) == Some(v as int),
            None => spec_parse_i32(s@) is None,
        },
{
    let n = s.unicode_len();
    if n == 0 {
        return None;
    }
    let c0 = s.get_char(0);
    let neg = c0 == '-';
    let start: usize = if c0 == '-' || c0 == '+' {
        1
    } else {
        0
    };
    proof {
        if start == 1 {
            assert(s@.drop_first() =~= s@.subrange(1int, n as int));
        } else {
            assert(s@ =~= s@.subrange(0int, n as int));
        }
    }
    if start == n {
        return None;
    }
    let ghost body = s@.subrange(start as int, n as int);
    let mut i: usize = start;
    let mut acc: u64 = 0;
    let mut too_big = false;
    while i < n
        invariant
            start <= i <= n,
            n == s@.len(),
            body == s@.subrange(start as int, n as int),
            all_digits(s@.subrange(start as int, i as int)),
            !too_big ==> acc == digits_val(s@.subrange(start as int, i as int)) && acc
                <= 0x8000_0000,
            too_big ==> digits_val(s@.subrange(start as int, i as int)) > 0x8000_0000,
        decreases n - i,
    {
        let c = s.get_char(i);
        let u = c as u32;
        if u < 48 || u > 57 {
            assert(!is_digit_char(body[i - start]));
            return None;
        }
        proof {
            let t = s@.subrange(start as int, i + 1int);
            assert(t.drop_last() =~= s@.subrange(start as int, i as int));
            assert(t.last() == s@[i as int]);
            assert(forall|j: int| 0 <= j < t.len() ==> is_digit_char(#[trigger] t[j]));
            if too_big {
                lemma_digits_val_nonneg(t.drop_last());
            }
        }
        if !too_big {
            acc = acc * 10 + ((u - 48) as u64);
            if acc > 0x8000_0000 {
                too_big = true;
            }
        }
        i = i + 1;
    }
    assert(body =~= s@.subrange(start as int, i as int));
    if too_big {
        proof {
            if start == 1 {
                assert(body =~= s@.drop_first());
            }
        }
        return None;
    }
    proof {
        if start == 1 {
            assert(body =~= s@.drop_first());
        }
    }
    if neg {
        if acc == 0x8000_0000 {
            Some(i32::MIN)
        } else {
            Some(0i32 - (acc as i32))
        }
    } else {
        if acc > 0x7FFF_FFFF {
            None
        } else {
            Some(acc as i32)
        }
    }
}

pub open spec fn digit_char(d: int) -> char {
    if d == 0 {
        '0'
    } else if d == 1 {
        '1'
    } else if d == 2 {
        '2'
    } else if d == 3 {
        '3'
    } else if d == 4 {
        '4'
    } else if d == 5 {
        '5'
    } else if d == 6 {
        '6'
    } else if d == 7 {
        '7'
    } else if d == 8 {
        '8'
    } else {
        '9'
    }
}

/// Decimal rendering of a non-negative integer, most significant digit first.
pub open spec fn dec_rep(n: nat) -> Seq<char>
    decreases n,
{
    if n < 10 {
        seq![digit_char(n as int)]
    } else {
        dec_rep(n / 10).push(digit_char((n % 10) as int))
    }
}

/// Decimal rendering of a signed integer, as `i32::to_string` yields it.
pub open spec fn i32_dec(v: int) -> Seq<char> {
    if v < 0 {
        seq!['-'] + dec_rep((-v) as nat)
    } else {
        dec_rep(v as nat)
    }
}

pub proof fn lemma_dec_rep_digits(n: nat)
    ensures
        all_digits(dec_rep(n)),
    decreases n,
{
    if n >= 10 {
        lemma_dec_rep_digits(n / 10);
    }
}

fn digit_str(d: u32) -> (r: &'static str)
    requires
        d < 10,
    ensures
        r@ == seq![digit_char(d as int)],
{
    let r: &'static str = match d {
        0 => "0",
        1 => "1",
        2 => "2",
        3 => "3",
        4 => "4",
        5 => "5",
        6 => "6",
        7 => "7",
        8 => "8",
        _ => "9",
    };
    proof {
        reveal_strlit("0");
        reveal_strlit("1");
        reveal_strlit("2");
        reveal_strlit("3");
        reveal_strlit("4");
        reveal_strlit("5");
        reveal_strlit("6");
        reveal_strlit("7");
        reveal_strlit("8");
        reveal_strlit("9");
        assert(r@ =~= seq![digit_char(d as int)]);
    }
    r
}

pub fn u32_to_string(n: u32) -> (r: String)
    ensures
        r@ == dec_rep(n as nat),
    decreases n,
{
    let d = digit_str(n % 10);
    if n < 10 {
        d.to_owned()
    } else {
        let mut r = u32_to_string(n / 10);
        r.append(d);
        r
    }
}

/// Renders a signed integer in decimal, matching `i32::to_string`.
pub fn i32_to_string(v: i32) -> (r: String)
    ensures
        r@ == i32_dec(v as int),
{
    if v >= 0 {
        let r = u32_to_string(v as u32);
        r
    } else {
        let m = (-(v as i64)) as u32;
        let mut r = "-".to_owned();
        proof {
            reveal_strlit("-");
            assert(r@ =~= seq!['-']);
        }
        r.append(u32_to_string(m).as_str());
        r
    }
}

} // verus!
