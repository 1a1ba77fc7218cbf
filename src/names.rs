use vstd::prelude::*;

verus! {

/// Index just past the last `\` of `s`, or 0 when `s` holds none.
pub open spec fn segment_start(s: Seq<char>) -> int
    decreases s.len(),
{
    if s.len() == 0 {
        0
    } else if s.last() == '\\' {
        s.len() as int
    } else {
        segment_start(s.drop_last())
    }
}

/// The file name of a path: what follows its last `\`.
pub open spec fn file_name_of(s: Seq<char>) -> Seq<char> {
    s.subrange(segment_start(s), s.len() as int)
}

pub open spec fn has_exe_suffix(s: Seq<char>) -> bool {
    s.len() >= 4 && s.subrange(s.len() - 4, s.len() as int) == seq!['.', 'e', 'x', 'e']
}

/// `s` without a trailing `.exe`.
pub open spec fn strip_exe(s: Seq<char>) -> Seq<char> {
    if has_exe_suffix(s) {
        s.subrange(0, s.len() - 4)
    } else {
        s
    }
}

/// The alias an application gets when none is given: its file name without
/// the executable extension.
pub open spec fn default_alias(path: Seq<char>) -> Seq<char> {
    strip_exe(file_name_of(path))
}

proof fn lemma_segment_start_bounds(s: Seq<char>)
    ensures
        0 <= segment_start(s) <= s.len(),
    decreases s.len(),
{
    if s.len() > 0 && s.last() != '\\' {
        lemma_segment_start_bounds(s.drop_last());
    }
}

/// The executable's base name: the path's last `\`-separated component,
/// with a trailing `.exe` removed.
pub fn get_executable_name(path: &String) -> (r: String)
    ensures
        r@ == default_alias(path@),
{
    let s = path.as_str();
    let n = s.unicode_len();
    let mut j: usize = n;
    assert(s@.take(n as int) =~= s@);
    while j > 0 && s.get_char(j - 1) != '\\'
        invariant
            n == s@.len(),
            j <= n,
            segment_start(s@) == segment_start(s@.take(j as int)),
        decreases j,
    {
        assert(s@.take(j as int).drop_last() =~= s@.take(j - 1));
        assert(s@.take(j as int).last() == s@[j - 1]);
        j = j - 1;
    }
    assert(segment_start(s@) == j) by {
        if j == 0 {
            assert(s@.take(0) =~= Seq::<char>::empty());
        } else {
            assert(s@.take(j as int).last() == s@[j - 1]);
        }
    }
    proof {
        lemma_segment_start_bounds(s@);
    }
    let name = s.substring_char(j, n);
    let m = n - j;
    assert(name@ == file_name_of(path@));
    if m >= 4 && name.get_char(m - 4) == '.' && name.get_char(m - 3) == 'e' && name.get_char(m
        - 2) == 'x' && name.get_char(m - 1) == 'e' {
        assert(name@.subrange(m - 4, m as int) =~= seq!['.', 'e', 'x', 'e']);
        let stem = name.substring_char(0, m - 4);
        String::from_str(stem)
    } else {
        assert(!has_exe_suffix(name@)) by {
            if has_exe_suffix(name@) {
                let t = name@.subrange(m - 4, m as int);
                assert(t[0] == name@[m - 4]);
                assert(t[1] == name@[m - 3]);
                assert(t[2] == name@[m - 2]);
                assert(t[3] == name@[m - 1]);
            }
        }
        String::from_str(name)
    }
}

pub open spec fn digit_char(d: int) -> char {
    if d == 0 {
        '0'
    } else if d == 1 {
        '1'
    } else if d == 2 {
        '2'
    } else if d == 3 {
        '3'
    } else if d == 4 {
        '4'
    } else if d == 5 {
        '5'
    } else if d == 6 {
        '6'
    } else if d == 7 {
        '7'
    } else if d == 8 {
        '8'
    } else {
        '9'
    }
}

/// Decimal digits of `n`, most significant first, without leading zeros.
pub open spec fn decimal(n: nat) -> Seq<char>
    decreases n,
{
    if n < 10 {
        seq![digit_char(n as int)]
    } else {
        decimal(n / 10).push(digit_char((n % 10) as int))
    }
}

fn digit_str(d: usize) -> (r: &'static str)
    requires
        d < 10,
    ensures
        r@ == seq![digit_char(d as int)],
{
    proof {
        reveal_strlit("0");
        reveal_strlit("1");
        reveal_strlit("2");
        reveal_strlit("3");
        reveal_strlit("4");
        reveal_strlit("5");
        reveal_strlit("6");
        reveal_strlit("7");
        reveal_strlit("8");
        reveal_strlit("9");
    }
    let r = if d == 0 {
        "0"
    } else if d == 1 {
        "1"
    } else if d == 2 {
        "2"
    } else if d == 3 {
        "3"
    } else if d == 4 {
        "4"
    } else if d == 5 {
        "5"
    } else if d == 6 {
        "6"
    } else if d == 7 {
        "7"
    } else if d == 8 {
        "8"
    } else {
        "9"
    };
    assert(r@ =~= seq![digit_char(d as int)]);
    r
}

/// Writes `n` in decimal.
pub fn decimal_string(n: usize) -> (r: String)
    ensures
        r@ == decimal(n as nat),
    decreases n,
{
    if n < 10 {
        String::from_str(digit_str(n))
    } else {
        let mut s = decimal_string(n / 10);
        s.append(digit_str(n % 10));
        s
    }
}

/// The text shown for an accumulated playtime: whole hours, minutes
/// and seconds of `millis` milliseconds.
pub open spec fn playtime_text(millis: nat) -> Seq<char> {
    decimal(millis / 3_600_000) + " hours, "@ + decimal((millis / 60_000) % 60)
        + " minutes, "@ + decimal((millis / 1000) % 60) + " seconds"@
}

/// Formats a duration in milliseconds as "H hours, M minutes, S seconds".
pub fn time_from_millis(millis: usize) -> (r: String)
    ensures
        r@ == playtime_text(millis as nat),
{
    let seconds = millis / 1000;
    let minutes = seconds / 60;
    let hours = minutes / 60;
    assert(minutes == millis / 60_000) by (nonlinear_arith)
        requires
            seconds == millis / 1000,
            minutes == seconds / 60,
    {
        vstd::arithmetic::div_mod::lemma_div_denominator(millis as int, 1000, 60);
    }
    assert(hours == millis / 3_600_000) by (nonlinear_arith)
        requires
            minutes == millis / 60_000,
            hours == minutes / 60,
    {
        vstd::arithmetic::div_mod::lemma_div_denominator(millis as int, 60_000, 60);
    }
    let mut r = decimal_string(hours);
    r.append(" hours, ");
    let m = decimal_string(minutes % 60);
    r.append(m.as_str());
    r.append(" minutes, ");
    let s = decimal_string(seconds % 60);
    r.append(s.as_str());
    r.append(" seconds");
    r
}

} // verus!
