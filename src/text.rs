//! Numbers and travel times spelled out as text.
use vstd::prelude::*;
use vstd::string::StringExecFns;

verus! {

/// The decimal digit `d` (`d < 10`).
pub open spec fn digit(d: nat) -> char {
    ('0' as u32 + d) as char
}

/// The decimal notation of `n`.
pub open spec fn decimal(n: nat) -> Seq<char>
    decreases n,
{
    if n < 10 {
        seq![digit(n)]
    } else {
        decimal(n / 10).push(digit(n % 10))
    }
}

/// An `s` unless the count is exactly one.
pub open spec fn plural(n: nat) -> Seq<char> {
    if n != 1 {
        seq!['s']
    } else {
        Seq::empty()
    }
}

/// `n unit[s]` followed by `tail`.
pub open spec fn counted(n: nat, plural_of: nat, unit: Seq<char>, tail: Seq<char>) -> Seq<char> {
    decimal(n) + seq![' '] + unit + plural(plural_of) + tail
}

/// The text for `centi_seconds`: seconds, then minutes, hours and days as
/// far as the time reaches them, largest unit first. Each unit but days is
/// shown modulo the next one; whether it takes a plural `s` goes by the
/// whole number of that unit.
pub open spec fn time_format(centi_seconds: nat) -> Seq<char> {
    let s = centi_seconds / 100;
    let m = s / 60;
    let h = m / 60;
    let d = h / 24;
    let sec = counted(s % 60, s, seq!['s', 'e', 'c', 'o', 'n', 'd'], seq!['.']);
    let min = counted(m % 60, m, seq!['m', 'i', 'n', 'u', 't', 'e'], seq![' ', 'a', 'n', 'd', ' ']) + sec;
    let hour = counted(h % 24, h, seq!['h', 'o', 'u', 'r'], seq![',', ' ']) + min;
    if s < 60 {
        sec
    } else if m < 60 {
        min
    } else if h < 24 {
        hour
    } else {
        counted(d, d, seq!['d', 'a', 'y'], seq![',', ' ']) + hour
    }
}

/// The one-character text of the digit `d`.
fn digit_str(d: u64) -> (r: &'static str)
    requires
        d < 10,
    ensures
        r@ == seq![digit(d as nat)],
{
    let r = if d == 0 {
        "0"
    } else if d == 1 {
        "1"
    } else if d == 2 {
        "2"
    } else if d == 3 {
        "3"
    } else if d == 4 {
        "4"
    } else if d == 5 {
        "5"
    } else if d == 6 {
        "6"
    } else if d == 7 {
        "7"
    } else if d == 8 {
        "8"
    } else {
        "9"
    };
    proof {
        reveal_strlit("0");
        reveal_strlit("1");
        reveal_strlit("2");
        reveal_strlit("3");
        reveal_strlit("4");
        reveal_strlit("5");
        reveal_strlit("6");
        reveal_strlit("7");
        reveal_strlit("8");
        reveal_strlit("9");
        assert(r@ =~= seq![digit(d as nat)]);
    }
    r
}

/// Appends the decimal notation of `n`.
fn push_decimal(out: &mut String, n: u64)
    ensures
        final(out)@ == old(out)@ + decimal(n as nat),
    decreases n,
{
    if n >= 10 {
        push_decimal(out, n / 10);
    }
    out.append(digit_str(n % 10));
    proof {
        if n >= 10 {
            assert(old(out)@ + decimal((n / 10) as nat) + seq![digit((n % 10) as nat)] =~= old(out)@
                + decimal(n as nat));
        } else {
            assert(old(out)@ + seq![digit((n % 10) as nat)] =~= old(out)@ + decimal(n as nat));
        }
    }
}

/// Appends `n unit[s]` and `tail`.
fn push_counted(out: &mut String, n: u64, plural_of: u64, unit: &str, tail: &str)
    ensures
        final(out)@ == old(out)@ + counted(n as nat, plural_of as nat, unit@, tail@),
{
    push_decimal(out, n);
    out.append(" ");
    out.append(unit);
    if plural_of != 1 {
        out.append("s");
    }
    out.append(tail);
    proof {
        reveal_strlit(" ");
        reveal_strlit("s");
        assert(final(out)@ =~= old(out)@ + counted(n as nat, plural_of as nat, unit@, tail@));
    }
}

proof fn lemma_unit_texts()
    ensures
        "day"@ == seq!['d', 'a', 'y'],
        "hour"@ == seq!['h', 'o', 'u', 'r'],
        "minute"@ == seq!['m', 'i', 'n', 'u', 't', 'e'],
        "second"@ == seq!['s', 'e', 'c', 'o', 'n', 'd'],
        ", "@ == seq![',', ' '],
        " and "@ == seq![' ', 'a', 'n', 'd', ' '],
        "."@ == seq!['.'],
{
    reveal_strlit("day");
    reveal_strlit("hour");
    reveal_strlit("minute");
    reveal_strlit("second");
    reveal_strlit(", ");
    reveal_strlit(" and ");
    reveal_strlit(".");
    assert("day"@ =~= seq!['d', 'a', 'y']);
    assert("hour"@ =~= seq!['h', 'o', 'u', 'r']);
    assert("minute"@ =~= seq!['m', 'i', 'n', 'u', 't', 'e']);
    assert("second"@ =~= seq!['s', 'e', 'c', 'o', 'n', 'd']);
    assert(", "@ =~= seq![',', ' ']);
    assert(" and "@ =~= seq![' ', 'a', 'n', 'd', ' ']);
    assert("."@ =~= seq!['.']);
}

/// Spells out a time given in hundredths of a second, e.g. `12 minutes and
/// 5 seconds.` for 72500.
pub fn centi_seconds_to_time_format(centi_seconds: usize) -> (r: String)
    ensures
        r@ == time_format(centi_seconds as nat),
{
    let seconds = centi_seconds as u64 / 100;
    let minutes = seconds / 60;
    let hours = minutes / 60;
    let days = hours / 24;
    proof {
        lemma_unit_texts();
    }
    let mut out = String::new();
    if hours >= 24 {
        push_counted(&mut out, days, days, "day", ", ");
    }
    if minutes >= 60 {
        push_counted(&mut out, hours % 24, hours, "hour", ", ");
    }
    if seconds >= 60 {
        push_counted(&mut out, minutes % 60, minutes, "minute", " and ");
    }
    push_counted(&mut out, seconds % 60, seconds, "second", ".");
    proof {
        let sec = counted((seconds % 60) as nat, seconds as nat, "second"@, "."@);
        let min = counted((minutes % 60) as nat, minutes as nat, "minute"@, " and "@) + sec;
        let hour = counted((hours % 24) as nat, hours as nat, "hour"@, ", "@) + min;
        let day = counted(days as nat, days as nat, "day"@, ", "@) + hour;
        if seconds < 60 {
            assert(out@ =~= sec);
        } else if minutes < 60 {
            assert(out@ =~= min);
        } else if hours < 24 {
            assert(out@ =~= hour);
        } else {
            assert(out@ =~= day);
        }
    }
    out
}

/// The text of Rust's remainder `n % 1000`, which has the sign of `n`.
pub open spec fn remainder_text(n: int) -> Seq<char> {
    let r = (if n < 0 { -n } else { n }) % 1000;
    if n < 0 && r != 0 {
        seq!['-'] + decimal(r as nat)
    } else {
        decimal(r as nat)
    }
}

/// `n` in groups of three digits separated by spaces, each group written
/// without leading zeros. Only a number above 1000 is split; anything else
/// is written as its remainder modulo 1000.
pub open spec fn grouped(n: int) -> Seq<char>
    decreases n,
{
    if n > 1000 {
        grouped(n / 1000) + seq![' '] + decimal((n % 1000) as nat)
    } else {
        remainder_text(n)
    }
}

/// Appends `grouped(n)` for `n` above 1000.
fn push_grouped(out: &mut String, n: u64)
    requires
        n > 1000,
    ensures
        final(out)@ == old(out)@ + grouped(n as int),
    decreases n,
{
    let high = n / 1000;
    if high > 1000 {
        push_grouped(out, high);
    } else {
        push_decimal(out, high % 1000);
    }
    out.append(" ");
    push_decimal(out, n % 1000);
    proof {
        reveal_strlit(" ");
        assert(" "@ =~= seq![' ']);
        assert(grouped(n as int) == grouped(high as int) + seq![' '] + decimal((n % 1000) as nat));
        if high <= 1000 {
            assert(grouped(high as int) == remainder_text(high as int));
            assert(remainder_text(high as int) == decimal((high % 1000) as nat));
        }
        assert(final(out)@ =~= old(out)@ + grouped(n as int));
    }
}

/// Writes a count in groups of three digits, e.g. `12 345` for 12345.
pub fn format_number(number: isize) -> (r: String)
    ensures
        r@ == grouped(number as int),
{
    let mut out = String::new();
    if number > 1000 {
        push_grouped(&mut out, number as u64);
    } else if number < 0 {
        let magnitude = (-(number as i128)) as u64;
        let rest = magnitude % 1000;
        if rest != 0 {
            out.append("-");
            proof {
                reveal_strlit("-");
                assert("-"@ =~= seq!['-']);
            }
        }
        push_decimal(&mut out, rest);
        assert(out@ =~= grouped(number as int));
    } else {
        push_decimal(&mut out, number as u64 % 1000);
        assert(out@ =~= grouped(number as int));
    }
    out
}

} // verus!
