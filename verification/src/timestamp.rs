//! Modification timestamps with sub-second precision, rendered in the fixed
//! snapshot format `YYYY-MM-DD HH:MM:SS.ffffff` (zero-padded, six fractional
//! digits) and parsed back from it.

use vstd::prelude::*;

use crate::text::{
    all_digits, append_padded, char_to_digit, digits_val, lemma_digits_val_bound,
    lemma_pad_digits_len, lemma_pad_digits_val, lemma_pow10_values, pow10, spec_pad_digits,
};

verus! {

/// A calendar timestamp with microsecond precision.
///
/// The fields are plain numbers; [`Timestamp::wf`] states the calendar
/// invariant that parsing enforces and formatting relies on.
#[derive(Debug, Clone, Copy, PartialEq, Eq, Structural)]
pub struct Timestamp {
    pub year: u32,
    pub month: u32,
    pub day: u32,
    pub hour: u32,
    pub minute: u32,
    pub second: u32,
    pub micro: u32,
}

/// Whether `y` is a leap year in the proleptic Gregorian calendar.
pub open spec fn spec_is_leap_year(y: u32) -> bool {
    y % 4 == 0 && (y % 100 != 0 || y % 400 == 0)
}

/// The number of days of month `m` in year `y`.
pub open spec fn spec_days_in_month(y: u32, m: u32) -> u32 {
    if m == 2 {
        if spec_is_leap_year(y) {
            29
        } else {
            28
        }
    } else if m == 4 || m == 6 || m == 9 || m == 11 {
        30
    } else {
        31
    }
}

/// The number of days of month `m` in year `y`.
pub fn days_in_month(y: u32, m: u32) -> (r: u32)
    ensures
        r == spec_days_in_month(y, m),
{
    if m == 2 {
        if y % 4 == 0 && (y % 100 != 0 || y % 400 == 0) {
            29
        } else {
            28
        }
    } else if m == 4 || m == 6 || m == 9 || m == 11 {
        30
    } else {
        31
    }
}

impl Timestamp {
    /// The calendar invariant: every field within range, the day valid for
    /// its month and year, and the year within the fixed four-digit format.
    pub open spec fn wf(self) -> bool {
        &&& self.year <= 9999
        &&& 1 <= self.month <= 12
        &&& 1 <= self.day <= spec_days_in_month(self.year, self.month)
        &&& self.hour <= 23
        &&& self.minute <= 59
        &&& self.second <= 59
        &&& self.micro <= 999999
    }
}

/// The fixed-width rendering `YYYY-MM-DD HH:MM:SS.ffffff` of `t`.
pub open spec fn spec_format_timestamp(t: Timestamp) -> Seq<char> {
    spec_pad_digits(t.year as nat, 4) + seq!['-'] + spec_pad_digits(t.month as nat, 2) + seq!['-']
        + spec_pad_digits(t.day as nat, 2) + seq![' '] + spec_pad_digits(t.hour as nat, 2)
        + seq![':'] + spec_pad_digits(t.minute as nat, 2) + seq![':'] + spec_pad_digits(
        t.second as nat,
        2,
    ) + seq!['.'] + spec_pad_digits(t.micro as nat, 6)
}

/// What parsing a timestamp field yields: the timestamp when the text has
/// exactly the fixed 26-character shape and satisfies the calendar
/// invariant, nothing otherwise.
pub open spec fn spec_parse_timestamp(s: Seq<char>) -> Option<Timestamp> {
    if s.len() == 26 && s[4] == '-' && s[7] == '-' && s[10] == ' ' && s[13] == ':' && s[16] == ':'
        && s[19] == '.' && all_digits(s.subrange(0, 4)) && all_digits(s.subrange(5, 7))
        && all_digits(s.subrange(8, 10)) && all_digits(s.subrange(11, 13)) && all_digits(
        s.subrange(14, 16),
    ) && all_digits(s.subrange(17, 19)) && all_digits(s.subrange(20, 26)) {
        let t = Timestamp {
            year: digits_val(s.subrange(0, 4)) as u32,
            month: digits_val(s.subrange(5, 7)) as u32,
            day: digits_val(s.subrange(8, 10)) as u32,
            hour: digits_val(s.subrange(11, 13)) as u32,
            minute: digits_val(s.subrange(14, 16)) as u32,
            second: digits_val(s.subrange(17, 19)) as u32,
            micro: digits_val(s.subrange(20, 26)) as u32,
        };
        if t.wf() {
            Some(t)
        } else {
            None
        }
    } else {
        None
    }
}

/// Renders `t` in the fixed snapshot timestamp format.
pub fn format_timestamp(t: &Timestamp) -> (r: String)
    ensures
        r@ == spec_format_timestamp(*t),
{
    proof {
        reveal_strlit("-");
        reveal_strlit(" ");
        reveal_strlit(":");
        reveal_strlit(".");
    }
    let mut r = String::new();
    append_padded(&mut r, t.year, 4);
    r.append("-");
    append_padded(&mut r, t.month, 2);
    r.append("-");
    append_padded(&mut r, t.day, 2);
    r.append(" ");
    append_padded(&mut r, t.hour, 2);
    r.append(":");
    append_padded(&mut r, t.minute, 2);
    r.append(":");
    append_padded(&mut r, t.second, 2);
    r.append(".");
    append_padded(&mut r, t.micro, 6);
    proof {
        assert(r@ =~= spec_format_timestamp(*t));
    }
    r
}

/// Reads the fixed-width digit group `s[start..end]` as a number.
fn read_digit_group(s: &str, start: usize, end: usize) -> (r: Option<u32>)
    requires
        start <= end <= s@.len(),
        end - start <= 6,
    ensures
        r is Some <==> all_digits(s@.subrange(start as int, end as int)),
        r matches Some(v) ==> v == digits_val(s@.subrange(start as int, end as int)),
{
    let ghost g = s@.subrange(start as int, end as int);
    let mut acc: u32 = 0;
    let mut i: usize = start;
    proof {
        assert(g.subrange(0, 0) =~= Seq::<char>::empty());
    }
    while i < end
        invariant
            start <= i <= end <= s@.len(),
            end - start <= 6,
            g == s@.subrange(start as int, end as int),
            all_digits(g.subrange(0, i - start)),
            acc == digits_val(g.subrange(0, i - start)),
            acc < pow10((i - start) as nat),
        decreases end - i,
    {
        let c = s.get_char(i);
        proof {
            assert(g[i - start] == s@[i as int]);
        }
        let d = match char_to_digit(c) {
            Some(d) => d,
            None => {
                return None;
            },
        };
        proof {
            lemma_pow10_values();
            assert(pow10((i - start) as nat) <= pow10(6)) by {
                lemma_pow10_monotone((i - start) as nat, 6);
            }
            let p = g.subrange(0, i - start + 1);
            assert(p.drop_last() =~= g.subrange(0, i - start));
            assert(p.last() == g[i - start]);
        }
        acc = acc * 10 + d as u32;
        i = i + 1;
    }
    proof {
        assert(g.subrange(0, (end - start) as int) =~= g);
    }
    Some(acc)
}

/// Larger exponents give larger powers of ten.
proof fn lemma_pow10_monotone(a: nat, b: nat)
    requires
        a <= b,
    ensures
        pow10(a) <= pow10(b),
        pow10(a) >= 1,
    decreases b,
{
    if b > 0 {
        if a == b {
            lemma_pow10_monotone((a - 1) as nat, (b - 1) as nat);
        } else {
            lemma_pow10_monotone(a, (b - 1) as nat);
        }
    }
}

/// Parses the fixed snapshot timestamp format, enforcing the calendar
/// invariant.
pub fn parse_timestamp(s: &str) -> (r: Option<Timestamp>)
    ensures
        r == spec_parse_timestamp(s@),
{
    if s.unicode_len() != 26 {
        return None;
    }
    if s.get_char(4) != '-' || s.get_char(7) != '-' || s.get_char(10) != ' ' || s.get_char(13)
        != ':' || s.get_char(16) != ':' || s.get_char(19) != '.' {
        return None;
    }
    let year = match read_digit_group(s, 0, 4) {
        Some(v) => v,
        None => {
            return None;
        },
    };
    let month = match read_digit_group(s, 5, 7) {
        Some(v) => v,
        None => {
            return None;
        },
    };
    let day = match read_digit_group(s, 8, 10) {
        Some(v) => v,
        None => {
            return None;
        },
    };
    let hour = match read_digit_group(s, 11, 13) {
        Some(v) => v,
        None => {
            return None;
        },
    };
    let minute = match read_digit_group(s, 14, 16) {
        Some(v) => v,
        None => {
            return None;
        },
    };
    let second = match read_digit_group(s, 17, 19) {
        Some(v) => v,
        None => {
            return None;
        },
    };
    let micro = match read_digit_group(s, 20, 26) {
        Some(v) => v,
        None => {
            return None;
        },
    };
    let t = Timestamp { year, month, day, hour, minute, second, micro };
    proof {
        lemma_pow10_values();
        lemma_digits_val_bound(s@.subrange(0, 4));
        lemma_digits_val_bound(s@.subrange(5, 7));
        lemma_digits_val_bound(s@.subrange(8, 10));
        lemma_digits_val_bound(s@.subrange(11, 13));
        lemma_digits_val_bound(s@.subrange(14, 16));
        lemma_digits_val_bound(s@.subrange(17, 19));
        lemma_digits_val_bound(s@.subrange(20, 26));
    }
    if month < 1 || month > 12 {
        return None;
    }
    if day < 1 || day > days_in_month(year, month) {
        return None;
    }
    if hour > 23 || minute > 59 || second > 59 {
        return None;
    }
    Some(t)
}

/// A formatted timestamp has 26 characters, starts with a digit, and holds
/// only digits and the fixed separators.
pub proof fn lemma_format_timestamp_shape(t: Timestamp)
    ensures
        spec_format_timestamp(t).len() == 26,
        crate::text::is_digit(spec_format_timestamp(t)[0]),
        forall|i: int|
            0 <= i < 26 ==> {
                let c = #[trigger] spec_format_timestamp(t)[i];
                crate::text::is_digit(c) || c == '-' || c == ' ' || c == ':' || c == '.'
            },
{
    let s = spec_format_timestamp(t);
    lemma_pad_digits_len(t.year as nat, 4);
    lemma_pad_digits_len(t.month as nat, 2);
    lemma_pad_digits_len(t.day as nat, 2);
    lemma_pad_digits_len(t.hour as nat, 2);
    lemma_pad_digits_len(t.minute as nat, 2);
    lemma_pad_digits_len(t.second as nat, 2);
    lemma_pad_digits_len(t.micro as nat, 6);
    assert(s[0] == spec_pad_digits(t.year as nat, 4)[0]);
    assert forall|i: int| 0 <= i < 26 implies {
        let c = #[trigger] s[i];
        crate::text::is_digit(c) || c == '-' || c == ' ' || c == ':' || c == '.'
    } by {
        if i < 4 {
            assert(s[i] == spec_pad_digits(t.year as nat, 4)[i]);
        } else if i == 4 || i == 7 || i == 10 || i == 13 || i == 16 || i == 19 {
        } else if i < 7 {
            assert(s[i] == spec_pad_digits(t.month as nat, 2)[i - 5]);
        } else if i < 10 {
            assert(s[i] == spec_pad_digits(t.day as nat, 2)[i - 8]);
        } else if i < 13 {
            assert(s[i] == spec_pad_digits(t.hour as nat, 2)[i - 11]);
        } else if i < 16 {
            assert(s[i] == spec_pad_digits(t.minute as nat, 2)[i - 14]);
        } else if i < 19 {
            assert(s[i] == spec_pad_digits(t.second as nat, 2)[i - 17]);
        } else {
            assert(s[i] == spec_pad_digits(t.micro as nat, 6)[i - 20]);
        }
    }
}

/// Formatting a well-formed timestamp and parsing the text back returns the
/// same timestamp.
pub proof fn lemma_timestamp_round_trip(t: Timestamp)
    requires
        t.wf(),
    ensures
        spec_parse_timestamp(spec_format_timestamp(t)) == Some(t),
{
    let s = spec_format_timestamp(t);
    lemma_pow10_values();
    lemma_pad_digits_val(t.year as nat, 4);
    lemma_pad_digits_val(t.month as nat, 2);
    lemma_pad_digits_val(t.day as nat, 2);
    lemma_pad_digits_val(t.hour as nat, 2);
    lemma_pad_digits_val(t.minute as nat, 2);
    lemma_pad_digits_val(t.second as nat, 2);
    lemma_pad_digits_val(t.micro as nat, 6);
    assert(s.len() == 26);
    assert(s.subrange(0, 4) =~= spec_pad_digits(t.year as nat, 4));
    assert(s.subrange(5, 7) =~= spec_pad_digits(t.month as nat, 2));
    assert(s.subrange(8, 10) =~= spec_pad_digits(t.day as nat, 2));
    assert(s.subrange(11, 13) =~= spec_pad_digits(t.hour as nat, 2));
    assert(s.subrange(14, 16) =~= spec_pad_digits(t.minute as nat, 2));
    assert(s.subrange(17, 19) =~= spec_pad_digits(t.second as nat, 2));
    assert(s.subrange(20, 26) =~= spec_pad_digits(t.micro as nat, 6));
    assert(s[4] == '-' && s[7] == '-' && s[10] == ' ' && s[13] == ':' && s[16] == ':' && s[19]
        == '.');
}

} // verus!
