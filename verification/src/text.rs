//! Decimal and hexadecimal text: rendering numbers as digit strings and
//! reading them back, as the snapshot line format needs.

use vstd::prelude::*;

verus! {

/// Whether `c` is a decimal digit.
pub open spec fn is_digit(c: char) -> bool {
    '0' as int <= c as int <= '9' as int
}

/// The numeric value of a decimal digit.
pub open spec fn digit_val(c: char) -> int {
    c as int - '0' as int
}

/// The decimal digit with value `d` (for `0 <= d <= 9`).
pub open spec fn digit_char(d: int) -> char {
    if d == 0 {
        '0'
    } else if d == 1 {
        '1'
    } else if d == 2 {
        '2'
    } else if d == 3 {
        '3'
    } else if d == 4 {
        '4'
    } else if d == 5 {
        '5'
    } else if d == 6 {
        '6'
    } else if d == 7 {
        '7'
    } else if d == 8 {
        '8'
    } else {
        '9'
    }
}

/// The lower-case hexadecimal digit with value `v` (for `0 <= v <= 15`).
pub open spec fn hex_char(v: int) -> char {
    if v < 10 {
        digit_char(v)
    } else if v == 10 {
        'a'
    } else if v == 11 {
        'b'
    } else if v == 12 {
        'c'
    } else if v == 13 {
        'd'
    } else if v == 14 {
        'e'
    } else {
        'f'
    }
}

/// Whether `c` is a lower-case hexadecimal digit.
pub open spec fn is_hex_lower(c: char) -> bool {
    is_digit(c) || 'a' as int <= c as int <= 'f' as int
}

/// Whether every character of `s` is a decimal digit.
pub open spec fn all_digits(s: Seq<char>) -> bool {
    forall|i: int| 0 <= i < s.len() ==> is_digit(#[trigger] s[i])
}

/// The value of a digit string, most significant digit first.
pub open spec fn digits_val(s: Seq<char>) -> int
    decreases s.len(),
{
    if s.len() == 0 {
        0
    } else {
        digits_val(s.drop_last()) * 10 + digit_val(s.last())
    }
}

/// The decimal rendering of `n`, without leading zeros (`0` itself as "0").
pub open spec fn spec_u64_string(n: nat) -> Seq<char>
    decreases n,
{
    if n < 10 {
        seq![digit_char(n as int)]
    } else {
        spec_u64_string(n / 10) + seq![digit_char((n % 10) as int)]
    }
}

/// The decimal rendering of `n` zero-padded to exactly `width` digits.
pub open spec fn spec_pad_digits(n: nat, width: nat) -> Seq<char>
    decreases width,
{
    if width == 0 {
        Seq::empty()
    } else {
        spec_pad_digits(n / 10, (width - 1) as nat) + seq![digit_char((n % 10) as int)]
    }
}

/// Ten to the power `w`.
pub open spec fn pow10(w: nat) -> nat
    decreases w,
{
    if w == 0 {
        1
    } else {
        10 * pow10((w - 1) as nat)
    }
}

/// A digit string appended by one digit has ten times the value plus it.
proof fn lemma_digits_val_push(s: Seq<char>, c: char)
    ensures
        digits_val(s + seq![c]) == digits_val(s) * 10 + digit_val(c),
{
    let t = s + seq![c];
    assert(t.drop_last() =~= s);
    assert(t.last() == c);
}

/// The plain decimal rendering reads back to its value.
pub proof fn lemma_u64_string_val(n: nat)
    ensures
        spec_u64_string(n).len() >= 1,
        all_digits(spec_u64_string(n)),
        digits_val(spec_u64_string(n)) == n,
    decreases n,
{
    if n < 10 {
        assert(digits_val(spec_u64_string(n)) == digits_val(Seq::<char>::empty()) * 10 + n) by {
            assert(spec_u64_string(n).drop_last() =~= Seq::<char>::empty());
        }
    } else {
        lemma_u64_string_val(n / 10);
        lemma_digits_val_push(spec_u64_string(n / 10), digit_char((n % 10) as int));
        assert(all_digits(spec_u64_string(n))) by {
            let s = spec_u64_string(n / 10);
            let t = spec_u64_string(n);
            assert(forall|i: int| 0 <= i < s.len() ==> t[i] == s[i]);
            assert(is_digit(t[t.len() - 1]));
        }
    }
}

/// The zero-padded rendering of `n < pow10(width)` has exactly `width`
/// digits and reads back to `n`.
pub proof fn lemma_pad_digits_val(n: nat, width: nat)
    requires
        n < pow10(width),
    ensures
        spec_pad_digits(n, width).len() == width,
        all_digits(spec_pad_digits(n, width)),
        digits_val(spec_pad_digits(n, width)) == n,
    decreases width,
{
    lemma_pad_digits_len(n, width);
    if width == 0 {
    } else {
        let w1 = (width - 1) as nat;
        assert(n / 10 < pow10(w1)) by {
            if n / 10 >= pow10(w1) {
                assert(n >= (n / 10) * 10) by {
                    vstd::arithmetic::div_mod::lemma_fundamental_div_mod(n as int, 10);
                };
                assert((n / 10) * 10 >= pow10(w1) * 10) by (nonlinear_arith)
                    requires n / 10 >= pow10(w1);
            }
        };
        lemma_pad_digits_val(n / 10, w1);
        lemma_digits_val_push(spec_pad_digits(n / 10, w1), digit_char((n % 10) as int));
        assert(digits_val(spec_pad_digits(n, width)) == (n / 10) * 10 + n % 10);
        vstd::arithmetic::div_mod::lemma_fundamental_div_mod(n as int, 10);
        assert(all_digits(spec_pad_digits(n, width))) by {
            let s = spec_pad_digits(n / 10, w1);
            let t = spec_pad_digits(n, width);
            assert(forall|i: int| 0 <= i < s.len() ==> t[i] == s[i]);
            assert(is_digit(t[t.len() - 1]));
        }
    }
}

/// The zero-padded rendering always has exactly `width` digits.
pub proof fn lemma_pad_digits_len(n: nat, width: nat)
    ensures
        spec_pad_digits(n, width).len() == width,
        all_digits(spec_pad_digits(n, width)),
    decreases width,
{
    if width > 0 {
        let w1 = (width - 1) as nat;
        lemma_pad_digits_len(n / 10, w1);
        let s = spec_pad_digits(n / 10, w1);
        let t = spec_pad_digits(n, width);
        assert(forall|i: int| 0 <= i < s.len() ==> t[i] == s[i]);
        assert(is_digit(t[t.len() - 1]));
    }
}

/// A value never shrinks when more digits follow.
proof fn lemma_digits_val_prefix_le(s: Seq<char>, k: int)
    requires
        all_digits(s),
        0 <= k <= s.len(),
    ensures
        digits_val(s) >= digits_val(s.take(k)),
        digits_val(s) >= 0,
    decreases s.len() - k,
{
    if k == s.len() {
        assert(s.take(k) =~= s);
        lemma_digits_val_nonneg(s);
    } else {
        lemma_digits_val_prefix_le(s, k + 1);
        assert(s.take(k + 1).drop_last() =~= s.take(k));
        assert(digits_val(s.take(k + 1)) == digits_val(s.take(k)) * 10 + digit_val(s[k]));
        lemma_digits_val_nonneg(s.take(k));
    }
}

/// Digit strings have non-negative values.
proof fn lemma_digits_val_nonneg(s: Seq<char>)
    requires
        all_digits(s),
    ensures
        digits_val(s) >= 0,
    decreases s.len(),
{
    if s.len() > 0 {
        assert(all_digits(s.drop_last())) by {
            assert(forall|i: int| 0 <= i < s.len() - 1 ==> s.drop_last()[i] == s[i]);
        }
        lemma_digits_val_nonneg(s.drop_last());
        assert(is_digit(s.last()));
    }
}

/// A digit string's value is bounded by ten to its length.
pub proof fn lemma_digits_val_bound(s: Seq<char>)
    requires
        all_digits(s),
    ensures
        0 <= digits_val(s) < pow10(s.len()),
    decreases s.len(),
{
    if s.len() == 0 {
    } else {
        assert(all_digits(s.drop_last())) by {
            assert(forall|i: int| 0 <= i < s.len() - 1 ==> s.drop_last()[i] == s[i]);
        }
        lemma_digits_val_bound(s.drop_last());
        assert(is_digit(s.last()));
        assert(digits_val(s.drop_last()) * 10 + 9 < pow10(s.len())) by (nonlinear_arith)
            requires
                digits_val(s.drop_last()) < pow10((s.len() - 1) as nat),
                pow10(s.len()) == 10 * pow10((s.len() - 1) as nat),
        ;
    }
}

/// The powers of ten the fixed-width timestamp fields need.
pub proof fn lemma_pow10_values()
    ensures
        pow10(1) == 10,
        pow10(2) == 100,
        pow10(4) == 10000,
        pow10(6) == 1000000,
{
    reveal_with_fuel(pow10, 8);
}

/// What parsing a decimal size field yields: the value when the text is a
/// non-empty digit string whose value fits in a `u64`, nothing otherwise.
pub open spec fn spec_parse_u64(s: Seq<char>) -> Option<u64> {
    if s.len() > 0 && all_digits(s) && digits_val(s) <= u64::MAX {
        Some(digits_val(s) as u64)
    } else {
        None
    }
}

/// The single-character string for the decimal digit `d`.
pub fn digit_str(d: u8) -> (r: &'static str)
    requires
        0 <= d < 10,
    ensures
        r@ =~= seq![digit_char(d as int)],
{
    proof {
        reveal_strlit("0");
        reveal_strlit("1");
        reveal_strlit("2");
        reveal_strlit("3");
        reveal_strlit("4");
        reveal_strlit("5");
        reveal_strlit("6");
        reveal_strlit("7");
        reveal_strlit("8");
        reveal_strlit("9");
    }
    match d {
        0 => "0",
        1 => "1",
        2 => "2",
        3 => "3",
        4 => "4",
        5 => "5",
        6 => "6",
        7 => "7",
        8 => "8",
        _ => "9",
    }
}

/// The single-character string for the lower-case hexadecimal digit `v`.
pub fn hex_str(v: u8) -> (r: &'static str)
    requires
        0 <= v < 16,
    ensures
        r@ =~= seq![hex_char(v as int)],
{
    if v < 10 {
        digit_str(v)
    } else {
        proof {
            reveal_strlit("a");
            reveal_strlit("b");
            reveal_strlit("c");
            reveal_strlit("d");
            reveal_strlit("e");
            reveal_strlit("f");
        }
        match v {
            10 => "a",
            11 => "b",
            12 => "c",
            13 => "d",
            14 => "e",
            _ => "f",
        }
    }
}

/// Renders `n` in decimal, without leading zeros.
pub fn u64_string(n: u64) -> (r: String)
    ensures
        r@ == spec_u64_string(n as nat),
    decreases n,
{
    if n < 10 {
        digit_str(n as u8).to_owned()
    } else {
        let mut r = u64_string(n / 10);
        r.append(digit_str((n % 10) as u8));
        proof {
            assert(r@ =~= spec_u64_string(n as nat));
        }
        r
    }
}

/// Appends `n` zero-padded to `width` decimal digits onto `s`.
pub fn append_padded(s: &mut String, n: u32, width: u8)
    ensures
        final(s)@ == old(s)@ + spec_pad_digits(n as nat, width as nat),
    decreases width,
{
    if width == 0 {
        proof {
            assert(s@ =~= s@ + spec_pad_digits(n as nat, 0));
        }
    } else {
        append_padded(s, n / 10, width - 1);
        s.append(digit_str((n % 10) as u8));
        proof {
            assert(s@ =~= old(s)@ + spec_pad_digits(n as nat, width as nat));
        }
    }
}

/// The numeric value of a decimal digit character, if it is one.
pub fn char_to_digit(c: char) -> (r: Option<u8>)
    ensures
        r is Some <==> is_digit(c),
        r matches Some(d) ==> d == digit_val(c) && d < 10,
{
    match c {
        '0' => Some(0),
        '1' => Some(1),
        '2' => Some(2),
        '3' => Some(3),
        '4' => Some(4),
        '5' => Some(5),
        '6' => Some(6),
        '7' => Some(7),
        '8' => Some(8),
        '9' => Some(9),
        _ => None,
    }
}

/// Parses a non-empty decimal digit string into a `u64`, rejecting any other
/// character, an empty string, and values that overflow.
pub fn parse_u64(s: &str) -> (r: Option<u64>)
    ensures
        r == spec_parse_u64(s@),
{
    let len = s.unicode_len();
    if len == 0 {
        return None;
    }
    let mut acc: u64 = 0;
    let mut i: usize = 0;
    while i < len
        invariant
            0 <= i <= len,
            len == s@.len(),
            all_digits(s@.take(i as int)),
            acc == digits_val(s@.take(i as int)),
        decreases len - i,
    {
        let c = s.get_char(i);
        let d = match char_to_digit(c) {
            Some(d) => d,
            None => {
                return None;
            },
        };
        let shifted = match acc.checked_mul(10) {
            Some(v) => v,
            None => {
                proof {
                    lemma_parse_u64_overflow(s@, i as int);
                }
                return None;
            },
        };
        let next = match shifted.checked_add(d as u64) {
            Some(v) => v,
            None => {
                proof {
                    lemma_parse_u64_overflow(s@, i as int);
                }
                return None;
            },
        };
        proof {
            assert(s@.take(i as int + 1).drop_last() =~= s@.take(i as int));
            assert(s@.take(i as int + 1).last() == s@[i as int]);
        }
        acc = next;
        i = i + 1;
    }
    proof {
        assert(s@.take(len as int) =~= s@);
    }
    Some(acc)
}

/// If the value already past position `k` overflows a `u64`, the whole digit
/// string does too.
proof fn lemma_parse_u64_overflow(s: Seq<char>, k: int)
    requires
        0 <= k < s.len(),
        all_digits(s.take(k)),
        is_digit(s[k]),
        digits_val(s.take(k)) * 10 + digit_val(s[k]) > u64::MAX,
    ensures
        !all_digits(s) || digits_val(s) > u64::MAX,
{
    if all_digits(s) {
        lemma_digits_val_prefix_le(s, k + 1);
        assert(s.take(k + 1).drop_last() =~= s.take(k));
        assert(digits_val(s.take(k + 1)) == digits_val(s.take(k)) * 10 + digit_val(s[k]));
    }
}

} // verus!
