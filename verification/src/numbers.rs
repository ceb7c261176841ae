//! Numbers written and read as text.

use vstd::prelude::*;
use vstd::string::*;

#[allow(unused_imports)]
use crate::text::Text;

verus! {

/// The digit for a value below sixteen, in lower case.
pub open spec fn digit_char(d: nat) -> char {
    if d < 10 {
        (('0' as nat) + d) as char
    } else {
        (('a' as nat) + (d - 10)) as char
    }
}

/// A number in decimal, without leading zeros.
pub open spec fn decimal_text(n: nat) -> Text
    decreases n,
{
    if n < 10 {
        seq![digit_char(n)]
    } else {
        decimal_text(n / 10).push(digit_char(n % 10))
    }
}

/// A number in lower-case hexadecimal, without leading zeros.
pub open spec fn hex_text(n: nat) -> Text
    decreases n,
{
    if n < 16 {
        seq![digit_char(n)]
    } else {
        hex_text(n / 16).push(digit_char(n % 16))
    }
}

/// The value of a hexadecimal digit of either case.
pub open spec fn hex_digit(c: char) -> Option<nat> {
    if '0' <= c && c <= '9' {
        Some((c as nat - '0' as nat) as nat)
    } else if 'a' <= c && c <= 'f' {
        Some((c as nat - 'a' as nat + 10) as nat)
    } else if 'A' <= c && c <= 'F' {
        Some((c as nat - 'A' as nat + 10) as nat)
    } else {
        None
    }
}

/// The value of a sequence of hexadecimal digits.
pub open spec fn hex_value(digits: Text) -> Option<nat>
    decreases digits.len(),
{
    if digits.len() == 0 {
        Some(0)
    } else {
        match (hex_value(digits.drop_last()), hex_digit(digits.last())) {
            (Some(high), Some(low)) => Some(16 * high + low),
            _ => None,
        }
    }
}

/// The text without a plus sign that starts it.
pub open spec fn without_sign(s: Text) -> Text {
    if s.len() > 0 && s[0] == '+' {
        s.drop_first()
    } else {
        s
    }
}

/// The number that a text stands for in hexadecimal: at least one digit, with or
/// without a plus sign before them, and no more than 64 bits.
pub open spec fn hex_number(s: Text) -> Option<u64> {
    let digits = without_sign(s);
    match hex_value(digits) {
        Some(v) => if digits.len() > 0 && v <= u64::MAX {
            Some(v as u64)
        } else {
            None
        },
        None => None,
    }
}

/// More digits do not make a number smaller, nor a bad digit good.
proof fn lemma_hex_value_prefix(digits: Text, i: int)
    requires
        0 <= i <= digits.len(),
    ensures
        hex_value(digits.take(i)) is None ==> hex_value(digits) is None,
        hex_value(digits) matches Some(v) ==> hex_value(digits.take(i)) matches Some(w) && w <= v,
    decreases digits.len() - i,
{
    if i < digits.len() {
        lemma_hex_value_prefix(digits, i + 1);
        assert(digits.take(i + 1).drop_last() =~= digits.take(i));
    } else {
        assert(digits.take(i) =~= digits);
    }
}

/// The value of a hexadecimal digit.
fn read_digit(c: char) -> (digit: Option<u64>)
    ensures
        digit is Some <==> hex_digit(c) is Some,
        digit matches Some(d) ==> hex_digit(c) == Some(d as nat) && d < 16,
{
    if '0' <= c && c <= '9' {
        Some((c as u32 - '0' as u32) as u64)
    } else if 'a' <= c && c <= 'f' {
        Some((c as u32 - 'a' as u32 + 10) as u64)
    } else if 'A' <= c && c <= 'F' {
        Some((c as u32 - 'A' as u32 + 10) as u64)
    } else {
        None
    }
}

/// Reads a hexadecimal number of up to 64 bits.
pub fn read_hex(s: &str) -> (number: Option<u64>)
    ensures
        number == hex_number(s@),
{
    let ghost digits = without_sign(s@);
    let ghost mut n: int = 0;
    let mut value: u64 = 0;
    let mut started = false;
    let mut any = false;
    for c in it: s.chars()
        invariant
            it.seq() == s@,
            digits == without_sign(s@),
            started <==> it.index() > 0,
            0 <= n <= digits.len(),
            n == it.index() - (s@.len() - digits.len()) || (it.index() == 0 && n == 0),
            any <==> n > 0,
            hex_value(digits.take(n)) == Some(value as nat),
    {
        if !started && c == '+' {
            started = true;
        } else {
            proof {
                assert(c == digits[n]);
                assert(digits.take(n + 1).drop_last() =~= digits.take(n));
                assert(digits.take(n + 1).last() == c);
                lemma_hex_value_prefix(digits, n + 1);
            }
            started = true;
            any = true;
            match read_digit(c) {
                Some(d) => {
                    if value > (u64::MAX - d) / 16 {
                        return None;
                    }
                    value = value * 16 + d;
                    proof {
                        n = n + 1;
                    }
                },
                None => {
                    return None;
                },
            }
        }
    }
    proof {
        assert(digits.take(n) =~= digits);
    }
    if any {
        Some(value)
    } else {
        None
    }
}

/// The digit for a value below sixteen, as a string.
fn digit_str(d: u8) -> (digit: &'static str)
    requires
        d < 16,
    ensures
        digit@ == seq![digit_char(d as nat)],
{
    proof {
        reveal_strlit("0");
        reveal_strlit("1");
        reveal_strlit("2");
        reveal_strlit("3");
        reveal_strlit("4");
        reveal_strlit("5");
        reveal_strlit("6");
        reveal_strlit("7");
        reveal_strlit("8");
        reveal_strlit("9");
        reveal_strlit("a");
        reveal_strlit("b");
        reveal_strlit("c");
        reveal_strlit("d");
        reveal_strlit("e");
        reveal_strlit("f");
    }
    match d {
        0 => "0",
        1 => "1",
        2 => "2",
        3 => "3",
        4 => "4",
        5 => "5",
        6 => "6",
        7 => "7",
        8 => "8",
        9 => "9",
        10 => "a",
        11 => "b",
        12 => "c",
        13 => "d",
        14 => "e",
        _ => "f",
    }
}

/// Writes a number in decimal at the end of a string.
pub fn append_decimal(out: &mut String, n: u64)
    ensures
        final(out)@ == old(out)@ + decimal_text(n as nat),
    decreases n,
{
    if n >= 10 {
        append_decimal(out, n / 10);
    }
    let ghost before = out@;
    out.append(digit_str((n % 10) as u8));
    proof {
        assert(out@ =~= before.push(digit_char(n as nat % 10)));
        assert(out@ =~= old(out)@ + decimal_text(n as nat));
    }
}

/// Writes a number in hexadecimal at the end of a string.
pub fn append_hex(out: &mut String, n: u64)
    ensures
        final(out)@ == old(out)@ + hex_text(n as nat),
    decreases n,
{
    if n >= 16 {
        append_hex(out, n / 16);
    }
    let ghost before = out@;
    out.append(digit_str((n % 16) as u8));
    proof {
        assert(out@ =~= before.push(digit_char(n as nat % 16)));
        assert(out@ =~= old(out)@ + hex_text(n as nat));
    }
}

/// A number that was written in hexadecimal is read back as itself.
pub proof fn law_hex_round_trip(n: u64)
    ensures
        hex_number(hex_text(n as nat)) == Some(n),
{
    lemma_hex_text(n as nat);
}

/// The digits of a number have its value, and are digits.
pub proof fn lemma_hex_text(n: nat)
    ensures
        hex_value(hex_text(n)) == Some(n),
        hex_text(n).len() > 0,
        forall|i: int|
            0 <= i < hex_text(n).len() ==> hex_digit(#[trigger] hex_text(n)[i]) is Some,
    decreases n,
{
    if n < 16 {
        let t = hex_text(n);
        assert(t.drop_last() =~= Seq::<char>::empty());
        assert(hex_value(t.drop_last()) == Some(0nat));
        assert(hex_digit(digit_char(n)) == Some(n));
    } else {
        lemma_hex_text(n / 16);
        let d = n % 16;
        assert(hex_digit(digit_char(d)) == Some(d));
        assert(hex_text(n).drop_last() =~= hex_text(n / 16));
    }
}

/// A hexadecimal digit in upper case; any other character as it is.
pub open spec fn upper_digit(c: char) -> char {
    if 'a' <= c && c <= 'f' {
        (c as nat - 'a' as nat + 'A' as nat) as char
    } else {
        c
    }
}

/// A text with its hexadecimal digits in upper case.
pub open spec fn upper_digits(s: Text) -> Text {
    s.map_values(|c: char| upper_digit(c))
}

/// Digits have the same value in upper case.
proof fn lemma_upper_value(digits: Text)
    ensures
        hex_value(upper_digits(digits)) == hex_value(digits),
    decreases digits.len(),
{
    if digits.len() > 0 {
        lemma_upper_value(digits.drop_last());
        assert(upper_digits(digits).drop_last() =~= upper_digits(digits.drop_last()));
        let c = digits.last();
        assert(hex_digit(upper_digit(c)) == hex_digit(c));
    }
}

/// A number reads the same with its digits in upper case.
pub proof fn law_upper_case_number(s: Text)
    ensures
        hex_number(upper_digits(s)) == hex_number(s),
{
    let upper = upper_digits(s);
    if s.len() > 0 {
        assert(upper[0] == upper_digit(s[0]));
    }
    assert(without_sign(upper) =~= upper_digits(without_sign(s)));
    lemma_upper_value(without_sign(s));
}

/// The digits are those that are used to write numbers, in either case, and each stands for
/// its place among them.
pub proof fn law_hex_digits(c: char, d: nat)
    ensures
        hex_digit(c) == Some(d) <==> d < 16 && (c == "0123456789abcdef"@[d as int] || c
            == "0123456789ABCDEF"@[d as int]),
{
    reveal_strlit("0123456789abcdef");
    reveal_strlit("0123456789ABCDEF");
}

/// All characters of a text are hexadecimal digits.
pub open spec fn all_digits(s: Text) -> bool {
    forall|i: int| 0 <= i < s.len() ==> hex_digit(#[trigger] s[i]) is Some
}

/// A text of digits has a value, and any other has none.
proof fn lemma_digits_value(s: Text)
    ensures
        hex_value(s) is Some <==> all_digits(s),
    decreases s.len(),
{
    if s.len() > 0 {
        lemma_digits_value(s.drop_last());
        assert(s[s.len() - 1] == s.last());
        if all_digits(s) {
            assert forall|i: int| 0 <= i < s.drop_last().len() implies hex_digit(
                #[trigger] s.drop_last()[i],
            ) is Some by {
                assert(s.drop_last()[i] == s[i]);
            }
        } else if all_digits(s.drop_last()) {
            let i = choose|i: int| 0 <= i < s.len() && hex_digit(#[trigger] s[i]) is None;
            if i < s.len() - 1 {
                assert(s.drop_last()[i] == s[i]);
            }
        } else {
            let i = choose|i: int|
                0 <= i < s.drop_last().len() && hex_digit(#[trigger] s.drop_last()[i]) is None;
            assert(s[i] == s.drop_last()[i]);
        }
    }
}

/// One digit is a number. Another digit behind a number makes it sixteen times as large and
/// adds its value, as long as 64 bits hold it; behind a number that they do not hold it
/// makes none.
pub proof fn law_digit_appended(s: Text, c: char)
    requires
        all_digits(s),
        hex_digit(c) is Some,
    ensures
        s.len() == 0 ==> hex_number(s.push(c)) == Some(hex_digit(c).unwrap() as u64),
        s.len() > 0 && hex_number(s) is None ==> hex_number(s.push(c)) is None,
        s.len() > 0 ==> (hex_number(s) matches Some(n) ==> {
            let more = 16 * n + hex_digit(c).unwrap();
            hex_number(s.push(c)) == if more <= u64::MAX {
                Some(more as u64)
            } else {
                None
            }
        }),
{
    let t = s.push(c);
    assert(t.drop_last() =~= s);
    lemma_digits_value(s);
    assert(hex_digit('+') is None);
    if s.len() > 0 {
        assert(hex_digit(s[0]) is Some);
        assert(t[0] == s[0]);
    } else {
        assert(t[0] == c);
        assert(hex_value(s) == Some(0nat));
    }
}

/// A plus sign may stand before digits, once; a sign alone is no number, nor is nothing.
/// A character that is neither a digit nor such a sign makes a text no number.
pub proof fn law_not_a_number(s: Text, i: int)
    ensures
        all_digits(s) ==> hex_number(seq!['+'] + s) == hex_number(s),
        hex_number(Seq::<char>::empty()) is None,
        hex_number(seq!['+']) is None,
        0 <= i < s.len() && hex_digit(s[i]) is None && !(i == 0 && s[0] == '+') ==> hex_number(
            s,
        ) is None,
{
    let signed = seq!['+'] + s;
    assert(signed[0] == '+');
    assert(signed.drop_first() =~= s);
    assert(hex_digit('+') is None);
    if all_digits(s) && s.len() > 0 {
        assert(hex_digit(s[0]) is Some);
    }
    assert(seq!['+'].drop_first() =~= Seq::<char>::empty());
    if 0 <= i < s.len() && hex_digit(s[i]) is None && !(i == 0 && s[0] == '+') {
        let digits = without_sign(s);
        if s[0] == '+' {
            assert(digits[i - 1] == s[i]);
        } else {
            assert(digits[i] == s[i]);
        }
        assert(!all_digits(digits));
        lemma_digits_value(digits);
    }
}

/// The number that a text of decimal digits stands for.
pub open spec fn decimal_value(s: Text) -> nat
    decreases s.len(),
{
    if s.len() == 0 {
        0
    } else {
        (10 * decimal_value(s.drop_last()) + (s.last() as nat - '0' as nat)) as nat
    }
}

/// A number in decimal is made of decimal digits, stands for the number, and has no zero
/// before other digits.
pub proof fn law_decimal_text(n: nat)
    ensures
        decimal_value(decimal_text(n)) == n,
        decimal_text(n).len() > 0,
        forall|i: int|
            0 <= i < decimal_text(n).len() ==> '0' <= #[trigger] decimal_text(n)[i]
                && decimal_text(n)[i] <= '9',
        decimal_text(n)[0] == '0' ==> n == 0 && decimal_text(n).len() == 1,
    decreases n,
{
    let t = decimal_text(n);
    if n < 10 {
        assert(t.drop_last() =~= Seq::<char>::empty());
        assert(decimal_value(t.drop_last()) == 0);
        assert(digit_char(n) as nat == '0' as nat + n);
    } else {
        let high = decimal_text(n / 10);
        law_decimal_text(n / 10);
        assert(t.drop_last() =~= high);
        assert(digit_char(n % 10) as nat == '0' as nat + n % 10);
        assert(t[0] == high[0]);
        assert forall|i: int| 0 <= i < t.len() implies '0' <= #[trigger] t[i] && t[i] <= '9' by {
            if i < high.len() {
                assert(t[i] == high[i]);
            }
        }
    }
}

/// A number in hexadecimal is made of lower-case digits and has no zero before other digits.
pub proof fn law_hex_text(n: nat)
    ensures
        forall|i: int|
            0 <= i < hex_text(n).len() ==> ('0' <= #[trigger] hex_text(n)[i] && hex_text(n)[i]
                <= '9') || ('a' <= hex_text(n)[i] && hex_text(n)[i] <= 'f'),
        hex_text(n).len() > 0,
        hex_text(n)[0] == '0' ==> n == 0 && hex_text(n).len() == 1,
    decreases n,
{
    let t = hex_text(n);
    if n < 16 {
        assert(n < 10 ==> digit_char(n) as nat == '0' as nat + n);
        assert(n >= 10 ==> digit_char(n) as nat == 'a' as nat + n - 10);
    } else {
        let high = hex_text(n / 16);
        let d = n % 16;
        law_hex_text(n / 16);
        assert(d < 10 ==> digit_char(d) as nat == '0' as nat + d);
        assert(d >= 10 ==> digit_char(d) as nat == 'a' as nat + d - 10);
        assert(t[0] == high[0]);
        assert forall|i: int| 0 <= i < t.len() implies ('0' <= #[trigger] t[i] && t[i] <= '9') || (
        'a' <= t[i] && t[i] <= 'f') by {
            if i < high.len() {
                assert(t[i] == high[i]);
            }
        }
    }
}

} // verus!
