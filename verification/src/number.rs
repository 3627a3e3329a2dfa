//! Numbers as text: decimal and hexadecimal digits, written and read.

use vstd::arithmetic::power::pow;
use vstd::prelude::*;

use crate::text::{chars_of, repeated};

verus! {

/// The digit character of a value below sixteen, with upper-case letters.
pub open spec fn digit_char(d: nat) -> char {
    if d < 10 {
        ('0' as u8 + d) as char
    } else {
        ('A' as u8 + (d - 10)) as char
    }
}

/// The decimal digits of a number, without leading zeros.
pub open spec fn decimal(n: nat) -> Seq<char>
    decreases n,
{
    if n < 10 {
        seq![digit_char(n)]
    } else {
        decimal(n / 10).push(digit_char(n % 10))
    }
}

/// The decimal digits of a number, with leading zeros up to the given width.
pub open spec fn padded_decimal(n: nat, width: nat) -> Seq<char> {
    let digits = decimal(n);
    if digits.len() < width {
        repeated('0', (width - digits.len()) as nat) + digits
    } else {
        digits
    }
}

/// The lowest `width` hexadecimal digits of a number, most significant first.
pub open spec fn hex_fixed(n: nat, width: nat) -> Seq<char>
    decreases width,
{
    if width == 0 {
        Seq::empty()
    } else {
        hex_fixed(n / 16, (width - 1) as nat).push(digit_char(n % 16))
    }
}

/// The value of a character as a digit in the given radix.
pub open spec fn digit_value(c: char, radix: nat) -> Option<nat> {
    let value: nat = if '0' <= c <= '9' {
        (c as u8 - '0' as u8) as nat
    } else if 'a' <= c <= 'z' {
        (c as u8 - 'a' as u8 + 10) as nat
    } else if 'A' <= c <= 'Z' {
        (c as u8 - 'A' as u8 + 10) as nat
    } else {
        radix
    };
    if value < radix {
        Some(value)
    } else {
        None
    }
}

/// The number that a row of digits stands for, where each character is a digit.
pub open spec fn digits_value(s: Seq<char>, radix: nat) -> Option<nat>
    decreases s.len(),
{
    if s.len() == 0 {
        Some(0)
    } else {
        match (digits_value(s.drop_last(), radix), digit_value(s.last(), radix)) {
            (Some(high), Some(low)) => Some(high * radix + low),
            _ => None,
        }
    }
}

/// The number that a text stands for: an optional plus sign, then one digit or more, the
/// value of which does not exceed `max`.
pub open spec fn parsed(s: Seq<char>, radix: nat, max: nat) -> Option<nat> {
    let digits = if s.len() > 0 && s[0] == '+' {
        s.drop_first()
    } else {
        s
    };
    if digits.len() == 0 {
        None
    } else {
        match digits_value(digits, radix) {
            Some(value) => if value <= max {
                Some(value)
            } else {
                None
            },
            None => None,
        }
    }
}

/// The digit character of a value below sixteen, with upper-case letters.
pub fn digit_of(d: u8) -> (c: char)
    requires
        d < 16,
    ensures
        c == digit_char(d as nat),
{
    if d < 10 {
        ('0' as u8 + d) as char
    } else {
        ('A' as u8 + (d - 10)) as char
    }
}

/// Appends the decimal digits of a number to a text.
pub fn push_decimal(out: &mut String, n: u128)
    ensures
        final(out)@ == old(out)@ + decimal(n as nat),
    decreases n,
{
    if n >= 10 {
        push_decimal(out, n / 10);
        assert(old(out)@ + decimal(n as nat) =~= (old(out)@ + decimal((n / 10) as nat)).push(
            digit_char((n % 10) as nat),
        ));
    } else {
        assert(old(out)@ + decimal(n as nat) =~= old(out)@.push(digit_char((n % 10) as nat)));
    }
    out.push(digit_of((n % 10) as u8));
}

/// The decimal digits of a number.
pub fn decimal_text(n: u128) -> (text: String)
    ensures
        text@ == decimal(n as nat),
{
    let mut out = String::new();
    push_decimal(&mut out, n);
    assert(out@ =~= decimal(n as nat));
    out
}

/// The decimal digits of a number, with leading zeros up to the given width.
pub fn padded_decimal_text(n: u128, width: usize) -> (text: String)
    ensures
        text@ == padded_decimal(n as nat, width as nat),
{
    let digits = decimal_text(n);
    let count: usize = chars_of(digits.as_str()).len();
    let mut out = String::new();
    let mut i: usize = count;
    while i < width
        invariant
            count <= i,
            i <= width || count >= width && i == count,
            out@ == repeated('0', (i - count) as nat),
        decreases width - i,
    {
        assert(repeated('0', (i + 1 - count) as nat) =~= repeated('0', (i - count) as nat).push(
            '0',
        ));
        out.push('0');
        i = i + 1;
    }
    out.append(digits.as_str());
    assert(out@ =~= padded_decimal(n as nat, width as nat));
    out
}

/// The sixteen hexadecimal digits of a number.
pub fn hex16_text(n: u64) -> (text: String)
    ensures
        text@ == hex_fixed(n as nat, 16),
{
    let mut out = String::new();
    push_hex(&mut out, n, 16);
    assert(out@ =~= hex_fixed(n as nat, 16));
    out
}

fn push_hex(out: &mut String, n: u64, width: usize)
    ensures
        final(out)@ == old(out)@ + hex_fixed(n as nat, width as nat),
    decreases width,
{
    if width > 0 {
        push_hex(out, n / 16, width - 1);
        assert(old(out)@ + hex_fixed(n as nat, width as nat) =~= (old(out)@ + hex_fixed(
            (n / 16) as nat,
            (width - 1) as nat,
        )).push(digit_char((n % 16) as nat)));
        out.push(digit_of((n % 16) as u8));
    } else {
        assert(old(out)@ + hex_fixed(n as nat, 0) =~= old(out)@);
    }
}

/// The value of a character as a digit in the given radix.
pub fn value_of_digit(c: char, radix: u64) -> (value: Option<u64>)
    ensures
        value is Some <==> digit_value(c, radix as nat) is Some,
        value is Some ==> value->0 as nat == digit_value(c, radix as nat)->0,
{
    let value: u64 = if '0' <= c && c <= '9' {
        (c as u8 - '0' as u8) as u64
    } else if 'a' <= c && c <= 'z' {
        (c as u8 - 'a' as u8 + 10) as u64
    } else if 'A' <= c && c <= 'Z' {
        (c as u8 - 'A' as u8 + 10) as u64
    } else {
        radix
    };
    if value < radix {
        Some(value)
    } else {
        None
    }
}

proof fn lemma_value_grows(s: Seq<char>, radix: nat, i: int)
    requires
        0 <= i <= s.len(),
        radix >= 1,
        digits_value(s, radix) is Some,
    ensures
        digits_value(s.take(i), radix) is Some,
        digits_value(s.take(i), radix)->0 <= digits_value(s, radix)->0,
    decreases s.len() - i,
{
    if i < s.len() {
        lemma_value_grows(s, radix, i + 1);
        let longer = s.take(i + 1);
        assert(longer.drop_last() =~= s.take(i));
        let high = digits_value(s.take(i), radix)->0;
        assert(high * radix >= high) by (nonlinear_arith)
            requires
                radix >= 1,
                high >= 0,
        ;
    } else {
        assert(s.take(i) =~= s);
    }
}

/// Reads a number: an optional plus sign, then one digit or more, with a value up to `max`.
pub fn parse_number_text(text: &str, radix: u64, max: u64) -> (value: Option<u64>)
    requires
        1 <= radix,
    ensures
        value is Some <==> parsed(text@, radix as nat, max as nat) is Some,
        value is Some ==> value->0 as nat == parsed(text@, radix as nat, max as nat)->0,
{
    let chars = chars_of(text);
    let start: usize = if chars.len() > 0 && chars[0] == '+' {
        1
    } else {
        0
    };
    let ghost digits = chars@.subrange(start as int, chars@.len() as int);
    assert(start == 0 ==> digits =~= text@);
    assert(start == 1 ==> digits =~= text@.drop_first());
    if start == chars.len() {
        return None;
    }
    let mut value: u64 = 0;
    let mut i: usize = start;
    while i < chars.len()
        invariant
            1 <= radix,
            start <= i <= chars.len(),
            start < chars.len(),
            digits == chars@.subrange(start as int, chars@.len() as int),
            parsed(text@, radix as nat, max as nat) == (match digits_value(digits, radix as nat) {
                Some(v) => if v <= max {
                    Some(v)
                } else {
                    None
                },
                None => None,
            }),
            digits_value(digits.take(i - start), radix as nat) == Some(value as nat),
            value <= max,
        decreases chars.len() - i,
    {
        let ghost longer = digits.take(i + 1 - start);
        proof {
            assert(longer.drop_last() =~= digits.take(i - start));
            assert(longer.last() == chars@[i as int]);
            if digits_value(digits, radix as nat) is Some {
                lemma_value_grows(digits, radix as nat, i + 1 - start);
            }
        }
        match value_of_digit(chars[i], radix) {
            None => {
                return None;
            },
            Some(digit) => {
                proof {
                    assert(value * radix <= 0xffff_ffff_ffff_ffff * 0xffff_ffff_ffff_ffff)
                        by (nonlinear_arith)
                        requires
                            0 <= value <= 0xffff_ffff_ffff_ffff,
                            0 <= radix <= 0xffff_ffff_ffff_ffff,
                    ;
                    assert(value as u128 * radix as u128 == value as nat * radix as nat);
                }
                let next: u128 = value as u128 * radix as u128 + digit as u128;
                if next > max as u128 {
                    return None;
                }
                value = next as u64;
            },
        }
        i = i + 1;
    }
    assert(digits.take(chars@.len() - start) =~= digits);
    Some(value)
}

proof fn lemma_digit_read_back(d: nat, radix: nat)
    requires
        d < radix <= 16,
    ensures
        digit_value(digit_char(d), radix) == Some(d),
        digit_char(d) != '+',
        digit_char(d) != '\t',
        digit_char(d) != '\n',
        (digit_char(d) as u32) < 0x80,
{
}

/// A decimal row of digits is read as the number that it was written for.
pub proof fn lemma_decimal_read_back(n: nat)
    ensures
        digits_value(decimal(n), 10) == Some(n),
        decimal(n).len() > 0,
        decimal(n)[0] != '+',
    decreases n,
{
    if n < 10 {
        lemma_digit_read_back(n, 10);
        let s = seq![digit_char(n)];
        assert(s.drop_last() =~= Seq::empty());
        assert(digits_value(s.drop_last(), 10) == Some(0nat));
        assert(s.last() == digit_char(n));
    } else {
        lemma_decimal_read_back(n / 10);
        lemma_digit_read_back(n % 10, 10);
        let s = decimal(n);
        assert(s.drop_last() =~= decimal(n / 10));
        assert((n / 10) * 10 + n % 10 == n);
        assert(s[0] == decimal(n / 10)[0]);
    }
}

/// A number written in decimal is read back as the same number.
pub proof fn law_parse_of_decimal(n: nat, max: nat)
    requires
        n <= max,
    ensures
        parsed(decimal(n), 10, max) == Some(n),
{
    lemma_decimal_read_back(n);
}

proof fn lemma_hex_read_back(n: nat, width: nat)
    requires
        n < vstd::arithmetic::power::pow(16, width),
    ensures
        digits_value(hex_fixed(n, width), 16) == Some(n),
        hex_fixed(n, width).len() == width,
        width > 0 ==> hex_fixed(n, width)[0] != '+',
    decreases width,
{
    reveal(vstd::arithmetic::power::pow);
    if width > 0 {
        let p = vstd::arithmetic::power::pow(16, (width - 1) as nat);
        assert(n < 16 * p);
        assert(n / 16 < p);
        lemma_hex_read_back(n / 16, (width - 1) as nat);
        lemma_digit_read_back(n % 16, 16);
        let s = hex_fixed(n, width);
        assert(s.drop_last() =~= hex_fixed(n / 16, (width - 1) as nat));
        assert((n / 16) * 16 + n % 16 == n);
        if width > 1 {
            assert(s[0] == hex_fixed(n / 16, (width - 1) as nat)[0]);
        }
    }
}

/// A 64-bit number written with sixteen hexadecimal digits is read back as the same number.
pub proof fn law_parse_of_hex(n: u64)
    ensures
        parsed(hex_fixed(n as nat, 16), 16, u64::MAX as nat) == Some(n as nat),
        hex_fixed(n as nat, 16).len() == 16,
{
    assert(vstd::arithmetic::power::pow(16, 16) == 0x1_0000_0000_0000_0000) by {
        reveal_with_fuel(vstd::arithmetic::power::pow, 17);
    }
    lemma_hex_read_back(n as nat, 16);
}

/// Whether every character is an upper-case hexadecimal digit.
pub open spec fn all_digits(s: Seq<char>) -> bool {
    forall|i: int|
        0 <= i < s.len() ==> ('0' <= #[trigger] s[i] <= '9' || 'A' <= s[i] <= 'F')
}

/// A decimal row of digits holds digits only.
pub proof fn lemma_decimal_digits(n: nat)
    ensures
        all_digits(decimal(n)),
    decreases n,
{
    if n >= 10 {
        lemma_decimal_digits(n / 10);
    }
}

/// A hexadecimal row of digits holds digits only.
pub proof fn lemma_hex_digits(n: nat, width: nat)
    ensures
        all_digits(hex_fixed(n, width)),
        hex_fixed(n, width).len() == width,
    decreases width,
{
    if width > 0 {
        lemma_hex_digits(n / 16, (width - 1) as nat);
    }
}

/// A number below a power of ten has at most as many decimal digits as that has zeros.
proof fn lemma_decimal_len(n: nat, width: nat)
    requires
        width > 0,
        n < pow(10, width),
    ensures
        decimal(n).len() <= width,
    decreases width,
{
    reveal_with_fuel(pow, 2);
    if n >= 10 {
        lemma_decimal_len(n / 10, (width - 1) as nat);
    }
}

/// A 64-bit number has at most twenty decimal digits.
pub proof fn lemma_decimal_len_u64(n: u64)
    ensures
        decimal(n as nat).len() <= 20,
{
    assert(pow(10, 20) == 100_000_000_000_000_000_000) by {
        reveal_with_fuel(pow, 21);
    }
    lemma_decimal_len(n as nat, 20);
}

/// A number in decimal has no leading zero, and decimal digits only.
pub proof fn law_decimal_form(n: nat)
    ensures
        decimal(n).len() > 0,
        n > 0 ==> decimal(n)[0] != '0',
        forall|i: int| 0 <= i < decimal(n).len() ==> '0' <= #[trigger] decimal(n)[i] <= '9',
        n < 10 ==> decimal(n).len() == 1,
    decreases n,
{
    if n >= 10 {
        law_decimal_form(n / 10);
    }
}

proof fn lemma_leading_zeros(zeros: nat, digits: Seq<char>)
    requires
        digits_value(digits, 10) is Some,
    ensures
        digits_value(repeated('0', zeros) + digits, 10) == digits_value(digits, 10),
    decreases digits.len(), zeros,
{
    let all = repeated('0', zeros) + digits;
    if digits.len() > 0 {
        lemma_leading_zeros(zeros, digits.drop_last());
        assert(all.drop_last() =~= repeated('0', zeros) + digits.drop_last());
        assert(all.last() == digits.last());
    } else if zeros > 0 {
        let fewer = (zeros - 1) as nat;
        lemma_leading_zeros(fewer, digits);
        assert(all.drop_last() =~= repeated('0', fewer) + digits);
        assert(digit_value('0', 10) == Some(0nat));
    } else {
        assert(all =~= digits);
    }
}

/// Leading zeros fill a number up to the width, take nothing away and do not change its value.
pub proof fn law_padded_decimal(n: nat, width: nat)
    ensures
        ({
            let text = padded_decimal(n, width);
            &&& text.len() >= width
            &&& decimal(n).is_suffix_of(text)
            &&& text.len() == width || text == decimal(n)
            &&& parsed(text, 10, n) == Some(n)
        }),
{
    let digits = decimal(n);
    let text = padded_decimal(n, width);
    lemma_decimal_read_back(n);
    if digits.len() < width {
        let zeros = (width - digits.len()) as nat;
        lemma_leading_zeros(zeros, digits);
        assert(text[0] == '0');
        assert(text.skip(text.len() - digits.len()) =~= digits);
    } else {
        assert(text.skip(0) =~= digits);
    }
}

/// What is read as a number: one digit or more behind an optional plus sign, and no larger
/// than allowed. The value does not depend on what is allowed.
pub proof fn law_what_is_a_number(s: Seq<char>, radix: nat, max: nat, more: nat)
    requires
        max <= more,
    ensures
        parsed(s, radix, max) is Some ==> parsed(s, radix, max)->0 <= max && parsed(
            s,
            radix,
            more,
        ) == parsed(s, radix, max),
        parsed(s, radix, max) is None && parsed(s, radix, more) is Some ==> parsed(
            s,
            radix,
            more,
        )->0 > max,
        s.len() > 0 && s[0] != '+' ==> parsed(seq!['+'] + s, radix, max) == parsed(s, radix, max),
        parsed(s, radix, max) is Some ==> forall|i: int|
            1 <= i < s.len() ==> digit_value(#[trigger] s[i], radix) is Some,
        parsed(s, radix, max) is Some ==> s.len() > 0 && (s[0] == '+' && s.len() > 1
            || digit_value(s[0], radix) is Some),
        parsed(Seq::empty(), radix, max) is None,
{
    if s.len() > 0 && s[0] != '+' {
        assert((seq!['+'] + s).drop_first() =~= s);
    }
    if parsed(s, radix, max) is Some {
        let digits = if s[0] == '+' {
            s.drop_first()
        } else {
            s
        };
        lemma_only_digits(digits, radix);
        assert forall|i: int| 1 <= i < s.len() implies digit_value(#[trigger] s[i], radix)
            is Some by {
            if s[0] == '+' {
                assert(digit_value(digits[i - 1], radix) is Some);
            } else {
                assert(digit_value(digits[i], radix) is Some);
            }
        }
        if s[0] != '+' {
            assert(digit_value(digits[0], radix) is Some);
        }
    }
}

proof fn lemma_only_digits(s: Seq<char>, radix: nat)
    requires
        digits_value(s, radix) is Some,
    ensures
        forall|i: int| 0 <= i < s.len() ==> digit_value(#[trigger] s[i], radix) is Some,
    decreases s.len(),
{
    if s.len() > 0 {
        let front = s.drop_last();
        lemma_only_digits(front, radix);
        assert forall|i: int| 0 <= i < s.len() implies digit_value(#[trigger] s[i], radix)
            is Some by {
            if i < front.len() {
                assert(front[i] == s[i]);
            }
        }
    }
}

/// The place of a digit counts: another digit behind a number makes it as many times larger as
/// the radix says, and adds its own value.
pub proof fn law_digits_count_by_their_place(s: Seq<char>, c: char, radix: nat)
    requires
        digits_value(s, radix) is Some,
        digit_value(c, radix) is Some,
    ensures
        digits_value(s.push(c), radix) == Some(
            digits_value(s, radix)->0 * radix + digit_value(c, radix)->0,
        ),
        digit_value(c, radix)->0 < radix,
{
    assert(s.push(c).drop_last() =~= s);
}

/// The digits are the usual ones: the figures from zero to nine, and above them the letters from
/// A on. They are written in upper case and read in either; no other character is a digit.
pub proof fn law_digits_are_the_usual_ones(d: nat, radix: nat, c: char)
    requires
        d < 16,
    ensures
        d < 10 ==> digit_char(d) as u32 == 0x30 + d,
        d >= 10 ==> digit_char(d) as u32 == 0x41 + d - 10,
        d < radix ==> digit_value(digit_char(d), radix) == Some(d),
        d >= radix ==> digit_value(digit_char(d), radix) is None,
        radix <= 36 && 0x30 <= c as u32 && c as u32 <= 0x39 ==> digit_value(c, radix) == (if c as u32
            - 0x30 < radix {
            Some((c as u32 - 0x30) as nat)
        } else {
            None
        }),
        radix <= 36 && 0x61 <= c as u32 && c as u32 <= 0x7a ==> digit_value(c, radix) == (if c as u32
            - 0x61 + 10 < radix {
            Some((c as u32 - 0x61 + 10) as nat)
        } else {
            None
        }),
        radix <= 36 && !('0' <= c <= '9') && !('a' <= c <= 'z') && !('A' <= c <= 'Z')
            ==> digit_value(c, radix) is None,
{
}

} // verus!
