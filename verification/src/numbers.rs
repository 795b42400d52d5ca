use vstd::prelude::*;

use crate::text::{chars_of, text_of};

verus! {

/// Why a text is not a number that fits its type.
#[derive(Debug, Clone, Copy, PartialEq, Eq, Structural)]
pub enum IntErrorKind {
    /// The text is empty.
    Empty,
    /// A character is no digit, or the text holds no digit at all.
    InvalidDigit,
    /// The digits stand for a number too large for the type.
    PosOverflow,
}

/// What `c` counts for as a digit: `0` to `9`, then the letters in either case from ten on;
/// anything else counts for 36, which no radix reaches.
pub open spec fn digit_weight(c: char) -> nat {
    if '0' <= c <= '9' {
        (c as u32 - '0' as u32) as nat
    } else if 'a' <= c <= 'z' {
        (c as u32 - 'a' as u32 + 10) as nat
    } else if 'A' <= c <= 'Z' {
        (c as u32 - 'A' as u32 + 10) as nat
    } else {
        36
    }
}

/// Whether `c` is a digit in `radix`.
pub open spec fn is_digit(c: char, radix: nat) -> bool {
    digit_weight(c) < radix
}

/// Whether `digits` holds digits in `radix` and nothing else.
pub open spec fn all_digits(digits: Seq<char>, radix: nat) -> bool {
    forall|i: int| 0 <= i < digits.len() ==> is_digit(#[trigger] digits[i], radix)
}

/// The number that `digits` stand for in `radix`, the first digit counting most.
pub open spec fn digits_value(digits: Seq<char>, radix: nat) -> nat
    decreases digits.len(),
{
    if digits.len() == 0 {
        0
    } else {
        digits_value(digits.drop_last(), radix) * radix + digit_weight(digits.last())
    }
}

/// `text` without the `+` that may stand in front of a number.
pub open spec fn unsigned_part(text: Seq<char>) -> Seq<char> {
    if text.len() > 0 && text[0] == '+' {
        text.skip(1)
    } else {
        text
    }
}

/// The failure that reading `digits` from the left meets first, if it meets one: a character
/// that is no digit, or a digit with which the number read so far exceeds `max`.
pub open spec fn first_failure(digits: Seq<char>, radix: nat, max: nat) -> Option<IntErrorKind>
    decreases digits.len(),
{
    if digits.len() == 0 {
        None
    } else {
        match first_failure(digits.drop_last(), radix, max) {
            Some(kind) => Some(kind),
            None => if !is_digit(digits.last(), radix) {
                Some(IntErrorKind::InvalidDigit)
            } else if digits_value(digits, radix) > max {
                Some(IntErrorKind::PosOverflow)
            } else {
                None
            },
        }
    }
}

/// What `text` gives when read as a number in `radix` that may not exceed `max`: an optional `+`,
/// then digits only and at least one. Where reading fails, the failure is the one that comes
/// first from the left.
pub open spec fn parsed_number(text: Seq<char>, radix: nat, max: nat) -> Result<nat, IntErrorKind> {
    let digits = unsigned_part(text);
    if text.len() == 0 {
        Err(IntErrorKind::Empty)
    } else if digits.len() == 0 {
        Err(IntErrorKind::InvalidDigit)
    } else {
        match first_failure(digits, radix, max) {
            Some(kind) => Err(kind),
            None => Ok(digits_value(digits, radix)),
        }
    }
}

/// The character for the digit `d`, lower case from ten on.
pub open spec fn digit_char(d: nat) -> char {
    if d < 10 {
        ('0' as u32 + d) as char
    } else {
        ('a' as u32 + d - 10) as char
    }
}

/// The digits of `n` in `radix`, without leading zeros; one `0` for zero.
pub open spec fn digits_of(n: nat, radix: nat) -> Seq<char>
    decreases n,
{
    if n < radix || radix < 2 {
        seq![digit_char(n)]
    } else {
        proof {
            assert(n / radix < n) by (nonlinear_arith)
                requires
                    radix >= 2,
                    n >= radix,
            ;
        }
        digits_of(n / radix, radix).push(digit_char(n % radix))
    }
}

/// `digits` with zeros in front until it is `width` long.
pub open spec fn zero_padded(digits: Seq<char>, width: nat) -> Seq<char> {
    if digits.len() >= width {
        digits
    } else {
        Seq::new((width - digits.len()) as nat, |i: int| '0') + digits
    }
}

/// A failure met in a part of the digits is the failure of the whole.
pub proof fn lemma_failure_stays(digits: Seq<char>, radix: nat, max: nat, n: int)
    requires
        0 <= n <= digits.len(),
        first_failure(digits.take(n), radix, max) is Some,
    ensures
        first_failure(digits, radix, max) == first_failure(digits.take(n), radix, max),
    decreases digits.len() - n,
{
    if n < digits.len() {
        assert(digits.take(n + 1).drop_last() == digits.take(n));
        lemma_failure_stays(digits, radix, max, n + 1);
    } else {
        assert(digits.take(n) == digits);
    }
}

/// Reading meets no failure exactly where all characters are digits and their number does not
/// exceed `max`.
pub proof fn lemma_no_failure(digits: Seq<char>, radix: nat, max: nat)
    requires
        radix >= 1,
    ensures
        first_failure(digits, radix, max) is None <==> all_digits(digits, radix) && digits_value(
            digits,
            radix,
        ) <= max,
    decreases digits.len(),
{
    if digits.len() > 0 {
        let front = digits.drop_last();
        lemma_no_failure(front, radix, max);
        let low = digits_value(front, radix);
        assert(low <= low * radix) by (nonlinear_arith)
            requires
                radix >= 1,
                low >= 0,
        ;
        if all_digits(digits, radix) {
            assert forall|i: int| 0 <= i < front.len() implies is_digit(
                #[trigger] front[i],
                radix,
            ) by {
                assert(front[i] == digits[i]);
            }
            assert(is_digit(digits[digits.len() - 1], radix));
        }
        if first_failure(digits, radix, max) is None {
            assert forall|i: int| 0 <= i < digits.len() implies is_digit(
                #[trigger] digits[i],
                radix,
            ) by {
                if i < front.len() {
                    assert(digits[i] == front[i]);
                }
            }
        }
    }
}

/// Writing a number out and reading it again gives the number.
pub proof fn lemma_digits_round_trip(n: nat, radix: nat, max: nat)
    requires
        2 <= radix <= 16,
        n <= max,
    ensures
        digits_of(n, radix).len() > 0,
        all_digits(digits_of(n, radix), radix),
        digits_value(digits_of(n, radix), radix) == n,
        parsed_number(digits_of(n, radix), radix, max) == Ok::<nat, IntErrorKind>(n),
    decreases n,
{
    let digits = digits_of(n, radix);
    if n < radix {
        assert(digits.drop_last() == Seq::<char>::empty());
        assert(digits_value(Seq::<char>::empty(), radix) == 0);
        assert(digits.last() == digit_char(n));
        assert(digit_weight(digit_char(n)) == n);
        assert(digits_value(digits, radix) == 0 * radix + n);
    } else {
        let front = digits_of(n / radix, radix);
        assert(n / radix < n && n / radix >= 0 && n % radix < radix && n == (n / radix) * radix + n
            % radix) by (nonlinear_arith)
            requires
                radix >= 2,
                n >= radix,
        ;
        lemma_digits_round_trip(n / radix, radix, max);
        assert(digits.drop_last() == front);
        assert(digit_weight(digit_char(n % radix)) == n % radix);
        assert forall|i: int| 0 <= i < digits.len() implies is_digit(#[trigger] digits[i], radix) by {
            if i < front.len() {
                assert(digits[i] == front[i]);
            }
        }
    }
    assert(digits[0] != '+') by {
        assert(is_digit(digits[0], radix));
    }
    lemma_no_failure(digits, radix, max);
}

/// Reads `text` as a number in `radix` that may not exceed `max`.
pub fn parse_number(text: &str, radix: u32, max: u64) -> (number: Result<u64, IntErrorKind>)
    requires
        2 <= radix <= 36,
    ensures
        match number {
            Ok(n) => parsed_number(text@, radix as nat, max as nat) == Ok::<nat, IntErrorKind>(
                n as nat,
            ),
            Err(kind) => parsed_number(text@, radix as nat, max as nat) == Err::<
                nat,
                IntErrorKind,
            >(kind),
        },
{
    let chars = chars_of(text);
    let len = chars.len();
    if len == 0 {
        return Err(IntErrorKind::Empty);
    }
    let start: usize = if chars[0] == '+' {
        1
    } else {
        0
    };
    let ghost digits = unsigned_part(text@);
    assert(digits == chars@.skip(start as int));
    if start == len {
        return Err(IntErrorKind::InvalidDigit);
    }
    let mut value: u64 = 0;
    let mut i = start;
    while i < len
        invariant
            2 <= radix <= 36,
            start <= i <= len == chars.len(),
            text@.len() > 0,
            digits == unsigned_part(text@),
            digits == chars@.skip(start as int),
            first_failure(digits.take(i - start), radix as nat, max as nat) is None,
            value == digits_value(digits.take(i - start), radix as nat),
            value <= max,
        decreases len - i,
    {
        let c = chars[i];
        let weight: u32 = if '0' <= c && c <= '9' {
            c as u32 - '0' as u32
        } else if 'a' <= c && c <= 'z' {
            c as u32 - 'a' as u32 + 10
        } else if 'A' <= c && c <= 'Z' {
            c as u32 - 'A' as u32 + 10
        } else {
            36
        };
        let ghost before = digits.take(i - start);
        let ghost after = digits.take(i - start + 1);
        proof {
            assert(weight == digit_weight(c));
            assert(after.drop_last() == before);
            assert(after.last() == c);
        }
        if weight >= radix {
            proof {
                lemma_failure_stays(digits, radix as nat, max as nat, i - start + 1);
            }
            return Err(IntErrorKind::InvalidDigit);
        }
        assert(value as u128 * radix as u128 <= 0xffff_ffff_ffff_ffff * 36) by (nonlinear_arith)
            requires
                value <= 0xffff_ffff_ffff_ffff,
                radix <= 36,
        ;
        let next: u128 = value as u128 * radix as u128 + weight as u128;
        if next > max as u128 {
            proof {
                lemma_failure_stays(digits, radix as nat, max as nat, i - start + 1);
            }
            return Err(IntErrorKind::PosOverflow);
        }
        value = next as u64;
        i = i + 1;
    }
    assert(digits.take(len - start) == digits);
    Ok(value)
}

/// Reads `text` as a number of 16 bits written in hexadecimal digits.
pub fn parse_hex_u16(text: &str) -> (number: Result<u16, IntErrorKind>)
    ensures
        match number {
            Ok(n) => parsed_number(text@, 16, 0xffff) == Ok::<nat, IntErrorKind>(n as nat),
            Err(kind) => parsed_number(text@, 16, 0xffff) == Err::<nat, IntErrorKind>(kind),
        },
{
    match parse_number(text, 16, 0xffff) {
        Ok(n) => Ok(n as u16),
        Err(kind) => Err(kind),
    }
}

/// Reads `text` as a `usize` written in decimal digits.
pub fn parse_usize(text: &str) -> (number: Result<usize, IntErrorKind>)
    ensures
        match number {
            Ok(n) => parsed_number(text@, 10, usize::MAX as nat) == Ok::<nat, IntErrorKind>(
                n as nat,
            ),
            Err(kind) => parsed_number(text@, 10, usize::MAX as nat) == Err::<nat, IntErrorKind>(
                kind,
            ),
        },
{
    match parse_number(text, 10, usize::MAX as u64) {
        Ok(n) => Ok(n as usize),
        Err(kind) => Err(kind),
    }
}

/// Appends the digits of `n` in `radix` to `out`.
fn push_digits(n: u64, radix: u64, out: &mut Vec<char>)
    requires
        2 <= radix <= 16,
    ensures
        final(out)@ == old(out)@ + digits_of(n as nat, radix as nat),
    decreases n,
{
    if n >= radix {
        assert(n / radix < n) by (nonlinear_arith)
            requires
                radix >= 2,
                n >= radix,
        ;
        push_digits(n / radix, radix, out);
    }
    assert(n < radix ==> n % radix == n) by (nonlinear_arith)
        requires
            radix >= 2,
    ;
    let d = (n % radix) as u8;
    let c = if d < 10 {
        (48u8 + d) as char
    } else {
        (87u8 + d) as char
    };
    assert(c == digit_char((n % radix) as nat));
    out.push(c);
    proof {
        if n >= radix {
            assert(old(out)@ + digits_of(n as nat, radix as nat) == (old(out)@ + digits_of(
                (n / radix) as nat,
                radix as nat,
            )).push(c));
        } else {
            assert(old(out)@ + seq![c] == old(out)@.push(c));
        }
    }
}

/// `n` in decimal digits.
pub fn decimal(n: usize) -> (text: String)
    ensures
        text@ == digits_of(n as nat, 10),
{
    let mut digits: Vec<char> = Vec::new();
    push_digits(n as u64, 10, &mut digits);
    assert(Seq::<char>::empty() + digits_of(n as nat, 10) == digits_of(n as nat, 10));
    assert(digits@.subrange(0, digits.len() as int) == digits@);
    text_of(&digits, 0, digits.len())
}

/// `n` in lower-case hexadecimal digits, with zeros in front up to `width` digits.
pub fn hex(n: usize, width: usize) -> (text: String)
    ensures
        text@ == zero_padded(digits_of(n as nat, 16), width as nat),
{
    let mut digits: Vec<char> = Vec::new();
    push_digits(n as u64, 16, &mut digits);
    assert(Seq::<char>::empty() + digits_of(n as nat, 16) == digits_of(n as nat, 16));
    let mut padded: Vec<char> = Vec::new();
    let mut i = digits.len();
    while i < width
        invariant
            digits.len() <= i,
            padded.len() == i - digits.len(),
            i <= width || i == digits.len(),
            forall|k: int| 0 <= k < padded.len() ==> padded@[k] == '0',
        decreases width - i,
    {
        padded.push('0');
        i = i + 1;
    }
    let ghost zeros = padded@;
    let mut k: usize = 0;
    while k < digits.len()
        invariant
            k <= digits.len(),
            padded@ == zeros + digits@.take(k as int),
        decreases digits.len() - k,
    {
        padded.push(digits[k]);
        k = k + 1;
        assert(digits@.take(k as int) == digits@.take(k - 1).push(digits@[k - 1]));
    }
    assert(digits@.take(digits.len() as int) == digits@);
    assert(padded@ == zero_padded(digits@, width as nat));
    assert(padded@.subrange(0, padded.len() as int) == padded@);
    text_of(&padded, 0, padded.len())
}

} // verus!
