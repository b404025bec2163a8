//! Numbers as text: decimal, hexadecimal and parsing.

use vstd::prelude::*;
use vstd::slice::slice_subrange;

verus! {

/// Whether `c` is a decimal digit.
pub open spec fn is_digit(c: char) -> bool {
    '0' <= c <= '9'
}

/// The value of the decimal digit `c`.
pub open spec fn digit_value(c: char) -> nat
    recommends
        is_digit(c),
{
    (c as u32 - '0' as u32) as nat
}

/// The decimal digit of the value `d`.
pub open spec fn digit_char(d: int) -> char
    recommends
        0 <= d < 10,
{
    ((d + '0' as u32) as u32) as char
}

/// The number that a sequence of decimal digits writes.
pub open spec fn decimal_value(digits: Seq<char>) -> nat
    decreases digits.len(),
{
    if digits.len() == 0 {
        0
    } else {
        decimal_value(digits.drop_last()) * 10 + digit_value(digits.last())
    }
}

/// The decimal notation of `n`, without leading zeros.
pub open spec fn decimal_spec(n: nat) -> Seq<char>
    decreases n,
{
    if n < 10 {
        seq![digit_char(n as int)]
    } else {
        decimal_spec(n / 10).push(digit_char((n % 10) as int))
    }
}

/// The decimal notation of `n`.
pub fn decimal(n: u64) -> (text: String)
    ensures
        text@ == decimal_spec(n as nat),
    decreases n,
{
    let digit: u8 = (n % 10) as u8;
    let c: char = (digit + 48) as char;
    assert(c == digit_char((n % 10) as int));
    let mut text = if n < 10 {
        String::new()
    } else {
        decimal(n / 10)
    };
    text.push(c);
    assert(text@ =~= decimal_spec(n as nat));
    text
}

/// Reading the decimal notation of a number gives the number back, and the
/// notation holds nothing but digits.
pub proof fn law_decimal_round_trip(n: nat)
    ensures
        decimal_value(decimal_spec(n)) == n,
        decimal_spec(n).len() > 0,
        forall|i: int| 0 <= i < decimal_spec(n).len() ==> is_digit(#[trigger] decimal_spec(n)[i]),
    decreases n,
{
    reveal_with_fuel(decimal_value, 2);
    let text = decimal_spec(n);
    if n < 10 {
        assert(text.drop_last() =~= Seq::<char>::empty());
    } else {
        law_decimal_round_trip(n / 10);
        assert(text.drop_last() =~= decimal_spec(n / 10));
    }
}

/// Why a text is not a number in range.
#[derive(Clone, Copy, PartialEq, Eq, Structural)]
pub enum NumberError {
    /// There is nothing to read.
    Empty,
    /// A character is no digit.
    InvalidDigit,
    /// The number exceeds the bound.
    TooLarge,
}

impl NumberError {
    /// What is reported to the user.
    pub open spec fn text(self) -> Seq<char> {
        match self {
            NumberError::Empty => "cannot parse integer from empty string"@,
            NumberError::InvalidDigit => "invalid digit found in string"@,
            NumberError::TooLarge => "number too large to fit in target type"@,
        }
    }

    /// What is reported to the user.
    pub fn message(&self) -> (r: &'static str)
        ensures
            r@ == self.text(),
    {
        match self {
            NumberError::Empty => "cannot parse integer from empty string",
            NumberError::InvalidDigit => "invalid digit found in string",
            NumberError::TooLarge => "number too large to fit in target type",
        }
    }
}

/// How many characters at the start of `s` are digits.
pub open spec fn digit_run(s: Seq<char>) -> nat
    decreases s.len(),
{
    if s.len() > 0 && is_digit(s[0]) {
        1 + digit_run(s.drop_first())
    } else {
        0
    }
}

/// `s` without the plus sign that may precede digits.
pub open spec fn unsigned_part(s: Seq<char>) -> Seq<char> {
    if s.len() > 1 && s[0] == '+' {
        s.skip(1)
    } else {
        s
    }
}

/// The number that `s` writes in decimal, an optional plus sign before it, if it does
/// not exceed `max`. A number that grows past `max` before a wrong character is too large.
pub open spec fn parse_spec(s: Seq<char>, max: nat) -> Result<nat, NumberError> {
    let body = unsigned_part(s);
    let run = digit_run(body) as int;
    if s.len() == 0 {
        Err(NumberError::Empty)
    } else if decimal_value(body.take(run)) > max {
        Err(NumberError::TooLarge)
    } else if run < body.len() {
        Err(NumberError::InvalidDigit)
    } else {
        Ok(decimal_value(body))
    }
}

/// A run of digits reaches from the start to the first character that is none.
proof fn lemma_digit_run(s: Seq<char>, n: int)
    requires
        0 <= n <= s.len(),
        forall|i: int| 0 <= i < n ==> is_digit(#[trigger] s[i]),
    ensures
        n <= digit_run(s) <= s.len(),
        n < s.len() && !is_digit(s[n]) ==> digit_run(s) == n,
    decreases s.len(),
{
    if s.len() > 0 && is_digit(s[0]) {
        let t = s.drop_first();
        if n == 0 {
            lemma_digit_run(t, 0);
        } else {
            assert forall|i: int| 0 <= i < n - 1 implies is_digit(#[trigger] t[i]) by {
                assert(t[i] == s[i + 1]);
            }
            lemma_digit_run(t, n - 1);
            if n < s.len() {
                assert(t[n - 1] == s[n]);
            }
        }
    }
}

/// More digits make no smaller number.
proof fn lemma_value_grows(s: Seq<char>, a: int, b: int)
    requires
        0 <= a <= b <= s.len(),
    ensures
        decimal_value(s.take(a)) <= decimal_value(s.take(b)),
    decreases b - a,
{
    if a < b {
        lemma_value_grows(s, a, b - 1);
        assert(s.take(b).drop_last() =~= s.take(b - 1));
    }
}

/// Reads a decimal number that does not exceed `max`.
pub fn parse_decimal(s: &[char], max: u64) -> (r: Result<u64, NumberError>)
    ensures
        match r {
            Ok(n) => n <= max && parse_spec(s@, max as nat) == Ok::<nat, NumberError>(n as nat),
            Err(e) => parse_spec(s@, max as nat) == Err::<nat, NumberError>(e),
        },
{
    if s.len() == 0 {
        return Err(NumberError::Empty);
    }
    let body = if s.len() > 1 && s[0] == '+' {
        slice_subrange(s, 1, s.len())
    } else {
        s
    };
    assert(body@ =~= unsigned_part(s@));
    let mut value: u64 = 0;
    let mut i: usize = 0;
    assert(body@.take(0) =~= Seq::<char>::empty());
    while i < body.len()
        invariant
            i <= body@.len(),
            s@.len() > 0,
            body@ == unsigned_part(s@),
            forall|j: int| 0 <= j < i ==> is_digit(#[trigger] body@[j]),
            value == decimal_value(body@.take(i as int)),
            value <= max,
        decreases body@.len() - i,
    {
        let c = body[i];
        proof {
            lemma_digit_run(body@, i as int);
        }
        if c < '0' || c > '9' {
            return Err(NumberError::InvalidDigit);
        }
        let digit: u64 = c as u64 - 48;
        assert(body@.take(i + 1).drop_last() =~= body@.take(i as int));
        let next: u128 = value as u128 * 10 + digit as u128;
        assert(next == decimal_value(body@.take(i + 1)));
        if next > max as u128 {
            proof {
                lemma_digit_run(body@, i + 1);
                lemma_value_grows(body@, i + 1, digit_run(body@) as int);
            }
            return Err(NumberError::TooLarge);
        }
        value = next as u64;
        i += 1;
    }
    proof {
        lemma_digit_run(body@, i as int);
        assert(body@.take(i as int) =~= body@);
    }
    Ok(value)
}

/// The decimal notation of a number within the bound is read as that number.
pub proof fn law_parse_reads_decimal(n: nat, max: nat)
    requires
        n <= max,
    ensures
        parse_spec(decimal_spec(n), max) == Ok::<nat, NumberError>(n),
{
    law_decimal_round_trip(n);
    let s = decimal_spec(n);
    assert(is_digit(s[0]));
    lemma_digit_run(s, s.len() as int);
    assert(s.take(s.len() as int) =~= s);
}

/// The hexadecimal digit of the value `d`, in lower case or, if `upper`, in upper case.
pub open spec fn hex_digit(d: int, upper: bool) -> char
    recommends
        0 <= d < 16,
{
    if d < 10 {
        ((d + '0' as u32) as u32) as char
    } else if upper {
        ((d - 10 + 'A' as u32) as u32) as char
    } else {
        ((d - 10 + 'a' as u32) as u32) as char
    }
}

/// The hexadecimal digit of the value `d`.
pub fn hex_char(d: u8, upper: bool) -> (c: char)
    requires
        d < 16,
    ensures
        c == hex_digit(d as int, upper),
{
    if d < 10 {
        (d + 48) as char
    } else if upper {
        (d - 10 + 65) as char
    } else {
        (d - 10 + 97) as char
    }
}

/// The two hexadecimal digits of each byte, in lower case, one after the other.
pub open spec fn hex_spec(bytes: Seq<u8>) -> Seq<char> {
    Seq::new(
        2 * bytes.len(),
        |i: int|
            hex_digit(
                if i % 2 == 0 {
                    bytes[i / 2] / 16
                } else {
                    bytes[i / 2] % 16
                } as int,
                false,
            ),
    )
}

/// The hexadecimal notation of `bytes` in lower case.
pub fn hex(bytes: &[u8]) -> (text: String)
    ensures
        text@ == hex_spec(bytes@),
{
    let mut text = String::new();
    let mut i: usize = 0;
    while i < bytes.len()
        invariant
            i <= bytes@.len(),
            text@ == hex_spec(bytes@).take(2 * i),
        decreases bytes@.len() - i,
    {
        let b = bytes[i];
        text.push(hex_char(b / 16, false));
        text.push(hex_char(b % 16, false));
        assert(text@ =~= hex_spec(bytes@).take(2 * (i + 1)));
        i += 1;
    }
    assert(hex_spec(bytes@).take(2 * i) =~= hex_spec(bytes@));
    text
}

/// A text is read as a number exactly if it holds digits alone and the number is not too large;
/// then it is the number that the digits write. A plus sign before it makes no difference.
pub proof fn law_only_digits_are_read(s: Seq<char>, max: nat)
    requires
        s.len() > 0,
        s[0] != '+',
    ensures
        parse_spec(s, max) is Ok <==> (forall|i: int|
            0 <= i < s.len() ==> '0' <= #[trigger] s[i] <= '9') && decimal_value(s) <= max,
        parse_spec(s, max) matches Ok(n) ==> n == decimal_value(s),
        parse_spec(seq!['+'] + s, max) == parse_spec(s, max),
        parse_spec(seq![], max) is Err,
{
    let run = digit_run(s) as int;
    lemma_digit_run(s, 0);
    lemma_run_is_digits(s);
    if forall|i: int| 0 <= i < s.len() ==> '0' <= #[trigger] s[i] <= '9' {
        assert forall|i: int| 0 <= i < s.len() implies is_digit(#[trigger] s[i]) by {}
        lemma_digit_run(s, s.len() as int);
    }
    if run == s.len() {
        assert(s.take(run) =~= s);
        assert forall|i: int| 0 <= i < s.len() implies '0' <= #[trigger] s[i] <= '9' by {
            assert(is_digit(s[i]));
        }
    }
    assert((seq!['+'] + s).skip(1) =~= s);
}

/// One more digit makes ten times the number, and the digit.
pub proof fn law_digits_have_places(digits: Seq<char>, d: int)
    requires
        0 <= d < 10,
    ensures
        decimal_value(digits.push((d + 48) as char)) == 10 * decimal_value(digits) + d,
        decimal_value(seq![]) == 0,
{
    let more = digits.push((d + 48) as char);
    assert(more.drop_last() =~= digits);
}

/// A decimal notation begins with no zero, unless the number is zero.
pub proof fn law_decimal_has_no_leading_zero(n: nat)
    ensures
        n > 0 ==> decimal_spec(n)[0] != '0',
        n == 0 ==> decimal_spec(n) == seq!['0'],
    decreases n,
{
    if n >= 10 {
        law_decimal_has_no_leading_zero(n / 10);
        law_decimal_round_trip(n / 10);
    }
}

/// A byte is written with two hexadecimal digits in lower case, the higher one first.
pub proof fn law_bytes_are_written_in_hexadecimal(bytes: Seq<u8>, i: int)
    requires
        0 <= i < bytes.len(),
    ensures
        hex_spec(bytes).len() == 2 * bytes.len(),
        "0123456789abcdef"@[(bytes[i] / 16) as int] == hex_spec(bytes)[2 * i],
        "0123456789abcdef"@[(bytes[i] % 16) as int] == hex_spec(bytes)[2 * i + 1],
{
    reveal_strlit("0123456789abcdef");
    assert((2 * i) / 2 == i && (2 * i) % 2 == 0 && (2 * i + 1) / 2 == i && (2 * i + 1) % 2 == 1);
    let high = (bytes[i] / 16) as int;
    let low = (bytes[i] % 16) as int;
    assert(0 <= high < 16 && 0 <= low < 16);
    assert(hex_digit(high, false) == "0123456789abcdef"@[high]);
    assert(hex_digit(low, false) == "0123456789abcdef"@[low]);
}

/// A run of digits holds digits.
proof fn lemma_run_is_digits(s: Seq<char>)
    ensures
        forall|i: int| 0 <= i < digit_run(s) && i < s.len() ==> is_digit(#[trigger] s[i]),
    decreases s.len(),
{
    if s.len() > 0 && is_digit(s[0]) {
        let t = s.drop_first();
        lemma_run_is_digits(t);
        assert forall|i: int| 0 <= i < digit_run(s) && i < s.len() implies is_digit(
            #[trigger] s[i],
        ) by {
            if i > 0 {
                assert(t[i - 1] == s[i]);
            }
        }
    }
}

/// A hexadecimal digit stands at its value among the sixteen.
pub proof fn law_hexadecimal_digits_are_in_order(d: int)
    requires
        0 <= d < 16,
    ensures
        hex_digit(d, false) == "0123456789abcdef"@[d],
        hex_digit(d, true) == "0123456789ABCDEF"@[d],
{
    reveal_strlit("0123456789abcdef");
    reveal_strlit("0123456789ABCDEF");
}

} // verus!
