//! Unsigned 64-bit integers in decimal notation: writing one and reading one.

use vstd::prelude::*;
use crate::error::{invalid_format, ParseError, ParseErrorView};
use crate::utils::string_push;

verus! {

/// Whether the character is one of `0` to `9`.
pub open spec fn is_digit(c: char) -> bool {
    '0' <= c <= '9'
}

/// The digit, from 0 to 9, that the character stands for.
pub open spec fn digit_value(c: char) -> nat
    recommends
        is_digit(c),
{
    (c as u32 - '0' as u32) as nat
}

/// The character that stands for a digit from 0 to 9.
pub open spec fn digit_char(d: nat) -> char
    recommends
        d < 10,
{
    (d + '0' as u32) as char
}

/// The decimal notation of a number: no sign, and no leading zero unless the
/// number is zero.
pub open spec fn decimal(n: nat) -> Seq<char>
    decreases n,
{
    if n < 10 {
        seq![digit_char(n)]
    } else {
        decimal(n / 10).push(digit_char(n % 10))
    }
}

/// Why a sequence of characters is not a number that fits in 64 bits.
pub enum IntError {
    /// There is no character at all.
    Empty,
    /// A character is not a digit, or a sign stands alone.
    InvalidDigit,
    /// The number is larger than 64 bits hold.
    PosOverflow,
}

/// The message that goes with each reason.
pub open spec fn int_error_message(e: IntError) -> Seq<char> {
    match e {
        IntError::Empty => "cannot parse integer from empty string"@,
        IntError::InvalidDigit => "invalid digit found in string"@,
        IntError::PosOverflow => "number too large to fit in target type"@,
    }
}

/// Reads digits from left to right onto `acc`. It stops at the first character
/// that is not a digit, and at the first digit that takes the number out of 64
/// bits.
pub open spec fn read_digits(s: Seq<char>, acc: nat) -> Result<nat, IntError>
    decreases s.len(),
{
    if s.len() == 0 {
        Ok(acc)
    } else if !is_digit(s[0]) {
        Err(IntError::InvalidDigit)
    } else if acc * 10 + digit_value(s[0]) > u64::MAX {
        Err(IntError::PosOverflow)
    } else {
        read_digits(s.drop_first(), acc * 10 + digit_value(s[0]))
    }
}

/// The number that a sequence of characters denotes: digits, with one `+`
/// before them at most.
pub open spec fn read_u64(s: Seq<char>) -> Result<nat, IntError> {
    if s.len() == 0 {
        Err(IntError::Empty)
    } else if s.len() == 1 && (s[0] == '+' || s[0] == '-') {
        Err(IntError::InvalidDigit)
    } else if s[0] == '+' {
        read_digits(s.drop_first(), 0)
    } else {
        read_digits(s, 0)
    }
}

/// The number a field denotes, or the format violation that says why it
/// denotes none.
pub open spec fn number_field(s: Seq<char>) -> Result<u64, ParseErrorView> {
    match read_u64(s) {
        Ok(n) => Ok(n as u64),
        Err(e) => Err(ParseErrorView::InvalidFormat(int_error_message(e))),
    }
}

/// One more digit at the end multiplies what was read by ten and adds the
/// digit, as long as that fits.
pub proof fn lemma_read_digits_push(s: Seq<char>, acc: nat, c: char)
    requires
        is_digit(c),
        read_digits(s, acc) is Ok,
        read_digits(s, acc)->Ok_0 * 10 + digit_value(c) <= u64::MAX,
    ensures
        read_digits(s.push(c), acc) == Ok::<nat, IntError>(
            read_digits(s, acc)->Ok_0 * 10 + digit_value(c),
        ),
    decreases s.len(),
{
    let t = s.push(c);
    if s.len() == 0 {
        assert(t.drop_first() =~= Seq::<char>::empty());
        assert(t[0] == c);
        assert(read_digits(t.drop_first(), acc * 10 + digit_value(c)) == Ok::<nat, IntError>(
            acc * 10 + digit_value(c),
        ));
    } else {
        assert(t[0] == s[0]);
        assert(t.drop_first() =~= s.drop_first().push(c));
        lemma_read_digits_push(s.drop_first(), acc * 10 + digit_value(s[0]), c);
    }
}

pub proof fn lemma_digit_char(d: nat)
    requires
        d < 10,
    ensures
        is_digit(digit_char(d)),
        digit_value(digit_char(d)) == d,
        digit_char(d) != '+',
        digit_char(d) != '-',
{
}

/// The decimal notation holds digits only, and at least one.
pub proof fn lemma_decimal_digits(n: nat)
    ensures
        decimal(n).len() >= 1,
        forall|i: int| 0 <= i < decimal(n).len() ==> is_digit(#[trigger] decimal(n)[i]),
    decreases n,
{
    if n < 10 {
        lemma_digit_char(n);
    } else {
        lemma_decimal_digits(n / 10);
        lemma_digit_char(n % 10);
    }
}

/// Reading the decimal notation of a number gives the number back.
pub proof fn lemma_read_decimal(n: nat)
    requires
        n <= u64::MAX,
    ensures
        read_u64(decimal(n)) == Ok::<nat, IntError>(n),
        number_field(decimal(n)) == Ok::<u64, ParseErrorView>(n as u64),
    decreases n,
{
    lemma_read_digits_decimal(n);
    lemma_decimal_digits(n);
    let s = decimal(n);
    assert(is_digit(s[0]));
}

proof fn lemma_read_digits_decimal(n: nat)
    requires
        n <= u64::MAX,
    ensures
        read_digits(decimal(n), 0) == Ok::<nat, IntError>(n),
    decreases n,
{
    if n < 10 {
        lemma_digit_char(n);
        let s = decimal(n);
        assert(s.drop_first() =~= Seq::<char>::empty());
        assert(read_digits(s.drop_first(), n) == Ok::<nat, IntError>(n));
    } else {
        lemma_read_digits_decimal(n / 10);
        lemma_digit_char(n % 10);
        lemma_read_digits_push(decimal(n / 10), 0, digit_char(n % 10));
    }
}

/// The character of a digit from 0 to 9.
fn digit_to_char(d: u8) -> (c: char)
    requires
        d < 10,
    ensures
        c == digit_char(d as nat),
{
    (d + 48u8) as char
}

/// The number in decimal notation.
pub fn u64_to_string(n: u64) -> (s: String)
    ensures
        s@ == decimal(n as nat),
{
    // The digits come out last first.
    let mut digits: Vec<char> = Vec::new();
    let mut rest: u64 = n;
    while rest >= 10
        invariant
            decimal(n as nat) == decimal(rest as nat) + digits@.reverse(),
        decreases rest,
    {
        let c = digit_to_char((rest % 10) as u8);
        proof {
            let ghost before = digits@;
            assert(before.push(c).reverse() =~= seq![c] + before.reverse());
            assert(decimal(rest as nat) == decimal((rest / 10) as nat).push(c));
            assert(decimal((rest / 10) as nat).push(c) + before.reverse() =~= decimal(
                (rest / 10) as nat,
            ) + (seq![c] + before.reverse()));
        }
        digits.push(c);
        rest = rest / 10;
    }
    let c = digit_to_char(rest as u8);
    proof {
        assert(digits@.push(c).reverse() =~= seq![c] + digits@.reverse());
    }
    digits.push(c);
    let mut s = String::new();
    let mut i: usize = digits.len();
    while i > 0
        invariant
            i <= digits.len(),
            s@ == digits@.reverse().take(digits.len() - i),
        decreases i,
    {
        i -= 1;
        string_push(&mut s, digits[i]);
        assert(digits@.reverse().take(digits.len() - i) =~= digits@.reverse().take(
            digits.len() - i - 1,
        ).push(digits@[i as int]));
    }
    assert(digits@.reverse().take(digits.len() as int) =~= digits@.reverse());
    s
}

/// The message that goes with each reason, as an error.
fn int_error(e: IntError) -> (r: ParseError)
    ensures
        r@ == ParseErrorView::InvalidFormat(int_error_message(e)),
{
    match e {
        IntError::Empty => invalid_format("cannot parse integer from empty string"),
        IntError::InvalidDigit => invalid_format("invalid digit found in string"),
        IntError::PosOverflow => invalid_format("number too large to fit in target type"),
    }
}

/// Reads a number in decimal notation. One `+` may stand before the digits;
/// nothing else may stand beside them.
pub fn parse_u64(s: &[char]) -> (r: Result<u64, ParseError>)
    ensures
        match r {
            Ok(n) => number_field(s@) == Ok::<u64, ParseErrorView>(n),
            Err(e) => number_field(s@) == Err::<u64, ParseErrorView>(e@),
        },
{
    if s.len() == 0 {
        return Err(int_error(IntError::Empty));
    }
    if s.len() == 1 && (s[0] == '+' || s[0] == '-') {
        return Err(int_error(IntError::InvalidDigit));
    }
    let start: usize = if s[0] == '+' { 1 } else { 0 };
    let mut acc: u64 = 0;
    let mut i: usize = start;
    proof {
        assert(s@.skip(0) =~= s@);
        assert(s@.skip(1) =~= s@.drop_first());
    }
    while i < s.len()
        invariant
            start <= i <= s.len(),
            read_u64(s@) == read_digits(s@.skip(i as int), acc as nat),
        decreases s.len() - i,
    {
        let c = s[i];
        proof {
            assert(s@.skip(i as int)[0] == c);
            assert(s@.skip(i as int).drop_first() =~= s@.skip(i + 1));
        }
        if !('0' <= c && c <= '9') {
            return Err(int_error(IntError::InvalidDigit));
        }
        let d: u64 = (c as u32 - '0' as u32) as u64;
        if acc > (u64::MAX - d) / 10 {
            return Err(int_error(IntError::PosOverflow));
        }
        acc = acc * 10 + d;
        i += 1;
    }
    proof {
        assert(s@.skip(s.len() as int) =~= Seq::<char>::empty());
    }
    Ok(acc)
}

} // verus!
