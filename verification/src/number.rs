//! Runs of decimal digits: their value and their leading zeros.

use vstd::prelude::*;
use crate::chars::{CharClass, is_digit, lemma_run_end, run_end, scan};
use crate::error::{ErrorKind, Expected, Failure, ParseError};
use crate::structures::{NumberToken, token_of};

verus! {

/// The value of one digit.
pub open spec fn digit_value(c: char) -> nat {
    (c as u32 - '0' as u32) as nat
}

/// The value of a run of digits, read as a decimal number.
pub open spec fn digits_value(run: Seq<char>) -> nat
    decreases run.len(),
{
    if run.len() == 0 {
        0
    } else {
        10 * digits_value(run.drop_last()) + digit_value(run.last())
    }
}

/// The padding of the run of digits from `start` to `end`: the number of
/// zeros that lead it, but for a run of zeros only, where the last zero is
/// the value and does not count.
pub open spec fn zero_padding(s: Seq<char>, start: int, end: int) -> nat {
    let zeros = run_end(s, start, CharClass::Zero) - start;
    if zeros == end - start && zeros > 0 {
        (zeros - 1) as nat
    } else {
        zeros as nat
    }
}

/// The number that stands at `i`, and where it ends.
///
/// It is the longest run of digits from `i` on. No digit at `i` is a syntax
/// error there; a run whose value is beyond 64 bits is an overflow, reported
/// at the start of the run.
pub open spec fn number_at(s: Seq<char>, i: int) -> Result<(NumberToken, int), Failure> {
    if !(0 <= i < s.len() && is_digit(s[i])) {
        Err(Failure { at: i, kind: ErrorKind::Syntax(Expected::Digit) })
    } else {
        let end = run_end(s, i, CharClass::Digit);
        let value = digits_value(s.subrange(i, end));
        if value > u64::MAX {
            Err(Failure { at: i, kind: ErrorKind::NumericOverflow })
        } else {
            Ok((NumberToken { zero_padding: zero_padding(s, i, end), value }, end))
        }
    }
}

/// A number takes at least one character, ends inside the input, fits in 64
/// bits and has fewer leading zeros than characters. A rejection is
/// reported where the number was looked for.
pub proof fn lemma_number_at(s: Seq<char>, i: int)
    ensures
        match number_at(s, i) {
            Ok((token, end)) => 0 <= i < end <= s.len() && token.value <= u64::MAX
                && token.zero_padding < end - i && end == run_end(s, i, CharClass::Digit),
            Err(f) => f.at == i,
        },
{
    if 0 <= i < s.len() && is_digit(s[i]) {
        let end = run_end(s, i, CharClass::Digit);
        lemma_run_end(s, i, CharClass::Digit);
        lemma_zeros_within_digits(s, i);
        lemma_run_end(s, i, CharClass::Zero);
    }
}

/// The zeros that lead a run of digits end inside the run.
pub proof fn lemma_zeros_within_digits(s: Seq<char>, i: int)
    ensures
        run_end(s, i, CharClass::Zero) <= run_end(s, i, CharClass::Digit),
    decreases s.len() - i,
{
    if 0 <= i < s.len() && s[i] == '0' {
        lemma_zeros_within_digits(s, i + 1);
    } else {
        lemma_run_end(s, i, CharClass::Digit);
    }
}

/// A run of digits is worth no less than any run that it starts with.
pub proof fn lemma_digits_value_grows(s: Seq<char>, start: int, mid: int, end: int)
    requires
        0 <= start <= mid <= end <= s.len(),
    ensures
        digits_value(s.subrange(start, mid)) <= digits_value(s.subrange(start, end)),
    decreases end - mid,
{
    if mid < end {
        lemma_digits_value_grows(s, start, mid, end - 1);
        assert(s.subrange(start, end).drop_last() =~= s.subrange(start, end - 1));
    }
}

/// Reads the number at `start`: the count of its leading zeros with its
/// value, and where it ends.
pub fn leading_zeros(input: &[char], start: usize) -> (r: Result<((usize, u64), usize), ParseError>)
    ensures
        match number_at(input@, start as int) {
            Ok((token, end)) => r matches Ok((pair, stop)) && token_of(pair) == token && stop
                == end,
            Err(f) => r matches Err(e) && e.reports(f),
        },
{
    if start >= input.len() || !CharClass::Digit.test(input[start]) {
        return Err(ParseError { position: start, kind: ErrorKind::Syntax(Expected::Digit) });
    }
    let end = scan(input, start, CharClass::Digit);
    let zeros_end = scan(input, start, CharClass::Zero);
    proof {
        lemma_run_end(input@, start as int, CharClass::Digit);
        lemma_zeros_within_digits(input@, start as int);
    }
    let mut value: u64 = 0;
    let mut i: usize = start;
    assert(input@.subrange(start as int, start as int) =~= Seq::<char>::empty());
    while i < end
        invariant
            start <= i <= end <= input@.len(),
            end == run_end(input@, start as int, CharClass::Digit),
            value == digits_value(input@.subrange(start as int, i as int)),
        decreases end - i,
    {
        proof {
            lemma_run_end(input@, start as int, CharClass::Digit);
            assert(is_digit(input@[i as int]));
            assert(input@.subrange(start as int, i + 1).drop_last() =~= input@.subrange(
                start as int,
                i as int,
            ));
        }
        let digit: u64 = (input[i] as u32 - '0' as u32) as u64;
        if value > (u64::MAX - digit) / 10 {
            proof {
                lemma_digits_value_grows(input@, start as int, i + 1, end as int);
            }
            return Err(ParseError { position: start, kind: ErrorKind::NumericOverflow });
        }
        value = 10 * value + digit;
        i = i + 1;
    }
    let zeros = zeros_end - start;
    let padding = if zeros == end - start {
        zeros - 1
    } else {
        zeros
    };
    Ok(((padding, value), end))
}

} // verus!
