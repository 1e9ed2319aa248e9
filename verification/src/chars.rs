//! Character classes of the expression language, runs of one class, and
//! offsets into the input.

use vstd::prelude::*;
use vstd::utf8::*;

verus! {

/// What `char::is_alphanumeric` answers for a character.
pub uninterp spec fn unicode_alphanumeric(c: char) -> bool;

/// What `char::is_whitespace` answers for a character.
pub uninterp spec fn unicode_whitespace(c: char) -> bool;

/// `char::is_alphanumeric` of the standard library. Its answer depends on the
/// character alone; it is not stated here, only named.
pub assume_specification[ char::is_alphanumeric ](c: char) -> (r: bool)
    ensures
        r == unicode_alphanumeric(c),
;

/// `char::is_whitespace` of the standard library. Its answer depends on the
/// character alone; it is not stated here, only named.
pub assume_specification[ char::is_whitespace ](c: char) -> (r: bool)
    ensures
        r == unicode_whitespace(c),
;

/// A character of the ASCII range.
pub open spec fn is_ascii(c: char) -> bool {
    (c as u32) < 0x80
}

/// An ASCII decimal digit.
pub open spec fn is_digit(c: char) -> bool {
    '0' <= c <= '9'
}

/// White space: in the ASCII range the blank and the characters from tab to
/// carriage return, beyond it what Unicode calls white space.
pub open spec fn is_space(c: char) -> bool {
    if is_ascii(c) {
        c == ' ' || '\x09' <= c <= '\x0d'
    } else {
        unicode_whitespace(c)
    }
}

/// A character of a hostname: a letter or a digit (beyond the ASCII range
/// what Unicode calls alphanumeric), a dash or a dot.
pub open spec fn is_host_char(c: char) -> bool {
    if is_ascii(c) {
        'a' <= c <= 'z' || 'A' <= c <= 'Z' || '0' <= c <= '9' || c == '-' || c == '.'
    } else {
        unicode_alphanumeric(c)
    }
}

/// The classes of characters that the grammar reads in runs.
#[derive(Debug, Clone, Copy, PartialEq, Eq)]
pub enum CharClass {
    Space,
    Digit,
    Zero,
    Host,
}

impl CharClass {
    /// Whether `c` belongs to the class.
    pub open spec fn holds(self, c: char) -> bool {
        match self {
            CharClass::Space => is_space(c),
            CharClass::Digit => is_digit(c),
            CharClass::Zero => c == '0',
            CharClass::Host => is_host_char(c),
        }
    }

    /// Whether `c` belongs to the class.
    pub fn test(&self, c: char) -> (r: bool)
        ensures
            r == self.holds(c),
    {
        match self {
            CharClass::Space => {
                if (c as u32) < 0x80 {
                    c == ' ' || ('\x09' <= c && c <= '\x0d')
                } else {
                    c.is_whitespace()
                }
            },
            CharClass::Digit => '0' <= c && c <= '9',
            CharClass::Zero => c == '0',
            CharClass::Host => {
                if (c as u32) < 0x80 {
                    ('a' <= c && c <= 'z') || ('A' <= c && c <= 'Z') || ('0' <= c && c <= '9')
                        || c == '-' || c == '.'
                } else {
                    c.is_alphanumeric()
                }
            },
        }
    }
}

/// The end of the longest run of characters of `class` that starts at `i`:
/// `i` itself where no such character stands there.
pub open spec fn run_end(s: Seq<char>, i: int, class: CharClass) -> int
    decreases s.len() - i,
{
    if 0 <= i < s.len() && class.holds(s[i]) {
        run_end(s, i + 1, class)
    } else {
        i
    }
}

/// A run ends inside the input, holds characters of its class only, and
/// stops at the input's end or at a character of another class.
pub proof fn lemma_run_end(s: Seq<char>, i: int, class: CharClass)
    ensures
        i <= run_end(s, i, class),
        0 <= i <= s.len() ==> run_end(s, i, class) <= s.len(),
        forall|k: int|
            i <= k < run_end(s, i, class) ==> 0 <= k < s.len() && class.holds(#[trigger] s[k]),
        0 <= run_end(s, i, class) < s.len() ==> !class.holds(s[run_end(s, i, class)]),
    decreases s.len() - i,
{
    if 0 <= i < s.len() && class.holds(s[i]) {
        lemma_run_end(s, i + 1, class);
    }
}

/// A stretch of characters of one class that stops at the input's end or at
/// a character of another class is the run that starts where it starts.
pub proof fn lemma_run_end_is(s: Seq<char>, i: int, end: int, class: CharClass)
    requires
        0 <= i <= end <= s.len(),
        forall|k: int| i <= k < end ==> class.holds(#[trigger] s[k]),
        end < s.len() ==> !class.holds(s[end]),
    ensures
        run_end(s, i, class) == end,
    decreases end - i,
{
    if i < end {
        lemma_run_end_is(s, i + 1, end, class);
    }
}

/// Reads the longest run of characters of `class` from `start` on, and gives
/// its end.
pub fn scan(input: &[char], start: usize, class: CharClass) -> (end: usize)
    ensures
        end == run_end(input@, start as int, class),
        start <= end,
        start <= input@.len() ==> end <= input@.len(),
{
    let mut i: usize = start;
    while i < input.len() && class.test(input[i])
        invariant
            start <= i,
            start <= input@.len() ==> i <= input@.len(),
            run_end(input@, start as int, class) == run_end(input@, i as int, class),
        decreases input@.len() - i,
    {
        i = i + 1;
    }
    i
}

/// The characters of a text, one by one.
pub fn collect(input: &str) -> (r: Vec<char>)
    ensures
        r@ == input@,
{
    let mut out: Vec<char> = Vec::new();
    for c in it: input.chars()
        invariant
            out@ == it.seq().take(it.index() as int),
    {
        out.push(c);
    }
    out
}

/// The number of bytes that the first `k` characters of `s` take in UTF-8.
pub open spec fn byte_offset(s: Seq<char>, k: int) -> nat {
    encode_utf8(s.take(k)).len()
}

/// The number of bytes that `c` takes in UTF-8.
pub open spec fn utf8_width(c: char) -> nat {
    encode_scalar(c as u32).len()
}

fn width_of(c: char) -> (r: usize)
    ensures
        r == utf8_width(c),
        1 <= r <= 4,
{
    proof {
        char_is_scalar(c);
    }
    let code = c as u32;
    if code < 0x80 {
        1
    } else if code < 0x800 {
        2
    } else if code < 0x10000 {
        3
    } else {
        4
    }
}

/// The encoding of two texts, one after the other, is as long as both
/// encodings together.
pub proof fn lemma_encode_len_concat(a: Seq<char>, b: Seq<char>)
    ensures
        encode_utf8(a + b).len() == encode_utf8(a).len() + encode_utf8(b).len(),
    decreases a.len(),
{
    if a.len() == 0 {
        assert(a + b =~= b);
    } else {
        assert((a + b).drop_first() =~= a.drop_first() + b);
        lemma_encode_len_concat(a.drop_first(), b);
    }
}

/// Each character adds its own width to the offset, and no offset lies
/// beyond the encoded text.
pub proof fn lemma_byte_offset_step(s: Seq<char>, k: int)
    requires
        0 <= k < s.len(),
    ensures
        byte_offset(s, k + 1) == byte_offset(s, k) + utf8_width(s[k]),
        byte_offset(s, k + 1) <= encode_utf8(s).len(),
{
    let one = seq![s[k]];
    assert(encode_utf8(one.drop_first()) =~= Seq::<u8>::empty());
    assert(encode_utf8(one) =~= encode_scalar(s[k] as u32));
    assert(s.take(k + 1) =~= s.take(k) + one);
    lemma_encode_len_concat(s.take(k), one);
    assert(s =~= s.take(k + 1) + s.skip(k + 1));
    lemma_encode_len_concat(s.take(k + 1), s.skip(k + 1));
}

fn sum_widths(input: &str, chars: &[char], k: usize) -> (r: usize)
    requires
        chars@ == input@,
        k <= chars@.len(),
    ensures
        r == byte_offset(input@, k as int),
{
    let total = input.as_bytes().len();
    let mut sum: usize = 0;
    let mut i: usize = 0;
    assert(input@.take(0) =~= Seq::<char>::empty());
    while i < k
        invariant
            i <= k <= chars@.len(),
            chars@ == input@,
            sum == byte_offset(input@, i as int),
            sum <= total,
            total == encode_utf8(input@).len(),
        decreases k - i,
    {
        proof {
            lemma_byte_offset_step(input@, i as int);
        }
        sum = sum + width_of(chars[i]);
        i = i + 1;
    }
    sum
}

/// The offset in bytes of the character with index `k` in `input`: the
/// number of bytes that the characters in front of it take. The index
/// behind the last character gives the length of `input` in bytes; an index
/// beyond that gives nothing.
pub fn byte_position(input: &str, k: usize) -> (r: Option<usize>)
    ensures
        k <= input@.len() ==> (r matches Some(offset) && offset == byte_offset(input@, k as int)),
        k > input@.len() ==> r is None,
{
    let chars = collect(input);
    if k <= chars.len() {
        Some(sum_widths(input, chars.as_slice(), k))
    } else {
        None
    }
}

} // verus!
