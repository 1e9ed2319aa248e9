//! The parts of an expression and the numbers they stand for.
//!
//! A range group `[...]` holds fragments: ranges written low to high, ranges
//! written high to low, and lists of single numbers. Each fragment stands for
//! a sequence of zero-padded decimal strings.

use vstd::prelude::*;

verus! {

/// `String::push` of the standard library appends the character to the text.
pub assume_specification[ std::string::String::push ](s: &mut std::string::String, c: char)
    ensures
        final(s)@ == old(s)@.push(c),
;

/// A run of digits as it was written: how many zeros lead it, and its value.
///
/// A run of zeros only counts all but its last zero as padding.
pub struct NumberToken {
    pub zero_padding: nat,
    pub value: nat,
}

/// What a [`RangeOutput`] is.
pub enum Fragment {
    /// The numbers from `low` up to `high`.
    Ascending { padding: nat, same_width: bool, low: nat, high: nat },
    /// The numbers from `high` down to `low`.
    Descending { padding: nat, same_width: bool, low: nat, high: nat },
    /// The numbers listed, each with its own padding.
    Disjoint { items: Seq<NumberToken> },
}

/// What a [`Part`] is.
pub enum PartView {
    Literal(Seq<char>),
    RangeGroup(Seq<Fragment>),
}

/// One item of a range group.
///
/// `Range` and `RangeReversed` hold the padding of the smaller end, whether
/// both ends were written with the same padding, the smaller end and the
/// larger end. `Disjoint` holds pairs of padding and value.
#[derive(Debug, Clone, PartialEq, Eq)]
pub enum RangeOutput {
    Range(usize, bool, u64, u64),
    RangeReversed(usize, bool, u64, u64),
    Disjoint(Vec<(usize, u64)>),
}

/// One piece of an entry: text to copy, or a range group to expand.
#[derive(Debug, Clone, PartialEq, Eq)]
pub enum Part {
    String(String),
    Range(Vec<RangeOutput>),
}

impl Fragment {
    /// What the grammar yields: a range runs from its smaller end to its
    /// larger end, a list names one number or more, and every number fits
    /// in 64 bits.
    pub open spec fn well_formed(self) -> bool {
        match self {
            Fragment::Ascending { low, high, .. } => low <= high <= u64::MAX,
            Fragment::Descending { low, high, .. } => low <= high <= u64::MAX,
            Fragment::Disjoint { items } => items.len() > 0 && forall|k: int|
                0 <= k < items.len() ==> (#[trigger] items[k]).value <= u64::MAX,
        }
    }
}

impl PartView {
    /// What the grammar yields: text is not empty, and a range group holds
    /// one fragment or more, each of them well formed.
    pub open spec fn well_formed(self) -> bool {
        match self {
            PartView::Literal(text) => text.len() > 0,
            PartView::RangeGroup(fragments) => fragments.len() > 0 && forall|k: int|
                0 <= k < fragments.len() ==> (#[trigger] fragments[k]).well_formed(),
        }
    }
}

/// An entry as the grammar yields it: one part or more, each of them well
/// formed.
pub open spec fn well_formed_entry(parts: Seq<PartView>) -> bool {
    parts.len() > 0 && forall|k: int| 0 <= k < parts.len() ==> (#[trigger] parts[k]).well_formed()
}

/// The token that a pair of padding and value stands for.
pub open spec fn token_of(pair: (usize, u64)) -> NumberToken {
    NumberToken { zero_padding: pair.0 as nat, value: pair.1 as nat }
}

impl View for RangeOutput {
    type V = Fragment;

    open spec fn view(&self) -> Fragment {
        match *self {
            RangeOutput::Range(padding, same_width, low, high) => Fragment::Ascending {
                padding: padding as nat,
                same_width,
                low: low as nat,
                high: high as nat,
            },
            RangeOutput::RangeReversed(padding, same_width, low, high) => Fragment::Descending {
                padding: padding as nat,
                same_width,
                low: low as nat,
                high: high as nat,
            },
            RangeOutput::Disjoint(items) => Fragment::Disjoint {
                items: items@.map_values(|pair: (usize, u64)| token_of(pair)),
            },
        }
    }
}

impl DeepView for RangeOutput {
    type V = Fragment;

    open spec fn deep_view(&self) -> Fragment {
        self.view()
    }
}

impl View for Part {
    type V = PartView;

    open spec fn view(&self) -> PartView {
        match *self {
            Part::String(text) => PartView::Literal(text@),
            Part::Range(fragments) => PartView::RangeGroup(fragments.deep_view()),
        }
    }
}

impl DeepView for Part {
    type V = PartView;

    open spec fn deep_view(&self) -> PartView {
        self.view()
    }
}

/// The number of decimal digits of `value`.
pub open spec fn digit_count(value: nat) -> nat
    decreases value,
{
    if value < 10 {
        1
    } else {
        1 + digit_count(value / 10)
    }
}

/// The character for a digit below ten.
pub open spec fn digit_char(digit: nat) -> char {
    seq!['0', '1', '2', '3', '4', '5', '6', '7', '8', '9'][digit as int]
}

/// `value` in decimal, without padding.
pub open spec fn decimal(value: nat) -> Seq<char>
    decreases value,
{
    if value < 10 {
        seq![digit_char(value)]
    } else {
        decimal(value / 10).push(digit_char(value % 10))
    }
}

/// `count` zeros.
pub open spec fn zeros(count: nat) -> Seq<char> {
    Seq::new(count, |i: int| '0')
}

/// `text` with zeros in front until it is `width` long; unchanged if it is
/// that long already.
pub open spec fn pad_left(text: Seq<char>, width: nat) -> Seq<char> {
    if text.len() >= width {
        text
    } else {
        zeros((width - text.len()) as nat) + text
    }
}

/// The width a number is padded to. Where both ends of a range were written
/// with the same padding, every number gets that many zeros more than its
/// digits; otherwise all numbers share the width `padding + 1`.
pub open spec fn field_width(value: nat, padding: nat, same_width: bool) -> nat {
    if same_width {
        padding + digit_count(value)
    } else {
        padding + 1
    }
}

/// One number as it appears in a hostname.
pub open spec fn format_number(value: nat, padding: nat, same_width: bool) -> Seq<char> {
    pad_left(decimal(value), field_width(value, padding, same_width))
}

/// How many numbers lie from `low` to `high`.
pub open spec fn span(low: nat, high: nat) -> nat {
    if low <= high {
        (high - low + 1) as nat
    } else {
        0
    }
}

/// The strings a fragment stands for, in order.
///
/// A listed number is padded to the width `padding + 1`.
pub open spec fn fragment_values(fragment: Fragment) -> Seq<Seq<char>> {
    match fragment {
        Fragment::Ascending { padding, same_width, low, high } => Seq::new(
            span(low, high),
            |i: int| format_number((low + i) as nat, padding, same_width),
        ),
        Fragment::Descending { padding, same_width, low, high } => Seq::new(
            span(low, high),
            |i: int| format_number((high - i) as nat, padding, same_width),
        ),
        Fragment::Disjoint { items } => items.map_values(
            |item: NumberToken| format_number(item.value, item.zero_padding, false),
        ),
    }
}

/// The strings of all fragments of a group, one fragment after the other.
pub open spec fn flatten(fragments: Seq<Fragment>) -> Seq<Seq<char>>
    decreases fragments.len(),
{
    if fragments.len() == 0 {
        Seq::empty()
    } else {
        flatten(fragments.drop_last()) + fragment_values(fragments.last())
    }
}

/// The decimal form of a number has as many characters as the number has
/// digits.
pub proof fn lemma_decimal_len(value: nat)
    ensures
        decimal(value).len() == digit_count(value),
    decreases value,
{
    if value >= 10 {
        lemma_decimal_len(value / 10);
    }
}

fn count_digits(num: u64) -> (r: usize)
    ensures
        r == digit_count(num as nat),
        1 <= r <= 20,
{
    let mut rest: u64 = num;
    let mut count: usize = 1;
    assert(rest * pow10(0) == rest) by (nonlinear_arith)
        requires
            pow10(0) == 1,
    ;
    while rest >= 10
        invariant
            1 <= count,
            count + digit_count(rest as nat) == 1 + digit_count(num as nat),
            count <= 20,
            rest * pow10((count - 1) as nat) <= num,
        decreases rest,
    {
        proof {
            lemma_pow10_step(rest as nat, (count - 1) as nat, num as nat);
        }
        rest = rest / 10;
        count = count + 1;
    }
    count
}

/// Ten to the power `exponent`.
pub open spec fn pow10(exponent: nat) -> nat
    decreases exponent,
{
    if exponent == 0 {
        1
    } else {
        10 * pow10((exponent - 1) as nat)
    }
}

proof fn lemma_pow10_step(rest: nat, exponent: nat, num: nat)
    requires
        rest >= 10,
        rest * pow10(exponent) <= num,
        num <= u64::MAX,
    ensures
        (rest / 10) * pow10(exponent + 1) <= num,
        exponent + 1 <= 19,
{
    let p = pow10(exponent);
    assert(pow10(exponent + 1) == 10 * p);
    assert((rest / 10) * (10 * p) == ((rest / 10) * 10) * p) by (nonlinear_arith);
    assert(((rest / 10) * 10) * p <= rest * p) by (nonlinear_arith)
        requires
            (rest / 10) * 10 <= rest,
    ;
    if exponent + 1 > 19 {
        lemma_pow10_grows(19, exponent);
        assert(pow10(19) == 10_000_000_000_000_000_000) by {
            reveal_with_fuel(pow10, 20);
        }
        assert(rest * p >= 10 * p) by (nonlinear_arith)
            requires
                rest >= 10,
        ;
    }
}

proof fn lemma_pow10_grows(small: nat, large: nat)
    requires
        small <= large,
    ensures
        pow10(small) <= pow10(large),
    decreases large,
{
    if small < large {
        lemma_pow10_grows(small, (large - 1) as nat);
    }
}

fn push_decimal(text: &mut String, num: u64)
    ensures
        final(text)@ == old(text)@ + decimal(num as nat),
    decreases num,
{
    if num >= 10 {
        push_decimal(text, num / 10);
    }
    let digit: u8 = (num % 10) as u8;
    let c: char = (48u8 + digit) as char;
    assert(c == digit_char(digit as nat));
    text.push(c);
    assert(text@ =~= old(text)@ + decimal(num as nat));
}

/// Writes `num` in decimal, with zeros in front. With `same_prefix_len` it
/// gets `prefix` zeros; without, it is padded to `prefix + 1` characters.
pub fn format_num_prefix(num: u64, prefix: usize, same_prefix_len: bool) -> (r: String)
    ensures
        r@ == format_number(num as nat, prefix as nat, same_prefix_len),
{
    let digits = count_digits(num);
    let fill: usize = if same_prefix_len {
        prefix
    } else if digits - 1 >= prefix {
        0
    } else {
        prefix - (digits - 1)
    };
    let mut text = String::new();
    let mut i: usize = 0;
    while i < fill
        invariant
            i <= fill,
            text@ == zeros(i as nat),
        decreases fill - i,
    {
        text.push('0');
        i = i + 1;
        assert(text@ =~= zeros(i as nat));
    }
    push_decimal(&mut text, num);
    proof {
        lemma_decimal_len(num as nat);
        assert(text@ =~= format_number(num as nat, prefix as nat, same_prefix_len));
    }
    text
}

impl RangeOutput {
    /// The strings this fragment stands for, in order.
    pub fn iter(&self) -> (r: Vec<String>)
        ensures
            r.deep_view() == fragment_values(self@),
    {
        let mut out: Vec<String> = Vec::new();
        match self {
            RangeOutput::Range(padding, same_width, low, high) => {
                if *low <= *high {
                    let mut x: u64 = *low;
                    while x < *high
                        invariant
                            *low <= x <= *high,
                            out@.len() == x - *low,
                            forall|i: int|
                                0 <= i < out@.len() ==> (#[trigger] out@[i])@ == format_number(
                                    (*low + i) as nat,
                                    *padding as nat,
                                    *same_width,
                                ),
                        decreases *high - x,
                    {
                        out.push(format_num_prefix(x, *padding, *same_width));
                        x = x + 1;
                    }
                    out.push(format_num_prefix(x, *padding, *same_width));
                }
                assert(out.deep_view() =~= fragment_values(self@));
            },
            RangeOutput::RangeReversed(padding, same_width, low, high) => {
                if *low <= *high {
                    let mut x: u64 = *high;
                    while x > *low
                        invariant
                            *low <= x <= *high,
                            out@.len() == *high - x,
                            forall|i: int|
                                0 <= i < out@.len() ==> (#[trigger] out@[i])@ == format_number(
                                    (*high - i) as nat,
                                    *padding as nat,
                                    *same_width,
                                ),
                        decreases x - *low,
                    {
                        out.push(format_num_prefix(x, *padding, *same_width));
                        x = x - 1;
                    }
                    out.push(format_num_prefix(x, *padding, *same_width));
                }
                assert(out.deep_view() =~= fragment_values(self@));
            },
            RangeOutput::Disjoint(items) => {
                let mut k: usize = 0;
                while k < items.len()
                    invariant
                        k <= items.len(),
                        out@.len() == k,
                        forall|i: int|
                            0 <= i < k ==> (#[trigger] out@[i])@ == format_number(
                                items@[i].1 as nat,
                                items@[i].0 as nat,
                                false,
                            ),
                    decreases items.len() - k,
                {
                    let (padding, value) = items[k];
                    out.push(format_num_prefix(value, padding, false));
                    k = k + 1;
                }
                assert(out.deep_view() =~= fragment_values(self@));
            },
        }
        out
    }
}

impl Part {
    /// The fragments of a range group; nothing for text.
    pub fn get_ranges(&self) -> (r: Option<&Vec<RangeOutput>>)
        ensures
            match *self {
                Part::String(_) => r is None,
                Part::Range(fragments) => r == Some(&fragments),
            },
    {
        match self {
            Part::Range(xs) => Some(xs),
            _ => None,
        }
    }
}

/// The strings of a whole range group: those of its first fragment, then
/// those of its second, and so on.
pub fn flatten_ranges(xs: &[RangeOutput]) -> (r: Vec<String>)
    ensures
        r.deep_view() == flatten(xs.deep_view()),
{
    let mut out: Vec<String> = Vec::new();
    let mut k: usize = 0;
    assert(xs.deep_view().take(0) =~= Seq::<Fragment>::empty());
    while k < xs.len()
        invariant
            k <= xs.len(),
            out.deep_view() == flatten(xs.deep_view().take(k as int)),
        decreases xs.len() - k,
    {
        let mut values = xs[k].iter();
        let ghost head = out.deep_view();
        let ghost tail = values.deep_view();
        out.append(&mut values);
        proof {
            let before = xs.deep_view().take(k as int);
            let after = xs.deep_view().take(k + 1);
            assert(after.drop_last() =~= before);
            assert(after.last() == xs@[k as int]@);
            assert(out.deep_view() =~= head + tail);
        }
        k = k + 1;
    }
    assert(xs.deep_view().take(k as int) =~= xs.deep_view());
    out
}

} // verus!
