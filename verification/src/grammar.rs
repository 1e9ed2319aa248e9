//! The grammar of hostname expressions.
//!
//! An expression is a list of entries, separated by commas. An entry is a
//! sequence of hostname text and range groups. A range group is a list of
//! items in brackets, separated by commas; an item is a range `A-B` or a
//! list of single numbers.
//!
//! Each rule is a function of the input and an index into it. It says what
//! stands at that index and where it ends, or why nothing does and where
//! reading stopped.

use vstd::prelude::*;
use crate::chars::{CharClass, is_host_char, run_end, lemma_run_end, scan};
use crate::error::{ErrorKind, Expected, Failure, ParseError};
use crate::number::{number_at, lemma_number_at, leading_zeros};
use crate::structures::{Fragment, NumberToken, Part, PartView, RangeOutput, token_of};

verus! {

/// Whether the character `c` stands at `i`.
pub open spec fn char_at(s: Seq<char>, i: int, c: char) -> bool {
    0 <= i < s.len() && s[i] == c
}

/// The range between two numbers in the order written, or nothing where the
/// larger one has more leading zeros than the smaller one.
///
/// The range keeps the padding of the smaller number, and whether both were
/// written with the same padding. It descends where the first number is the
/// larger one.
pub open spec fn fragment_of(first: NumberToken, second: NumberToken) -> Option<Fragment> {
    let same_width = first.zero_padding == second.zero_padding;
    if first.value > second.value {
        if first.zero_padding > second.zero_padding {
            None
        } else {
            Some(
                Fragment::Descending {
                    padding: second.zero_padding,
                    same_width,
                    low: second.value,
                    high: first.value,
                },
            )
        }
    } else {
        if second.zero_padding > first.zero_padding {
            None
        } else {
            Some(
                Fragment::Ascending {
                    padding: first.zero_padding,
                    same_width,
                    low: first.value,
                    high: second.value,
                },
            )
        }
    }
}

/// The range `A-B` that stands at `i`: a number there, white space, a dash,
/// white space, a number.
///
/// Padding that does not fit is reported at `i`; whatever else is missing,
/// where it was looked for.
pub open spec fn range_at(s: Seq<char>, i: int) -> Result<(Fragment, int), Failure> {
    match number_at(s, i) {
        Err(f) => Err(f),
        Ok((first, after_first)) => {
            let dash = run_end(s, after_first, CharClass::Space);
            if !char_at(s, dash, '-') {
                Err(Failure { at: dash, kind: ErrorKind::Syntax(Expected::Dash) })
            } else {
                match number_at(s, run_end(s, dash + 1, CharClass::Space)) {
                    Err(f) => Err(f),
                    Ok((second, end)) => match fragment_of(first, second) {
                        None => Err(Failure { at: i, kind: ErrorKind::InconsistentPadding }),
                        Some(fragment) => Ok((fragment, end)),
                    },
                }
            }
        },
    }
}

/// A number of a list, with the white space around it.
pub open spec fn listed_number_at(s: Seq<char>, i: int) -> Result<(NumberToken, int), Failure> {
    match number_at(s, run_end(s, i, CharClass::Space)) {
        Err(f) => Err(f),
        Ok((token, end)) => Ok((token, run_end(s, end, CharClass::Space))),
    }
}

/// Whether what stands at `i` begins like a range: white space, digits,
/// white space, a dash.
pub open spec fn range_follows(s: Seq<char>, i: int) -> bool {
    let start = run_end(s, i, CharClass::Space);
    let end = run_end(s, start, CharClass::Digit);
    start < end && char_at(s, run_end(s, end, CharClass::Space), '-')
}

/// Whether the list goes on at `i`: with a comma that no range follows.
pub open spec fn list_goes_on(s: Seq<char>, i: int) -> bool {
    char_at(s, i, ',') && !range_follows(s, i + 1)
}

/// The rest of a list of numbers of which `items` were read up to `i`.
pub open spec fn list_rest(s: Seq<char>, i: int, items: Seq<NumberToken>) -> Result<
    (Seq<NumberToken>, int),
    Failure,
>
    decreases s.len() - i,
{
    if list_goes_on(s, i) {
        match listed_number_at(s, i + 1) {
            Err(f) => Err(f),
            Ok((token, end)) => {
                proof {
                    lemma_listed_number_at(s, i + 1);
                }
                list_rest(s, end, items.push(token))
            },
        }
    } else {
        Ok((items, i))
    }
}

/// The list of single numbers that stands at `i`: one number or more,
/// separated by commas, up to a comma that a range follows.
pub open spec fn disjoint_at(s: Seq<char>, i: int) -> Result<(Fragment, int), Failure> {
    match listed_number_at(s, i) {
        Err(f) => Err(f),
        Ok((token, end)) => match list_rest(s, end, seq![token]) {
            Err(f) => Err(f),
            Ok((items, end)) => Ok((Fragment::Disjoint { items }, end)),
        },
    }
}

/// The item of a range group that stands at `i`: a range where one stands
/// there, else a list of single numbers. A range with padding that does not
/// fit is rejected, and not read as a list.
pub open spec fn item_at(s: Seq<char>, i: int) -> Result<(Fragment, int), Failure> {
    match range_at(s, i) {
        Ok(found) => Ok(found),
        Err(f) => if f.kind is InconsistentPadding {
            Err(f)
        } else {
            disjoint_at(s, i)
        },
    }
}

/// The items of a range group from `i` on, after `found`.
pub open spec fn items_at(s: Seq<char>, i: int, found: Seq<Fragment>) -> Result<
    (Seq<Fragment>, int),
    Failure,
>
    decreases s.len() - i,
{
    match item_at(s, i) {
        Err(f) => Err(f),
        Ok((fragment, end)) => {
            if char_at(s, end, ',') {
                proof {
                    lemma_item_at(s, i);
                }
                items_at(s, end + 1, found.push(fragment))
            } else {
                Ok((found.push(fragment), end))
            }
        },
    }
}

/// The range group that stands at `i`: `[`, one item or more, separated by
/// commas, and `]`.
pub open spec fn group_at(s: Seq<char>, i: int) -> Result<(Seq<Fragment>, int), Failure> {
    if !char_at(s, i, '[') {
        Err(Failure { at: i, kind: ErrorKind::Syntax(Expected::OpeningBracket) })
    } else {
        match items_at(s, i + 1, Seq::empty()) {
            Err(f) => Err(f),
            Ok((fragments, end)) => {
                if char_at(s, end, ']') {
                    Ok((fragments, end + 1))
                } else {
                    Err(Failure { at: end, kind: ErrorKind::Syntax(Expected::ClosingBracket) })
                }
            },
        }
    }
}

/// The parts of an entry from `i` on, after `found`.
///
/// White space in front of a part is passed over. The entry ends, in front
/// of that white space, where a comma or the end of the input comes next.
pub open spec fn parts_at(s: Seq<char>, i: int, found: Seq<PartView>) -> Result<
    (Seq<PartView>, int),
    Failure,
>
    decreases s.len() - i,
{
    let next = run_end(s, i, CharClass::Space);
    if !(0 <= next < s.len()) || s[next] == ',' {
        Ok((found, i))
    } else if s[next] == '[' {
        match group_at(s, next) {
            Err(f) => Err(f),
            Ok((fragments, end)) => {
                proof {
                    lemma_run_end(s, i, CharClass::Space);
                    lemma_group_at(s, next);
                }
                parts_at(s, end, found.push(PartView::RangeGroup(fragments)))
            },
        }
    } else if is_host_char(s[next]) {
        let end = run_end(s, next, CharClass::Host);
        proof {
            lemma_run_end(s, i, CharClass::Space);
            lemma_run_end(s, next + 1, CharClass::Host);
        }
        parts_at(s, end, found.push(PartView::Literal(s.subrange(next, end))))
    } else {
        Err(Failure { at: next, kind: ErrorKind::Syntax(Expected::HostCharacter) })
    }
}

/// The entry that stands at `i`: one part or more.
pub open spec fn entry_at(s: Seq<char>, i: int) -> Result<(Seq<PartView>, int), Failure> {
    match parts_at(s, i, Seq::empty()) {
        Err(f) => Err(f),
        Ok((parts, end)) => {
            if parts.len() == 0 {
                Err(Failure { at: i, kind: ErrorKind::Syntax(Expected::Host) })
            } else {
                Ok((parts, end))
            }
        },
    }
}

/// The entries from `i` on, after `found`.
///
/// A comma, with white space in front of it or not, separates two entries.
/// The last entry ends the input: white space behind it is rejected.
pub open spec fn entries_at(s: Seq<char>, i: int, found: Seq<Seq<PartView>>) -> Result<
    (Seq<Seq<PartView>>, int),
    Failure,
>
    decreases s.len() - i,
{
    match entry_at(s, i) {
        Err(f) => Err(f),
        Ok((parts, end)) => {
            let comma = run_end(s, end, CharClass::Space);
            if char_at(s, comma, ',') {
                proof {
                    lemma_entry_at(s, i);
                    lemma_run_end(s, end, CharClass::Space);
                }
                entries_at(s, comma + 1, found.push(parts))
            } else if comma == end {
                Ok((found.push(parts), end))
            } else {
                Err(Failure { at: comma, kind: ErrorKind::Syntax(Expected::Comma) })
            }
        },
    }
}

/// The expression that stands at `i` and ends the input: one entry or more.
pub open spec fn hostlists_at(s: Seq<char>, i: int) -> Result<(Seq<Seq<PartView>>, int), Failure> {
    entries_at(s, i, Seq::empty())
}

/// Whether `r` is `outcome`, a result of the grammar, with the value seen
/// through `shown`.
pub open spec fn agrees<T, V>(
    r: Result<(T, usize), ParseError>,
    outcome: Result<(V, int), Failure>,
    shown: spec_fn(T) -> V,
) -> bool {
    match outcome {
        Ok((value, end)) => r matches Ok((x, stop)) && shown(x) == value && stop == end,
        Err(f) => r matches Err(e) && e.reports(f),
    }
}

/// Where a rule of the grammar finds something from `i` on, it ends behind
/// `i` and inside the input; where it finds nothing, reading stopped at `i`
/// or behind it, and not beyond the input's end.
pub open spec fn in_bounds<V>(s: Seq<char>, i: int, outcome: Result<(V, int), Failure>) -> bool {
    match outcome {
        Ok((_, end)) => 0 <= i < end <= s.len(),
        Err(f) => i <= f.at && (0 <= i <= s.len() ==> f.at <= s.len()),
    }
}

pub proof fn lemma_range_at(s: Seq<char>, i: int)
    ensures
        in_bounds(s, i, range_at(s, i)),
{
    lemma_number_at(s, i);
    if let Ok((first, after_first)) = number_at(s, i) {
        let dash = run_end(s, after_first, CharClass::Space);
        lemma_run_end(s, after_first, CharClass::Space);
        if char_at(s, dash, '-') {
            let second = run_end(s, dash + 1, CharClass::Space);
            lemma_run_end(s, dash + 1, CharClass::Space);
            lemma_number_at(s, second);
        }
    }
}

pub proof fn lemma_listed_number_at(s: Seq<char>, i: int)
    ensures
        in_bounds(s, i, listed_number_at(s, i)),
{
    let start = run_end(s, i, CharClass::Space);
    lemma_run_end(s, i, CharClass::Space);
    lemma_number_at(s, start);
    if let Ok((token, end)) = number_at(s, start) {
        lemma_run_end(s, end, CharClass::Space);
    }
}

pub proof fn lemma_list_rest(s: Seq<char>, i: int, items: Seq<NumberToken>)
    requires
        0 <= i <= s.len(),
    ensures
        match list_rest(s, i, items) {
            Ok((all, end)) => i <= end <= s.len() && all.len() >= items.len(),
            Err(f) => i <= f.at <= s.len(),
        },
    decreases s.len() - i,
{
    if list_goes_on(s, i) {
        lemma_listed_number_at(s, i + 1);
        if let Ok((token, end)) = listed_number_at(s, i + 1) {
            lemma_list_rest(s, end, items.push(token));
        }
    }
}

pub proof fn lemma_disjoint_at(s: Seq<char>, i: int)
    ensures
        in_bounds(s, i, disjoint_at(s, i)),
{
    lemma_listed_number_at(s, i);
    if let Ok((token, end)) = listed_number_at(s, i) {
        lemma_list_rest(s, end, seq![token]);
    }
}

pub proof fn lemma_item_at(s: Seq<char>, i: int)
    ensures
        in_bounds(s, i, item_at(s, i)),
{
    lemma_range_at(s, i);
    lemma_disjoint_at(s, i);
}

pub proof fn lemma_items_at(s: Seq<char>, i: int, found: Seq<Fragment>)
    ensures
        in_bounds(s, i, items_at(s, i, found)),
        items_at(s, i, found) matches Ok((all, _)) ==> all.len() > found.len(),
    decreases s.len() - i,
{
    lemma_item_at(s, i);
    if let Ok((fragment, end)) = item_at(s, i) {
        if char_at(s, end, ',') {
            lemma_items_at(s, end + 1, found.push(fragment));
        }
    }
}

pub proof fn lemma_group_at(s: Seq<char>, i: int)
    ensures
        in_bounds(s, i, group_at(s, i)),
        group_at(s, i) matches Ok((fragments, _)) ==> fragments.len() > 0,
{
    if char_at(s, i, '[') {
        lemma_items_at(s, i + 1, Seq::empty());
    }
}

pub proof fn lemma_parts_at(s: Seq<char>, i: int, found: Seq<PartView>)
    requires
        0 <= i <= s.len(),
    ensures
        match parts_at(s, i, found) {
            Ok((parts, end)) => i <= end <= s.len() && (end == i <==> parts == found) && (end > i
                ==> parts.len() > found.len()) && {
                let next = run_end(s, end, CharClass::Space);
                next >= s.len() || s[next] == ','
            },
            Err(f) => i <= f.at <= s.len(),
        },
    decreases s.len() - i,
{
    let next = run_end(s, i, CharClass::Space);
    lemma_run_end(s, i, CharClass::Space);
    if !(0 <= next < s.len()) || s[next] == ',' {
    } else if s[next] == '[' {
        lemma_group_at(s, next);
        if let Ok((fragments, end)) = group_at(s, next) {
            lemma_parts_at(s, end, found.push(PartView::RangeGroup(fragments)));
        }
    } else if is_host_char(s[next]) {
        let end = run_end(s, next, CharClass::Host);
        lemma_run_end(s, next + 1, CharClass::Host);
        lemma_parts_at(s, end, found.push(PartView::Literal(s.subrange(next, end))));
    }
}

pub proof fn lemma_entry_at(s: Seq<char>, i: int)
    requires
        0 <= i <= s.len(),
    ensures
        in_bounds(s, i, entry_at(s, i)),
        entry_at(s, i) matches Ok((parts, end)) ==> parts.len() > 0 && {
            let next = run_end(s, end, CharClass::Space);
            next >= s.len() || s[next] == ','
        },
{
    lemma_parts_at(s, i, Seq::empty());
}

pub proof fn lemma_entries_at(s: Seq<char>, i: int, found: Seq<Seq<PartView>>)
    requires
        0 <= i <= s.len(),
    ensures
        match entries_at(s, i, found) {
            Ok((entries, end)) => end == s.len() && i < end && entries.len() > found.len(),
            Err(f) => i <= f.at <= s.len(),
        },
    decreases s.len() - i,
{
    lemma_entry_at(s, i);
    if let Ok((parts, end)) = entry_at(s, i) {
        let comma = run_end(s, end, CharClass::Space);
        lemma_run_end(s, end, CharClass::Space);
        if char_at(s, comma, ',') {
            lemma_entries_at(s, comma + 1, found.push(parts));
        }
    }
}

/// Reads the range `A-B` at `start`.
pub fn range_digits(input: &[char], start: usize) -> (r: Result<(RangeOutput, usize), ParseError>)
    ensures
        agrees(r, range_at(input@, start as int), |x: RangeOutput| x@),
{
    let (first, after_first) = match leading_zeros(input, start) {
        Ok(found) => found,
        Err(e) => {
            return Err(e);
        },
    };
    proof {
        lemma_number_at(input@, start as int);
    }
    let dash = scan(input, after_first, CharClass::Space);
    if dash >= input.len() || input[dash] != '-' {
        return Err(ParseError { position: dash, kind: ErrorKind::Syntax(Expected::Dash) });
    }
    let second_start = scan(input, dash + 1, CharClass::Space);
    let (second, end) = match leading_zeros(input, second_start) {
        Ok(found) => found,
        Err(e) => {
            return Err(e);
        },
    };
    let same_width = first.0 == second.0;
    if first.1 > second.1 {
        if first.0 > second.0 {
            Err(ParseError { position: start, kind: ErrorKind::InconsistentPadding })
        } else {
            Ok((RangeOutput::RangeReversed(second.0, same_width, second.1, first.1), end))
        }
    } else {
        if second.0 > first.0 {
            Err(ParseError { position: start, kind: ErrorKind::InconsistentPadding })
        } else {
            Ok((RangeOutput::Range(first.0, same_width, first.1, second.1), end))
        }
    }
}

fn listed_number(input: &[char], start: usize) -> (r: Result<((usize, u64), usize), ParseError>)
    ensures
        agrees(r, listed_number_at(input@, start as int), |pair: (usize, u64)| token_of(pair)),
{
    let number_start = scan(input, start, CharClass::Space);
    match leading_zeros(input, number_start) {
        Err(e) => Err(e),
        Ok((pair, end)) => Ok((pair, scan(input, end, CharClass::Space))),
    }
}

fn list_continues(input: &[char], pos: usize) -> (r: bool)
    ensures
        r == list_goes_on(input@, pos as int),
{
    if pos >= input.len() || input[pos] != ',' {
        return false;
    }
    let start = scan(input, pos + 1, CharClass::Space);
    let end = scan(input, start, CharClass::Digit);
    if start >= end {
        return true;
    }
    let dash = scan(input, end, CharClass::Space);
    !(dash < input.len() && input[dash] == '-')
}

/// Reads the list of single numbers at `start`.
pub fn disjoint_digits(input: &[char], start: usize) -> (r: Result<
    (RangeOutput, usize),
    ParseError,
>)
    ensures
        agrees(r, disjoint_at(input@, start as int), |x: RangeOutput| x@),
{
    let (first, first_end) = match listed_number(input, start) {
        Ok(found) => found,
        Err(e) => {
            return Err(e);
        },
    };
    let mut items: Vec<(usize, u64)> = Vec::new();
    items.push(first);
    let mut pos: usize = first_end;
    let len = input.len();
    proof {
        lemma_listed_number_at(input@, start as int);
        assert(items@.map_values(|pair: (usize, u64)| token_of(pair)) =~= seq![token_of(first)]);
    }
    loop
        invariant
            pos <= input@.len() == len,
            listed_number_at(input@, start as int) == Ok::<(NumberToken, int), Failure>(
                (token_of(first), first_end as int),
            ),
            list_rest(input@, first_end as int, seq![token_of(first)]) == list_rest(
                input@,
                pos as int,
                items@.map_values(|pair: (usize, u64)| token_of(pair)),
            ),
        decreases input@.len() - pos,
    {
        if !list_continues(input, pos) {
            return Ok((RangeOutput::Disjoint(items), pos));
        }
        proof {
            lemma_listed_number_at(input@, pos + 1);
        }
        let ghost before = items@.map_values(|pair: (usize, u64)| token_of(pair));
        match listed_number(input, pos + 1) {
            Err(e) => {
                return Err(e);
            },
            Ok((pair, end)) => {
                items.push(pair);
                pos = end;
                assert(items@.map_values(|pair: (usize, u64)| token_of(pair)) =~= before.push(
                    token_of(pair),
                ));
            },
        }
    }
}

fn item(input: &[char], start: usize) -> (r: Result<(RangeOutput, usize), ParseError>)
    ensures
        agrees(r, item_at(input@, start as int), |x: RangeOutput| x@),
{
    match range_digits(input, start) {
        Ok(found) => Ok(found),
        Err(e) => match e.kind {
            ErrorKind::InconsistentPadding => Err(e),
            _ => disjoint_digits(input, start),
        },
    }
}

/// Reads the range group at `start`.
pub fn range(input: &[char], start: usize) -> (r: Result<(Vec<RangeOutput>, usize), ParseError>)
    ensures
        agrees(r, group_at(input@, start as int), |x: Vec<RangeOutput>| x.deep_view()),
{
    if start >= input.len() || input[start] != '[' {
        return Err(
            ParseError { position: start, kind: ErrorKind::Syntax(Expected::OpeningBracket) },
        );
    }
    let mut found: Vec<RangeOutput> = Vec::new();
    let mut pos: usize = start + 1;
    assert(found.deep_view() =~= Seq::<Fragment>::empty());
    loop
        invariant
            start < input@.len(),
            input@[start as int] == '[',
            pos <= input@.len(),
            items_at(input@, start + 1, Seq::empty()) == items_at(
                input@,
                pos as int,
                found.deep_view(),
            ),
        decreases input@.len() - pos,
    {
        proof {
            lemma_item_at(input@, pos as int);
        }
        let ghost before = found.deep_view();
        match item(input, pos) {
            Err(e) => {
                return Err(e);
            },
            Ok((fragment, end)) => {
                found.push(fragment);
                assert(found.deep_view() =~= before.push(fragment@));
                if end < input.len() && input[end] == ',' {
                    pos = end + 1;
                } else if end < input.len() && input[end] == ']' {
                    return Ok((found, end + 1));
                } else {
                    return Err(
                        ParseError {
                            position: end,
                            kind: ErrorKind::Syntax(Expected::ClosingBracket),
                        },
                    );
                }
            },
        }
    }
}

fn text_of(input: &[char], from: usize, to: usize) -> (r: String)
    requires
        from <= to <= input@.len(),
    ensures
        r@ == input@.subrange(from as int, to as int),
{
    let mut text = String::new();
    let mut i: usize = from;
    assert(input@.subrange(from as int, from as int) =~= Seq::<char>::empty());
    while i < to
        invariant
            from <= i <= to <= input@.len(),
            text@ == input@.subrange(from as int, i as int),
        decreases to - i,
    {
        text.push(input[i]);
        i = i + 1;
        assert(text@ =~= input@.subrange(from as int, i as int));
    }
    text
}

/// Reads the entry at `start`.
pub fn hostlist(input: &[char], start: usize) -> (r: Result<(Vec<Part>, usize), ParseError>)
    ensures
        agrees(r, entry_at(input@, start as int), |x: Vec<Part>| x.deep_view()),
{
    if start > input.len() {
        return Err(ParseError { position: start, kind: ErrorKind::Syntax(Expected::Host) });
    }
    let mut parts: Vec<Part> = Vec::new();
    let mut pos: usize = start;
    assert(parts.deep_view() =~= Seq::<PartView>::empty());
    loop
        invariant
            start <= pos <= input@.len(),
            parts_at(input@, start as int, Seq::empty()) == parts_at(
                input@,
                pos as int,
                parts.deep_view(),
            ),
        decreases input@.len() - pos,
    {
        let next = scan(input, pos, CharClass::Space);
        let ghost before = parts.deep_view();
        if next >= input.len() || input[next] == ',' {
            if parts.len() == 0 {
                return Err(
                    ParseError { position: start, kind: ErrorKind::Syntax(Expected::Host) },
                );
            } else {
                return Ok((parts, pos));
            }
        } else if input[next] == '[' {
            proof {
                lemma_group_at(input@, next as int);
            }
            match range(input, next) {
                Err(e) => {
                    return Err(e);
                },
                Ok((fragments, end)) => {
                    let ghost group = fragments.deep_view();
                    parts.push(Part::Range(fragments));
                    assert(parts.deep_view() =~= before.push(PartView::RangeGroup(group)));
                    pos = end;
                },
            }
        } else if CharClass::Host.test(input[next]) {
            let end = scan(input, next, CharClass::Host);
            proof {
                lemma_run_end(input@, next + 1, CharClass::Host);
            }
            let text = text_of(input, next, end);
            parts.push(Part::String(text));
            assert(parts.deep_view() =~= before.push(
                PartView::Literal(input@.subrange(next as int, end as int)),
            ));
            pos = end;
        } else {
            return Err(
                ParseError { position: next, kind: ErrorKind::Syntax(Expected::HostCharacter) },
            );
        }
    }
}

/// Reads the expression that starts at `start` and ends the input.
pub fn hostlists(input: &[char], start: usize) -> (r: Result<(Vec<Vec<Part>>, usize), ParseError>)
    ensures
        agrees(r, hostlists_at(input@, start as int), |x: Vec<Vec<Part>>| x.deep_view()),
{
    if start > input.len() {
        return Err(ParseError { position: start, kind: ErrorKind::Syntax(Expected::Host) });
    }
    let mut entries: Vec<Vec<Part>> = Vec::new();
    let mut pos: usize = start;
    assert(entries.deep_view() =~= Seq::<Seq<PartView>>::empty());
    loop
        invariant
            start <= pos <= input@.len(),
            entries_at(input@, start as int, Seq::empty()) == entries_at(
                input@,
                pos as int,
                entries.deep_view(),
            ),
        decreases input@.len() - pos,
    {
        proof {
            lemma_entry_at(input@, pos as int);
        }
        let ghost before = entries.deep_view();
        match hostlist(input, pos) {
            Err(e) => {
                return Err(e);
            },
            Ok((parts, end)) => {
                let ghost entry = parts.deep_view();
                entries.push(parts);
                assert(entries.deep_view() =~= before.push(entry));
                let comma = scan(input, end, CharClass::Space);
                if comma < input.len() && input[comma] == ',' {
                    pos = comma + 1;
                } else if comma == end {
                    return Ok((entries, end));
                } else {
                    return Err(
                        ParseError { position: comma, kind: ErrorKind::Syntax(Expected::Comma) },
                    );
                }
            },
        }
    }
}

} // verus!
