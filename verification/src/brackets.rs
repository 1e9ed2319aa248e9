//! What may stand between brackets.
//!
//! Between the brackets of a range group stand digits, white space, dashes
//! and commas. Reading never passes another character there: an expression
//! that holds one is rejected, at that character or in front of it.

use vstd::prelude::*;
use crate::chars::{
    CharClass, is_digit, is_host_char, is_space, lemma_run_end, lemma_run_end_is, run_end,
};
use crate::error::{ErrorKind, Expected, Failure};
use crate::grammar::{
    char_at, disjoint_at, entries_at, entry_at, group_at, hostlists_at, item_at, items_at,
    lemma_entries_at, lemma_entry_at, lemma_group_at, lemma_item_at, lemma_items_at,
    lemma_listed_number_at, list_goes_on, list_rest, listed_number_at, parts_at, range_at,
};
use crate::number::{lemma_number_at, number_at};
use crate::structures::{Fragment, NumberToken, PartView};

verus! {

/// A character that may stand between the brackets of a range group.
pub open spec fn is_group_char(c: char) -> bool {
    is_digit(c) || is_space(c) || c == '-' || c == ','
}

/// A character that can neither go on with a number nor follow one inside
/// brackets.
pub open spec fn is_foreign(c: char) -> bool {
    !is_group_char(c) && c != ']'
}

/// Whether only such characters stand from `from` up to `to`.
pub open spec fn group_chars(s: Seq<char>, from: int, to: int) -> bool {
    &&& from < to ==> 0 <= from && to <= s.len()
    &&& forall|k: int| from <= k < to ==> is_group_char(#[trigger] s[k])
}

/// Whether the bracket at `open` is still open at `j`: no `]` stands
/// behind it up to `j`.
pub open spec fn unclosed(s: Seq<char>, open: int, j: int) -> bool {
    char_at(s, open, '[') && open < j < s.len() && forall|k: int|
        open < k <= j ==> #[trigger] s[k] != ']'
}

/// Up to where reading came: the end of the input where it was accepted,
/// the place of the rejection where it was not.
pub open spec fn reach<V>(s: Seq<char>, outcome: Result<(V, int), Failure>) -> int {
    match outcome {
        Ok((_, end)) => end,
        Err(f) => f.at,
    }
}

/// Whether every bracket that opens from `from` up to `to` starts a range
/// group that is accepted.
pub open spec fn groups_accepted(s: Seq<char>, from: int, to: int) -> bool {
    forall|open: int|
        from <= open < to && #[trigger] char_at(s, open, '[') ==> group_at(s, open) is Ok
}

/// Whether every bracket that opens from `from` up to `limit` starts a range
/// group that is accepted, or rejected at `limit` or behind it.
pub open spec fn groups_reach(s: Seq<char>, from: int, limit: int) -> bool {
    forall|open: int|
        from <= open < limit && #[trigger] char_at(s, open, '[') ==> match group_at(s, open) {
            Ok(_) => true,
            Err(f) => limit <= f.at,
        }
}

proof fn lemma_number_chars(s: Seq<char>, i: int)
    ensures
        number_at(s, i) matches Ok((_, end)) ==> group_chars(s, i, end),
{
    lemma_number_at(s, i);
    lemma_run_end(s, i, CharClass::Digit);
}

proof fn lemma_range_chars(s: Seq<char>, i: int)
    ensures
        range_at(s, i) matches Ok((_, end)) ==> group_chars(s, i, end),
{
    lemma_number_at(s, i);
    lemma_number_chars(s, i);
    if let Ok((first, after_first)) = number_at(s, i) {
        let dash = run_end(s, after_first, CharClass::Space);
        lemma_run_end(s, after_first, CharClass::Space);
        if char_at(s, dash, '-') {
            let second = run_end(s, dash + 1, CharClass::Space);
            lemma_run_end(s, dash + 1, CharClass::Space);
            lemma_number_at(s, second);
            lemma_number_chars(s, second);
        }
    }
}

proof fn lemma_listed_number_chars(s: Seq<char>, i: int)
    requires
        0 <= i <= s.len(),
    ensures
        group_chars(s, i, reach(s, listed_number_at(s, i))),
{
    let start = run_end(s, i, CharClass::Space);
    lemma_run_end(s, i, CharClass::Space);
    lemma_number_at(s, start);
    lemma_number_chars(s, start);
    if let Ok((token, end)) = number_at(s, start) {
        lemma_run_end(s, end, CharClass::Space);
    }
}

proof fn lemma_group_chars_join(s: Seq<char>, from: int, mid: int, to: int)
    requires
        group_chars(s, from, mid),
        group_chars(s, mid, to),
    ensures
        group_chars(s, from, to),
{
}

proof fn lemma_group_chars_behind(s: Seq<char>, from: int, to: int)
    requires
        0 <= from < s.len(),
        is_group_char(s[from]),
        group_chars(s, from + 1, to),
    ensures
        group_chars(s, from, to),
{
}

proof fn lemma_list_rest_chars(s: Seq<char>, i: int, items: Seq<NumberToken>)
    requires
        0 <= i <= s.len(),
    ensures
        group_chars(s, i, reach(s, list_rest(s, i, items))),
    decreases s.len() - i,
{
    if list_goes_on(s, i) {
        lemma_listed_number_at(s, i + 1);
        lemma_listed_number_chars(s, i + 1);
        let limit = reach(s, list_rest(s, i, items));
        match listed_number_at(s, i + 1) {
            Ok((token, end)) => {
                lemma_list_rest_chars(s, end, items.push(token));
                lemma_group_chars_join(s, i + 1, end, limit);
            },
            Err(f) => {},
        }
        lemma_group_chars_behind(s, i, limit);
    }
}

proof fn lemma_item_chars(s: Seq<char>, i: int)
    requires
        0 <= i <= s.len(),
    ensures
        group_chars(s, i, reach(s, item_at(s, i))),
{
    lemma_range_chars(s, i);
    lemma_number_at(s, i);
    match range_at(s, i) {
        Ok(_) => {},
        Err(rejected) => {
            if !(rejected.kind is InconsistentPadding) {
                lemma_listed_number_at(s, i);
                lemma_listed_number_chars(s, i);
                match listed_number_at(s, i) {
                    Ok((token, end)) => {
                        lemma_list_rest_chars(s, end, seq![token]);
                        lemma_group_chars_join(s, i, end, reach(s, item_at(s, i)));
                    },
                    Err(f) => {},
                }
            } else {
                lemma_range_rejected_for_padding(s, i);
            }
        },
    }
}

proof fn lemma_range_rejected_for_padding(s: Seq<char>, i: int)
    ensures
        range_at(s, i) matches Err(f) ==> (f.kind is InconsistentPadding ==> f.at == i),
{
    lemma_number_at(s, i);
    if let Ok((first, after_first)) = number_at(s, i) {
        let dash = run_end(s, after_first, CharClass::Space);
        if char_at(s, dash, '-') {
            lemma_number_at(s, run_end(s, dash + 1, CharClass::Space));
        }
    }
}

proof fn lemma_items_chars(s: Seq<char>, i: int, found: Seq<Fragment>)
    requires
        0 <= i <= s.len(),
    ensures
        group_chars(s, i, reach(s, items_at(s, i, found))),
    decreases s.len() - i,
{
    lemma_item_at(s, i);
    lemma_item_chars(s, i);
    match item_at(s, i) {
        Ok((fragment, end)) => {
            if char_at(s, end, ',') {
                let limit = reach(s, items_at(s, i, found));
                lemma_items_chars(s, end + 1, found.push(fragment));
                lemma_group_chars_behind(s, end, limit);
                lemma_group_chars_join(s, i, end, limit);
            }
        },
        Err(f) => {},
    }
}

/// Between the brackets of a range group that is accepted stand only
/// digits, white space, dashes and commas; and only they stand between the
/// opening bracket of one that is rejected and the place of the rejection.
pub proof fn lemma_group_chars(s: Seq<char>, open: int)
    requires
        char_at(s, open, '['),
    ensures
        match group_at(s, open) {
            Ok((_, end)) => open + 1 < end <= s.len() && group_chars(s, open + 1, end - 1)
                && s[end - 1] == ']',
            Err(f) => open < f.at <= s.len() && group_chars(s, open + 1, f.at),
        },
{
    lemma_items_chars(s, open + 1, Seq::empty());
    lemma_group_at(s, open);
    lemma_items_at(s, open + 1, Seq::empty());
}

proof fn lemma_parts_reach(s: Seq<char>, i: int, found: Seq<PartView>)
    requires
        0 <= i <= s.len(),
    ensures
        match parts_at(s, i, found) {
            Ok((_, end)) => i <= end <= s.len() && groups_accepted(s, i, end),
            Err(f) => i <= f.at <= s.len() && groups_reach(s, i, f.at),
        },
    decreases s.len() - i,
{
    let next = run_end(s, i, CharClass::Space);
    lemma_run_end(s, i, CharClass::Space);
    let limit = reach(s, parts_at(s, i, found));
    if !(0 <= next < s.len()) || s[next] == ',' {
    } else if s[next] == '[' {
        lemma_group_chars(s, next);
        if let Ok((fragments, end)) = group_at(s, next) {
            lemma_parts_reach(s, end, found.push(PartView::RangeGroup(fragments)));
        }
        assert forall|open: int| i <= open < limit && #[trigger] char_at(s, open, '[') implies (
        match group_at(s, open) {
            Ok(_) => true,
            Err(f) => limit <= f.at && parts_at(s, i, found) is Err,
        }) by {
            if open < next {
                assert(is_space(s[open]));
            } else if open > next && open < reach(s, group_at(s, next)) {
                if group_at(s, next) is Ok && open == reach(s, group_at(s, next)) - 1 {
                } else {
                    assert(is_group_char(s[open]));
                }
            }
        }
    } else if is_host_char(s[next]) {
        let end = run_end(s, next, CharClass::Host);
        lemma_run_end(s, next + 1, CharClass::Host);
        lemma_run_end(s, next, CharClass::Host);
        lemma_parts_reach(s, end, found.push(PartView::Literal(s.subrange(next, end))));
        assert forall|open: int| i <= open < limit && #[trigger] char_at(s, open, '[') implies (
        match group_at(s, open) {
            Ok(_) => true,
            Err(f) => limit <= f.at && parts_at(s, i, found) is Err,
        }) by {
            if open < next {
                assert(is_space(s[open]));
            } else if open < end {
                assert(is_host_char(s[open]));
            }
        }
    } else {
        assert forall|open: int| i <= open < limit && #[trigger] char_at(s, open, '[') implies (
        match group_at(s, open) {
            Ok(_) => true,
            Err(f) => limit <= f.at && parts_at(s, i, found) is Err,
        }) by {
            assert(is_space(s[open]));
        }
    }
}

proof fn lemma_entries_reach(s: Seq<char>, i: int, found: Seq<Seq<PartView>>)
    requires
        0 <= i <= s.len(),
    ensures
        match entries_at(s, i, found) {
            Ok((_, end)) => i <= end <= s.len() && groups_accepted(s, i, end),
            Err(f) => i <= f.at <= s.len() && groups_reach(s, i, f.at),
        },
    decreases s.len() - i,
{
    lemma_entry_at(s, i);
    lemma_parts_reach(s, i, Seq::empty());
    let limit = reach(s, entries_at(s, i, found));
    if let Ok((parts, end)) = entry_at(s, i) {
        let comma = run_end(s, end, CharClass::Space);
        lemma_run_end(s, end, CharClass::Space);
        if char_at(s, comma, ',') {
            lemma_entries_reach(s, comma + 1, found.push(parts));
        }
        assert forall|open: int| i <= open < limit && #[trigger] char_at(s, open, '[') implies (
        match group_at(s, open) {
            Ok(_) => true,
            Err(f) => limit <= f.at && entries_at(s, i, found) is Err,
        }) by {
            if open < end {
                assert(groups_accepted(s, i, end));
            } else if open < comma {
                assert(is_space(s[open]));
            }
        }
    } else {
        if parts_at(s, i, Seq::empty()) is Ok {
            assert(limit == i);
        }
    }
}

/// Inside brackets, reading passes digits, white space, dashes and commas
/// only: whatever stands behind an open bracket and in front of the place
/// that reading came to is one of them.
pub proof fn lemma_brackets_hold_group_chars(s: Seq<char>, open: int, j: int)
    requires
        unclosed(s, open, j),
        j < reach(s, hostlists_at(s, 0)),
    ensures
        is_group_char(s[j]),
{
    lemma_entries_reach(s, 0, Seq::empty());
    assert(char_at(s, open, '['));
    lemma_group_chars(s, open);
    if hostlists_at(s, 0) is Ok {
        assert(groups_accepted(s, 0, reach(s, hostlists_at(s, 0))));
    } else {
        assert(groups_reach(s, 0, reach(s, hostlists_at(s, 0))));
    }
    match group_at(s, open) {
        Ok((_, end)) => {
            if j >= end - 1 {
                assert(s[end - 1] != ']');
            }
        },
        Err(f) => {},
    }
}

/// An expression with a character between brackets that is no digit, white
/// space, dash or comma is rejected, at that character or in front of it.
pub proof fn lemma_foreign_character_between_brackets(s: Seq<char>, open: int, j: int)
    requires
        unclosed(s, open, j),
        !is_group_char(s[j]),
    ensures
        hostlists_at(s, 0) matches Err(f) && f.at <= j,
{
    if j < reach(s, hostlists_at(s, 0)) {
        lemma_brackets_hold_group_chars(s, open, j);
    }
    lemma_entries_at(s, 0, Seq::empty());
}

/// A range group whose first number is followed by a foreign character is
/// rejected at that character, with a syntax error.
pub proof fn lemma_foreign_character_in_group(s: Seq<char>, open: int)
    requires
        char_at(s, open, '['),
        number_at(s, open + 1) is Ok,
        number_at(s, open + 1)->Ok_0.1 < s.len(),
        is_foreign(s[number_at(s, open + 1)->Ok_0.1]),
    ensures
        group_at(s, open) == Err::<(Seq<Fragment>, int), Failure>(
            Failure {
                at: number_at(s, open + 1)->Ok_0.1,
                kind: ErrorKind::Syntax(Expected::ClosingBracket),
            },
        ),
{
    let start = open + 1;
    let (token, end) = number_at(s, start)->Ok_0;
    lemma_number_at(s, start);
    lemma_run_end_is(s, end, end, CharClass::Space);
    lemma_run_end_is(s, start, start, CharClass::Space);
    assert(range_at(s, start) is Err && !(range_at(s, start)->Err_0.kind is InconsistentPadding));
    assert(listed_number_at(s, start) == Ok::<(NumberToken, int), Failure>((token, end)));
    assert(list_rest(s, end, seq![token]) == Ok::<(Seq<NumberToken>, int), Failure>(
        (seq![token], end),
    ));
    assert(disjoint_at(s, start) == Ok::<(Fragment, int), Failure>(
        (Fragment::Disjoint { items: seq![token] }, end),
    ));
    assert(item_at(s, start) == disjoint_at(s, start));
    assert(items_at(s, start, Seq::empty()) is Ok && items_at(s, start, Seq::empty())->Ok_0.1
        == end);
}

/// An expression that starts with hostname text and a range group whose
/// first number is followed by a foreign character is rejected at that
/// character, with a syntax error.
pub proof fn lemma_foreign_character_rejected(s: Seq<char>, open: int)
    requires
        forall|k: int| 0 <= k < open ==> is_host_char(#[trigger] s[k]) && !is_space(s[k]),
        char_at(s, open, '['),
        number_at(s, open + 1) is Ok,
        number_at(s, open + 1)->Ok_0.1 < s.len(),
        is_foreign(s[number_at(s, open + 1)->Ok_0.1]),
    ensures
        hostlists_at(s, 0) == Err::<(Seq<Seq<PartView>>, int), Failure>(
            Failure {
                at: number_at(s, open + 1)->Ok_0.1,
                kind: ErrorKind::Syntax(Expected::ClosingBracket),
            },
        ),
{
    lemma_foreign_character_in_group(s, open);
    lemma_run_end_is(s, open, open, CharClass::Space);
    if open > 0 {
        assert(is_host_char(s[0]) && !is_space(s[0]));
        lemma_run_end_is(s, 0, 0, CharClass::Space);
        lemma_run_end_is(s, 0, open, CharClass::Host);
        let text = seq![PartView::Literal(s.subrange(0, open))];
        assert(Seq::<PartView>::empty().push(PartView::Literal(s.subrange(0, open))) =~= text);
        assert(parts_at(s, open, text) is Err);
        assert(parts_at(s, 0, Seq::empty()) == parts_at(s, open, text));
    }
}

} // verus!
