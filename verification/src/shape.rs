//! What holds of everything that the grammar accepts.
//!
//! Whatever the grammar yields is well formed, and what is well formed
//! denotes at least one name. Text of hostname characters alone is accepted
//! and denotes itself.

use vstd::prelude::*;
use crate::chars::{CharClass, is_host_char, is_space, lemma_run_end, lemma_run_end_is, run_end};
use crate::error::Failure;
use crate::expand::{
    cartesian_product, expand_all, expand_entry, group_values, hostnames, interpolate,
};
use crate::grammar::{
    char_at, entries_at, entry_at, fragment_of, group_at, hostlists_at, item_at, items_at,
    lemma_entries_at, lemma_entry_at, lemma_group_at, lemma_item_at, lemma_listed_number_at,
    list_goes_on, list_rest, listed_number_at, parts_at, range_at,
};
use crate::laws::{lemma_first_occurrences_of_distinct, lemma_first_occurrences_same_elements};
use crate::number::{lemma_number_at, number_at};
use crate::structures::{
    Fragment, NumberToken, PartView, flatten, fragment_values, well_formed_entry,
};

verus! {

/// Text of hostname characters alone denotes itself.
pub proof fn lemma_plain_text_stands_for_itself(s: Seq<char>)
    requires
        s.len() > 0,
        forall|k: int| 0 <= k < s.len() ==> is_host_char(#[trigger] s[k]) && !is_space(s[k]),
    ensures
        hostlists_at(s, 0) == Ok::<(Seq<Seq<PartView>>, int), Failure>(
            (seq![seq![PartView::Literal(s)]], s.len() as int),
        ),
        hostnames(seq![seq![PartView::Literal(s)]]) == seq![s],
{
    let len = s.len() as int;
    let parts = seq![PartView::Literal(s)];
    assert(is_host_char(s[0]) && !is_space(s[0]));
    lemma_run_end_is(s, 0, 0, CharClass::Space);
    lemma_run_end_is(s, 0, len, CharClass::Host);
    lemma_run_end_is(s, len, len, CharClass::Space);
    assert(s.subrange(0, len) =~= s);
    assert(Seq::<PartView>::empty().push(PartView::Literal(s)) =~= parts);
    assert(parts_at(s, len, parts) == Ok::<(Seq<PartView>, int), Failure>((parts, len)));
    assert(parts_at(s, 0, Seq::empty()) == parts_at(s, len, parts));
    assert(entry_at(s, 0) == Ok::<(Seq<PartView>, int), Failure>((parts, len)));
    assert(Seq::<Seq<PartView>>::empty().push(parts) =~= seq![parts]);
    lemma_text_without_group(parts);
    lemma_single_entry(parts);
    assert(interpolate(parts, Seq::empty()) =~= s) by {
        assert(parts.drop_last() =~= Seq::<PartView>::empty());
        assert(interpolate(parts.drop_last(), Seq::empty()) =~= Seq::<char>::empty());
    }
    lemma_first_occurrences_of_distinct(seq![s]);
}

/// An entry without a range group denotes one name: its text.
pub proof fn lemma_text_without_group(parts: Seq<PartView>)
    requires
        forall|k: int| 0 <= k < parts.len() ==> #[trigger] parts[k] is Literal,
    ensures
        expand_entry(parts) == seq![interpolate(parts, Seq::empty())],
{
    lemma_no_group_values(parts);
    let nothing = Seq::<Seq<Seq<char>>>::empty();
    assert(cartesian_product(nothing) =~= seq![Seq::<Seq<char>>::empty()]);
    assert(expand_entry(parts) =~= seq![interpolate(parts, Seq::empty())]);
}

proof fn lemma_no_group_values(parts: Seq<PartView>)
    requires
        forall|k: int| 0 <= k < parts.len() ==> #[trigger] parts[k] is Literal,
    ensures
        group_values(parts) == Seq::<Seq<Seq<char>>>::empty(),
    decreases parts.len(),
{
    if parts.len() > 0 {
        lemma_no_group_values(parts.drop_last());
    }
}

/// The names of one entry alone are its own names, in order.
pub proof fn lemma_single_entry(parts: Seq<PartView>)
    ensures
        expand_all(seq![parts]) == expand_entry(parts),
{
    assert(seq![parts].drop_last() =~= Seq::<Seq<PartView>>::empty());
    assert(expand_all(seq![parts].drop_last()) =~= Seq::<Seq<char>>::empty());
    assert(expand_all(seq![parts]) =~= expand_entry(parts));
}

/// Two numbers make a range unless the one with the larger value was
/// written with more leading zeros than the other. The range keeps the
/// padding of the end with the smaller value, which is no less than that of
/// the other end.
pub proof fn lemma_padding_rule(first: NumberToken, second: NumberToken)
    ensures
        fragment_of(first, second) is None <==> if first.value > second.value {
            first.zero_padding > second.zero_padding
        } else {
            second.zero_padding > first.zero_padding
        },
        fragment_of(first, second) matches Some(
            Fragment::Ascending { padding, same_width, low, high },
        ) ==> first.value <= second.value && low == first.value && high == second.value
            && padding == first.zero_padding && padding >= second.zero_padding && (same_width
            <==> padding == second.zero_padding),
        fragment_of(first, second) matches Some(
            Fragment::Descending { padding, same_width, low, high },
        ) ==> first.value > second.value && low == second.value && high == first.value
            && padding == second.zero_padding && padding >= first.zero_padding && (same_width
            <==> padding == first.zero_padding),
        !(fragment_of(first, second) matches Some(Fragment::Disjoint { .. })),
{
}

/// A range that the grammar reads is well formed.
pub proof fn lemma_range_well_formed(s: Seq<char>, i: int)
    ensures
        range_at(s, i) matches Ok((fragment, _)) ==> fragment.well_formed() && !(fragment
            is Disjoint),
{
    lemma_number_at(s, i);
    if let Ok((first, after_first)) = number_at(s, i) {
        let dash = run_end(s, after_first, CharClass::Space);
        if char_at(s, dash, '-') {
            lemma_number_at(s, run_end(s, dash + 1, CharClass::Space));
        }
    }
}

/// A list that goes on from numbers that fit in 64 bits holds such numbers
/// only.
pub proof fn lemma_list_rest_fits(s: Seq<char>, i: int, items: Seq<NumberToken>)
    requires
        forall|k: int| 0 <= k < items.len() ==> (#[trigger] items[k]).value <= u64::MAX,
    ensures
        list_rest(s, i, items) matches Ok((all, _)) ==> all.len() >= items.len() && forall|k: int|
            0 <= k < all.len() ==> (#[trigger] all[k]).value <= u64::MAX,
    decreases s.len() - i,
{
    if list_goes_on(s, i) {
        lemma_listed_number_at(s, i + 1);
        lemma_number_at(s, run_end(s, i + 1, CharClass::Space));
        if let Ok((token, end)) = listed_number_at(s, i + 1) {
            lemma_list_rest_fits(s, end, items.push(token));
        }
    }
}

/// An item that the grammar reads is well formed.
pub proof fn lemma_item_well_formed(s: Seq<char>, i: int)
    ensures
        item_at(s, i) matches Ok((fragment, _)) ==> fragment.well_formed(),
{
    lemma_range_well_formed(s, i);
    lemma_number_at(s, run_end(s, i, CharClass::Space));
    if let Ok((token, end)) = listed_number_at(s, i) {
        lemma_list_rest_fits(s, end, seq![token]);
    }
}

/// The items of a range group, read after well-formed ones, are well
/// formed.
pub proof fn lemma_items_well_formed(s: Seq<char>, i: int, found: Seq<Fragment>)
    requires
        forall|k: int| 0 <= k < found.len() ==> (#[trigger] found[k]).well_formed(),
    ensures
        items_at(s, i, found) matches Ok((all, _)) ==> all.len() > 0 && forall|k: int|
            0 <= k < all.len() ==> (#[trigger] all[k]).well_formed(),
    decreases s.len() - i,
{
    lemma_item_well_formed(s, i);
    lemma_item_at(s, i);
    if let Ok((fragment, end)) = item_at(s, i) {
        if char_at(s, end, ',') {
            lemma_items_well_formed(s, end + 1, found.push(fragment));
        }
    }
}

/// The parts of an entry, read after well-formed ones, are well formed.
pub proof fn lemma_parts_well_formed(s: Seq<char>, i: int, found: Seq<PartView>)
    requires
        0 <= i <= s.len(),
        forall|k: int| 0 <= k < found.len() ==> (#[trigger] found[k]).well_formed(),
    ensures
        parts_at(s, i, found) matches Ok((all, _)) ==> forall|k: int|
            0 <= k < all.len() ==> (#[trigger] all[k]).well_formed(),
    decreases s.len() - i,
{
    let next = run_end(s, i, CharClass::Space);
    lemma_run_end(s, i, CharClass::Space);
    if !(0 <= next < s.len()) || s[next] == ',' {
    } else if s[next] == '[' {
        lemma_group_at(s, next);
        lemma_items_well_formed(s, next + 1, Seq::empty());
        if let Ok((fragments, end)) = group_at(s, next) {
            lemma_parts_well_formed(s, end, found.push(PartView::RangeGroup(fragments)));
        }
    } else if is_host_char(s[next]) {
        let end = run_end(s, next, CharClass::Host);
        lemma_run_end(s, next + 1, CharClass::Host);
        lemma_parts_well_formed(s, end, found.push(PartView::Literal(s.subrange(next, end))));
    }
}

/// The entries of an expression, read after well-formed ones, are well
/// formed.
pub proof fn lemma_entries_well_formed(s: Seq<char>, i: int, found: Seq<Seq<PartView>>)
    requires
        0 <= i <= s.len(),
        forall|k: int| 0 <= k < found.len() ==> well_formed_entry(#[trigger] found[k]),
    ensures
        entries_at(s, i, found) matches Ok((all, _)) ==> all.len() > 0 && forall|k: int|
            0 <= k < all.len() ==> well_formed_entry(#[trigger] all[k]),
    decreases s.len() - i,
{
    lemma_entry_at(s, i);
    lemma_parts_well_formed(s, i, Seq::empty());
    if let Ok((parts, end)) = entry_at(s, i) {
        let comma = run_end(s, end, CharClass::Space);
        lemma_run_end(s, end, CharClass::Space);
        if char_at(s, comma, ',') {
            lemma_entries_well_formed(s, comma + 1, found.push(parts));
        }
    }
}

/// Every entry of an expression that the grammar accepts is well formed,
/// and there is at least one.
pub proof fn lemma_expression_well_formed(s: Seq<char>)
    ensures
        hostlists_at(s, 0) matches Ok((entries, end)) ==> end == s.len() && entries.len() > 0
            && forall|k: int| 0 <= k < entries.len() ==> well_formed_entry(#[trigger] entries[k]),
{
    lemma_entries_well_formed(s, 0, Seq::empty());
    lemma_entries_at(s, 0, Seq::empty());
}

/// A well-formed fragment stands for one string or more.
pub proof fn lemma_fragment_not_empty(fragment: Fragment)
    requires
        fragment.well_formed(),
    ensures
        fragment_values(fragment).len() > 0,
{
}

/// A group of well-formed fragments, one or more, stands for one string or
/// more.
pub proof fn lemma_group_not_empty(fragments: Seq<Fragment>)
    requires
        PartView::RangeGroup(fragments).well_formed(),
    ensures
        flatten(fragments).len() > 0,
{
    lemma_fragment_not_empty(fragments.last());
}

/// The choices from lists of which none is empty are not none.
pub proof fn lemma_choices_not_empty<A>(lists: Seq<Seq<A>>)
    requires
        forall|k: int| 0 <= k < lists.len() ==> (#[trigger] lists[k]).len() > 0,
    ensures
        cartesian_product(lists).len() > 0,
    decreases lists.len(),
{
    if lists.len() > 0 {
        lemma_choices_not_empty(lists.drop_last());
        let heads = cartesian_product(lists.drop_last()).len() as int;
        let last = lists.last().len() as int;
        assert(heads * last > 0) by (nonlinear_arith)
            requires
                heads > 0,
                last > 0,
        ;
    }
}

proof fn lemma_group_values_not_empty(parts: Seq<PartView>)
    requires
        forall|k: int| 0 <= k < parts.len() ==> (#[trigger] parts[k]).well_formed(),
    ensures
        forall|k: int|
            0 <= k < group_values(parts).len() ==> (#[trigger] group_values(parts)[k]).len() > 0,
    decreases parts.len(),
{
    if parts.len() > 0 {
        let rest = parts.drop_last();
        let front = group_values(rest);
        assert forall|k: int| 0 <= k < rest.len() implies (#[trigger] rest[k]).well_formed() by {
            assert(parts[k].well_formed());
        }
        lemma_group_values_not_empty(rest);
        assert(parts[parts.len() - 1].well_formed());
        if let PartView::RangeGroup(fragments) = parts.last() {
            lemma_group_not_empty(fragments);
        }
        assert forall|k: int| 0 <= k < group_values(parts).len() implies (#[trigger] group_values(
            parts,
        )[k]).len() > 0 by {
            if k < front.len() {
                assert(group_values(parts)[k] == front[k]);
            }
        }
    }
}

/// A well-formed entry denotes one name or more.
pub proof fn lemma_entry_denotes(parts: Seq<PartView>)
    requires
        well_formed_entry(parts),
    ensures
        expand_entry(parts).len() > 0,
{
    lemma_group_values_not_empty(parts);
    lemma_choices_not_empty(group_values(parts));
}

/// An expression that the grammar accepts denotes one name or more.
pub proof fn lemma_expression_denotes(s: Seq<char>)
    ensures
        hostlists_at(s, 0) matches Ok((entries, _)) ==> hostnames(entries).len() > 0,
{
    lemma_expression_well_formed(s);
    if let Ok((entries, _)) = hostlists_at(s, 0) {
        let last = entries.last();
        assert(well_formed_entry(entries[entries.len() - 1]));
        lemma_entry_denotes(last);
        let all = expand_all(entries);
        let name = all[0];
        assert(all.contains(name));
        lemma_first_occurrences_same_elements(all, name);
    }
}

} // verus!
