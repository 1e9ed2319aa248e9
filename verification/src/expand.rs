//! From the parts of an entry to the hostnames it denotes.
//!
//! Each range group of an entry stands for a sequence of numbers. The entry
//! denotes one hostname for every choice of one number from each group, the
//! choices taken in the order in which the last group changes fastest.

use vstd::prelude::*;
use vstd::string::StringExecFns;
use itertools::Itertools;
use crate::structures::{Part, PartView, flatten, flatten_ranges};

verus! {

/// Every choice of one element from each list, the lists taken from left to
/// right: the choices are ordered by the element of the first list, then by
/// that of the second, and so on. No list gives the one empty choice.
pub open spec fn cartesian_product<A>(lists: Seq<Seq<A>>) -> Seq<Seq<A>>
    decreases lists.len(),
{
    if lists.len() == 0 {
        seq![Seq::empty()]
    } else {
        let heads = cartesian_product(lists.drop_last());
        let last = lists.last();
        Seq::new(
            heads.len() * last.len(),
            |k: int| heads[k / (last.len() as int)].push(last[k % (last.len() as int)]),
        )
    }
}

/// The elements of `xs` in their order, each one only where it occurs first.
pub open spec fn first_occurrences<A>(xs: Seq<A>) -> Seq<A>
    decreases xs.len(),
{
    if xs.len() == 0 {
        Seq::empty()
    } else {
        let kept = first_occurrences(xs.drop_last());
        if kept.contains(xs.last()) {
            kept
        } else {
            kept.push(xs.last())
        }
    }
}

/// `Itertools::multi_cartesian_product` of itertools, on lists of strings.
///
/// Taken on one list or more, it gives every choice of one string from each
/// list, the last list changing fastest, and no choice where a list is
/// empty. What it gives on no list at all is not stated.
#[verifier::external_body]
fn multi_cartesian_product(lists: Vec<Vec<String>>) -> (r: Vec<Vec<String>>)
    requires
        lists@.len() > 0,
    ensures
        r.deep_view() == cartesian_product(lists.deep_view()),
{
    lists.into_iter().multi_cartesian_product().collect()
}

/// `Itertools::unique` of itertools, on strings: it keeps the strings in
/// their order and drops each one that has occurred before.
#[verifier::external_body]
fn unique(xs: Vec<String>) -> (r: Vec<String>)
    ensures
        r.deep_view() == first_occurrences(xs.deep_view()),
{
    xs.into_iter().unique().collect()
}

/// The number of range groups among `parts`.
pub open spec fn group_count(parts: Seq<PartView>) -> nat
    decreases parts.len(),
{
    if parts.len() == 0 {
        0
    } else {
        group_count(parts.drop_last()) + if parts.last() is RangeGroup {
            1nat
        } else {
            0nat
        }
    }
}

/// The numbers of each range group among `parts`, as strings, group by
/// group.
pub open spec fn group_values(parts: Seq<PartView>) -> Seq<Seq<Seq<char>>>
    decreases parts.len(),
{
    if parts.len() == 0 {
        Seq::empty()
    } else {
        match parts.last() {
            PartView::RangeGroup(fragments) => group_values(parts.drop_last()).push(
                flatten(fragments),
            ),
            PartView::Literal(_) => group_values(parts.drop_last()),
        }
    }
}

/// The text of `parts` with the first range group replaced by the first of
/// `values`, the second by the second, and so on.
pub open spec fn interpolate(parts: Seq<PartView>, values: Seq<Seq<char>>) -> Seq<char>
    decreases parts.len(),
{
    if parts.len() == 0 {
        Seq::empty()
    } else {
        let front = parts.drop_last();
        interpolate(front, values) + match parts.last() {
            PartView::Literal(text) => text,
            PartView::RangeGroup(_) => values[group_count(front) as int],
        }
    }
}

/// The hostnames of one entry: one for each choice of a number from each of
/// its range groups.
pub open spec fn expand_entry(parts: Seq<PartView>) -> Seq<Seq<char>> {
    cartesian_product(group_values(parts)).map_values(
        |choice: Seq<Seq<char>>| interpolate(parts, choice),
    )
}

/// The hostnames of all entries, entry by entry.
pub open spec fn expand_all(entries: Seq<Seq<PartView>>) -> Seq<Seq<char>>
    decreases entries.len(),
{
    if entries.len() == 0 {
        Seq::empty()
    } else {
        expand_all(entries.drop_last()) + expand_entry(entries.last())
    }
}

/// The hostnames that an expression denotes: those of its entries in order,
/// each one only where it occurs first.
pub open spec fn hostnames(entries: Seq<Seq<PartView>>) -> Seq<Seq<char>> {
    first_occurrences(expand_all(entries))
}

/// There are as many groups of values as range groups.
pub proof fn lemma_group_values_len(parts: Seq<PartView>)
    ensures
        group_values(parts).len() == group_count(parts),
    decreases parts.len(),
{
    if parts.len() > 0 {
        lemma_group_values_len(parts.drop_last());
    }
}

/// The range groups among the first parts are no more than those among all.
pub proof fn lemma_group_count_grows(parts: Seq<PartView>, k: int)
    requires
        0 <= k <= parts.len(),
    ensures
        group_count(parts.take(k)) <= group_count(parts),
    decreases parts.len() - k,
{
    if k < parts.len() {
        lemma_group_count_grows(parts, k + 1);
        assert(parts.take(k + 1).drop_last() =~= parts.take(k));
    } else {
        assert(parts.take(k) =~= parts);
    }
}

/// Each choice holds one element for each list.
pub proof fn lemma_choice_len<A>(lists: Seq<Seq<A>>, k: int)
    requires
        0 <= k < cartesian_product(lists).len(),
    ensures
        cartesian_product(lists)[k].len() == lists.len(),
    decreases lists.len(),
{
    if lists.len() > 0 {
        let heads = cartesian_product(lists.drop_last());
        let m = lists.last().len() as int;
        assert(m > 0) by (nonlinear_arith)
            requires
                0 <= k < heads.len() * m,
                m >= 0,
        ;
        assert(0 <= k / m < heads.len()) by (nonlinear_arith)
            requires
                0 <= k < heads.len() * m,
                m > 0,
        ;
        lemma_choice_len(lists.drop_last(), k / m);
    }
}

/// Writes the text of `parts` with each range group replaced by the next of
/// `values`.
pub fn render(parts: &[Part], values: &[String]) -> (r: String)
    requires
        values@.len() >= group_count(parts.deep_view()),
    ensures
        r@ == interpolate(parts.deep_view(), values.deep_view()),
{
    let mut text = String::new();
    let mut cursor: usize = 0;
    let mut k: usize = 0;
    assert(parts.deep_view().take(0) =~= Seq::<PartView>::empty());
    while k < parts.len()
        invariant
            k <= parts@.len(),
            values@.len() >= group_count(parts.deep_view()),
            cursor == group_count(parts.deep_view().take(k as int)),
            text@ == interpolate(parts.deep_view().take(k as int), values.deep_view()),
        decreases parts@.len() - k,
    {
        proof {
            assert(parts.deep_view().take(k + 1).drop_last() =~= parts.deep_view().take(k as int));
            lemma_group_count_grows(parts.deep_view(), k + 1);
        }
        match &parts[k] {
            Part::String(piece) => {
                text.append(piece.as_str());
            },
            Part::Range(_) => {
                text.append(values[cursor].as_str());
                cursor = cursor + 1;
            },
        }
        k = k + 1;
    }
    assert(parts.deep_view().take(k as int) =~= parts.deep_view());
    text
}

/// The hostnames of one entry.
pub fn expand(parts: &[Part]) -> (r: Vec<String>)
    ensures
        r.deep_view() == expand_entry(parts.deep_view()),
{
    let mut groups: Vec<Vec<String>> = Vec::new();
    let mut k: usize = 0;
    assert(parts.deep_view().take(0) =~= Seq::<PartView>::empty());
    assert(groups.deep_view() =~= Seq::<Seq<Seq<char>>>::empty());
    while k < parts.len()
        invariant
            k <= parts@.len(),
            groups.deep_view() == group_values(parts.deep_view().take(k as int)),
        decreases parts@.len() - k,
    {
        proof {
            assert(parts.deep_view().take(k + 1).drop_last() =~= parts.deep_view().take(k as int));
        }
        let ghost before = groups.deep_view();
        match parts[k].get_ranges() {
            Some(fragments) => {
                let values = flatten_ranges(fragments.as_slice());
                let ghost shown = values.deep_view();
                groups.push(values);
                assert(groups.deep_view() =~= before.push(shown));
            },
            None => {},
        }
        k = k + 1;
    }
    assert(parts.deep_view().take(k as int) =~= parts.deep_view());
    proof {
        lemma_group_values_len(parts.deep_view());
    }
    let mut out: Vec<String> = Vec::new();
    if groups.len() == 0 {
        let none: Vec<String> = Vec::new();
        assert(none.deep_view() =~= Seq::<Seq<char>>::empty());
        out.push(render(parts, none.as_slice()));
        assert(out.deep_view() =~= expand_entry(parts.deep_view()));
    } else {
        let ghost lists = groups.deep_view();
        let choices = multi_cartesian_product(groups);
        let mut c: usize = 0;
        while c < choices.len()
            invariant
                c <= choices@.len(),
                lists == group_values(parts.deep_view()),
                lists.len() == group_count(parts.deep_view()),
                choices.deep_view() == cartesian_product(lists),
                out@.len() == c,
                forall|i: int|
                    0 <= i < c ==> (#[trigger] out@[i])@ == interpolate(
                        parts.deep_view(),
                        cartesian_product(lists)[i],
                    ),
            decreases choices@.len() - c,
        {
            proof {
                lemma_choice_len(lists, c as int);
                assert(choices.deep_view()[c as int] == choices@[c as int].deep_view());
            }
            out.push(render(parts, choices[c].as_slice()));
            c = c + 1;
        }
        assert(out.deep_view() =~= expand_entry(parts.deep_view()));
    }
    out
}

/// The hostnames of all entries, entry by entry, with those that recur.
pub fn expand_entries(entries: &[Vec<Part>]) -> (r: Vec<String>)
    ensures
        r.deep_view() == expand_all(entries.deep_view()),
{
    let mut all: Vec<String> = Vec::new();
    let mut k: usize = 0;
    assert(entries.deep_view().take(0) =~= Seq::<Seq<PartView>>::empty());
    assert(all.deep_view() =~= Seq::<Seq<char>>::empty());
    while k < entries.len()
        invariant
            k <= entries@.len(),
            all.deep_view() == expand_all(entries.deep_view().take(k as int)),
        decreases entries@.len() - k,
    {
        let mut names = expand(entries[k].as_slice());
        let ghost head = all.deep_view();
        let ghost tail = names.deep_view();
        all.append(&mut names);
        proof {
            assert(entries.deep_view().take(k + 1).drop_last() =~= entries.deep_view().take(
                k as int,
            ));
            assert(all.deep_view() =~= head + tail);
        }
        k = k + 1;
    }
    assert(entries.deep_view().take(k as int) =~= entries.deep_view());
    all
}

/// The hostnames that the entries denote: each one once, where it comes
/// first.
pub fn collect_hostnames(entries: &[Vec<Part>]) -> (r: Vec<String>)
    ensures
        r.deep_view() == hostnames(entries.deep_view()),
{
    unique(expand_entries(entries))
}

} // verus!
