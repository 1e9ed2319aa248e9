//! What holds of numbers as they are written, of the choices from several
//! lists, of the names that are kept, and of offsets.

use vstd::prelude::*;
use vstd::arithmetic::div_mod::lemma_fundamental_div_mod_converse;
use vstd::utf8::{char_is_scalar, encode_utf8};
use crate::chars::{
    CharClass, byte_offset, is_ascii, is_digit, lemma_byte_offset_step, lemma_encode_len_concat,
    lemma_run_end_is,
};
use crate::error::Failure;
use crate::expand::{cartesian_product, first_occurrences};
use crate::number::{digit_value, digits_value, number_at};
use crate::structures::{
    Fragment, NumberToken, decimal, digit_char, digit_count, format_number, fragment_values,
    lemma_decimal_len, span, zeros,
};

verus! {

/// A number is written with `padding` zeros more than its digits where both
/// ends of its range had the same padding, and else in `padding + 1`
/// characters, or in as many as its digits take if those are more.
pub proof fn lemma_format_number_len(value: nat, padding: nat, same_width: bool)
    ensures
        same_width ==> format_number(value, padding, same_width) == zeros(padding) + decimal(
            value,
        ),
        same_width ==> format_number(value, padding, same_width).len() == padding + digit_count(
            value,
        ),
        !same_width && digit_count(value) <= padding + 1 ==> format_number(
            value,
            padding,
            same_width,
        ).len() == padding + 1,
        !same_width && digit_count(value) > padding + 1 ==> format_number(
            value,
            padding,
            same_width,
        ) == decimal(value),
{
    lemma_decimal_len(value);
    if same_width {
        assert(format_number(value, padding, same_width) =~= zeros(padding) + decimal(value));
    }
}

/// In an ascending range whose ends were written with equal padding, each
/// number takes `padding` characters more than it has digits.
pub proof fn lemma_equal_padding_width(padding: nat, low: nat, high: nat, i: int)
    requires
        0 <= i < span(low, high),
    ensures
        fragment_values(Fragment::Ascending { padding, same_width: true, low, high })[i].len()
            == padding + digit_count((low + i) as nat),
{
    lemma_format_number_len((low + i) as nat, padding, true);
}

/// A range stands for one string for each number from its smaller end to its
/// larger end.
pub proof fn lemma_range_len(padding: nat, same_width: bool, low: nat, high: nat)
    requires
        low <= high,
    ensures
        fragment_values(Fragment::Ascending { padding, same_width, low, high }).len() == high
            - low + 1,
        fragment_values(Fragment::Descending { padding, same_width, low, high }).len() == high
            - low + 1,
{
}

/// A descending range stands for the strings of the ascending range between
/// the same ends, in the opposite order.
pub proof fn lemma_descending_is_ascending_reversed(
    padding: nat,
    same_width: bool,
    low: nat,
    high: nat,
)
    ensures
        fragment_values(Fragment::Descending { padding, same_width, low, high })
            == fragment_values(Fragment::Ascending { padding, same_width, low, high }).reverse(),
{
    let down = fragment_values(Fragment::Descending { padding, same_width, low, high });
    let up = fragment_values(Fragment::Ascending { padding, same_width, low, high });
    assert(down =~= up.reverse());
}

/// What is kept of a sequence holds the same elements as the sequence.
pub proof fn lemma_first_occurrences_same_elements<A>(xs: Seq<A>, x: A)
    ensures
        first_occurrences(xs).contains(x) <==> xs.contains(x),
    decreases xs.len(),
{
    if xs.len() > 0 {
        let front = xs.drop_last();
        let kept = first_occurrences(front);
        lemma_first_occurrences_same_elements(front, x);
        lemma_first_occurrences_same_elements(front, xs.last());
        if xs.contains(x) {
            let i = choose|i: int| 0 <= i < xs.len() && xs[i] == x;
            if i < xs.len() - 1 {
                assert(front[i] == x);
                assert(kept.contains(x));
                let j = choose|j: int| 0 <= j < kept.len() && kept[j] == x;
                assert(first_occurrences(xs)[j] == x);
            } else if kept.contains(x) {
            } else {
                assert(first_occurrences(xs)[kept.len() as int] == x);
            }
        }
        if first_occurrences(xs).contains(x) {
            let all = first_occurrences(xs);
            let j = choose|j: int| 0 <= j < all.len() && all[j] == x;
            if j < kept.len() {
                assert(kept[j] == x);
                assert(front.contains(x));
                let i = choose|i: int| 0 <= i < front.len() && front[i] == x;
                assert(xs[i] == x);
            } else {
                assert(xs[xs.len() - 1] == x);
            }
        }
    }
}

/// Nothing stands twice in what is kept of a sequence.
pub proof fn lemma_first_occurrences_distinct<A>(xs: Seq<A>)
    ensures
        first_occurrences(xs).no_duplicates(),
    decreases xs.len(),
{
    if xs.len() > 0 {
        lemma_first_occurrences_distinct(xs.drop_last());
    }
}

/// A sequence in which nothing stands twice is kept as it is.
pub proof fn lemma_first_occurrences_of_distinct<A>(xs: Seq<A>)
    requires
        xs.no_duplicates(),
    ensures
        first_occurrences(xs) == xs,
    decreases xs.len(),
{
    if xs.len() > 0 {
        let front = xs.drop_last();
        lemma_first_occurrences_of_distinct(front);
        if front.contains(xs.last()) {
            let i = choose|i: int| 0 <= i < front.len() && front[i] == xs.last();
            assert(xs[i] == xs[xs.len() - 1]);
        }
        assert(front.push(xs.last()) =~= xs);
    }
}

/// To keep the first occurrences a second time changes nothing.
pub proof fn lemma_first_occurrences_idempotent<A>(xs: Seq<A>)
    ensures
        first_occurrences(first_occurrences(xs)) == first_occurrences(xs),
{
    lemma_first_occurrences_distinct(xs);
    lemma_first_occurrences_of_distinct(first_occurrences(xs));
}

/// What is kept stands in the order of the sequence: behind everything that
/// is kept of a shorter start of it.
pub proof fn lemma_first_occurrences_keeps_order<A>(xs: Seq<A>, k: int)
    requires
        0 <= k <= xs.len(),
    ensures
        first_occurrences(xs.take(k)).is_prefix_of(first_occurrences(xs)),
    decreases xs.len() - k,
{
    if k < xs.len() {
        lemma_first_occurrences_keeps_order(xs, k + 1);
        assert(xs.take(k + 1).drop_last() =~= xs.take(k));
    } else {
        assert(xs.take(k) =~= xs);
    }
}

/// The product of the lengths of `lists`.
pub open spec fn choices_count<A>(lists: Seq<Seq<A>>) -> nat
    decreases lists.len(),
{
    if lists.len() == 0 {
        1
    } else {
        choices_count(lists.drop_last()) * lists.last().len()
    }
}

/// There are as many choices as the lengths of the lists multiply to.
pub proof fn lemma_choices_count<A>(lists: Seq<Seq<A>>)
    ensures
        cartesian_product(lists).len() == choices_count(lists),
    decreases lists.len(),
{
    if lists.len() > 0 {
        lemma_choices_count(lists.drop_last());
    }
}

/// The choices from two lists: the one with the element `i` of the first
/// and the element `j` of the second stands at `i * second.len() + j`, so the
/// second list changes fastest.
pub proof fn lemma_choices_of_two<A>(first: Seq<A>, second: Seq<A>, i: int, j: int)
    requires
        0 <= i < first.len(),
        0 <= j < second.len(),
    ensures
        cartesian_product(seq![first, second]).len() == first.len() * second.len(),
        0 <= i * second.len() + j < first.len() * second.len(),
        cartesian_product(seq![first, second])[i * second.len() + j] == seq![first[i], second[j]],
{
    let lists = seq![first, second];
    let m = second.len() as int;
    let n = first.len() as int;
    assert(lists.drop_last() =~= seq![first]);
    assert(seq![first].drop_last() =~= Seq::<Seq<A>>::empty());
    let nothing = cartesian_product(Seq::<Seq<A>>::empty());
    assert(nothing =~= seq![Seq::<A>::empty()]);
    let heads = cartesian_product(seq![first]);
    assert(heads.len() == 1 * n);
    lemma_fundamental_div_mod_converse(i, n, 0, i);
    assert(heads[i] =~= seq![first[i]]);
    let k = i * m + j;
    assert(0 <= k < n * m) by (nonlinear_arith)
        requires
            0 <= i < n,
            0 <= j < m,
            k == i * m + j,
    ;
    lemma_fundamental_div_mod_converse(k, m, i, j);
    assert(cartesian_product(lists)[k] =~= seq![first[i], second[j]]);
}

/// In front of a character that only ASCII characters precede lie as many
/// bytes as characters.
pub proof fn lemma_ascii_offset(s: Seq<char>, k: int)
    requires
        0 <= k <= s.len(),
        forall|j: int| 0 <= j < k ==> is_ascii(#[trigger] s[j]),
    ensures
        byte_offset(s, k) == k,
    decreases k,
{
    if k == 0 {
        assert(s.take(0) =~= Seq::<char>::empty());
    } else {
        lemma_ascii_offset(s, k - 1);
        lemma_byte_offset_step(s, k - 1);
    }
}

/// Offsets grow with the index, and none lies beyond the encoded input.
pub proof fn lemma_byte_offset_grows(s: Seq<char>, i: int, k: int)
    requires
        0 <= i <= k <= s.len(),
    ensures
        byte_offset(s, i) <= byte_offset(s, k) <= encode_utf8(s).len(),
        i < k ==> byte_offset(s, i) < byte_offset(s, k),
    decreases k - i,
{
    assert(s =~= s.take(k) + s.skip(k));
    lemma_encode_len_concat(s.take(k), s.skip(k));
    if i < k {
        lemma_byte_offset_grows(s, i, k - 1);
        lemma_byte_offset_step(s, k - 1);
        char_is_scalar(s[k - 1]);
    }
}

/// The decimal form of a number holds digits only, and starts with a zero
/// only where the number is zero.
pub proof fn lemma_decimal_digits(value: nat)
    ensures
        forall|k: int| 0 <= k < decimal(value).len() ==> is_digit(#[trigger] decimal(value)[k]),
        decimal(value).len() > 0,
        value > 0 ==> decimal(value)[0] != '0',
        value == 0 ==> decimal(value) == seq!['0'],
    decreases value,
{
    lemma_digit_char(value % 10);
    if value >= 10 {
        lemma_decimal_digits(value / 10);
    }
}

/// The character for a digit is a digit, and worth that digit.
pub proof fn lemma_digit_char(digit: nat)
    requires
        digit < 10,
    ensures
        is_digit(digit_char(digit)),
        digit_value(digit_char(digit)) == digit,
{
    let all = seq!['0', '1', '2', '3', '4', '5', '6', '7', '8', '9'];
    assert(all[0] == '0' && all[1] == '1' && all[2] == '2' && all[3] == '3' && all[4] == '4');
    assert(all[5] == '5' && all[6] == '6' && all[7] == '7' && all[8] == '8' && all[9] == '9');
}

/// The decimal form of a number, read as a number, is that number.
pub proof fn lemma_decimal_value(value: nat)
    ensures
        digits_value(decimal(value)) == value,
    decreases value,
{
    lemma_digit_char(value % 10);
    if value >= 10 {
        lemma_decimal_value(value / 10);
        assert(decimal(value).drop_last() =~= decimal(value / 10));
    } else {
        assert(decimal(value).drop_last() =~= Seq::<char>::empty());
        assert(digits_value(decimal(value).drop_last()) == 0);
    }
}

/// Zeros in front of a run of digits do not change its value.
pub proof fn lemma_leading_zeros_value(count: nat, run: Seq<char>)
    ensures
        digits_value(zeros(count) + run) == digits_value(run),
    decreases run.len(), count,
{
    if run.len() > 0 {
        lemma_leading_zeros_value(count, run.drop_last());
        assert((zeros(count) + run).drop_last() =~= zeros(count) + run.drop_last());
    } else if count > 0 {
        lemma_leading_zeros_value((count - 1) as nat, run);
        assert((zeros(count) + run).drop_last() =~= zeros((count - 1) as nat) + run);
    } else {
        assert(zeros(count) + run =~= Seq::<char>::empty());
    }
}

/// A number that was written with `padding` zeros in front of its digits is
/// read back with that padding and its value: nothing is lost between the
/// two.
pub proof fn lemma_format_number_reads_back(value: nat, padding: nat)
    requires
        value <= u64::MAX,
    ensures
        number_at(format_number(value, padding, true), 0) == Ok::<(NumberToken, int), Failure>(
            (
                NumberToken { zero_padding: padding, value },
                format_number(value, padding, true).len() as int,
            ),
        ),
{
    let text = format_number(value, padding, true);
    lemma_format_number_len(value, padding, true);
    lemma_decimal_digits(value);
    lemma_decimal_value(value);
    lemma_leading_zeros_value(padding, decimal(value));
    let len = text.len() as int;
    assert forall|k: int| 0 <= k < len implies CharClass::Digit.holds(#[trigger] text[k]) by {
        if k >= padding {
            assert(text[k] == decimal(value)[k - padding]);
        }
    }
    lemma_run_end_is(text, 0, len, CharClass::Digit);
    assert(text.subrange(0, len) =~= text);
    if value > 0 {
        assert(text[padding as int] == decimal(value)[0]);
        lemma_run_end_is(text, 0, padding as int, CharClass::Zero);
    } else {
        assert forall|k: int| 0 <= k < len implies CharClass::Zero.holds(#[trigger] text[k]) by {
            if k >= padding {
                assert(text[k] == decimal(value)[k - padding]);
            }
        }
        lemma_run_end_is(text, 0, len, CharClass::Zero);
    }
}

/// To pad a number to the width `padding + 1` is to give it the zeros that
/// its digits leave room for.
pub proof fn lemma_fixed_width_padding(value: nat, padding: nat)
    ensures
        format_number(value, padding, false) == format_number(
            value,
            if digit_count(value) <= padding + 1 {
                (padding + 1 - digit_count(value)) as nat
            } else {
                0
            },
            true,
        ),
{
    lemma_decimal_len(value);
    let room: nat = if digit_count(value) <= padding + 1 {
        (padding + 1 - digit_count(value)) as nat
    } else {
        0
    };
    assert(format_number(value, padding, false) =~= format_number(value, room, true));
}

} // verus!
