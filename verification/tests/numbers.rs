use hostlist_parser::error::{ErrorKind, Expected, ParseError};
use hostlist_parser::number::leading_zeros;
use hostlist_parser::structures::{flatten_ranges, format_num_prefix, Part, RangeOutput};

fn chars(text: &str) -> Vec<char> {
    text.chars().collect()
}

fn strings(names: &[&str]) -> Vec<String> {
    names.iter().map(|name| name.to_string()).collect()
}

#[test]
fn test_leading_zeros() {
    assert_eq!(leading_zeros(&chars("001"), 0), Ok(((2, 1), 3)));
    assert_eq!(leading_zeros(&chars("0001"), 0), Ok(((3, 1), 4)));
    assert_eq!(leading_zeros(&chars("01"), 0), Ok(((1, 1), 2)));
    assert_eq!(leading_zeros(&chars("00"), 0), Ok(((1, 0), 2)));
    assert_eq!(leading_zeros(&chars("0"), 0), Ok(((0, 0), 1)));
    assert_eq!(leading_zeros(&chars("042"), 0), Ok(((1, 42), 3)));
    assert_eq!(leading_zeros(&chars("042"), 0), Ok(((1, 42), 3)));
}

#[test]
fn leading_zeros_stops_at_the_first_other_character() {
    assert_eq!(leading_zeros(&chars("12ab"), 0), Ok(((0, 12), 2)));
    assert_eq!(leading_zeros(&chars("ab007,"), 2), Ok(((2, 7), 5)));
}

#[test]
fn leading_zeros_wants_a_digit() {
    let digit = ErrorKind::Syntax(Expected::Digit);
    assert_eq!(leading_zeros(&chars(""), 0), Err(ParseError { position: 0, kind: digit }));
    assert_eq!(leading_zeros(&chars("x1"), 0), Err(ParseError { position: 0, kind: digit }));
    assert_eq!(leading_zeros(&chars("1"), 1), Err(ParseError { position: 1, kind: digit }));
    assert_eq!(leading_zeros(&chars("1"), 7), Err(ParseError { position: 7, kind: digit }));
    // Digits of other scripts are no digits here.
    assert_eq!(leading_zeros(&chars("\u{0663}"), 0), Err(ParseError { position: 0, kind: digit }));
}

#[test]
fn leading_zeros_holds_the_largest_value() {
    assert_eq!(leading_zeros(&chars("18446744073709551615"), 0), Ok(((0, u64::MAX), 20)));
    assert_eq!(leading_zeros(&chars("00018446744073709551615"), 0), Ok(((3, u64::MAX), 23)));
}

#[test]
fn leading_zeros_rejects_what_does_not_fit() {
    let overflow = ErrorKind::NumericOverflow;
    assert_eq!(
        leading_zeros(&chars("18446744073709551616"), 0),
        Err(ParseError { position: 0, kind: overflow })
    );
    assert_eq!(
        leading_zeros(&chars("x99999999999999999999999"), 1),
        Err(ParseError { position: 1, kind: overflow })
    );
}

#[test]
fn format_num_prefix_pads_by_the_two_rules() {
    // Same padding at both ends: `prefix` zeros more than the digits.
    assert_eq!(format_num_prefix(9, 1, true), "09");
    assert_eq!(format_num_prefix(10, 1, true), "010");
    assert_eq!(format_num_prefix(7, 0, true), "7");
    assert_eq!(format_num_prefix(0, 2, true), "000");
    // Otherwise: the width `prefix + 1`, and never cut.
    assert_eq!(format_num_prefix(1, 1, false), "01");
    assert_eq!(format_num_prefix(10, 1, false), "10");
    assert_eq!(format_num_prefix(5, 3, false), "0005");
    assert_eq!(format_num_prefix(12345, 1, false), "12345");
    assert_eq!(format_num_prefix(0, 0, false), "0");
    assert_eq!(format_num_prefix(u64::MAX, 0, false), "18446744073709551615");
    assert_eq!(format_num_prefix(u64::MAX, 2, true), "0018446744073709551615");
}

#[test]
fn format_num_prefix_has_the_stated_width() {
    for value in [0u64, 1, 9, 10, 99, 100, 12345, u64::MAX] {
        let digits = value.to_string().len();
        for padding in 0usize..5 {
            assert_eq!(format_num_prefix(value, padding, true).len(), padding + digits);
            assert_eq!(
                format_num_prefix(value, padding, false).len(),
                std::cmp::max(padding + 1, digits)
            );
        }
    }
}

#[test]
fn test_range_output_range_iter() {
    assert_eq!(
        RangeOutput::Range(3, false, 1, 10).iter(),
        strings(&["0001", "0002", "0003", "0004", "0005", "0006", "0007", "0008", "0009", "0010"])
    );
}

#[test]
fn test_range_output_disjoint_iter() {
    assert_eq!(RangeOutput::Disjoint(vec![(0, 1), (1, 10)]).iter(), strings(&["1", "10"]));
}

#[test]
fn range_output_reversed_iter_goes_down() {
    assert_eq!(RangeOutput::RangeReversed(0, true, 5, 7).iter(), strings(&["7", "6", "5"]));
    assert_eq!(
        RangeOutput::RangeReversed(1, false, 8, 11).iter(),
        strings(&["11", "10", "09", "08"])
    );
}

#[test]
fn range_output_iter_of_one_number_and_of_none() {
    assert_eq!(RangeOutput::Range(0, true, 4, 4).iter(), strings(&["4"]));
    assert_eq!(RangeOutput::RangeReversed(0, true, 4, 4).iter(), strings(&["4"]));
    assert_eq!(RangeOutput::Range(0, true, 5, 4).iter(), Vec::<String>::new());
    assert_eq!(RangeOutput::RangeReversed(0, true, 5, 4).iter(), Vec::<String>::new());
    assert_eq!(RangeOutput::Disjoint(vec![]).iter(), Vec::<String>::new());
}

#[test]
fn range_output_iter_reaches_the_largest_value() {
    assert_eq!(
        RangeOutput::Range(0, true, u64::MAX - 1, u64::MAX).iter(),
        strings(&["18446744073709551614", "18446744073709551615"])
    );
    assert_eq!(RangeOutput::RangeReversed(0, true, 0, 1).iter(), strings(&["1", "0"]));
}

#[test]
fn range_with_equal_padding_keeps_it_on_every_number() {
    let values = RangeOutput::Range(1, true, 8, 101).iter();
    assert_eq!(values.len(), 94);
    for (i, text) in values.iter().enumerate() {
        let value = 8 + i as u64;
        assert_eq!(text.len(), 1 + value.to_string().len());
        assert_eq!(text.parse::<u64>(), Ok(value));
        assert!(text.starts_with('0'));
    }
    assert_eq!(values[0], "08");
    assert_eq!(values[2], "010");
    assert_eq!(values[93], "0101");
}

#[test]
fn disjoint_keeps_each_padding() {
    assert_eq!(
        RangeOutput::Disjoint(vec![(1, 9), (0, 1), (2, 7)]).iter(),
        strings(&["09", "1", "007"])
    );
}

#[test]
fn flatten_ranges_joins_the_fragments_in_order() {
    let group = vec![
        RangeOutput::Disjoint(vec![(0, 1), (0, 2)]),
        RangeOutput::Range(0, true, 3, 5),
        RangeOutput::RangeReversed(1, false, 8, 10),
    ];
    assert_eq!(flatten_ranges(&group), strings(&["1", "2", "3", "4", "5", "10", "09", "08"]));
    assert_eq!(flatten_ranges(&[]), Vec::<String>::new());
}

#[test]
fn get_ranges_gives_the_fragments_of_a_group_only() {
    let group = vec![RangeOutput::Range(0, true, 1, 2)];
    assert_eq!(Part::Range(group.clone()).get_ranges(), Some(&group));
    assert_eq!(Part::String("oss".to_string()).get_ranges(), None);
}

#[test]
fn a_written_number_is_read_back() {
    for value in [0u64, 1, 9, 10, 99, 100, 4096, u64::MAX] {
        for padding in 0usize..4 {
            let text: Vec<char> = format_num_prefix(value, padding, true).chars().collect();
            assert_eq!(leading_zeros(&text, 0), Ok(((padding, value), text.len())));
            let fixed: Vec<char> = format_num_prefix(value, padding, false).chars().collect();
            let digits = value.to_string().len();
            let room = (padding + 1).saturating_sub(digits);
            assert_eq!(leading_zeros(&fixed, 0), Ok(((room, value), fixed.len())));
        }
    }
}

#[test]
fn a_descending_range_is_the_ascending_one_reversed() {
    let ranges = [(0, true, 3, 12), (2, false, 98, 101), (1, true, 0, 0)];
    for (padding, same_width, low, high) in ranges {
        let mut up = RangeOutput::Range(padding, same_width, low, high).iter();
        up.reverse();
        assert_eq!(RangeOutput::RangeReversed(padding, same_width, low, high).iter(), up);
    }
}
