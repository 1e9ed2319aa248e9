use hostlist_parser::error::{ErrorKind, Expected, ParseError};
use hostlist_parser::grammar::{disjoint_digits, hostlist, hostlists, range, range_digits};
use hostlist_parser::structures::{Part, RangeOutput};

fn chars(text: &str) -> Vec<char> {
    text.chars().collect()
}

fn text(piece: &str) -> Part {
    Part::String(piece.to_string())
}

fn singles(values: &[u64]) -> RangeOutput {
    RangeOutput::Disjoint(values.iter().map(|value| (0, *value)).collect())
}

fn syntax(position: usize, expected: Expected) -> ParseError {
    ParseError { position, kind: ErrorKind::Syntax(expected) }
}

#[test]
fn test_range_digits() {
    assert_eq!(range_digits(&chars("001-003"), 0), Ok((RangeOutput::Range(2, true, 1, 3), 7)));
    assert_eq!(range_digits(&chars("001 -  003"), 0), Ok((RangeOutput::Range(2, true, 1, 3), 10)));
    assert_eq!(range_digits(&chars("1-100"), 0), Ok((RangeOutput::Range(0, true, 1, 100), 5)));
    assert_eq!(
        range_digits(&chars("100-0"), 0),
        Ok((RangeOutput::RangeReversed(0, true, 0, 100), 5))
    );
}

#[test]
fn range_digits_keeps_the_padding_of_the_smaller_end() {
    assert_eq!(range_digits(&chars("09-11"), 0), Ok((RangeOutput::Range(1, false, 9, 11), 5)));
    assert_eq!(range_digits(&chars("01-10"), 0), Ok((RangeOutput::Range(1, false, 1, 10), 5)));
    assert_eq!(
        range_digits(&chars("11-09"), 0),
        Ok((RangeOutput::RangeReversed(1, false, 9, 11), 5))
    );
    assert_eq!(range_digits(&chars("000-002"), 0), Ok((RangeOutput::Range(2, true, 0, 2), 7)));
    assert_eq!(range_digits(&chars("5-5"), 0), Ok((RangeOutput::Range(0, true, 5, 5), 3)));
    assert_eq!(range_digits(&chars("05-5"), 0), Ok((RangeOutput::Range(1, false, 5, 5), 4)));
}

#[test]
fn range_digits_rejects_more_padding_on_the_larger_end() {
    let padding = ErrorKind::InconsistentPadding;
    assert_eq!(range_digits(&chars("9-0011"), 0), Err(ParseError { position: 0, kind: padding }));
    assert_eq!(range_digits(&chars("01-009"), 0), Err(ParseError { position: 0, kind: padding }));
    assert_eq!(range_digits(&chars("010-9"), 0), Err(ParseError { position: 0, kind: padding }));
    assert_eq!(range_digits(&chars("5-05"), 0), Err(ParseError { position: 0, kind: padding }));
    assert_eq!(range_digits(&chars("[0-00]"), 1), Err(ParseError { position: 1, kind: padding }));
}

#[test]
fn range_digits_says_what_is_missing() {
    assert_eq!(range_digits(&chars("-3"), 0), Err(syntax(0, Expected::Digit)));
    assert_eq!(range_digits(&chars(" 1-3"), 0), Err(syntax(0, Expected::Digit)));
    assert_eq!(range_digits(&chars("1,2"), 0), Err(syntax(1, Expected::Dash)));
    assert_eq!(range_digits(&chars("1  ]"), 0), Err(syntax(3, Expected::Dash)));
    assert_eq!(range_digits(&chars("1"), 0), Err(syntax(1, Expected::Dash)));
    assert_eq!(range_digits(&chars("1-"), 0), Err(syntax(2, Expected::Digit)));
    assert_eq!(range_digits(&chars("1- x"), 0), Err(syntax(3, Expected::Digit)));
    assert_eq!(
        range_digits(&chars("1-99999999999999999999"), 0),
        Err(ParseError { position: 2, kind: ErrorKind::NumericOverflow })
    );
}

#[test]
fn test_disjoint_digits() {
    assert_eq!(disjoint_digits(&chars("1,2,3,4,5]"), 0), Ok((singles(&[1, 2, 3, 4, 5]), 9)));
    assert_eq!(disjoint_digits(&chars("1,2,3-5"), 0), Ok((singles(&[1, 2]), 3)));
    assert_eq!(
        disjoint_digits(&chars("1,2,006,0007,3-5"), 0),
        Ok((RangeOutput::Disjoint(vec![(0, 1), (0, 2), (2, 6), (3, 7)]), 12))
    );
}

#[test]
fn disjoint_digits_passes_over_white_space() {
    assert_eq!(disjoint_digits(&chars(" 1 , 2 ]"), 0), Ok((singles(&[1, 2]), 7)));
    assert_eq!(disjoint_digits(&chars("1, 3 - 5"), 0), Ok((singles(&[1]), 1)));
    assert_eq!(disjoint_digits(&chars("7"), 0), Ok((singles(&[7]), 1)));
}

#[test]
fn disjoint_digits_wants_a_number_behind_each_comma() {
    assert_eq!(disjoint_digits(&chars("1,,2"), 0), Err(syntax(2, Expected::Digit)));
    assert_eq!(disjoint_digits(&chars("1, ]"), 0), Err(syntax(3, Expected::Digit)));
    assert_eq!(disjoint_digits(&chars("x"), 0), Err(syntax(0, Expected::Digit)));
    assert_eq!(
        disjoint_digits(&chars("1,99999999999999999999"), 0),
        Err(ParseError { position: 2, kind: ErrorKind::NumericOverflow })
    );
}

#[test]
fn test_range() {
    assert_eq!(range(&chars("[1,2,3,4,5]"), 0), Ok((vec![singles(&[1, 2, 3, 4, 5])], 11)));
    assert_eq!(
        range(&chars("[1,2,3-5]"), 0),
        Ok((vec![singles(&[1, 2]), RangeOutput::Range(0, true, 3, 5)], 9))
    );
    assert_eq!(
        range(&chars("[1,2,3-5,6,7,8-10]"), 0),
        Ok((
            vec![
                singles(&[1, 2]),
                RangeOutput::Range(0, true, 3, 5),
                singles(&[6, 7]),
                RangeOutput::Range(0, true, 8, 10),
            ],
            18
        ))
    );
    assert_eq!(range(&chars("[01-10]"), 0), Ok((vec![RangeOutput::Range(1, false, 1, 10)], 7)));
}

#[test]
fn range_wants_its_brackets() {
    assert_eq!(range(&chars("1,2]"), 0), Err(syntax(0, Expected::OpeningBracket)));
    assert_eq!(range(&chars(""), 0), Err(syntax(0, Expected::OpeningBracket)));
    assert_eq!(range(&chars("[1,2"), 0), Err(syntax(4, Expected::ClosingBracket)));
    assert_eq!(range(&chars("[1-2-3]"), 0), Err(syntax(4, Expected::ClosingBracket)));
    assert_eq!(range(&chars("[]"), 0), Err(syntax(1, Expected::Digit)));
    assert_eq!(range(&chars("[1,]"), 0), Err(syntax(3, Expected::Digit)));
}

#[test]
fn range_reads_a_range_only_without_white_space_in_front() {
    assert_eq!(range(&chars("[ 1-3]"), 0), Err(syntax(3, Expected::ClosingBracket)));
    assert_eq!(range(&chars("[1-3 ]"), 0), Err(syntax(4, Expected::ClosingBracket)));
    assert_eq!(range(&chars("[1,2, 3-5]"), 0), Err(syntax(7, Expected::ClosingBracket)));
    assert_eq!(
        range(&chars("[1 - 3]"), 0),
        Ok((vec![RangeOutput::Range(0, true, 1, 3)], 7))
    );
    assert_eq!(range(&chars("[ 1 , 2 ]"), 0), Ok((vec![singles(&[1, 2])], 9)));
}

#[test]
fn range_reads_an_overflowing_end_as_no_range() {
    assert_eq!(
        range(&chars("[1-99999999999999999999]"), 0),
        Err(syntax(2, Expected::ClosingBracket))
    );
    assert_eq!(
        range(&chars("[99999999999999999999-1]"), 0),
        Err(ParseError { position: 1, kind: ErrorKind::NumericOverflow })
    );
}

#[test]
fn test_hostlist() {
    assert_eq!(hostlist(&chars("oss1.local"), 0), Ok((vec![text("oss1.local")], 10)));
    assert_eq!(
        hostlist(&chars("oss[1,2].local"), 0),
        Ok((vec![text("oss"), Part::Range(vec![singles(&[1, 2])]), text(".local")], 14))
    );
    assert_eq!(
        hostlist(
            &chars(
                "hostname[2,6,7].iml.com,hostname[10,11-12,2-3,5].iml.com,hostname[15-17].iml.com"
            ),
            0
        ),
        Ok((vec![text("hostname"), Part::Range(vec![singles(&[2, 6, 7])]), text(".iml.com")], 23))
    );
}

#[test]
fn hostlist_ends_in_front_of_white_space_and_comma() {
    assert_eq!(hostlist(&chars("a  , b"), 0), Ok((vec![text("a")], 1)));
    assert_eq!(hostlist(&chars("a, b"), 2), Ok((vec![text("b")], 4)));
    assert_eq!(hostlist(&chars("a b"), 0), Ok((vec![text("a"), text("b")], 3)));
    assert_eq!(
        hostlist(&chars("n [1]"), 0),
        Ok((vec![text("n"), Part::Range(vec![singles(&[1])])], 5))
    );
}

#[test]
fn hostlist_wants_a_host() {
    assert_eq!(hostlist(&chars(""), 0), Err(syntax(0, Expected::Host)));
    assert_eq!(hostlist(&chars(",a"), 0), Err(syntax(0, Expected::Host)));
    assert_eq!(hostlist(&chars("a,  ,b"), 2), Err(syntax(2, Expected::Host)));
    assert_eq!(hostlist(&chars("a"), 3), Err(syntax(3, Expected::Host)));
    assert_eq!(hostlist(&chars("a]"), 0), Err(syntax(1, Expected::HostCharacter)));
    assert_eq!(hostlist(&chars("a_b"), 0), Err(syntax(1, Expected::HostCharacter)));
}

#[test]
fn test_hostlists() {
    assert_eq!(hostlists(&chars("oss1.local"), 0), Ok((vec![vec![text("oss1.local")]], 10)));
    assert_eq!(
        hostlists(&chars("oss[1,2].local"), 0),
        Ok((vec![vec![text("oss"), Part::Range(vec![singles(&[1, 2])]), text(".local")]], 14))
    );
    let entries = vec![
        vec![text("hostname"), Part::Range(vec![singles(&[2, 6, 7])]), text(".iml.com")],
        vec![
            text("hostname"),
            Part::Range(vec![
                singles(&[10]),
                RangeOutput::Range(0, true, 11, 12),
                RangeOutput::Range(0, true, 2, 3),
                singles(&[5]),
            ]),
            text(".iml.com"),
        ],
        vec![
            text("hostname"),
            Part::Range(vec![RangeOutput::Range(0, true, 15, 17)]),
            text(".iml.com"),
        ],
    ];
    assert_eq!(
        hostlists(
            &chars(
                "hostname[2,6,7].iml.com,hostname[10,11-12,2-3,5].iml.com,hostname[15-17].iml.com"
            ),
            0
        ),
        Ok((entries.clone(), 80))
    );
    assert_eq!(
        hostlists(
            &chars(
                "hostname[2,6,7].iml.com, hostname[10,11-12,2-3,5].iml.com, hostname[15-17].iml.com"
            ),
            0
        ),
        Ok((entries, 82))
    );
}

#[test]
fn hostlists_reads_to_the_end_of_the_input() {
    assert_eq!(hostlists(&chars("a ,b"), 0), Ok((vec![vec![text("a")], vec![text("b")]], 4)));
    assert_eq!(hostlists(&chars("x,a"), 2), Ok((vec![vec![text("a")]], 3)));
    assert_eq!(hostlists(&chars("a "), 0), Err(syntax(2, Expected::Comma)));
    assert_eq!(hostlists(&chars("a,"), 0), Err(syntax(2, Expected::Host)));
    assert_eq!(hostlists(&chars("a"), 2), Err(syntax(2, Expected::Host)));
}
