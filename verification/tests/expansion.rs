use hostlist_parser::chars::{byte_position, collect, scan, CharClass};
use hostlist_parser::expand::{collect_hostnames, expand, expand_entries, render};
use hostlist_parser::structures::{Part, RangeOutput};

fn strings(names: &[&str]) -> Vec<String> {
    names.iter().map(|name| name.to_string()).collect()
}

fn text(piece: &str) -> Part {
    Part::String(piece.to_string())
}

fn singles(values: &[u64]) -> Part {
    Part::Range(vec![RangeOutput::Disjoint(values.iter().map(|value| (0, *value)).collect())])
}

#[test]
fn render_puts_each_value_in_the_place_of_its_group() {
    let parts = vec![text("a"), singles(&[1, 2]), text("-"), singles(&[3]), text(".b")];
    assert_eq!(render(&parts, &strings(&["x", "y"])), "ax-y.b");
    assert_eq!(render(&parts, &strings(&["", "007", "unused"])), "a-007.b");
    assert_eq!(render(&[text("a"), text("b")], &[]), "ab");
    assert_eq!(render(&[], &[]), "");
    assert_eq!(render(&[singles(&[1]), singles(&[1])], &strings(&["p", "q"])), "pq");
}

#[test]
fn expand_takes_one_number_from_each_group() {
    let parts = vec![text("h"), singles(&[1, 2]), text("-"), singles(&[3, 4]), text(".c")];
    assert_eq!(expand(&parts), strings(&["h1-3.c", "h1-4.c", "h2-3.c", "h2-4.c"]));
}

#[test]
fn expand_of_three_groups_changes_the_last_one_fastest() {
    let parts = vec![singles(&[1, 2]), singles(&[3, 4, 5]), singles(&[6, 7])];
    assert_eq!(
        expand(&parts),
        strings(&[
            "136", "137", "146", "147", "156", "157", "236", "237", "246", "247", "256", "257",
        ])
    );
}

#[test]
fn expand_keeps_what_recurs_within_an_entry() {
    assert_eq!(expand(&[text("n"), singles(&[1, 1])]), strings(&["n1", "n1"]));
}

#[test]
fn expand_without_a_group_gives_the_text() {
    assert_eq!(expand(&[text("oss1"), text(".local")]), strings(&["oss1.local"]));
    assert_eq!(expand(&[]), strings(&[""]));
}

#[test]
fn expand_with_a_group_of_no_number_gives_nothing() {
    let none = Part::Range(vec![]);
    assert_eq!(expand(&[text("a"), none.clone()]), Vec::<String>::new());
    assert_eq!(expand(&[singles(&[1, 2]), none, text("b")]), Vec::<String>::new());
    assert_eq!(
        expand(&[text("a"), Part::Range(vec![RangeOutput::Range(0, true, 2, 1)])]),
        Vec::<String>::new()
    );
}

#[test]
fn expand_entries_goes_entry_by_entry() {
    let entries = vec![
        vec![text("b"), singles(&[2, 1])],
        vec![text("a")],
        vec![text("b"), singles(&[1, 3])],
    ];
    assert_eq!(expand_entries(&entries), strings(&["b2", "b1", "a", "b1", "b3"]));
    assert_eq!(collect_hostnames(&entries), strings(&["b2", "b1", "a", "b3"]));
    assert_eq!(expand_entries(&[]), Vec::<String>::new());
    assert_eq!(collect_hostnames(&[]), Vec::<String>::new());
}

#[test]
fn collect_hostnames_keeps_the_first_of_equal_names() {
    let entries = vec![vec![text("x")], vec![text("y")], vec![text("x")], vec![text("x")]];
    assert_eq!(collect_hostnames(&entries), strings(&["x", "y"]));
    let once = collect_hostnames(&entries);
    let again: Vec<Vec<Part>> = once.iter().map(|name| vec![text(name)]).collect();
    assert_eq!(collect_hostnames(&again), once);
}

#[test]
fn classes_of_characters() {
    for c in ['a', 'z', 'A', 'Z', '0', '9', '-', '.', '\u{e9}', '\u{4e2d}', '\u{0663}'] {
        assert!(CharClass::Host.test(c));
    }
    for c in ['_', ',', '[', ']', ' ', '\t', '/', ':', '@', '`', '{', '\u{2603}', '\u{2003}'] {
        assert!(!CharClass::Host.test(c));
    }
    for c in [' ', '\t', '\n', '\u{b}', '\u{c}', '\r', '\u{85}', '\u{a0}', '\u{2003}'] {
        assert!(CharClass::Space.test(c));
    }
    for c in ['a', '0', '\u{8}', '\u{e}', '\u{1f}', '\u{200b}', '\u{2603}'] {
        assert!(!CharClass::Space.test(c));
    }
    for c in ['0', '5', '9'] {
        assert!(CharClass::Digit.test(c));
    }
    for c in ['/', ':', 'a', '\u{0663}', '\u{ff11}'] {
        assert!(!CharClass::Digit.test(c));
    }
    assert!(CharClass::Zero.test('0'));
    assert!(!CharClass::Zero.test('1'));
}

#[test]
fn scan_reads_the_longest_run() {
    let input = collect("  007ab-c, ");
    assert_eq!(scan(&input, 0, CharClass::Space), 2);
    assert_eq!(scan(&input, 2, CharClass::Zero), 4);
    assert_eq!(scan(&input, 2, CharClass::Digit), 5);
    assert_eq!(scan(&input, 2, CharClass::Host), 9);
    assert_eq!(scan(&input, 2, CharClass::Space), 2);
    assert_eq!(scan(&input, 10, CharClass::Space), 11);
    assert_eq!(scan(&input, 11, CharClass::Space), 11);
    assert_eq!(scan(&input, 40, CharClass::Space), 40);
}

#[test]
fn collect_gives_the_characters() {
    assert_eq!(collect("a\u{e9}\u{2603}"), vec!['a', '\u{e9}', '\u{2603}']);
    assert_eq!(collect(""), Vec::<char>::new());
}

#[test]
fn byte_position_counts_the_bytes_of_each_character() {
    let input = "a\u{e9}\u{2603}\u{1F600}z";
    assert_eq!(byte_position(input, 0), Some(0));
    assert_eq!(byte_position(input, 1), Some(1));
    assert_eq!(byte_position(input, 2), Some(3));
    assert_eq!(byte_position(input, 3), Some(6));
    assert_eq!(byte_position(input, 4), Some(10));
    assert_eq!(byte_position(input, 5), Some(11));
    assert_eq!(byte_position(input, 5), Some(input.len()));
    assert_eq!(byte_position(input, 6), None);
    assert_eq!(byte_position("plain", 3), Some(3));
    assert_eq!(byte_position("", 0), Some(0));
    assert_eq!(byte_position("", 1), None);
}
