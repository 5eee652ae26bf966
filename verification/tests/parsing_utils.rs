use unclog::changelog::parsing_utils::{
    chars_of, extract_entry_id, same_text, split_lines, trim_newlines,
};
use unclog::changelog::rendering::{indented_lines, join_strings};
use unclog::changelog::sorting::{names_in_order, sort_stable};
use unclog::{Entry, Error};

#[test]
fn trims_newlines_at_both_edges_only() {
    assert_eq!("text", trim_newlines("text"));
    assert_eq!("text", trim_newlines("\ntext\n"));
    assert_eq!("text", trim_newlines("\r\n\r\ntext\r\n"));
    assert_eq!("a\nb", trim_newlines("\na\nb\n\n"));
    assert_eq!(" text ", trim_newlines("\n text \n"));
    assert_eq!("\ttext", trim_newlines("\ttext"));
    assert_eq!("", trim_newlines(""));
    assert_eq!("", trim_newlines("\n"));
    assert_eq!("", trim_newlines("\r\n\n\r"));
    assert_eq!("\u{e9}t\u{e9}", trim_newlines("\n\u{e9}t\u{e9}\n"));
}

#[test]
fn extracts_the_leading_number() {
    assert_eq!(1, extract_entry_id("1").unwrap());
    assert_eq!(1234567890, extract_entry_id("1234567890-digits.md").unwrap());
    assert_eq!(305, extract_entry_id("305abc").unwrap());
    assert_eq!(9, extract_entry_id("9\u{661}").unwrap());
    assert!(matches!(extract_entry_id("abc"), Err(Error::InvalidEntryId(name)) if name == "abc"));
    assert!(matches!(extract_entry_id("\u{661}2"), Err(Error::InvalidEntryId(_))));
    assert!(matches!(
        extract_entry_id("18446744073709551616"),
        Err(Error::InvalidEntryNumber(digits)) if digits == "18446744073709551616"
    ));
    assert!(matches!(
        extract_entry_id("184467440737095516150-x"),
        Err(Error::InvalidEntryNumber(digits)) if digits == "184467440737095516150"
    ));
}

#[test]
fn characters_of_a_string_are_its_code_points() {
    for text in ["", "plain", "\u{e9}\u{4e2d}\u{1f600} mixed", "line\nbreak"] {
        let chars = chars_of(text);
        assert_eq!(text.chars().collect::<Vec<char>>(), chars);
    }
}

#[test]
fn same_text_compares_whole_strings() {
    assert!(same_text("", ""));
    assert!(same_text("summary.md", "summary.md"));
    assert!(!same_text("summary.md", "summary.mD"));
    assert!(!same_text("summary.md", "summary.md "));
    assert!(!same_text("a", ""));
}

#[test]
fn splits_at_every_line_feed() {
    let lines = |text: &str| -> Vec<String> {
        split_lines(&chars_of(text))
            .iter()
            .map(|line| line.iter().collect())
            .collect()
    };
    assert_eq!(vec![""], lines(""));
    assert_eq!(vec!["one"], lines("one"));
    assert_eq!(vec!["one", "two"], lines("one\ntwo"));
    assert_eq!(vec!["one", "", "two"], lines("one\n\ntwo"));
    assert_eq!(vec!["", "one", ""], lines("\none\n"));
    assert_eq!(vec!["one\r", "two"], lines("one\r\ntwo"));
}

#[test]
fn indents_first_and_further_lines() {
    assert_eq!(vec!["   x"], indented_lines("x", 3, 5));
    assert_eq!(vec!["x", "  y", "  z"], indented_lines("  x\n y\n\t\t z", 0, 2));
    assert_eq!(vec!["  "], indented_lines("", 2, 4));
}

#[test]
fn joins_with_the_separator_between_neighbours() {
    let pieces = |items: &[&str]| -> Vec<String> { items.iter().map(|s| s.to_string()).collect() };
    assert_eq!("", join_strings(&pieces(&[]), "\n"));
    assert_eq!("one", join_strings(&pieces(&["one"]), "\n"));
    assert_eq!("one\ntwo\nthree", join_strings(&pieces(&["one", "two", "three"]), "\n"));
    assert_eq!("one\n\ntwo", join_strings(&pieces(&["one", "two"]), "\n\n"));
    assert_eq!(", , x", join_strings(&pieces(&["", "", "x"]), ", "));
}

#[test]
fn names_are_ordered_as_strings_are() {
    let names = [
        "", "A", "AB", "B", "a", "ab", "b", "BUG FIXES", "BUG-FIXES", "FEATURES", "\u{e9}",
        "\u{4e2d}", "\u{1f600}", "z", "~", "A\u{e9}", "Az",
    ];
    for a in names {
        for b in names {
            assert_eq!(a <= b, names_in_order(a, b), "{:?} against {:?}", a, b);
        }
    }
}

#[test]
fn sort_is_stable() {
    let entry = |id: u64, details: &str| Entry {
        id,
        details: details.to_owned(),
    };
    let mut entries = vec![
        entry(3, "c1"),
        entry(1, "a1"),
        entry(3, "c2"),
        entry(2, "b1"),
        entry(1, "a2"),
        entry(3, "c3"),
        entry(0, "z"),
    ];
    sort_stable(&mut entries);
    let details: Vec<&str> = entries.iter().map(|e| e.details.as_str()).collect();
    assert_eq!(vec!["z", "a1", "a2", "b1", "c1", "c2", "c3"], details);
    let mut none: Vec<Entry> = Vec::new();
    sort_stable(&mut none);
    assert!(none.is_empty());
}
