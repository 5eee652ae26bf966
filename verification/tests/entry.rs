use unclog::changelog::entry::read_entries_sorted;
use unclog::changelog::fs_utils::{entry_filter, sub_dir_filter};
use unclog::{Config, DirEntry, DirSnapshot, Entry, Error, FileSnapshot};

fn snapshot(name: &str, text: &str) -> FileSnapshot {
    FileSnapshot {
        path: format!("./features/{}", name),
        name: Some(name.to_owned()),
        contents: Ok(text.to_owned()),
    }
}

#[test]
fn entry_is_read_from_its_file() {
    let entry = Entry::read_from_file(&snapshot("123-some-change.md", "\n- Some change\n\n")).unwrap();
    assert_eq!(123, entry.id);
    assert_eq!("- Some change", entry.details);
    assert_eq!("- Some change", entry.to_string());
}

#[test]
fn entry_details_keep_what_lies_between_the_newlines() {
    let entry = Entry::read_from_file(&snapshot(
        "1-x.md",
        "\r\n\n- First line\n\n  second line  \n\r",
    ))
    .unwrap();
    assert_eq!("- First line\n\n  second line  ", entry.details);
}

#[test]
fn name_of_digits_only_is_an_id() {
    let entry = Entry::read_from_file(&snapshot("42", "- Answer")).unwrap();
    assert_eq!(42, entry.id);
}

#[test]
fn leading_zeros_do_not_change_the_id() {
    let entry = Entry::read_from_file(&snapshot("007-bond.md", "- Bond")).unwrap();
    assert_eq!(7, entry.id);
    let zero = Entry::read_from_file(&snapshot("0-zero.md", "- Zero")).unwrap();
    assert_eq!(0, zero.id);
}

#[test]
fn only_the_leading_digits_count() {
    let entry = Entry::read_from_file(&snapshot("12-34-56.md", "- Twelve")).unwrap();
    assert_eq!(12, entry.id);
}

#[test]
fn name_without_leading_digit_is_an_invalid_entry_id() {
    for name in ["some-change.md", "-1-negative.md", "+1-plus.md", " 1-space.md", "x1.md", ""] {
        match Entry::read_from_file(&snapshot(name, "- Text")) {
            Err(Error::InvalidEntryId(got)) => assert_eq!(name, got),
            other => panic!("unexpected outcome for {:?}: {:?}", name, other),
        }
    }
}

#[test]
fn digits_beyond_the_range_are_an_invalid_entry_number() {
    match Entry::read_from_file(&snapshot("18446744073709551616-big.md", "- Text")) {
        Err(Error::InvalidEntryNumber(digits)) => assert_eq!("18446744073709551616", digits),
        other => panic!("unexpected outcome: {:?}", other),
    }
    match Entry::read_from_file(&snapshot("99999999999999999999999999999999999999999", "- Text")) {
        Err(Error::InvalidEntryNumber(digits)) => {
            assert_eq!("99999999999999999999999999999999999999999", digits)
        }
        other => panic!("unexpected outcome: {:?}", other),
    }
}

#[test]
fn largest_id_is_accepted() {
    let entry = Entry::read_from_file(&snapshot("18446744073709551615-max.md", "- Max")).unwrap();
    assert_eq!(u64::MAX, entry.id);
    let padded = Entry::read_from_file(&snapshot("00018446744073709551615", "- Max")).unwrap();
    assert_eq!(u64::MAX, padded.id);
}

#[test]
fn file_without_a_name_cannot_be_an_entry() {
    let file = FileSnapshot {
        path: "./features/\u{fffd}".to_owned(),
        name: None,
        contents: Ok("- Text".to_owned()),
    };
    match Entry::read_from_file(&file) {
        Err(Error::CannotObtainName(path)) => assert_eq!("./features/\u{fffd}", path),
        other => panic!("unexpected outcome: {:?}", other),
    }
}

#[test]
fn unreadable_entry_is_an_io_error() {
    let file = FileSnapshot {
        path: "./features/1-x.md".to_owned(),
        name: Some("1-x.md".to_owned()),
        contents: Err("stream did not contain valid UTF-8".to_owned()),
    };
    match Entry::read_from_file(&file) {
        Err(Error::Io(m)) => assert_eq!("stream did not contain valid UTF-8", m),
        other => panic!("unexpected outcome: {:?}", other),
    }
}

#[test]
fn bad_name_is_reported_before_unreadable_text() {
    let file = FileSnapshot {
        path: "./features/x.md".to_owned(),
        name: Some("x.md".to_owned()),
        contents: Err("unreadable".to_owned()),
    };
    assert!(matches!(Entry::read_from_file(&file), Err(Error::InvalidEntryId(_))));
}

#[test]
fn entries_are_sorted_by_number_not_by_text() {
    let files = vec![
        snapshot("10-j.md", "- Ten"),
        snapshot("9-i.md", "- Nine"),
        snapshot("1000-m.md", "- Thousand"),
        snapshot("2-b.md", "- Two"),
    ];
    let entries = read_entries_sorted(files.iter().collect()).unwrap();
    let ids: Vec<u64> = entries.iter().map(|e| e.id).collect();
    assert_eq!(vec![2, 9, 10, 1000], ids);
    let details: Vec<&str> = entries.iter().map(|e| e.details.as_str()).collect();
    assert_eq!(vec!["- Two", "- Nine", "- Ten", "- Thousand"], details);
}

#[test]
fn entries_with_the_same_id_keep_the_enumeration_order() {
    let files = vec![
        snapshot("5-second.md", "- B"),
        snapshot("3-x.md", "- X"),
        snapshot("5-first.md", "- A"),
        snapshot("05-third.md", "- C"),
        snapshot("1-y.md", "- Y"),
    ];
    let entries = read_entries_sorted(files.iter().collect()).unwrap();
    let details: Vec<&str> = entries.iter().map(|e| e.details.as_str()).collect();
    assert_eq!(vec!["- Y", "- X", "- B", "- A", "- C"], details);
}

#[test]
fn first_file_that_fails_decides_the_error() {
    let files = vec![
        snapshot("1-fine.md", "- Fine"),
        snapshot("99999999999999999999-big.md", "- Big"),
        snapshot("nothing.md", "- Nothing"),
    ];
    assert!(matches!(
        read_entries_sorted(files.iter().collect()),
        Err(Error::InvalidEntryNumber(_))
    ));
    let none: Vec<&FileSnapshot> = Vec::new();
    assert!(read_entries_sorted(none).unwrap().is_empty());
}

#[test]
fn entry_filter_keeps_recognised_files_only() {
    let config = Config::default();
    let kept = DirEntry::File(snapshot("1-x.md", "- X"));
    assert!(matches!(entry_filter(&config, &kept), Some(Ok(f)) if f.name.as_deref() == Some("1-x.md")));
    let no_number = DirEntry::File(snapshot("notes.txt", "kept: the name is checked later"));
    assert!(matches!(entry_filter(&config, &no_number), Some(Ok(_))));
    let hidden = DirEntry::File(snapshot(".gitkeep", ""));
    assert!(entry_filter(&config, &hidden).is_none());
    let summary = DirEntry::File(snapshot("summary.md", "Summary"));
    assert!(entry_filter(&config, &summary).is_none());
    let nameless = DirEntry::File(FileSnapshot {
        path: "?".to_owned(),
        name: None,
        contents: Ok(String::new()),
    });
    assert!(entry_filter(&config, &nameless).is_none());
    let directory = DirEntry::Dir(DirSnapshot {
        path: "./1-dir".to_owned(),
        name: Some("1-dir".to_owned()),
        listing: Ok(vec![]),
    });
    assert!(entry_filter(&config, &directory).is_none());
    assert!(entry_filter(&config, &DirEntry::Other).is_none());
    let failed = DirEntry::Failed("no metadata".to_owned());
    assert!(matches!(entry_filter(&config, &failed), Some(Err(Error::Io(m))) if m == "no metadata"));
}

#[test]
fn entry_filter_goes_by_the_configured_summary_name() {
    let mut config = Config::default();
    config.change_sets.summary_filename = "1-overview.md".to_owned();
    let overview = DirEntry::File(snapshot("1-overview.md", "Overview"));
    assert!(entry_filter(&config, &overview).is_none());
    let former = DirEntry::File(snapshot("summary.md", "now an ordinary file"));
    assert!(matches!(entry_filter(&config, &former), Some(Ok(_))));
}

#[test]
fn sub_dir_filter_keeps_directories_only() {
    let directory = DirEntry::Dir(DirSnapshot {
        path: "./features".to_owned(),
        name: Some("features".to_owned()),
        listing: Ok(vec![]),
    });
    assert!(matches!(sub_dir_filter(&directory), Some(Ok(d)) if d.path == "./features"));
    assert!(sub_dir_filter(&DirEntry::File(snapshot("1-x.md", "- X"))).is_none());
    assert!(sub_dir_filter(&DirEntry::Other).is_none());
    let failed = DirEntry::Failed("no metadata".to_owned());
    assert!(matches!(sub_dir_filter(&failed), Some(Err(Error::Io(m))) if m == "no metadata"));
}
