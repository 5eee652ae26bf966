use unclog::{
    ChangeSet, ChangeSetSection, Component, Config, DirEntry, DirSnapshot, Entry, Error,
    FileSnapshot, PathSnapshot, SectionBody,
};

fn file(name: &str, text: &str) -> DirEntry {
    DirEntry::File(FileSnapshot {
        path: format!("./{}", name),
        name: Some(name.to_owned()),
        contents: Ok(text.to_owned()),
    })
}

fn dir(name: &str, children: Vec<DirEntry>) -> DirSnapshot {
    DirSnapshot {
        path: format!("./{}", name),
        name: Some(name.to_owned()),
        listing: Ok(children),
    }
}

fn config_with_components() -> Config {
    let mut config = Config::default();
    config.components.all.push(Component {
        id: "a".to_owned(),
        name: "Alpha".to_owned(),
        maybe_path: None,
    });
    config.components.all.push(Component {
        id: "b".to_owned(),
        name: "Beta".to_owned(),
        maybe_path: Some("./b/".to_owned()),
    });
    config
}

fn fixture() -> DirSnapshot {
    dir(
        "unreleased",
        vec![
            file("summary.md", "Initial release.\n"),
            DirEntry::Dir(dir(
                "features",
                vec![
                    DirEntry::Dir(dir(
                        "b",
                        vec![file("2-y.md", "- Second b\n"), file("1-x.md", "- First b\n")],
                    )),
                    DirEntry::Dir(dir(
                        "a",
                        vec![file("1-x.md", "- First a\n"), file("2-y.md", "- Second a\n")],
                    )),
                ],
            )),
        ],
    )
}

const FIXTURE_RENDERED: &str = "Initial release.\n\n### FEATURES\n- Alpha\n  - First a\n  - Second a\n- [Beta](./b/)\n  - First b\n  - Second b";

#[test]
fn fixture_tree_round_trip() {
    let config = config_with_components();
    let change_set = ChangeSet::read_from_dir(&config, &fixture()).unwrap();
    assert_eq!(Some("Initial release.".to_owned()), change_set.maybe_summary);
    assert_eq!(1, change_set.sections.len());
    assert!(!change_set.is_empty());
    assert_eq!(FIXTURE_RENDERED, change_set.render(&config));
}

#[test]
fn reading_twice_renders_the_same_text() {
    let config = config_with_components();
    let tree = fixture();
    let first = ChangeSet::read_from_dir(&config, &tree).unwrap();
    let second = ChangeSet::read_from_dir(&config, &tree).unwrap();
    assert_eq!(first.render(&config), second.render(&config));
    assert_eq!(first.maybe_summary, second.maybe_summary);
    assert_eq!(first.sections.len(), second.sections.len());
}

#[test]
fn sections_are_sorted_by_title_whatever_the_enumeration_order() {
    let config = Config::default();
    let forwards = dir(
        "v1",
        vec![
            DirEntry::Dir(dir("bug-fixes", vec![file("1-a.md", "- Fixed")])),
            DirEntry::Dir(dir("features", vec![file("2-b.md", "- Added")])),
            DirEntry::Dir(dir("breaking", vec![file("3-c.md", "- Broke")])),
        ],
    );
    let backwards = dir(
        "v1",
        vec![
            DirEntry::Dir(dir("features", vec![file("2-b.md", "- Added")])),
            DirEntry::Dir(dir("breaking", vec![file("3-c.md", "- Broke")])),
            DirEntry::Dir(dir("bug-fixes", vec![file("1-a.md", "- Fixed")])),
        ],
    );
    let expected =
        "### BREAKING\n- Broke\n\n### BUG FIXES\n- Fixed\n\n### FEATURES\n- Added";
    let first = ChangeSet::read_from_dir(&config, &forwards).unwrap();
    let second = ChangeSet::read_from_dir(&config, &backwards).unwrap();
    assert_eq!(expected, first.render(&config));
    assert_eq!(expected, second.render(&config));
    let titles: Vec<&str> = first.sections.iter().map(|s| s.title.as_str()).collect();
    assert_eq!(vec!["BREAKING", "BUG FIXES", "FEATURES"], titles);
}

#[test]
fn titles_are_ordered_by_code_point() {
    let config = Config::default();
    let tree = dir(
        "v1",
        vec![
            DirEntry::Dir(dir("b", vec![])),
            DirEntry::Dir(dir("_a", vec![])),
            DirEntry::Dir(dir("B2", vec![])),
            DirEntry::Dir(dir("\u{e9}", vec![])),
            DirEntry::Dir(dir("A", vec![])),
        ],
    );
    let change_set = ChangeSet::read_from_dir(&config, &tree).unwrap();
    let titles: Vec<String> = change_set.sections.iter().map(|s| s.title.clone()).collect();
    let mut expected = titles.clone();
    expected.sort();
    assert_eq!(expected, titles);
    assert_eq!(vec!["A", "B", "B2", "_A", "\u{e9}"], titles);
}

#[test]
fn summary_alone_makes_a_change_set_non_empty() {
    let config = Config::default();
    let tree = dir("unreleased", vec![file("summary.md", "\n\nSome text.\r\n")]);
    let change_set = ChangeSet::read_from_dir(&config, &tree).unwrap();
    assert_eq!(Some("Some text.".to_owned()), change_set.maybe_summary);
    assert!(change_set.are_sections_empty());
    assert!(!change_set.is_empty());
    assert_eq!("Some text.", change_set.render(&config));
}

#[test]
fn summary_of_newlines_only_leaves_the_change_set_empty() {
    let config = Config::default();
    let tree = dir("unreleased", vec![file("summary.md", "\n\r\n\n")]);
    let change_set = ChangeSet::read_from_dir(&config, &tree).unwrap();
    assert_eq!(Some(String::new()), change_set.maybe_summary);
    assert!(change_set.is_empty());
    assert_eq!("", change_set.render(&config));
}

#[test]
fn summary_is_not_trimmed_of_spaces() {
    let config = Config::default();
    let tree = dir("unreleased", vec![file("summary.md", "\n  two spaces \n")]);
    let change_set = ChangeSet::read_from_dir(&config, &tree).unwrap();
    assert_eq!(Some("  two spaces ".to_owned()), change_set.maybe_summary);
}

#[test]
fn missing_summary_is_no_error() {
    let config = Config::default();
    let tree = dir(
        "unreleased",
        vec![DirEntry::Dir(dir("features", vec![file("1-a.md", "- Added")]))],
    );
    let change_set = ChangeSet::read_from_dir(&config, &tree).unwrap();
    assert_eq!(None, change_set.maybe_summary);
    assert!(!change_set.is_empty());
    assert_eq!("### FEATURES\n- Added", change_set.render(&config));
}

#[test]
fn read_from_dir_opt_on_a_missing_path_is_none() {
    let config = Config::default();
    let outcome = ChangeSet::read_from_dir_opt(&config, &PathSnapshot::Missing);
    assert!(matches!(outcome, Ok(None)));
}

#[test]
fn read_from_dir_opt_on_an_empty_directory_is_an_empty_change_set() {
    let config = Config::default();
    let path = PathSnapshot::Exists(dir("unreleased", vec![]));
    let change_set = ChangeSet::read_from_dir_opt(&config, &path)
        .unwrap()
        .unwrap();
    assert!(change_set.is_empty());
    assert_eq!(None, change_set.maybe_summary);
    assert!(change_set.sections.is_empty());
    assert_eq!("", change_set.render(&config));
}

fn not_a_directory() -> DirSnapshot {
    DirSnapshot {
        path: "./CHANGELOG.md".to_owned(),
        name: Some("CHANGELOG.md".to_owned()),
        listing: Err("Not a directory (os error 20)".to_owned()),
    }
}

#[test]
fn read_from_dir_opt_on_a_file_fails_as_read_from_dir_does() {
    let config = Config::default();
    let plain = ChangeSet::read_from_dir(&config, &not_a_directory());
    let optional = ChangeSet::read_from_dir_opt(&config, &PathSnapshot::Exists(not_a_directory()));
    match (plain, optional) {
        (Err(Error::Io(first)), Err(Error::Io(second))) => {
            assert_eq!("Not a directory (os error 20)", first);
            assert_eq!(first, second);
        }
        other => panic!("unexpected outcomes: {:?}", other),
    }
}

#[test]
fn read_from_dir_opt_hands_on_the_error_of_read_from_dir() {
    let config = Config::default();
    let tree = || {
        dir(
            "unreleased",
            vec![DirEntry::Dir(dir(
                "features",
                vec![DirEntry::Dir(dir("core", vec![file("1-x.md", "- X")]))],
            ))],
        )
    };
    let plain = ChangeSet::read_from_dir(&config, &tree());
    let optional = ChangeSet::read_from_dir_opt(&config, &PathSnapshot::Exists(tree()));
    match (plain, optional) {
        (Err(Error::ComponentNotDefined(first)), Err(Error::ComponentNotDefined(second))) => {
            assert_eq!("core", first);
            assert_eq!(first, second);
        }
        other => panic!("unexpected outcomes: {:?}", other),
    }
}

#[test]
fn read_from_dir_opt_on_a_path_that_cannot_be_examined_is_an_io_error() {
    let config = Config::default();
    let path = PathSnapshot::Unreadable("Permission denied (os error 13)".to_owned());
    match ChangeSet::read_from_dir_opt(&config, &path) {
        Err(Error::Io(m)) => assert_eq!("Permission denied (os error 13)", m),
        other => panic!("unexpected outcome: {:?}", other),
    }
}

#[test]
fn read_from_dir_opt_reads_an_existing_directory() {
    let config = config_with_components();
    let path = PathSnapshot::Exists(fixture());
    let change_set = ChangeSet::read_from_dir_opt(&config, &path)
        .unwrap()
        .unwrap();
    assert_eq!(FIXTURE_RENDERED, change_set.render(&config));
}

#[test]
fn files_beside_the_sections_are_passed_over() {
    let config = Config::default();
    let tree = dir(
        "unreleased",
        vec![
            file("README.md", "not a section"),
            DirEntry::Other,
            DirEntry::Dir(dir("features", vec![file("1-a.md", "- Added")])),
        ],
    );
    let change_set = ChangeSet::read_from_dir(&config, &tree).unwrap();
    assert_eq!(1, change_set.sections.len());
    assert_eq!(None, change_set.maybe_summary);
}

#[test]
fn unreadable_summary_is_an_io_error() {
    let config = Config::default();
    let tree = dir(
        "unreleased",
        vec![DirEntry::File(FileSnapshot {
            path: "./unreleased/summary.md".to_owned(),
            name: Some("summary.md".to_owned()),
            contents: Err("permission denied".to_owned()),
        })],
    );
    match ChangeSet::read_from_dir(&config, &tree) {
        Err(Error::Io(m)) => assert_eq!("permission denied", m),
        other => panic!("unexpected outcome: {:?}", other),
    }
}

#[test]
fn unreadable_child_is_an_io_error() {
    let config = Config::default();
    let tree = dir(
        "unreleased",
        vec![
            DirEntry::Dir(dir("features", vec![file("1-a.md", "- Added")])),
            DirEntry::Failed("stale handle".to_owned()),
        ],
    );
    match ChangeSet::read_from_dir(&config, &tree) {
        Err(Error::Io(m)) => assert_eq!("stale handle", m),
        other => panic!("unexpected outcome: {:?}", other),
    }
}

#[test]
fn directory_that_cannot_be_enumerated_is_an_io_error() {
    let config = Config::default();
    let tree = DirSnapshot {
        path: "./unreleased".to_owned(),
        name: Some("unreleased".to_owned()),
        listing: Err("not permitted".to_owned()),
    };
    match ChangeSet::read_from_dir(&config, &tree) {
        Err(Error::Io(m)) => assert_eq!("not permitted", m),
        other => panic!("unexpected outcome: {:?}", other),
    }
}

#[test]
fn summary_failure_comes_before_that_of_a_child() {
    let config = Config::default();
    let tree = dir(
        "unreleased",
        vec![
            DirEntry::Failed("first in the listing".to_owned()),
            DirEntry::File(FileSnapshot {
                path: "./unreleased/summary.md".to_owned(),
                name: Some("summary.md".to_owned()),
                contents: Err("summary unreadable".to_owned()),
            }),
        ],
    );
    match ChangeSet::read_from_dir(&config, &tree) {
        Err(Error::Io(m)) => assert_eq!("summary unreadable", m),
        other => panic!("unexpected outcome: {:?}", other),
    }
}

#[test]
fn first_failing_section_ends_the_read() {
    let config = Config::default();
    let tree = dir(
        "unreleased",
        vec![
            DirEntry::Dir(dir("features", vec![file("x.md", "- No number")])),
            DirEntry::Dir(dir("fixes", vec![file("99999999999999999999-y.md", "- Too big")])),
        ],
    );
    match ChangeSet::read_from_dir(&config, &tree) {
        Err(Error::InvalidEntryId(name)) => assert_eq!("x.md", name),
        other => panic!("unexpected outcome: {:?}", other),
    }
}

#[test]
fn empty_sections_are_not_rendered() {
    let config = Config::default();
    let change_set = ChangeSet {
        maybe_summary: Some("Summary.".to_owned()),
        sections: vec![
            ChangeSetSection {
                title: "EMPTY".to_owned(),
                body: SectionBody::Entries(vec![]),
            },
            ChangeSetSection {
                title: "FEATURES".to_owned(),
                body: SectionBody::Entries(vec![Entry {
                    id: 1,
                    details: "- Added".to_owned(),
                }]),
            },
            ChangeSetSection {
                title: "NO COMPONENTS".to_owned(),
                body: SectionBody::Components(vec![]),
            },
        ],
    };
    assert!(!change_set.is_empty());
    assert!(!change_set.are_sections_empty());
    assert_eq!("Summary.\n\n### FEATURES\n- Added", change_set.render(&config));
}

#[test]
fn empty_summary_counts_as_no_summary() {
    let config = Config::default();
    let change_set = ChangeSet {
        maybe_summary: Some(String::new()),
        sections: vec![ChangeSetSection {
            title: "FEATURES".to_owned(),
            body: SectionBody::Entries(vec![Entry {
                id: 1,
                details: "- Added".to_owned(),
            }]),
        }],
    };
    assert!(!change_set.is_empty());
    assert_eq!("### FEATURES\n- Added", change_set.render(&config));
    let nothing = ChangeSet {
        maybe_summary: Some(String::new()),
        sections: vec![],
    };
    assert!(nothing.is_empty());
    assert!(nothing.are_sections_empty());
    assert_eq!("", nothing.render(&config));
}

#[test]
fn sections_with_the_same_title_keep_the_enumeration_order() {
    let config = Config::default();
    let tree = dir(
        "unreleased",
        vec![
            DirEntry::Dir(dir("bug fixes", vec![file("2-b.md", "- From the second")])),
            DirEntry::Dir(dir("a", vec![file("3-c.md", "- Third")])),
            DirEntry::Dir(dir("bug-fixes", vec![file("1-a.md", "- From the first")])),
        ],
    );
    let change_set = ChangeSet::read_from_dir(&config, &tree).unwrap();
    assert_eq!(
        "### A\n- Third\n\n### BUG FIXES\n- From the second\n\n### BUG FIXES\n- From the first",
        change_set.render(&config)
    );
}

#[test]
fn error_of_an_entry_of_a_component_comes_up_unchanged() {
    let config = config_with_components();
    let tree = |name: &str| {
        dir(
            "unreleased",
            vec![
                file("summary.md", "Summary."),
                DirEntry::Dir(dir("breaking", vec![file("1-fine.md", "- Fine")])),
                DirEntry::Dir(dir(
                    "features",
                    vec![
                        DirEntry::Dir(dir("a", vec![file("2-fine.md", "- Fine")])),
                        DirEntry::Dir(dir("b", vec![file("3-fine.md", "- Fine"), file(name, "- Bad")])),
                    ],
                )),
            ],
        )
    };
    match ChangeSet::read_from_dir(&config, &tree("abc.md")) {
        Err(Error::InvalidEntryId(name)) => assert_eq!("abc.md", name),
        other => panic!("unexpected outcome: {:?}", other),
    }
    match ChangeSet::read_from_dir(&config, &tree("18446744073709551616.md")) {
        Err(Error::InvalidEntryNumber(digits)) => assert_eq!("18446744073709551616", digits),
        other => panic!("unexpected outcome: {:?}", other),
    }
    assert!(ChangeSet::read_from_dir(&config, &tree("4-fine.md")).is_ok());
}
