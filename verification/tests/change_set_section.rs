use unclog::changelog::change_set_section::{change_set_section_title, indent_entries};
use unclog::{
    ChangeSetSection, Component, ComponentSection, Config, DirEntry, DirSnapshot, Entry, Error,
    FileSnapshot, SectionBody,
};

fn file(name: &str, text: &str) -> DirEntry {
    DirEntry::File(FileSnapshot {
        path: format!("./{}", name),
        name: Some(name.to_owned()),
        contents: Ok(text.to_owned()),
    })
}

fn dir(name: &str, children: Vec<DirEntry>) -> DirSnapshot {
    DirSnapshot {
        path: format!("./{}", name),
        name: Some(name.to_owned()),
        listing: Ok(children),
    }
}

fn config_with(ids: &[&str]) -> Config {
    let mut config = Config::default();
    for id in ids {
        config.components.all.push(Component {
            id: id.to_string(),
            name: format!("Component {}", id),
            maybe_path: None,
        });
    }
    config
}

#[test]
fn title_is_the_directory_name_in_capitals_with_spaces_for_hyphens() {
    assert_eq!("BREAKING CHANGES", change_set_section_title("breaking-changes"));
    assert_eq!("FEATURES", change_set_section_title("features"));
    assert_eq!("ALREADY UPPER 42", change_set_section_title("ALREADY-UPPER-42"));
    assert_eq!("AZ{`@[", change_set_section_title("az{`@["));
    assert_eq!("", change_set_section_title(""));
}

#[test]
fn title_leaves_letters_outside_ascii_alone() {
    assert_eq!("\u{e9}T\u{e9} \u{df}", change_set_section_title("\u{e9}t\u{e9}-\u{df}"));
}

#[test]
fn flat_section_holds_entries_sorted_by_id() {
    let config = Config::default();
    let tree = dir(
        "features",
        vec![
            file("10-ten.md", "- Ten\n"),
            file("9-nine.md", "- Nine\n"),
            file("100-hundred.md", "- Hundred\n"),
        ],
    );
    let section = ChangeSetSection::read_from_dir(&config, &tree).unwrap();
    assert_eq!("FEATURES", section.title);
    assert!(!section.is_empty());
    match &section.body {
        SectionBody::Entries(entries) => {
            let ids: Vec<u64> = entries.iter().map(|e| e.id).collect();
            assert_eq!(vec![9, 10, 100], ids);
        }
        SectionBody::Components(_) => panic!("expected a section of entries"),
    }
    assert_eq!("### FEATURES\n- Nine\n- Ten\n- Hundred", section.render(&config));
}

#[test]
fn section_with_sub_directories_is_divided_by_component() {
    let config = config_with(&["zeta", "alpha"]);
    let tree = dir(
        "bug-fixes",
        vec![
            file("7-ignored.md", "- Not collected beside components\n"),
            DirEntry::Dir(dir("zeta", vec![file("2-z.md", "- Z\n")])),
            DirEntry::Dir(dir("alpha", vec![file("1-a.md", "- A\n")])),
        ],
    );
    let section = ChangeSetSection::read_from_dir(&config, &tree).unwrap();
    match &section.body {
        SectionBody::Components(sections) => {
            let ids: Vec<&str> = sections.iter().map(|s| s.id.as_str()).collect();
            assert_eq!(vec!["alpha", "zeta"], ids);
        }
        SectionBody::Entries(_) => panic!("expected a section of components"),
    }
    assert_eq!(
        "### BUG FIXES\n- Component alpha\n  - A\n- Component zeta\n  - Z",
        section.render(&config)
    );
}

#[test]
fn undefined_component_fails_the_section() {
    let config = config_with(&["alpha"]);
    let tree = dir(
        "features",
        vec![
            DirEntry::Dir(dir("alpha", vec![file("1-a.md", "- A\n")])),
            DirEntry::Dir(dir("unknown", vec![file("2-u.md", "- U\n")])),
        ],
    );
    match ChangeSetSection::read_from_dir(&config, &tree) {
        Err(Error::ComponentNotDefined(id)) => assert_eq!("unknown", id),
        other => panic!("unexpected outcome: {:?}", other),
    }
}

#[test]
fn section_directory_without_a_name_fails() {
    let config = Config::default();
    let tree = DirSnapshot {
        path: "/".to_owned(),
        name: None,
        listing: Ok(vec![]),
    };
    match ChangeSetSection::read_from_dir(&config, &tree) {
        Err(Error::CannotObtainName(path)) => assert_eq!("/", path),
        other => panic!("unexpected outcome: {:?}", other),
    }
}

#[test]
fn section_is_empty_when_all_its_components_are() {
    let empty_component = ComponentSection {
        id: "a".to_owned(),
        name: "A".to_owned(),
        maybe_path: None,
        entries: vec![],
    };
    let full_component = ComponentSection {
        id: "b".to_owned(),
        name: "B".to_owned(),
        maybe_path: None,
        entries: vec![Entry {
            id: 1,
            details: "- One".to_owned(),
        }],
    };
    let empty = ChangeSetSection {
        title: "T".to_owned(),
        body: SectionBody::Components(vec![empty_component.clone(), empty_component.clone()]),
    };
    assert!(empty.is_empty());
    let mixed = ChangeSetSection {
        title: "T".to_owned(),
        body: SectionBody::Components(vec![empty_component, full_component]),
    };
    assert!(!mixed.is_empty());
    assert_eq!("### T\n- B\n  - One", mixed.render(&Config::default()));
    let no_entries = ChangeSetSection {
        title: "T".to_owned(),
        body: SectionBody::Entries(vec![]),
    };
    assert!(no_entries.is_empty());
    assert_eq!("### T", no_entries.render(&Config::default()));
}

#[test]
fn empty_section_directory_reads_as_an_empty_section() {
    let config = Config::default();
    let section = ChangeSetSection::read_from_dir(&config, &dir("features", vec![])).unwrap();
    assert!(section.is_empty());
    assert!(matches!(section.body, SectionBody::Entries(ref entries) if entries.is_empty()));
}

#[test]
fn further_lines_of_an_entry_are_aligned_behind_the_bullet() {
    let entries = vec![
        Entry {
            id: 1,
            details: "- Fix a thing\n  that spans lines\n\twith a tab".to_owned(),
        },
        Entry {
            id: 2,
            details: "* Short".to_owned(),
        },
    ];
    assert_eq!(
        vec![
            "  - Fix a thing",
            "    that spans lines",
            "    with a tab",
            "  * Short"
        ],
        indent_entries(&entries, 2, 4)
    );
    assert_eq!(
        vec!["- Fix a thing", "  that spans lines", "  with a tab", "* Short"],
        indent_entries(&entries, 0, 2)
    );
    let section = ChangeSetSection {
        title: "FIXES".to_owned(),
        body: SectionBody::Entries(entries),
    };
    assert_eq!(
        "### FIXES\n- Fix a thing\n  that spans lines\n  with a tab\n* Short",
        section.render(&Config::default())
    );
}

#[test]
fn indentation_of_no_entries_is_no_lines() {
    let none: Vec<String> = Vec::new();
    assert_eq!(none, indent_entries(&Vec::new(), 2, 4));
}

#[test]
fn blank_line_inside_an_entry_is_kept_as_a_line() {
    let entries = vec![Entry {
        id: 1,
        details: "- First\n\n  Last".to_owned(),
    }];
    assert_eq!(vec!["- First", "  ", "  Last"], indent_entries(&entries, 0, 2));
}
