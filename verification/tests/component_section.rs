use unclog::changelog::component_section::package_section_filter;
use unclog::{
    BulletStyle, Component, ComponentSection, Config, DirEntry, DirSnapshot, Entry, Error,
    FileSnapshot,
};

const RENDERED_WITH_PATH: &str = "- [Some project](./some-project/)\n  - Issue 1\n  - Issue 2\n  - Issue 3";

const RENDERED_WITHOUT_PATH: &str = "- some-project\n  - Issue 1\n  - Issue 2\n  - Issue 3";

fn test_entries() -> Vec<Entry> {
    vec![
        Entry {
            id: 1,
            details: "- Issue 1".to_string(),
        },
        Entry {
            id: 2,
            details: "- Issue 2".to_string(),
        },
        Entry {
            id: 3,
            details: "- Issue 3".to_string(),
        },
    ]
}

#[test]
fn with_path() {
    let ps = ComponentSection {
        id: "some-project".to_owned(),
        name: "Some project".to_owned(),
        maybe_path: Some("./some-project/".to_owned()),
        entries: test_entries(),
    };
    assert_eq!(RENDERED_WITH_PATH, ps.render(&Config::default()));
}

#[test]
fn without_path() {
    let ps = ComponentSection {
        id: "some-project".to_owned(),
        name: "some-project".to_owned(),
        maybe_path: None,
        entries: test_entries(),
    };
    assert_eq!(RENDERED_WITHOUT_PATH, ps.render(&Config::default()));
}

fn file(name: &str, text: &str) -> DirEntry {
    DirEntry::File(FileSnapshot {
        path: format!("./features/core/{}", name),
        name: Some(name.to_owned()),
        contents: Ok(text.to_owned()),
    })
}

fn core_config() -> Config {
    let mut config = Config::default();
    config.components.all.push(Component {
        id: "core".to_owned(),
        name: "Core".to_owned(),
        maybe_path: Some("./core/".to_owned()),
    });
    config.components.all.push(Component {
        id: "docs".to_owned(),
        name: "Documentation".to_owned(),
        maybe_path: None,
    });
    config
}

fn component_dir(name: &str, children: Vec<DirEntry>) -> DirSnapshot {
    DirSnapshot {
        path: format!("./features/{}", name),
        name: Some(name.to_owned()),
        listing: Ok(children),
    }
}

#[test]
fn component_section_is_read_from_its_directory() {
    let config = core_config();
    let dir = component_dir(
        "core",
        vec![
            file("20-later.md", "- Later\n"),
            file(".gitkeep", ""),
            file("3-sooner.md", "- Sooner\n"),
            DirEntry::Other,
        ],
    );
    let section = ComponentSection::read_from_dir(&config, &dir).unwrap();
    assert_eq!("core", section.id);
    assert_eq!("Core", section.name);
    assert_eq!(Some("./core/".to_owned()), section.maybe_path);
    let ids: Vec<u64> = section.entries.iter().map(|e| e.id).collect();
    assert_eq!(vec![3, 20], ids);
    assert!(!section.is_empty());
    assert_eq!("- [Core](./core/)\n  - Sooner\n  - Later", section.render(&config));
}

#[test]
fn component_without_a_path_is_read_with_its_bare_name() {
    let config = core_config();
    let dir = component_dir("docs", vec![file("1-x.md", "- X")]);
    let section = ComponentSection::read_from_dir(&config, &dir).unwrap();
    assert_eq!(None, section.maybe_path);
    assert_eq!("- Documentation\n  - X", section.render(&config));
}

#[test]
fn component_that_is_not_defined_is_an_error() {
    let config = core_config();
    for children in [vec![], vec![file("1-x.md", "- X")]] {
        let dir = component_dir("unknown", children);
        match ComponentSection::read_from_dir(&config, &dir) {
            Err(Error::ComponentNotDefined(id)) => assert_eq!("unknown", id),
            other => panic!("unexpected outcome: {:?}", other),
        }
    }
    let dir = component_dir("core", vec![file("1-x.md", "- X")]);
    assert!(matches!(
        ComponentSection::read_from_dir(&Config::default(), &dir),
        Err(Error::ComponentNotDefined(_))
    ));
}

#[test]
fn component_directory_without_a_name_is_an_error() {
    let config = core_config();
    let dir = DirSnapshot {
        path: "./features/..".to_owned(),
        name: None,
        listing: Ok(vec![]),
    };
    match ComponentSection::read_from_dir(&config, &dir) {
        Err(Error::CannotObtainName(path)) => assert_eq!("./features/..", path),
        other => panic!("unexpected outcome: {:?}", other),
    }
}

#[test]
fn component_whose_entries_fail_is_an_error() {
    let config = core_config();
    let dir = component_dir("core", vec![file("1-x.md", "- X"), file("nope.md", "- Y")]);
    assert!(matches!(
        ComponentSection::read_from_dir(&config, &dir),
        Err(Error::InvalidEntryId(name)) if name == "nope.md"
    ));
    let unreadable = DirSnapshot {
        path: "./features/core".to_owned(),
        name: Some("core".to_owned()),
        listing: Err("gone".to_owned()),
    };
    assert!(matches!(
        ComponentSection::read_from_dir(&config, &unreadable),
        Err(Error::Io(m)) if m == "gone"
    ));
}

#[test]
fn component_without_entries_is_empty() {
    let config = core_config();
    let section = ComponentSection::read_from_dir(&config, &component_dir("core", vec![])).unwrap();
    assert!(section.is_empty());
    assert_eq!("- [Core](./core/)", section.render(&config));
}

#[test]
fn rendering_follows_the_configured_bullet_and_indent() {
    let mut config = Config::default();
    config.bullet_style = BulletStyle::Asterisk;
    config.components.entry_indent = 4;
    let section = ComponentSection {
        id: "core".to_owned(),
        name: "Core".to_owned(),
        maybe_path: None,
        entries: vec![Entry {
            id: 1,
            details: "* One\n  more".to_owned(),
        }],
    };
    assert_eq!("* Core\n    * One\n      more", section.render(&config));
    config.components.entry_indent = 255;
    let wide = section.render(&config);
    let lines: Vec<&str> = wide.split('\n').collect();
    assert_eq!(format!("{}* One", " ".repeat(255)), lines[1]);
    assert_eq!(format!("{}more", " ".repeat(257)), lines[2]);
}

#[test]
fn package_section_filter_keeps_directories() {
    let directory = DirEntry::Dir(component_dir("core", vec![]));
    assert!(matches!(package_section_filter(&directory), Some(Ok(d)) if d.name.as_deref() == Some("core")));
    assert!(package_section_filter(&file("1-x.md", "- X")).is_none());
    assert!(matches!(
        package_section_filter(&DirEntry::Failed("broken".to_owned())),
        Some(Err(Error::Io(m))) if m == "broken"
    ));
}

#[test]
fn component_with_an_entry_number_out_of_range_is_an_error() {
    let config = core_config();
    let dir = component_dir(
        "core",
        vec![
            file("1-x.md", "- X"),
            file("99999999999999999999999-x.md", "- Too big"),
            file("later.md", "- No number, but later"),
        ],
    );
    match ComponentSection::read_from_dir(&config, &dir) {
        Err(Error::InvalidEntryNumber(digits)) => assert_eq!("99999999999999999999999", digits),
        other => panic!("unexpected outcome: {:?}", other),
    }
}

#[test]
fn component_with_a_badly_named_entry_is_an_error_whatever_the_text() {
    let config = core_config();
    let unreadable = DirEntry::File(FileSnapshot {
        path: "./features/core/abc.md".to_owned(),
        name: Some("abc.md".to_owned()),
        contents: Err("unreadable".to_owned()),
    });
    let dir = component_dir("core", vec![file("1-x.md", "- X"), unreadable]);
    match ComponentSection::read_from_dir(&config, &dir) {
        Err(Error::InvalidEntryId(name)) => assert_eq!("abc.md", name),
        other => panic!("unexpected outcome: {:?}", other),
    }
}
