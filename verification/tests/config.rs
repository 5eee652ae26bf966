use unclog::{BulletStyle, Component, Config, Error};

#[test]
fn default_config() {
    let config = Config::default();
    assert_eq!(BulletStyle::Dash, config.bullet_style);
    assert_eq!("summary.md", config.change_sets.summary_filename);
    assert_eq!(2, config.components.entry_indent);
    assert!(config.components.all.is_empty());
}

#[test]
fn bullet_styles_render_as_their_character() {
    assert_eq!("*", BulletStyle::Asterisk.to_string());
    assert_eq!("-", BulletStyle::Dash.to_string());
}

#[test]
fn bullet_style_is_parsed_from_its_character() {
    assert!(matches!(BulletStyle::parse("*"), Ok(BulletStyle::Asterisk)));
    assert!(matches!(BulletStyle::parse("-"), Ok(BulletStyle::Dash)));
}

#[test]
fn other_bullet_styles_are_invalid() {
    for text in ["", "+", "--", "* ", " -", "\u{2022}", "dash"] {
        assert!(
            matches!(BulletStyle::parse(text), Err(Error::InvalidBulletStyle)),
            "{:?} was accepted",
            text
        );
    }
}

#[test]
fn component_is_found_by_its_id() {
    let mut config = Config::default();
    assert!(config.component("core").is_none());
    config.components.all.push(Component {
        id: "core".to_owned(),
        name: "Core".to_owned(),
        maybe_path: Some("./core/".to_owned()),
    });
    config.components.all.push(Component {
        id: "cli".to_owned(),
        name: "Command line".to_owned(),
        maybe_path: None,
    });
    config.components.all.push(Component {
        id: "core".to_owned(),
        name: "Shadowed".to_owned(),
        maybe_path: None,
    });
    let core = config.component("core").unwrap();
    assert_eq!("Core", core.name);
    assert_eq!(Some("./core/".to_owned()), core.maybe_path);
    assert_eq!("Command line", config.component("cli").unwrap().name);
    assert!(config.component("Core").is_none());
    assert!(config.component("cor").is_none());
    assert!(config.component("").is_none());
}

#[test]
fn unique_ids_are_recognised() {
    let component = |id: &str, name: &str| Component {
        id: id.to_owned(),
        name: name.to_owned(),
        maybe_path: None,
    };
    let mut config = Config::default();
    assert!(config.has_unique_ids());
    config.components.all.push(component("core", "Core"));
    config.components.all.push(component("cli", "Command line"));
    config.components.all.push(component("Core", "Other case"));
    assert!(config.has_unique_ids());
    config.components.all.push(component("cli", "Again"));
    assert!(!config.has_unique_ids());
    config.components.all.remove(1);
    assert!(config.has_unique_ids());
    assert_eq!("Again", config.component("cli").unwrap().name);
}
