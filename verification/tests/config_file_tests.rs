use dfm::config_file::{config_properties, config_property, config_set, config_with_property};
use dfm::error::DfmError;

#[test]
fn reading_one_property() {
    let doc = "dot_prefix = \"dot_\"\nnumber = 3\n";
    assert_eq!(config_property(doc, "dot_prefix", "/c.toml").unwrap(), Some("\"dot_\"".to_string()));
    assert_eq!(config_property(doc, "number", "/c.toml").unwrap(), Some("3".to_string()));
    assert_eq!(config_property(doc, "missing", "/c.toml").unwrap(), None);
}

#[test]
fn listing_properties() {
    let doc = "a = 1\nb = \"x\"\n";
    assert_eq!(config_properties(doc, "/c.toml").unwrap(), vec!["a = 1".to_string(), "b = \"x\"".to_string()]);
}

#[test]
fn setting_a_property_then_reading_it_back() {
    let doc = "a = 1\n";
    let new_doc = config_with_property(doc, "merge_tool_command", "meld {target}", "/c.toml").unwrap();
    assert_eq!(
        config_property(&new_doc, "merge_tool_command", "/c.toml").unwrap(),
        Some("\"meld {target}\"".to_string())
    );
    assert_eq!(config_property(&new_doc, "a", "/c.toml").unwrap(), Some("1".to_string()));
}

#[test]
fn a_corrupt_file_is_named_in_the_error() {
    match config_property("a = = 1", "a", "/c.toml") {
        Err(DfmError::Other(m)) => assert!(m.starts_with("config file corrupt: /c.toml: ")),
        other => panic!("unexpected {:?}", other),
    }
    assert!(matches!(config_properties("[", "/c.toml"), Err(DfmError::Other(_))));
    assert!(matches!(config_with_property("[", "a", "b", "/c.toml"), Err(DfmError::Other(_))));
}

#[test]
fn unknown_properties_are_refused_before_syntax_checks() {
    match config_set("a = 1\n", "colour", "add:x", "/c.toml") {
        Err(DfmError::InvalidInput(m)) => assert_eq!(m, "unknown config property colour"),
        other => panic!("unexpected {:?}", other),
    }
}

#[test]
fn the_array_property_takes_edits() {
    let doc = "force_encryption_for = [\"\\\\.ssh\"]\n";
    let added = config_set(doc, "force_encryption_for", "add:\\.gnupg", "/c.toml").unwrap();
    assert_eq!(
        config_property(&added, "force_encryption_for", "/c.toml").unwrap(),
        Some("['\\.ssh', '\\.gnupg']".to_string())
    );
    let removed = config_set(&added, "force_encryption_for", "rm:\\.ssh", "/c.toml").unwrap();
    assert_eq!(config_property(&removed, "force_encryption_for", "/c.toml").unwrap(), Some("['\\.gnupg']".to_string()));
    let emptied = config_set(&removed, "force_encryption_for", "rmi:0", "/c.toml").unwrap();
    assert_eq!(config_property(&emptied, "force_encryption_for", "/c.toml").unwrap(), Some("[]".to_string()));
    let repaired = config_set("force_encryption_for = 3\n", "force_encryption_for", "add:x", "/c.toml").unwrap();
    assert_eq!(config_property(&repaired, "force_encryption_for", "/c.toml").unwrap(), Some("[\"x\"]".to_string()));
}

#[test]
fn invalid_array_edits_name_their_reason() {
    let doc = "force_encryption_for = [\"a\"]\n";
    let message = |r: Result<String, DfmError>| match r {
        Err(DfmError::InvalidInput(m)) => m,
        other => panic!("unexpected {:?}", other),
    };
    assert_eq!(message(config_set(doc, "force_encryption_for", "add:", "/c.toml")), "add: needs a non-empty element");
    assert_eq!(message(config_set(doc, "force_encryption_for", "rm:b", "/c.toml")), "no element b in force_encryption_for");
    assert_eq!(message(config_set(doc, "force_encryption_for", "rmi:1", "/c.toml")), "invalid index 1 for force_encryption_for");
    assert_eq!(message(config_set(doc, "force_encryption_for", "rmi:x", "/c.toml")), "invalid index x for force_encryption_for");
    assert_eq!(
        message(config_set(doc, "force_encryption_for", "b", "/c.toml")),
        "force_encryption_for is an array: set it with add:<element>, rm:<element> or rmi:<index>"
    );
    assert_eq!(
        message(config_set(doc, "dot_prefix", "add:x", "/c.toml")),
        "dot_prefix is not an array: add:, rm: and rmi: are not accepted"
    );
}

#[test]
fn scalar_properties_take_plain_strings() {
    let doc = config_set("", "dot_prefix", "cfg_", "/c.toml").unwrap();
    assert_eq!(config_property(&doc, "dot_prefix", "/c.toml").unwrap(), Some("\"cfg_\"".to_string()));
}
