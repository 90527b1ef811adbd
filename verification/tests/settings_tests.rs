use dfm::settings::{create_default_settings, merge_settings, working_dir_paths, Config};
use dfm::state::StateObject;

#[test]
fn test_merge_settings() {
    let default = create_default_settings();
    let state = StateObject::new("/home/user".to_string(), "/home/user/dotfiles".to_string());

    let no_custom = merge_settings(&default, &None, Some(&state));
    assert_eq!(no_custom.source_dir, "/home/user/dotfiles");
    assert_eq!(no_custom.target_dir, "/home/user");
    assert_eq!(no_custom.dot_prefix, default.dot_prefix);

    let custom = Config {
        dot_prefix: Some("cfg_".to_string()),
        symlink_postfix: None,
        encrypted_postfix: None,
        force_encryption_for: vec![],
        obtain_password_shell_command: None,
        merge_tool_command: Some("meld {target} {source} {result}".to_string()),
        diff_tool_command: None,
        diff_all_tool_command_target: None,
        diff_all_tool_command_source: None,
        diff_editable_tool_command: None,
    };
    let merged = merge_settings(&default, &Some(custom), Some(&state));
    assert_eq!(merged.source_dir, "/home/user/dotfiles");
    assert_eq!(merged.target_dir, "/home/user");
    assert_eq!(merged.dot_prefix, "cfg_");
    assert_eq!(merged.merge_tool_command, Some("meld {target} {source} {result}".to_string()));
    assert_eq!(merged.symlink_postfix, default.symlink_postfix);
    assert_eq!(merged.encrypted_postfix, default.encrypted_postfix);
    assert_eq!(merged.obtain_password_shell_command, default.obtain_password_shell_command);
    assert_eq!(merged.force_encryption_for, default.force_encryption_for);

    let custom = Config {
        dot_prefix: None,
        symlink_postfix: None,
        encrypted_postfix: None,
        force_encryption_for: vec![r"\.ssh".to_string()],
        obtain_password_shell_command: None,
        merge_tool_command: None,
        diff_tool_command: None,
        diff_all_tool_command_target: None,
        diff_all_tool_command_source: None,
        diff_editable_tool_command: None,
    };
    let merged = merge_settings(&default, &Some(custom), None);
    assert_eq!(merged.force_encryption_for, vec![r"\.ssh"]);
    assert_eq!(merged.source_dir, "");
    assert_eq!(merged.target_dir, "");
}

#[test]
fn defaults_are_as_documented() {
    let d = create_default_settings();
    assert_eq!(d.source_dir, "");
    assert_eq!(d.target_dir, "$HOME");
    assert_eq!(d.dot_prefix, "dot_");
    assert_eq!(d.symlink_postfix, ".symlink");
    assert_eq!(d.encrypted_postfix, ".encrypted");
    assert_eq!(d.force_encryption_for, vec![r"\.ssh".to_string()]);
    assert_eq!(d.obtain_password_shell_command, Some(String::new()));
    assert_eq!(d.merge_tool_command, Some("vimdiff {target} {source} {result}".to_string()));
    assert_eq!(d.diff_tool_command, Some("vimdiff -M {target} {source}".to_string()));
    assert_eq!(d.diff_all_tool_command_target, Some("diff -u --color=always {source} {target}".to_string()));
    assert_eq!(d.diff_all_tool_command_source, Some("diff -u --color=always {target} {source}".to_string()));
    assert_eq!(d.diff_editable_tool_command, Some("vimdiff {target} {source}".to_string()));
}

#[test]
fn config_from_settings_records_every_value() {
    let d = create_default_settings();
    let c = Config::from_settings(&d);
    assert_eq!(c.dot_prefix, Some("dot_".to_string()));
    assert_eq!(c.symlink_postfix, Some(".symlink".to_string()));
    assert_eq!(c.encrypted_postfix, Some(".encrypted".to_string()));
    assert_eq!(c.force_encryption_for, d.force_encryption_for);
    assert_eq!(c.merge_tool_command, d.merge_tool_command);
}

#[test]
fn working_dirs_need_a_source_dir() {
    assert!(working_dir_paths("  \t", "/h", "").is_err());
    let (t, s) = working_dir_paths("~/dots", "/home/u/", "/home/u/x/../dots").unwrap();
    assert_eq!(t, "/home/u");
    assert_eq!(s, "/home/u/dots");
}

#[test]
fn working_dirs_without_variables_are_only_normalized() {
    let mut s = create_default_settings();
    s.target_dir = "/home/u/./x".to_string();
    s.source_dir = "/home/u/.dotfiles/../df".to_string();
    let (t, src) = dfm::settings::calc_working_dir_paths_unchecked(&s).unwrap();
    assert_eq!(t, "/home/u/x");
    assert_eq!(src, "/home/u/df");
    s.source_dir = "  ".to_string();
    assert!(dfm::settings::calc_working_dir_paths_unchecked(&s).is_err());
}
