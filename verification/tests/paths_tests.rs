use dfm::paths::{
    calc_source_ignore_file, cli_path_in_scope, decode_source_rel_path, file_path_relative_to,
    filepath_in_source_dir, path_starts_with_str, remove_dots_from_path, source_rel_to_target_abs,
    source_rel_to_target_rel, state_key_for, validate_state_key,
};

#[test]
fn test_file_path_relative_to() {
    assert_eq!(file_path_relative_to("/a/b/c/d", "/a/b/c"), "d");
    assert_eq!(file_path_relative_to("/a/b/c/d", "/a/b/c/"), "d");
    assert_eq!(file_path_relative_to("/a/b/c/d", "/a/b/c/d"), ".");
}

#[test]
fn test_remove_dots_from_path() {
    assert_eq!(remove_dots_from_path("/"), "/");
    assert_eq!(remove_dots_from_path("/a"), "/a");
    assert_eq!(remove_dots_from_path("/a/e"), "/a/e");
    assert_eq!(remove_dots_from_path("/a/b/e/.."), "/a/b");
    assert_eq!(remove_dots_from_path("/a/b/c/../../d/e"), "/a/d/e");
    assert_eq!(remove_dots_from_path("/a/b/../../d/e"), "/d/e");
    assert_eq!(remove_dots_from_path("/a/../../d/e"), "../d/e");
    assert_eq!(remove_dots_from_path("/../../d/e"), "../../d/e");
    assert_eq!(remove_dots_from_path("/a/b/e/./f/g"), "/a/b/e/f/g");
    assert_eq!(remove_dots_from_path("./f/g"), "f/g");
    assert_eq!(remove_dots_from_path("f/g"), "f/g");
    assert_eq!(remove_dots_from_path("f/../g"), "g");
    assert_eq!(remove_dots_from_path("f/../"), ".");
    assert_eq!(remove_dots_from_path("./"), ".");
    assert_eq!(remove_dots_from_path("."), ".");
    assert_eq!(remove_dots_from_path(".."), "..");
    assert_eq!(remove_dots_from_path("/a/.."), "/");
    assert_eq!(remove_dots_from_path("/a/../../b"), "../b");
}

#[test]
fn remove_dots_twice_changes_nothing() {
    for p in ["/a/b/../c", "../../x/./y", "/..", "a//b///c/", ".", "", "/a/b/c/../../.."] {
        let once = remove_dots_from_path(p);
        assert_eq!(remove_dots_from_path(&once), once);
    }
}

#[test]
fn relative_path_outside_the_base_climbs_from_dot() {
    assert_eq!(file_path_relative_to("/x/y", "/a"), "./../../x/y");
    assert_eq!(file_path_relative_to("a/b", ""), "a/b");
}

#[test]
fn dotfiles_map_to_the_dot_prefix() {
    let p = filepath_in_source_dir("dot_", "/home/u", "/home/u/dotfiles", "/home/u/.bashrc", None);
    assert_eq!(p, "/home/u/dotfiles/dot_bashrc");
    let p = filepath_in_source_dir("dot_", "/home/u", "/home/u/dotfiles", "/home/u/.config/foo.conf", None);
    assert_eq!(p, "/home/u/dotfiles/dot_config/foo.conf");
    let p = filepath_in_source_dir("dot_", "/home/u", "/src", "/home/u/.ssh/id", Some(".encrypted"));
    assert_eq!(p, "/src/dot_ssh/id.encrypted");
}

#[test]
fn literal_prefixes_are_escaped() {
    let p = filepath_in_source_dir("dot_", "/h", "/s", "/h/dot_backup", None);
    assert_eq!(p, "/s/~dot_backup");
    let p = filepath_in_source_dir("dot_", "/h", "/s", "/h/~notes", None);
    assert_eq!(p, "/s/~~notes");
}

#[test]
fn decoding_inverts_encoding() {
    for target_rel in [".config/dot_backup", "~x/.y", "plain/name", ".a/.b/.c"] {
        let src = filepath_in_source_dir("dot_", "/h", "", &format!("/h/{target_rel}"), None);
        assert_eq!(decode_source_rel_path(&src, "dot_", true), target_rel);
    }
    assert_eq!(decode_source_rel_path("dot_config/dot_backup", "dot_", false), "config/backup");
    assert_eq!(decode_source_rel_path("a/~", "dot_", true), "a/");
}

#[test]
fn target_rel_strips_postfixes() {
    assert_eq!(source_rel_to_target_rel("dot_ssh/id.encrypted", "dot_", ".symlink", ".encrypted"), ".ssh/id");
    assert_eq!(source_rel_to_target_rel("bin/tool.symlink", "dot_", ".symlink", ".encrypted"), "bin/tool");
    assert_eq!(source_rel_to_target_rel("dot_vimrc", "dot_", ".symlink", ".encrypted"), ".vimrc");
    let (rel, abs) = source_rel_to_target_abs("dot_config/x.symlink", "/home/u", "dot_", ".symlink", ".encrypted");
    assert_eq!(rel, ".config/x");
    assert_eq!(abs, "/home/u/.config/x");
}

#[test]
fn test_read_state_rejects_traversal_keys() {
    assert!(validate_state_key("dot_bashrc").is_ok());
    assert!(validate_state_key("dot_config/foo").is_ok());
    assert!(validate_state_key("../../.bashrc").is_err());
    assert!(validate_state_key("/etc/passwd").is_err());
}

#[test]
fn state_keys_are_normalized_relative_paths() {
    assert_eq!(state_key_for("/s/dot_config/./foo", "/s"), "dot_config/foo");
    assert_eq!(state_key_for("/s", "/s"), ".");
}

#[test]
fn ignore_file_lives_in_the_source_dir() {
    assert_eq!(calc_source_ignore_file("/s"), "/s/.dfm_ignore_file");
    assert_eq!(calc_source_ignore_file("/s/"), "/s/.dfm_ignore_file");
}

#[test]
fn cli_paths_must_stay_in_scope() {
    assert_eq!(cli_path_in_scope("x/../y", "/home/u", "/home/u", "/src").unwrap(), "/home/u/y");
    assert_eq!(cli_path_in_scope("/src/a", "/tmp", "/home/u", "/src").unwrap(), "/src/a");
    assert!(cli_path_in_scope("../../etc", "/home/u", "/home/u", "/src").is_err());
    assert!(path_starts_with_str("/a/b/c", "/a/b/"));
    assert!(!path_starts_with_str("/a/bc", "/a/b"));
}

#[test]
fn distinct_target_files_get_distinct_source_paths() {
    let a = dfm::paths::filepath_in_source_dir("dot_", "/home/u", "/home/u/.dotfiles", "/home/u/.backup", None);
    let b = dfm::paths::filepath_in_source_dir("dot_", "/home/u", "/home/u/.dotfiles", "/home/u/dot_backup", None);
    assert_eq!(a, "/home/u/.dotfiles/dot_backup");
    assert_eq!(b, "/home/u/.dotfiles/~dot_backup");
    assert_ne!(a, b);
}

#[test]
fn state_key_of_an_added_file_reads_back_as_its_target_path() {
    for (rel, postfix) in [(".config/app.conf", ".encrypted"), (".ssh/config", ".symlink"), ("~notes", ".encrypted"), ("dot_x/y", ".symlink")] {
        let target = format!("/home/u/{}", rel);
        let src = dfm::paths::filepath_in_source_dir("dot_", "/home/u", "/home/u/.dotfiles", &target, Some(postfix));
        let key = dfm::paths::file_path_relative_to(&src, "/home/u/.dotfiles");
        assert_eq!(dfm::paths::source_rel_to_target_rel(&key, "dot_", ".symlink", ".encrypted"), rel);
    }
}
