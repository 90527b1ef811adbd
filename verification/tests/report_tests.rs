use dfm::cli::StatusArgs;
use dfm::commands::StatusCode;
use dfm::ignore::IgnoreSet;
use dfm::report::{
    pattern_listing, probe_paths, shown_entries, unused_patterns_block,
    classify_state_entry, classify_target_file, classify_target_symlink, entry_shown, format_default, git_info,
    porcelain_report, restrictive_filter, short_report, show_ignored, tilde_path, unused_patterns,
};
use dfm::state::CompareByTimestamp;

fn args() -> StatusArgs {
    StatusArgs {
        all: false,
        short: false,
        porcelain: false,
        conflicted: false,
        modified: false,
        unmanaged: false,
        managed: false,
        unpulled: false,
        encrypted: false,
        ignored: false,
        ignored_patterns: false,
        unused_patterns: false,
        paths: None,
    }
}

fn entry(code: StatusCode, path: &str) -> (StatusCode, String, Option<String>, bool) {
    (code, path.to_string(), None, false)
}

#[test]
fn state_entries_are_classified() {
    let p = Some("pat".to_string());
    assert_eq!(classify_state_entry(false, p.clone(), None, true, true, None), Some((StatusCode::Ignored, p.clone())));
    assert_eq!(classify_state_entry(true, None, p.clone(), true, true, None), Some((StatusCode::IgnoredSymlink, p.clone())));
    assert_eq!(classify_state_entry(true, None, None, true, true, None), Some((StatusCode::ManagedSymlink, None)));
    assert_eq!(classify_state_entry(true, None, None, false, true, None), Some((StatusCode::Unpulled, None)));
    assert_eq!(classify_state_entry(true, None, None, true, false, None), None);
    assert_eq!(classify_state_entry(false, None, None, false, true, None), Some((StatusCode::Unpulled, None)));
    assert_eq!(classify_state_entry(false, None, None, true, false, None), None);
    assert_eq!(
        classify_state_entry(false, None, None, true, true, Some(CompareByTimestamp::BothModified)),
        Some((StatusCode::BothModified, None))
    );
    assert_eq!(
        classify_state_entry(false, None, None, true, true, Some(CompareByTimestamp::NonModified)),
        Some((StatusCode::UpToDate, None))
    );
}

#[test]
fn target_walk_entries_are_classified() {
    let p = Some("pat".to_string());
    assert_eq!(classify_target_symlink(true, false, None, true, true), None);
    assert_eq!(classify_target_symlink(false, true, None, true, false), Some((StatusCode::ManagedSymlink, None)));
    assert_eq!(classify_target_symlink(false, true, None, false, false), None);
    assert_eq!(classify_target_symlink(false, false, p.clone(), false, true), Some((StatusCode::IgnoredSymlink, p.clone())));
    assert_eq!(classify_target_symlink(false, false, p.clone(), false, false), None);
    assert_eq!(classify_target_symlink(false, false, None, false, false), Some((StatusCode::UnmanagedSymlink, None)));
    assert_eq!(classify_target_file(true, None, true), None);
    assert_eq!(classify_target_file(false, p.clone(), true), Some((StatusCode::Ignored, p.clone())));
    assert_eq!(classify_target_file(false, p, false), None);
    assert_eq!(classify_target_file(false, None, false), Some((StatusCode::Unmanaged, None)));
}

#[test]
fn the_filter_flags_pick_entries() {
    let plain = args();
    assert!(entry_shown(&plain, StatusCode::TargetModified, false));
    assert!(!entry_shown(&plain, StatusCode::UpToDate, false));
    assert!(!entry_shown(&plain, StatusCode::Ignored, false));
    let mut all = args();
    all.all = true;
    assert!(entry_shown(&all, StatusCode::UpToDate, false));
    assert!(entry_shown(&all, StatusCode::Ignored, false));
    let mut enc = args();
    enc.encrypted = true;
    assert!(entry_shown(&enc, StatusCode::UpToDate, true));
    assert!(!entry_shown(&enc, StatusCode::TargetModified, false));
    let mut conflicted = args();
    conflicted.conflicted = true;
    assert!(entry_shown(&conflicted, StatusCode::BothModified, false));
    assert!(!entry_shown(&conflicted, StatusCode::TargetModified, false));
    assert!(restrictive_filter(&conflicted));
    assert!(!restrictive_filter(&all));
    assert!(show_ignored(&all));
    assert!(!show_ignored(&plain));
    let mut scoped = args();
    scoped.paths = Some(vec!["x".to_string()]);
    assert!(show_ignored(&scoped));
}

#[test]
fn unused_patterns_are_those_no_path_matches() {
    let set = IgnoreSet::from_patterns(&vec!["^\\.cache$".to_string(), "\\.log$".to_string(), "^tmp$".to_string()]).unwrap();
    let paths = vec![".cache/x".to_string(), "b.log".to_string(), "a/c.log".to_string()];
    assert_eq!(unused_patterns(&set, &paths), vec!["^tmp$".to_string()]);
}

#[test]
fn porcelain_and_short_lines() {
    let es = vec![entry(StatusCode::TargetModified, ".bashrc"), entry(StatusCode::Unmanaged, "x")];
    assert_eq!(porcelain_report(&es, &vec!["p".to_string()]), "M \t.bashrc\n??\tx\n");
    assert_eq!(porcelain_report(&Vec::new(), &vec!["p".to_string()]), "!P\tp\n");
    assert_eq!(short_report(&es), "M  .bashrc\n?? x\n");
}

#[test]
fn home_is_shown_as_tilde() {
    let home = Some("/home/u".to_string());
    assert_eq!(tilde_path("/home/u", &home), "~");
    assert_eq!(tilde_path("/home/u/dots", &home), "~/dots");
    assert_eq!(tilde_path("/srv/dots", &home), "/srv/dots");
    assert_eq!(tilde_path("/home/u/dots", &None), "/home/u/dots");
}

#[test]
fn git_status_line() {
    assert_eq!(git_info("## main...origin/main [ahead 1, behind 2]\n"), Some("branch: main, ahead 1, behind 2, clean".to_string()));
    assert_eq!(git_info("## dev\n M file\n"), Some("branch: dev, dirty".to_string()));
    assert_eq!(git_info("## HEAD (no branch)\n"), None);
    assert_eq!(git_info("## No commits yet on main\n"), None);
    assert_eq!(git_info(""), None);
}

#[test]
fn default_report_head_and_opening() {
    let home = Some("/home/u".to_string());
    let r = format_default(&Vec::new(), &Vec::new(), &Vec::new(), &None, "/home/u", "/home/u/dots", &home, false);
    assert!(r.starts_with("Source: ~/dots\nTarget: ~\nNo files managed.\n"));
    let all = vec![entry(StatusCode::UpToDate, "a")];
    let r = format_default(&Vec::new(), &all, &Vec::new(), &Some("branch: main, clean".to_string()), "/t", "/s", &None, false);
    assert!(r.starts_with("Source: /s  (branch: main, clean)\nTarget: /t\nAll up-to-date.\n"));
    let shown = vec![entry(StatusCode::TargetModified, ".bashrc")];
    let r = format_default(&shown, &shown, &vec!["stale".to_string()], &None, "/t", "/s", &None, false);
    assert!(r.contains(".bashrc"));
    assert!(r.contains("Unused ignore patterns:\n"));
    assert!(r.contains("stale"));
}

#[test]
fn unused_pattern_block_and_pattern_listing() {
    assert_eq!(unused_patterns_block(&vec!["a".to_string(), "b".to_string()]), "Unused ignore patterns:\n  !P  a\n  !P  b\n");
    assert_eq!(unused_patterns_block(&Vec::new()), "");
    assert_eq!(pattern_listing(&vec!["x".to_string(), "^y$".to_string()]), "x\n^y$\n");
}

#[test]
fn probed_paths_and_shown_entries() {
    let es = vec![entry(StatusCode::Unpulled, "u"), entry(StatusCode::TargetModified, "m"), entry(StatusCode::UpToDate, "ok")];
    assert_eq!(
        probe_paths(&vec!["w".to_string()], &vec!["d".to_string()], &es),
        vec!["w".to_string(), "d/".to_string(), "m".to_string(), "ok".to_string()]
    );
    let shown = shown_entries(&args(), &es);
    let paths: Vec<&str> = shown.iter().map(|e| e.1.as_str()).collect();
    assert_eq!(paths, ["u", "m"]);
}

#[test]
fn filter_flags_add_up() {
    let mut modified = args();
    modified.modified = true;
    let mut unmanaged = args();
    unmanaged.unmanaged = true;
    let mut both = args();
    both.modified = true;
    both.unmanaged = true;
    for code in [
        StatusCode::UpToDate,
        StatusCode::BothModified,
        StatusCode::TargetModified,
        StatusCode::SourceModified,
        StatusCode::NeverSynchronized,
        StatusCode::Unpulled,
        StatusCode::Unmanaged,
        StatusCode::UnmanagedSymlink,
        StatusCode::ManagedSymlink,
        StatusCode::Ignored,
        StatusCode::IgnoredSymlink,
    ] {
        assert_eq!(
            entry_shown(&both, code, false),
            entry_shown(&modified, code, false) || entry_shown(&unmanaged, code, false)
        );
    }
    let mut enc = args();
    enc.encrypted = true;
    enc.modified = true;
    assert!(!entry_shown(&enc, StatusCode::TargetModified, false));
    assert!(entry_shown(&enc, StatusCode::UpToDate, true));
}

#[test]
fn managed_keys_know_every_postfixed_form() {
    let mut keys = dfm::report::ManagedKeys::new();
    keys.insert("dot_ssh/id.encrypted".to_string());
    keys.insert("dot_link.symlink".to_string());
    keys.insert("plain".to_string());
    assert!(keys.contains("plain"));
    assert!(!keys.contains("dot_ssh/id"));
    assert!(keys.managed_in_any_form("dot_ssh/id", ".encrypted", ".symlink"));
    assert!(keys.managed_in_any_form("dot_link", ".encrypted", ".symlink"));
    assert!(keys.managed_in_any_form("plain", ".encrypted", ".symlink"));
    assert!(!keys.managed_in_any_form("dot_other", ".encrypted", ".symlink"));
    keys.remove("plain");
    assert!(!keys.contains("plain"));
    assert!(!keys.managed_in_any_form("plain", ".encrypted", ".symlink"));
}

#[test]
fn source_ignore_match_falls_back_to_the_target_name() {
    let set = IgnoreSet::from_patterns(&vec!["^bashrc$".to_string(), "^dot_vimrc$".to_string()]).unwrap();
    assert_eq!(dfm::report::source_ignore_match(&set, "dot_vimrc", "dot_"), Some("^dot_vimrc$".to_string()));
    assert_eq!(dfm::report::source_ignore_match(&set, "dot_bashrc", "dot_"), Some("^bashrc$".to_string()));
    assert_eq!(dfm::report::source_ignore_match(&set, "dot_profile", "dot_"), None);
}
