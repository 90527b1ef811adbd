use dfm::ignore_file::{
    canonical_source_line, default_source_ignore_text, migrate_text, needs_newline, prune_patterns, remove_records,
    replace_all, source_ignore_step, target_ignore_line, SourceIgnoreStep,
};

fn strings(v: &[&str]) -> Vec<String> {
    v.iter().map(|s| s.to_string()).collect()
}

#[test]
fn source_lines_are_anchored_escaped_and_without_dot_prefix() {
    assert_eq!(canonical_source_line("dot_my.log", "dot_"), "^my\\.log$");
    assert_eq!(canonical_source_line("dot_config/dot_x", "dot_"), "^config/x$");
    assert_eq!(target_ignore_line(".cache/a+b"), "\\.cache/a\\+b");
    assert_eq!(replace_all("aXbXc", "X", "--"), "a--b--c");
    assert_eq!(replace_all("abc", "", "-"), "abc".replace("", "-"));
}

#[test]
fn source_ignore_steps() {
    assert!(source_ignore_step(&None, "^a$") == SourceIgnoreStep::Add);
    assert!(source_ignore_step(&Some("^a$".to_string()), "^a$") == SourceIgnoreStep::Keep);
    assert!(source_ignore_step(&Some("a".to_string()), "^a$") == SourceIgnoreStep::Migrate);
}

#[test]
fn migrating_a_line_replaces_it_once() {
    assert_eq!(migrate_text("x\nold\ny\n", "old", "new"), "x\ny\nnew\n");
    assert_eq!(migrate_text("old\nnew\n", "old", "new"), "new\n");
    assert_eq!(migrate_text("old\n", "old", "old"), "old\n");
    assert_eq!(migrate_text("", "old", "new"), "new\n");
}

#[test]
fn removing_records_matches_plain_and_escaped_forms() {
    let (text, removed) = remove_records("a\\.b\n\nkeep\nc\n", &strings(&["a.b", "c"]));
    assert_eq!(text, "keep");
    assert_eq!(removed, strings(&["a\\.b", "c"]));
    let (text, removed) = remove_records("x\ny", &strings(&["z"]));
    assert_eq!(text, "x\ny");
    assert!(removed.is_empty());
}

#[test]
fn pruning_keeps_blank_lines_and_unmatched_patterns() {
    let (text, removed) = prune_patterns("a\n\n  b  \nc", &strings(&["b"]));
    assert_eq!(text, "a\n\nc");
    assert_eq!(removed, strings(&["b"]));
}

#[test]
fn new_source_ignore_file_lists_dfm_files_escaped() {
    assert_eq!(
        default_source_ignore_text(),
        "\\.dfm_root\n\\.git\n\\.dfm_ignore_source\n\\.dfm_ignore_target\n\\.current_merge\n\\.current_diff\n"
    );
}

#[test]
fn appending_starts_on_a_fresh_line() {
    assert!(!needs_newline(""));
    assert!(!needs_newline("a\n"));
    assert!(needs_newline("a"));
}

#[test]
fn removing_what_was_added_restores_the_other_lines() {
    let before = "a\nb\n";
    let line = target_ignore_line(".cache");
    let after = format!("{}{}\n", before, line);
    assert_eq!(remove_records(&after, &strings(&[".cache"])).0, remove_records(before, &strings(&[".cache"])).0);
    let after = format!("{}{}\n", before, "^x$");
    assert_eq!(remove_records(&after, &strings(&["^x$"])).0, "a\nb");
}

#[test]
fn source_path_match_tries_the_path_then_the_path_without_dot_prefix() {
    let set = dfm::ignore::IgnoreSet::from_patterns(&strings(&[r"^my\.log$", "^dot_keep$"])).unwrap();
    assert_eq!(dfm::ignore_file::source_path_match(&set, "dot_keep", "dot_"), Some("^dot_keep$".to_string()));
    assert_eq!(dfm::ignore_file::source_path_match(&set, "dot_my.log", "dot_"), Some(r"^my\.log$".to_string()));
    assert_eq!(dfm::ignore_file::source_path_match(&set, "other", "dot_"), None);
}

#[test]
fn ignore_route_asks_the_source_directory_first() {
    assert!(dfm::ignore_file::ignore_route(true, true, true) == dfm::ignore_file::IgnoreRoute::Source);
    assert!(dfm::ignore_file::ignore_route(true, false, false) == dfm::ignore_file::IgnoreRoute::Source);
    assert!(dfm::ignore_file::ignore_route(false, true, false) == dfm::ignore_file::IgnoreRoute::Target);
    assert!(dfm::ignore_file::ignore_route(false, false, false) == dfm::ignore_file::IgnoreRoute::Missing);
    assert!(dfm::ignore_file::ignore_route(false, false, true) == dfm::ignore_file::IgnoreRoute::Skip);
}
