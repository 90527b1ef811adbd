use dfm::ignore::{
    check_path_matches_regex_component_wise, check_path_matches_regex_substring,
    dir_ignore_pattern, ignore_patterns_from_lines, ignore_set_from_lines,
    is_dir_ignored, pattern_matches_path_components, IgnoreSet,
};

#[test]
fn test_pattern_matches_path_components_single_component() {
    assert!(pattern_matches_path_components(r"abc\.c", "abc.c"));
    assert!(pattern_matches_path_components(r"abc\.c", "./abc.c"));
    assert!(!pattern_matches_path_components(r"abc\.c", "dir/abc.c"));
    assert!(pattern_matches_path_components(r"abc\.c", "abc.c/file"));
    assert!(!pattern_matches_path_components(r"abc\.c", "the-abc.c"));
    assert!(!pattern_matches_path_components(r"abc\.c", "dir/the-abc.c"));
    assert!(pattern_matches_path_components(r".*abc\.c", "dir/abc.c"));
}

#[test]
fn test_pattern_matches_path_components_wildcard() {
    let pat = r".*abc\.c";
    assert!(pattern_matches_path_components(pat, "abc.c"));
    assert!(pattern_matches_path_components(pat, "the-abc.c"));
    assert!(pattern_matches_path_components(pat, "dir/the-abc.c"));
    assert!(pattern_matches_path_components(pat, "dir/abc.c"));
    assert!(pattern_matches_path_components(pat, "dir/abc.c/other"));
    assert!(!pattern_matches_path_components(pat, "abc.txt"));
}

#[test]
fn test_pattern_matches_path_components_cross_component_match() {
    let pat = r".*abc/def.*";
    assert!(pattern_matches_path_components(pat, "1abc/define"));
    assert!(pattern_matches_path_components(pat, "1abc/define/123"));
    assert!(pattern_matches_path_components(pat, "abc/define"));
    assert!(pattern_matches_path_components(pat, "hola/1abc/define/123"));
    assert!(!pattern_matches_path_components(pat, "abc/something/define"));
}

#[test]
fn test_pattern_matches_path_components_cross_component_exact() {
    let pat = r"abc/def";
    assert!(pattern_matches_path_components(pat, "abc/def"));
    assert!(pattern_matches_path_components(pat, "abc/def/other"));
    assert!(pattern_matches_path_components(pat, "dir/abc/def"));
    assert!(!pattern_matches_path_components(pat, "abc/defx"));
    assert!(!pattern_matches_path_components(pat, "xabc/def"));
}

#[test]
fn test_pattern_does_not_match_subpath_components() {
    let pat = r"file\.txt";
    assert!(pattern_matches_path_components(pat, "./file.txt"));
    assert!(pattern_matches_path_components(pat, "file.txt"));
    assert!(!pattern_matches_path_components(pat, "abc/file.txt"));
}

#[test]
fn test_pattern_matches_path_components_empty_pattern() {
    assert!(!pattern_matches_path_components("", "anything"));
}

#[test]
fn test_pattern_matches_path_components_too_many_subpatterns() {
    assert!(!pattern_matches_path_components(r"a/b/c", "a/b"));
}

#[test]
fn test_pattern_matches_path_components_trailing_slash_pattern() {
    assert!(pattern_matches_path_components("dirname/", "dirname/a.txt"));
    assert!(pattern_matches_path_components("dirname/", "a/dirname/b.txt"));
    assert!(pattern_matches_path_components("dirname/", "dirname"));
    assert!(!pattern_matches_path_components("dirname/", "other.txt"));
    assert!(!pattern_matches_path_components("dirname/", "the-dirname"));
    assert!(pattern_matches_path_components("a/b/", "x/a/b/f"));
    assert!(pattern_matches_path_components("a/b/", "/a/b"));
    assert!(pattern_matches_path_components("a/b/", "a/b"));
}

#[test]
fn test_pattern_matches_path_components_trailing_slash_equivalence() {
    let no_slash = "dirname";
    let with_slash = "dirname/";
    for rel in ["dirname/a.txt", "a/dirname/b.txt", "dirname", "other.txt", "x/dirname/y"] {
        assert_eq!(
            pattern_matches_path_components(no_slash, rel),
            pattern_matches_path_components(with_slash, rel),
            "trailing slash changed matching for {:?}",
            rel
        );
    }
}

#[test]
fn test_pattern_matches_path_components_trailing_slash_path() {
    assert!(pattern_matches_path_components("dirname", "dirname/"));
    assert!(!pattern_matches_path_components("dirname/", "a/dirname/"));
    assert!(!pattern_matches_path_components("abc\\.c", "the-abc.c/"));
}

#[test]
fn invalid_patterns_never_match() {
    assert!(!pattern_matches_path_components("(", "("));
    assert!(!pattern_matches_path_components(".*(", "a/("));
    assert!(!pattern_matches_path_components("a/(", "a/("));
}

fn lines(v: &[&str]) -> Vec<String> {
    v.iter().map(|s| s.to_string()).collect()
}

#[test]
fn ignore_file_lines_drop_comments_and_blanks() {
    let pats = ignore_patterns_from_lines(&lines(&[
        "# a comment",
        "",
        r"\.cache   # trailing comment",
        r"keep\#hash",
        "#",
        r"x\#y#z",
    ]));
    assert_eq!(pats, vec![r"\.cache   ".to_string(), r"keep\#hash".to_string(), r"x\#y".to_string()]);
}

#[test]
fn ignore_set_matching() {
    let set = ignore_set_from_lines(&lines(&[r"\.cache", "node_modules/", r"secret\.txt"])).unwrap();
    let rel = ".cache/x/y";
    assert_eq!(check_path_matches_regex_component_wise(&set, rel), Some(r"\.cache".to_string()));
    assert_eq!(check_path_matches_regex_component_wise(&set, "a/node_modules/b.js"), Some("node_modules/".to_string()));
    assert_eq!(check_path_matches_regex_component_wise(&set, "a/secret.txt"), None);
    assert_eq!(check_path_matches_regex_component_wise(&set, "secret.txt"), Some(r"secret\.txt".to_string()));
    assert!(is_dir_ignored(&set, ".cache"));
    assert!(!is_dir_ignored(&set, "src"));
    assert_eq!(dir_ignore_pattern(&set, "x/node_modules"), Some("node_modules/".to_string()));
    assert_eq!(check_path_matches_regex_component_wise(&set, "."), None);
}

#[test]
fn substring_matching_finds_the_first_pattern_anywhere() {
    let set = IgnoreSet::from_patterns(&vec![r"\.gnupg".to_string(), r"\.ssh".to_string()]).unwrap();
    assert_eq!(check_path_matches_regex_substring(&set, "/home/u/.ssh/config"), Some(r"\.ssh".to_string()));
    assert_eq!(check_path_matches_regex_substring(&set, "/home/u/.bashrc"), None);
    let empty = IgnoreSet::empty();
    assert_eq!(check_path_matches_regex_substring(&empty, "anything"), None);
}

#[test]
fn uncompilable_pattern_is_reported() {
    assert!(ignore_set_from_lines(&lines(&["("])).is_err());
    assert!(ignore_set_from_lines(&lines(&["# only comments"])).unwrap().pattern_list().is_empty());
}

#[test]
fn pull_walks_paths_whose_name_is_no_dotfile() {
    assert!(dfm::ignore::pull_walks("a/b.txt"));
    assert!(dfm::ignore::pull_walks("bashrc"));
    assert!(!dfm::ignore::pull_walks("a/.hidden"));
    assert!(!dfm::ignore::pull_walks(".bashrc"));
    assert!(!dfm::ignore::pull_walks("x"));
}

#[test]
fn paths_without_a_name_match_no_plain_pattern() {
    assert!(!pattern_matches_path_components("a", ""));
    assert!(!pattern_matches_path_components("a", "."));
    assert!(!pattern_matches_path_components("a", "/"));
    assert!(pattern_matches_path_components(".*", "a"));
}

#[test]
fn component_wise_matching_needs_no_whole_path_match() {
    let set = IgnoreSet::from_patterns(&vec!["^b$".to_string()]).unwrap();
    assert_eq!(check_path_matches_regex_component_wise(&set, "a/b"), Some("^b$".to_string()));
    assert!(dfm::ignore::is_ignored(&set, "a/b"));
}

#[test]
fn blank_lines_are_no_patterns() {
    let pats = ignore_patterns_from_lines(&lines(&["  ", "\t", "x  # c", "   # only comment"]));
    assert_eq!(pats, vec!["x  ".to_string()]);
}

#[test]
fn a_pattern_list_loads_exactly_when_every_pattern_compiles() {
    assert!(dfm::ignore::IgnoreSet::from_patterns(&vec!["a".to_string(), "(".to_string()]).is_err());
    assert!(dfm::ignore::IgnoreSet::from_patterns(&Vec::new()).is_ok());
    let set = dfm::ignore::IgnoreSet::from_patterns(&vec![r"\.ssh".to_string(), "^b$".to_string()]).unwrap();
    assert_eq!(set.pattern_list(), vec![r"\.ssh".to_string(), "^b$".to_string()]);
    assert!(ignore_set_from_lines(&lines(&["# only a comment", "  "])).is_ok());
    assert!(ignore_set_from_lines(&lines(&["ok", "[unclosed"])).is_err());
}
