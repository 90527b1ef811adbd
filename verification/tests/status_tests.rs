use dfm::commands::StatusCode;
use dfm::status::collapse_shared_dirs;

fn entry(path: &str) -> (StatusCode, String, Option<String>, bool) {
    (StatusCode::Unmanaged, path.to_string(), None, false)
}

fn collapse(
    paths: &[(StatusCode, String, Option<String>, bool)],
    blocked: &[String],
) -> Vec<(StatusCode, String, Option<String>, bool)> {
    let mut examined = 0usize;
    collapse_shared_dirs(&paths.to_vec(), &blocked.to_vec(), &mut examined)
}

fn paths_of(result: &[(StatusCode, String, Option<String>, bool)]) -> Vec<&str> {
    result.iter().map(|(_, path, _, _)| path.as_str()).collect()
}

#[test]
fn single_deep_group_collapses_to_outermost() {
    let paths = vec![entry("a/b/1.txt"), entry("a/b/2.txt"), entry("a/c/3.txt")];
    let result = collapse(&paths, &[]);
    assert_eq!(paths_of(&result), ["a/*"]);
}

#[test]
fn chain_empty_except_collapsing_leaf_folds_only_at_leaf() {
    let paths = vec![
        entry("a/b/c/f1.txt"),
        entry("a/b/c/f2.txt"),
        entry("d/e/g1.txt"),
        entry("d/e/g2.txt"),
    ];
    let result = collapse(&paths, &[]);
    assert_eq!(paths_of(&result), ["a/b/c/*", "d/e/*"]);
}

#[test]
fn parent_with_single_foldable_child_stays_at_child() {
    let paths = vec![entry("p/x/1.txt"), entry("p/x/2.txt")];
    let result = collapse(&paths, &[]);
    assert_eq!(paths_of(&result), ["p/x/*"]);
}

#[test]
fn blocked_prefix_severs_every_ancestor() {
    let paths = vec![
        entry("mixed/one.txt"),
        entry("mixed/three.txt"),
        entry("plain/x.txt"),
        entry("plain/y.txt"),
    ];
    let blocked = vec!["mixed/two.txt".to_string()];
    let result = collapse(&paths, &blocked);
    assert_eq!(
        paths_of(&result),
        ["mixed/one.txt", "mixed/three.txt", "plain/*"]
    );
}

#[test]
fn sibling_folds_remain_independent() {
    let paths = vec![
        entry("dir1/a.txt"),
        entry("dir1/b.txt"),
        entry("dir2/c.txt"),
        entry("dir2/d.txt"),
    ];
    let result = collapse(&paths, &[]);
    assert_eq!(paths_of(&result), ["dir1/*", "dir2/*"]);
}

#[test]
fn folded_entry_is_encrypted_only_when_all_members_are() {
    let a = entry("e/f/1.txt");
    let mut b = entry("e/f/2.txt");
    b.3 = true;
    let result = collapse(&[a, b], &[]);
    assert!(!result[0].3);
    let mut c = entry("e/f/3.txt");
    c.3 = true;
    let mut d = entry("e/f/4.txt");
    d.3 = true;
    let result = collapse(&[c, d], &[]);
    assert!(result[0].3);
}

#[test]
fn root_level_files_and_unshared_dirs_are_kept() {
    let paths = vec![
        entry("root_file.txt"),
        entry("lone/single.txt"),
        entry("a/b/1.txt"),
        entry("a/b/2.txt"),
    ];
    let result = collapse(&paths, &[]);
    assert_eq!(
        paths_of(&result),
        ["root_file.txt", "lone/single.txt", "a/b/*"]
    );
}

#[test]
fn star_component_stops_the_ascent_but_ancestors_above_still_count() {
    let paths = vec![entry("w/*/x"), entry("w/*/y")];
    let result = collapse(&paths, &[]);
    assert_eq!(paths_of(&result), ["w/*"]);
}

#[test]
fn large_bushy_report_completes_quickly() {
    let mut paths = Vec::with_capacity(50_000);
    for d in 0..10_000 {
        for f in 0..5 {
            paths.push(entry(&format!("dir{d}/file{f}.txt")));
        }
    }
    let start = std::time::Instant::now();
    let result = collapse(&paths, &[]);
    assert!(start.elapsed() < std::time::Duration::from_secs(1));
    assert_eq!(result.len(), 10_000);
    assert!(result.iter().all(|(_, path, _, _)| path.ends_with("/*")));
}

#[test]
fn nothing_shared_keeps_every_entry_and_counts_once() {
    let paths = vec![entry("a/1.txt"), entry("b/2.txt"), entry("top.txt")];
    let mut examined = 5usize;
    let result = collapse_shared_dirs(&paths, &Vec::new(), &mut examined);
    assert_eq!(paths_of(&result), ["a/1.txt", "b/2.txt", "top.txt"]);
    assert_eq!(examined, 8);
}

#[test]
fn folding_counts_every_path_twice() {
    let paths = vec![entry("a/1.txt"), entry("a/2.txt")];
    let mut examined = 0usize;
    let result = collapse_shared_dirs(&paths, &Vec::new(), &mut examined);
    assert_eq!(paths_of(&result), ["a/*"]);
    assert_eq!(examined, 4);
}

#[test]
fn folded_entry_takes_the_code_of_its_first_member() {
    let mut a = entry("x/1.txt");
    a.0 = StatusCode::TargetModified;
    let b = entry("x/2.txt");
    let result = collapse(&[a, b], &[]);
    assert_eq!(result.len(), 1);
    assert_eq!(result[0].0, StatusCode::TargetModified);
    assert_eq!(result[0].2, None);
}

#[test]
fn status_code_texts_are_stable() {
    assert_eq!(StatusCode::UpToDate.code(), "--");
    assert_eq!(StatusCode::BothModified.code(), "MM");
    assert_eq!(StatusCode::TargetModified.code(), "M ");
    assert_eq!(StatusCode::SourceModified.code(), " M");
    assert_eq!(StatusCode::NeverSynchronized.code(), "NM");
    assert_eq!(StatusCode::Unpulled.code(), "!?");
    assert_eq!(StatusCode::Unmanaged.code(), "??");
    assert_eq!(StatusCode::UnmanagedSymlink.code(), "?L");
    assert_eq!(StatusCode::ManagedSymlink.code(), "LL");
    assert_eq!(StatusCode::Ignored.code(), "!!");
    assert_eq!(StatusCode::IgnoredSymlink.code(), "!L");
    assert_eq!(StatusCode::StalePattern.code(), "!P");
    assert!(StatusCode::BothModified.is_modified());
    assert!(!StatusCode::Unmanaged.is_managed());
    assert!(StatusCode::ManagedSymlink.is_up_to_date());
    assert!(StatusCode::IgnoredSymlink.is_ignored());
}
