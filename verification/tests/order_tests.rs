use dfm::commands::StatusCode;
use dfm::order::sort_entries;

fn entry(code: StatusCode, path: &str) -> (StatusCode, String, Option<String>, bool) {
    (code, path.to_string(), None, false)
}

#[test]
fn entries_sort_by_path_then_code() {
    let entries = vec![
        entry(StatusCode::Unmanaged, "b"),
        entry(StatusCode::TargetModified, "a/x"),
        entry(StatusCode::Unmanaged, "a"),
        entry(StatusCode::BothModified, "a/x"),
        entry(StatusCode::Ignored, "Z"),
        entry(StatusCode::Unpulled, "é"),
    ];
    let sorted = sort_entries(&entries);
    let mut expected = entries.clone();
    expected.sort_by_key(|e| (e.1.clone(), e.0.code().to_string()));
    assert_eq!(sorted, expected);
    let paths: Vec<&str> = sorted.iter().map(|e| e.1.as_str()).collect();
    assert_eq!(paths, ["Z", "a", "a/x", "a/x", "b", "é"]);
    assert_eq!(sorted[2].0, StatusCode::TargetModified);
    assert_eq!(sorted[3].0, StatusCode::BothModified);
    assert!(sort_entries(&Vec::new()).is_empty());
}

#[test]
fn entries_of_the_same_path_and_code_keep_their_order() {
    let entries = vec![
        (StatusCode::Ignored, "b".to_string(), Some("p1".to_string()), false),
        (StatusCode::Unmanaged, "a".to_string(), None, false),
        (StatusCode::Ignored, "b".to_string(), Some("p2".to_string()), false),
        (StatusCode::Ignored, "b".to_string(), Some("p0".to_string()), true),
    ];
    let sorted = sort_entries(&entries);
    assert_eq!(sorted[0].1, "a");
    let patterns: Vec<&str> = sorted[1..].iter().map(|e| e.2.as_deref().unwrap()).collect();
    assert_eq!(patterns, ["p1", "p2", "p0"]);
}
