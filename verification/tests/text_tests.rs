use dfm::text::{lines_of, trim};

#[test]
fn lines_follow_str_lines() {
    let expected: Vec<String> = vec!["a".into(), "b".into(), "".into(), "c".into()];
    assert_eq!(lines_of("a\r\nb\n\nc"), expected);
    assert_eq!(lines_of("a\n"), vec!["a".to_string()]);
    assert!(lines_of("").is_empty());
    for s in ["x\ny\n", "\n\n", "p\r\n", "one"] {
        let std_lines: Vec<String> = s.lines().map(|l| l.to_string()).collect();
        assert_eq!(lines_of(s), std_lines);
    }
}

#[test]
fn trim_drops_surrounding_white_space() {
    assert_eq!(trim("  x y \t\n"), "x y");
    assert_eq!(trim(""), "");
    assert_eq!(trim(" \t "), "");
}
