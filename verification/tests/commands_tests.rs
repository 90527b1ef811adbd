use dfm::commands::{
    decrypt_output_path, dedup_strings, encrypt_output_path, handle_encrypted_timestamps,
    handle_symlink_pointer, msg_dry_run, msg_nothing_to_do, msg_tasks_failure, progress_due,
    progress_text, require_force, resolve_dry_run, resolve_tool_command, split_command,
    trim_password_output, ProgressLine,
};
use dfm::error::{io_copy_err, io_err, warn_unreadable, DfmError, IoError, IoErrorKind};
use dfm::state::CompareByTimestamp;

#[test]
fn command_lines_split_on_white_space() {
    let (prog, args) = split_command("  vimdiff {target}\t{source}  {result} ");
    assert_eq!(prog, Some("vimdiff".to_string()));
    assert_eq!(args, vec!["{target}", "{source}", "{result}"]);
    let (prog, args) = split_command(" \t\n");
    assert_eq!(prog, None);
    assert!(args.is_empty());
}

#[test]
fn tool_command_must_be_configured() {
    assert_eq!(resolve_tool_command(&Some("meld".to_string()), "merge", "merge_tool_command").unwrap(), "meld");
    let e = resolve_tool_command(&Some(String::new()), "merge", "merge_tool_command").unwrap_err();
    assert_eq!(e.message(), "no merge tool configured — set merge_tool_command in config");
    assert!(resolve_tool_command(&None, "diff", "diff_tool_command").is_err());
}

#[test]
fn dry_run_and_force() {
    assert!(resolve_dry_run(false, true));
    assert!(!resolve_dry_run(false, false));
    assert!(require_force(true, "x").is_ok());
    assert!(matches!(require_force(false, "needs force"), Err(DfmError::Other(m)) if m == "needs force"));
}

#[test]
fn messages() {
    assert_eq!(msg_dry_run(), "dry run specified, no changes will be made");
    assert_eq!(msg_nothing_to_do(), "nothing to do");
    assert_eq!(msg_tasks_failure(3, 10), "3 of 10 tasks completed before failure");
    assert_eq!(progress_text(50, 200), "processed 50/200 files");
}

#[test]
fn progress_is_reported_about_twenty_times() {
    assert!(!progress_due(10, 50));
    assert!(progress_due(100, 150));
    assert!(!progress_due(101, 150));
    assert!(progress_due(150, 150));
    assert!(progress_due(200, 4000));
    assert!(!progress_due(100, 4000));
}

#[test]
fn progress_line_overwrites_and_clears() {
    let mut p = ProgressLine::new();
    assert_eq!(p.clear_text(), None);
    assert_eq!(p.set_text("long text"), "\rlong text");
    assert_eq!(p.set_text("short"), "\rshort    ");
    assert_eq!(p.clear_text(), Some("\r     \r".to_string()));
    assert_eq!(p.clear_text(), None);
}

#[test]
fn encrypted_pull_decisions() {
    assert_eq!(handle_encrypted_timestamps(CompareByTimestamp::SourceModified, false).unwrap(), true);
    assert_eq!(handle_encrypted_timestamps(CompareByTimestamp::NonModified, false).unwrap(), false);
    assert_eq!(handle_encrypted_timestamps(CompareByTimestamp::NonModified, true).unwrap(), true);
    assert!(handle_encrypted_timestamps(CompareByTimestamp::BothModified, false).is_err());
    assert!(handle_encrypted_timestamps(CompareByTimestamp::TargetModified, false).is_err());
    assert!(handle_encrypted_timestamps(CompareByTimestamp::NeverSynchronized, false).is_err());
    assert_eq!(handle_encrypted_timestamps(CompareByTimestamp::NeverSynchronized, true).unwrap(), true);
}

#[test]
fn symlink_pointer_decisions() {
    assert!(handle_symlink_pointer("/usr/bin/x", "/usr/bin/x", false));
    assert!(!handle_symlink_pointer("/usr/bin/x", "/usr/bin/y", false));
    assert!(handle_symlink_pointer("/usr/bin/x", "/usr/bin/y", true));
}

#[test]
fn standalone_output_names() {
    assert_eq!(encrypt_output_path("notes.txt", ".encrypted"), "notes.txt.encrypted");
    assert_eq!(decrypt_output_path("notes.txt.encrypted", ".encrypted").unwrap(), "notes.txt");
    assert!(matches!(decrypt_output_path("notes.txt", ".encrypted"), Err(DfmError::InvalidInput(_))));
}

#[test]
fn password_output_loses_one_trailing_line_terminator() {
    assert_eq!(trim_password_output("secret\r\n"), "secret");
    assert_eq!(trim_password_output("se\ncret\n\n"), "se\ncret\n");
    assert_eq!(trim_password_output("pw\n"), "pw");
    assert_eq!(trim_password_output("pw\r"), "pw\r");
    assert_eq!(trim_password_output(""), "");
}

#[test]
fn dedup_removes_consecutive_repeats() {
    let v: Vec<String> = ["a", "a", "b", "a", "a"].iter().map(|s| s.to_string()).collect();
    assert_eq!(dedup_strings(&v), vec!["a", "b", "a"]);
}

#[test]
fn errors_keep_their_kind_and_name_the_path() {
    let e = io_err("/x/y", IoError { kind: IoErrorKind::PermissionDenied, message: "denied".to_string() });
    assert!(e.is_permission_denied());
    assert_eq!(e.message(), "I/O error: /x/y: denied");
    let e = io_copy_err("/a", "/b", IoError { kind: IoErrorKind::NotFound, message: "gone".to_string() });
    assert!(!e.is_permission_denied());
    assert_eq!(e.message(), "I/O error: /a -> /b: gone");
    assert_eq!(DfmError::other("plain").message(), "plain");
    assert_eq!(DfmError::InvalidData("bad".to_string()).message(), "Invalid data: bad");
    assert_eq!(warn_unreadable("/p", "denied"), "skipping unreadable path /p: denied");
}

#[test]
fn elevated_root_is_refused_unless_allowed() {
    assert!(dfm::commands::refuses_elevation(1000, 0, false, false));
    assert!(dfm::commands::refuses_elevation(0, 0, true, false));
    assert!(!dfm::commands::refuses_elevation(0, 0, true, true));
    assert!(!dfm::commands::refuses_elevation(0, 0, false, false));
    assert!(!dfm::commands::refuses_elevation(1000, 1000, true, false));
}

#[test]
fn every_error_variant_has_its_text() {
    assert_eq!(DfmError::Unsupported("u".to_string()).message(), "Unsupported: u");
    assert_eq!(DfmError::NotFound("n".to_string()).message(), "Not found: n");
    assert_eq!(DfmError::InvalidInput("i".to_string()).message(), "Invalid input: i");
    assert_eq!(dfm::error::warn_unreadable("/p", "denied"), "skipping unreadable path /p: denied");
}
