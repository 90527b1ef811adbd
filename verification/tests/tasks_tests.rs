use dfm::state::CompareByTimestamp;
use dfm::tasks::{
    add_choose_source, add_ignore_step, add_in_scope, add_kind, add_plain_check, add_source_check, add_symlink_step,
    diff_source_path, diff_target_path, forget_check, forget_failure, forget_orphan, init_tasks, join, orphan_keys,
    pointee_for_link, pull_check, pull_link_step, pull_missing_step, pull_source_step, purge_losses,
    root_pointer_target, source_variant, subtree_keys, sync_step, too_many_hops, AddKind, AddStep, DiffTarget,
    InitTask, OrphanStep, PullLinkStep, PullMissingStep, PullSourceStep, PurgeEntry, SourceVariant, SymlinkStep,
    SyncStep, MAX_POINTER_HOPS,
};

fn strings(v: &[&str]) -> Vec<String> {
    v.iter().map(|s| s.to_string()).collect()
}

#[test]
fn add_scope_excludes_source_and_internal_files() {
    assert!(add_in_scope(false, true, false));
    assert!(!add_in_scope(true, true, false));
    assert!(!add_in_scope(false, false, false));
    assert!(!add_in_scope(false, true, true));
}

#[test]
fn ignored_target_is_skipped_unless_forced() {
    assert_eq!(add_ignore_step(Some("a".to_string()), false), (true, None));
    assert_eq!(add_ignore_step(Some("a".to_string()), true), (false, Some("a".to_string())));
    assert_eq!(add_ignore_step(None, true), (false, None));
}

#[test]
fn encrypted_copy_is_chosen_by_pattern_flag_or_existing_copy() {
    let s = add_choose_source(false, false, false, true);
    assert!(!s.encrypted && !s.check_plain);
    let s = add_choose_source(true, false, false, true);
    assert!(s.encrypted && s.check_plain);
    let s = add_choose_source(false, false, true, false);
    assert!(s.encrypted && !s.check_plain);
}

#[test]
fn plain_copy_next_to_an_encrypted_one() {
    assert_eq!(add_plain_check(CompareByTimestamp::SourceModified, None, false), (false, true));
    assert_eq!(add_plain_check(CompareByTimestamp::BothModified, None, true), (true, true));
    assert_eq!(add_plain_check(CompareByTimestamp::TargetModified, None, false), (true, false));
    assert_eq!(add_plain_check(CompareByTimestamp::NeverSynchronized, Some(false), false), (false, false));
    assert_eq!(add_plain_check(CompareByTimestamp::NeverSynchronized, Some(true), false), (true, false));
}

#[test]
fn add_source_check_decisions() {
    assert!(add_source_check(CompareByTimestamp::TargetModified, None, false) == (AddStep::Proceed, false));
    assert!(add_source_check(CompareByTimestamp::SourceModified, None, false) == (AddStep::Skip, true));
    assert!(add_source_check(CompareByTimestamp::SourceModified, None, true) == (AddStep::Proceed, true));
    assert!(add_source_check(CompareByTimestamp::NonModified, None, false) == (AddStep::Skip, false));
    assert!(add_source_check(CompareByTimestamp::NeverSynchronized, Some(true), false) == (AddStep::RecordSync, false));
    assert!(add_source_check(CompareByTimestamp::NeverSynchronized, Some(false), false) == (AddStep::Skip, true));
}

#[test]
fn add_kind_refuses_encrypted_symlinks() {
    assert!(add_kind(true, true).is_none());
    assert!(add_kind(false, true) == Some(AddKind::CopyEncrypted));
    assert!(add_kind(true, false) == Some(AddKind::CopyAndSymlink));
    assert!(add_kind(false, false) == Some(AddKind::Copy));
}

#[test]
fn add_symlink_step_decisions() {
    assert!(add_symlink_step(true, false, false, false, false, false) == SymlinkStep::Refuse);
    assert!(add_symlink_step(false, true, true, false, false, false) == SymlinkStep::Skip);
    assert!(add_symlink_step(false, false, false, true, false, true) == SymlinkStep::WritePointer);
    assert!(add_symlink_step(false, false, false, true, true, false) == SymlinkStep::Skip);
    assert!(add_symlink_step(false, false, false, false, false, false) == SymlinkStep::WritePointer);
    assert!(add_symlink_step(false, false, false, false, false, true) == SymlinkStep::Skip);
}

#[test]
fn forget_refusals_name_their_reason() {
    assert_eq!(forget_check(CompareByTimestamp::SourceModified, false), Some("source was modified"));
    assert_eq!(forget_check(CompareByTimestamp::BothModified, false), Some("source and target were modified"));
    assert_eq!(forget_check(CompareByTimestamp::TargetModified, false), Some("target was modified"));
    assert_eq!(forget_check(CompareByTimestamp::TargetModified, true), None);
    assert_eq!(forget_check(CompareByTimestamp::NonModified, false), None);
    assert_eq!(forget_failure(&strings(&["a", "b"])), "forget failed: a; b");
    assert_eq!(join(&strings(&["x"]), ", "), "x");
    assert_eq!(join(&Vec::new(), ", "), "");
}

#[test]
fn forget_orphan_decisions() {
    assert!(forget_orphan(false, 5, 1, false) == OrphanStep::DropState);
    assert!(forget_orphan(true, 5, 1, false) == OrphanStep::Refuse);
    assert!(forget_orphan(true, 5, 1, true) == OrphanStep::Delete);
    assert!(forget_orphan(true, 1, 5, false) == OrphanStep::Delete);
}

#[test]
fn orphan_and_subtree_keys() {
    let keys = strings(&["a", "a/b", "ab", "c"]);
    assert_eq!(orphan_keys(&keys, &strings(&["ab", "a"])), strings(&["a/b", "c"]));
    assert_eq!(subtree_keys(&keys, "a"), strings(&["a", "a/b"]));
    assert_eq!(subtree_keys(&keys, "x"), Vec::<String>::new());
}

#[test]
fn root_pointer_values() {
    assert_eq!(root_pointer_target(" .\n"), Some(None));
    assert_eq!(root_pointer_target("dotfiles\n"), Some(Some("dotfiles".to_string())));
    assert_eq!(root_pointer_target("../up"), None);
    assert_eq!(root_pointer_target("/abs"), None);
    assert_eq!(root_pointer_target("a/b"), None);
    assert_eq!(root_pointer_target(""), None);
    assert!(!too_many_hops(MAX_POINTER_HOPS));
    assert!(too_many_hops(MAX_POINTER_HOPS + 1));
}

#[test]
fn init_task_list() {
    assert!(init_tasks(false, false, false, true)
        == vec![InitTask::SourceRootFile, InitTask::SourceIgnoreFile, InitTask::StateFile, InitTask::DefaultConfigFile]);
    assert!(init_tasks(true, true, true, false).is_empty());
    assert!(init_tasks(true, false, true, false) == vec![InitTask::SourceIgnoreFile]);
}

#[test]
fn purge_losses_skip_managed_symlinks() {
    let entry = |key: &str, sym: bool, src: Option<i128>, tgt: Option<i128>| PurgeEntry {
        key: key.to_string(),
        target_rel: format!("t/{}", key),
        target_is_symlink: sym,
        source_mtime: src,
        target_mtime: tgt,
        sync_mtime: 10,
    };
    let entries = vec![
        entry("a", false, Some(11), Some(9)),
        entry("b", true, Some(20), Some(20)),
        entry("c", false, None, Some(12)),
        entry("d", false, Some(10), Some(10)),
    ];
    let (pulled, pushed) = purge_losses(&entries);
    assert_eq!(pulled, strings(&["a"]));
    assert_eq!(pushed, strings(&["t/c"]));
}

#[test]
fn source_variant_preference() {
    assert!(source_variant(true, true, true) == Some(SourceVariant::Plain));
    assert!(source_variant(false, true, true) == Some(SourceVariant::Encrypted));
    assert!(source_variant(false, false, true) == Some(SourceVariant::Symlink));
    assert!(source_variant(false, false, false).is_none());
}

#[test]
fn pull_decisions() {
    assert_eq!(pull_check(CompareByTimestamp::BothModified, false), Err("target and source have conflicting modifications"));
    assert_eq!(pull_check(CompareByTimestamp::TargetModified, false), Err("target was modified"));
    assert_eq!(pull_check(CompareByTimestamp::SourceModified, false), Ok((true, false)));
    assert_eq!(pull_check(CompareByTimestamp::NonModified, true), Ok((true, false)));
    assert_eq!(pull_check(CompareByTimestamp::NeverSynchronized, false), Ok((false, true)));
    assert!(pull_source_step(false, false, true, true, false, false, false) == PullSourceStep::SymlinkFromPointer);
    assert!(pull_source_step(false, false, true, false, true, false, false) == PullSourceStep::Decrypt);
    assert!(pull_source_step(false, false, true, false, false, false, true) == PullSourceStep::SymlinkToSource);
    assert!(pull_source_step(false, false, true, false, false, false, false) == PullSourceStep::Copy);
    assert!(pull_source_step(true, true, true, true, false, true, false) == PullSourceStep::AsTarget);
    assert!(pull_source_step(true, false, true, false, true, false, false) == PullSourceStep::CompareEncrypted);
    assert!(pull_link_step(true, true, false, true) == PullLinkStep::Skip);
    assert!(pull_link_step(false, true, false, true) == PullLinkStep::UpdateFromPointer);
    assert!(pull_link_step(false, false, false, false) == PullLinkStep::Skip);
    assert!(pull_link_step(false, false, false, true) == PullLinkStep::PointToSource);
    assert!(pull_missing_step(true, false, false, true) == Some(PullMissingStep::SymlinkToSource));
    assert!(pull_missing_step(false, true, true, false) == Some(PullMissingStep::Decrypt));
    assert!(pull_missing_step(false, false, true, false) == Some(PullMissingStep::SymlinkFromPointer));
    assert!(pull_missing_step(false, false, false, false).is_none());
    assert_eq!(pointee_for_link("./a/b"), "a/b");
    assert_eq!(pointee_for_link("/x/y"), "/x/y");
}

#[test]
fn sync_step_follows_the_change() {
    assert!(sync_step(CompareByTimestamp::SourceModified, false) == SyncStep::Pull);
    assert!(sync_step(CompareByTimestamp::SourceModified, true) == SyncStep::PullEncrypted);
    assert!(sync_step(CompareByTimestamp::TargetModified, false) == SyncStep::Add);
    assert!(sync_step(CompareByTimestamp::TargetModified, true) == SyncStep::AddEncrypted);
    assert!(sync_step(CompareByTimestamp::BothModified, false) == SyncStep::Conflict);
    assert!(sync_step(CompareByTimestamp::NonModified, false) == SyncStep::Nothing);
}

#[test]
fn diff_path_resolution() {
    assert!(diff_source_path(false, true, false, false) == DiffTarget::NotManaged);
    assert!(diff_source_path(false, false, false, false) == DiffTarget::Missing);
    assert!(diff_source_path(true, true, true, false) == DiffTarget::Ignored);
    assert!(diff_source_path(true, false, false, false) == DiffTarget::NotPulled);
    assert!(diff_source_path(true, true, false, true) == DiffTarget::TargetSymlink);
    assert!(diff_source_path(true, true, false, false) == DiffTarget::Pair);
    assert!(diff_target_path(false, false, true, false, None) == DiffTarget::NotManaged);
    assert!(diff_target_path(true, false, false, false, Some(SourceVariant::Plain)) == DiffTarget::NotPulled);
    assert!(diff_target_path(true, false, true, false, Some(SourceVariant::Symlink)) == DiffTarget::SourcePointer);
    assert!(diff_target_path(true, false, true, false, None) == DiffTarget::NotManaged);
    assert!(diff_target_path(true, false, true, false, Some(SourceVariant::Encrypted)) == DiffTarget::Pair);
}

#[test]
fn editable_diff_writes_changed_sides_and_records_only_equal_results() {
    let o = dfm::tasks::edit_outcome(true, false, true);
    assert!(o.write_target && !o.write_source && o.record_sync);
    let o = dfm::tasks::edit_outcome(true, true, false);
    assert!(o.write_target && o.write_source && !o.record_sync);
    let o = dfm::tasks::edit_outcome(false, false, true);
    assert!(!o.write_target && !o.write_source && !o.record_sync);
}

#[test]
fn batch_diff_and_merge_choices() {
    assert!(dfm::tasks::batch_diff_side(CompareByTimestamp::BothModified) == Some(dfm::tasks::BatchSide::Target));
    assert!(dfm::tasks::batch_diff_side(CompareByTimestamp::TargetModified) == Some(dfm::tasks::BatchSide::Target));
    assert!(dfm::tasks::batch_diff_side(CompareByTimestamp::SourceModified) == Some(dfm::tasks::BatchSide::Source));
    assert!(dfm::tasks::batch_diff_side(CompareByTimestamp::NonModified).is_none());
    assert!(dfm::tasks::batch_diff_side(CompareByTimestamp::NeverSynchronized).is_none());
    assert!(dfm::tasks::merge_wanted(true, false, false, Some(CompareByTimestamp::BothModified), false));
    assert!(!dfm::tasks::merge_wanted(true, false, false, Some(CompareByTimestamp::TargetModified), false));
    assert!(dfm::tasks::merge_wanted(true, false, false, Some(CompareByTimestamp::TargetModified), true));
    assert!(!dfm::tasks::merge_wanted(true, true, false, Some(CompareByTimestamp::BothModified), true));
    assert!(!dfm::tasks::merge_wanted(true, false, true, None, true));
    assert!(!dfm::tasks::merge_wanted(false, false, false, None, true));
}

#[test]
fn purge_keeps_the_directory_of_a_custom_config() {
    assert!(dfm::tasks::purge_config_dir(false, false));
    assert!(!dfm::tasks::purge_config_dir(true, false));
    assert!(!dfm::tasks::purge_config_dir(false, true));
    assert!(!dfm::tasks::purge_config_dir(true, true));
}

#[test]
fn forget_removes_only_links_from_the_target_directory() {
    let s = dfm::tasks::forget_link_step(true, true, true);
    assert!(s.delete_link && s.check_pointer);
    let s = dfm::tasks::forget_link_step(true, false, false);
    assert!(!s.delete_link && !s.check_pointer);
    let s = dfm::tasks::forget_link_step(false, true, true);
    assert!(!s.delete_link && !s.check_pointer);
}

#[test]
fn forget_decides_per_path() {
    assert!(dfm::tasks::forget_route(true, true) == dfm::tasks::ForgetRoute::Source);
    assert!(dfm::tasks::forget_route(false, true) == dfm::tasks::ForgetRoute::Target);
    assert!(dfm::tasks::forget_route(false, false) == dfm::tasks::ForgetRoute::Outside);
    assert!(dfm::tasks::forget_missing_step(true, true) == dfm::tasks::ForgetMissingStep::DeleteNamedSource);
    assert!(dfm::tasks::forget_missing_step(false, true) == dfm::tasks::ForgetMissingStep::DeleteSourceCopy);
    assert!(dfm::tasks::forget_missing_step(false, false) == dfm::tasks::ForgetMissingStep::Skip);
    assert!(dfm::tasks::forget_source_step(false, false) == dfm::tasks::ForgetSourceStep::Delete);
    assert!(dfm::tasks::forget_source_step(true, true) == dfm::tasks::ForgetSourceStep::CheckPointer);
    assert!(dfm::tasks::forget_source_step(true, false) == dfm::tasks::ForgetSourceStep::Skip);
    assert!(dfm::tasks::forget_file_step(None, false) == dfm::tasks::ForgetFileStep::Skip);
    assert!(dfm::tasks::forget_file_step(Some(dfm::tasks::SourceVariant::Symlink), false) == dfm::tasks::ForgetFileStep::Skip);
    assert!(dfm::tasks::forget_file_step(Some(dfm::tasks::SourceVariant::Plain), true) == dfm::tasks::ForgetFileStep::Delete);
    assert!(dfm::tasks::forget_file_step(Some(dfm::tasks::SourceVariant::Encrypted), false) == dfm::tasks::ForgetFileStep::Compare);
}
