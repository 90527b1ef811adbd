//! What the commands decide from what they find on disk, one step at a time:
//! which tasks `add`, `pull`, `sync`, `forget`, `init` and `purge` queue and
//! which they refuse, and what `diff` compares.

use vstd::prelude::*;
use vstd::hash_map::StringHashMap;
use crate::state::CompareByTimestamp;
use crate::paths::{CompV, Component, components, components_of};
use crate::settings::strings_view;
use crate::text::{chars_of, has_prefix, starts_with, trim, trim_spec, concat_str};

verus! {

// add

/// Whether `add` takes a target file at all: not one inside the source
/// directory, one inside the target directory, and not one of its own files.
pub fn add_in_scope(in_source_dir: bool, in_target_dir: bool, internal: bool) -> (b: bool)
    ensures
        b == (!in_source_dir && in_target_dir && !internal),
{
    !in_source_dir && in_target_dir && !internal
}

/// A target file that an ignore pattern matches: `add` skips it, unless
/// forced, and then removes the pattern from the ignore file. Returns
/// whether to skip, and the pattern to remove.
pub fn add_ignore_step(ignore_match: Option<String>, force: bool) -> (r: (bool, Option<String>))
    ensures
        r.0 == (ignore_match is Some && !force),
        r.1 == (if ignore_match is Some && force { ignore_match } else { None }),
{
    match ignore_match {
        Some(p) => if force { (false, Some(p)) } else { (true, None) },
        None => (false, None),
    }
}

/// Which source copy `add` writes, and whether a plain copy must be checked
/// first.
pub struct AddSource {
    /// The encrypted copy, not the plain one.
    pub encrypted: bool,
    /// A plain copy exists that the encrypted one replaces.
    pub check_plain: bool,
}

/// The encrypted copy when it exists already or encryption is asked for (by
/// flag or by a configured pattern), the plain copy otherwise; a plain copy
/// that an encrypted one replaces is checked first.
pub fn add_choose_source(encrypt_pattern: bool, encrypt_flag: bool, encrypted_exists: bool, plain_exists: bool) -> (r: AddSource)
    ensures
        r.encrypted == (encrypted_exists || encrypt_pattern || encrypt_flag),
        r.check_plain == (r.encrypted && plain_exists),
{
    let encrypt = encrypt_pattern || encrypt_flag;
    let encrypted = encrypted_exists || encrypt;
    AddSource { encrypted, check_plain: encrypted && plain_exists }
}

/// The source copy changed since the last sync (alone or with the target).
pub open spec fn source_changed(cmp: CompareByTimestamp) -> bool {
    cmp is SourceModified || cmp is BothModified
}

/// The target changed since the last sync (alone or with the source).
pub open spec fn target_changed(cmp: CompareByTimestamp) -> bool {
    cmp is TargetModified || cmp is BothModified
}

/// What the check of a plain copy that encryption replaces says: whether
/// `add` goes on, and whether a conflict was seen. Changes in the source
/// (alone or on both sides) are a conflict and stop it unless forced; a copy
/// never synchronized stops it unless its content equals the target's or it
/// is forced.
pub open spec fn plain_check_spec(cmp: CompareByTimestamp, equal: Option<bool>, force: bool) -> (bool, bool) {
    match cmp {
        CompareByTimestamp::BothModified | CompareByTimestamp::SourceModified => (force, true),
        CompareByTimestamp::NonModified | CompareByTimestamp::TargetModified => (true, false),
        CompareByTimestamp::NeverSynchronized => (equal.unwrap() || force, false),
    }
}

/// See `plain_check_spec`; `equal` is needed for a copy never synchronized.
pub fn add_plain_check(cmp: CompareByTimestamp, equal: Option<bool>, force: bool) -> (r: (bool, bool))
    requires
        cmp is NeverSynchronized ==> equal is Some,
    ensures
        r == plain_check_spec(cmp, equal, force),
        source_changed(cmp) ==> r.1 && r.0 == force,
        force ==> r.0,
{
    match cmp {
        CompareByTimestamp::BothModified | CompareByTimestamp::SourceModified => (force, true),
        CompareByTimestamp::NonModified | CompareByTimestamp::TargetModified => (true, false),
        CompareByTimestamp::NeverSynchronized => (equal.unwrap() || force, false),
    }
}

/// What `add` does with a target whose source copy exists.
#[derive(PartialEq, Eq, Structural)]
pub enum AddStep {
    /// Copy the target over the source.
    Proceed,
    /// Leave it.
    Skip,
    /// The copies are equal: only record the sync.
    RecordSync,
}

/// The check of an existing source copy: changes in the source (alone or on
/// both sides) are a conflict and stop `add` unless forced; copies unchanged
/// since the sync are left unless forced; a change in the target alone goes
/// on; copies never synchronized only record the sync when equal, and are a
/// conflict otherwise. Returns the step and whether a conflict was seen.
pub open spec fn source_check_spec(cmp: CompareByTimestamp, equal: Option<bool>, force: bool) -> (AddStep, bool) {
    match cmp {
        CompareByTimestamp::BothModified | CompareByTimestamp::SourceModified =>
            (if force { AddStep::Proceed } else { AddStep::Skip }, true),
        CompareByTimestamp::NonModified => (if force { AddStep::Proceed } else { AddStep::Skip }, false),
        CompareByTimestamp::TargetModified => (AddStep::Proceed, false),
        CompareByTimestamp::NeverSynchronized => if equal.unwrap() {
            (AddStep::RecordSync, false)
        } else {
            (if force { AddStep::Proceed } else { AddStep::Skip }, true)
        },
    }
}

/// See `source_check_spec`; `equal` is needed for copies never
/// synchronized.
pub fn add_source_check(cmp: CompareByTimestamp, equal: Option<bool>, force: bool) -> (r: (AddStep, bool))
    requires
        cmp is NeverSynchronized ==> equal is Some,
    ensures
        r == source_check_spec(cmp, equal, force),
        source_changed(cmp) ==> r.1 && (force <==> r.0 == AddStep::Proceed),
        !force && r.0 == AddStep::Proceed ==> cmp is TargetModified,
        force ==> r.0 != AddStep::Skip,
{
    let go = if force { AddStep::Proceed } else { AddStep::Skip };
    match cmp {
        CompareByTimestamp::BothModified | CompareByTimestamp::SourceModified => (go, true),
        CompareByTimestamp::NonModified => (go, false),
        CompareByTimestamp::TargetModified => (AddStep::Proceed, false),
        CompareByTimestamp::NeverSynchronized => if equal.unwrap() {
            (AddStep::RecordSync, false)
        } else {
            (go, true)
        },
    }
}

/// How `add` copies a target.
#[derive(PartialEq, Eq, Structural)]
pub enum AddKind {
    Copy,
    CopyEncrypted,
    CopyAndSymlink,
}

/// The copy of a target: encrypted when the source copy is; with the target
/// replaced by a symlink when asked for; `None` when both are asked for,
/// which is refused.
pub fn add_kind(symlink: bool, encrypted: bool) -> (r: Option<AddKind>)
    ensures
        r == (if symlink && encrypted {
            None
        } else if encrypted {
            Some(AddKind::CopyEncrypted)
        } else if symlink {
            Some(AddKind::CopyAndSymlink)
        } else {
            Some(AddKind::Copy)
        }),
{
    if symlink && encrypted {
        None
    } else if encrypted {
        Some(AddKind::CopyEncrypted)
    } else if symlink {
        Some(AddKind::CopyAndSymlink)
    } else {
        Some(AddKind::Copy)
    }
}

/// What `add` does with a target symlink.
#[derive(PartialEq, Eq, Structural)]
pub enum SymlinkStep {
    /// Refuse: a symlink cannot be encrypted.
    Refuse,
    /// Leave it.
    Skip,
    /// Write the source pointer file with the symlink's pointee.
    WritePointer,
}

/// A target symlink: refused when encryption is asked for; left when an
/// ignore pattern matches it; its pointer file written when forced or when
/// the existing one points elsewhere; left when the pointer file already
/// points right; written when the pointee lies outside the source directory;
/// left otherwise (the pointee is a managed source copy).
pub open spec fn symlink_step_spec(encrypt: bool, ignored: bool, force: bool, pointer_exists: bool, pointer_matches: bool, pointee_in_source: bool) -> SymlinkStep {
    if encrypt {
        SymlinkStep::Refuse
    } else if ignored {
        SymlinkStep::Skip
    } else if force || (pointer_exists && !pointer_matches) {
        SymlinkStep::WritePointer
    } else if pointer_matches {
        SymlinkStep::Skip
    } else if !pointee_in_source {
        SymlinkStep::WritePointer
    } else {
        SymlinkStep::Skip
    }
}

/// See `symlink_step_spec`.
pub fn add_symlink_step(encrypt: bool, ignored: bool, force: bool, pointer_exists: bool, pointer_matches: bool, pointee_in_source: bool) -> (r: SymlinkStep)
    ensures
        r == symlink_step_spec(encrypt, ignored, force, pointer_exists, pointer_matches, pointee_in_source),
{
    if encrypt {
        SymlinkStep::Refuse
    } else if ignored {
        SymlinkStep::Skip
    } else if force || (pointer_exists && !pointer_matches) {
        SymlinkStep::WritePointer
    } else if pointer_matches {
        SymlinkStep::Skip
    } else if !pointee_in_source {
        SymlinkStep::WritePointer
    } else {
        SymlinkStep::Skip
    }
}

// forget

/// Whether `forget` may delete the source copy of a target file, from their
/// comparison with the last sync: any change on either side refuses it
/// unless forced, with the reason; `None` lets it go.
pub open spec fn forget_spec(cmp: CompareByTimestamp, force: bool) -> Option<Seq<char>> {
    if force {
        None
    } else {
        match cmp {
            CompareByTimestamp::SourceModified => Some("source was modified"@),
            CompareByTimestamp::BothModified => Some("source and target were modified"@),
            CompareByTimestamp::TargetModified => Some("target was modified"@),
            _ => None,
        }
    }
}

/// See `forget_spec`.
pub fn forget_check(cmp: CompareByTimestamp, force: bool) -> (r: Option<&'static str>)
    ensures
        (match r {
            Some(m) => Some(m@),
            None => None,
        }) == forget_spec(cmp, force),
        force ==> r is None,
        !force ==> (r is Some <==> (target_changed(cmp) || source_changed(cmp))),
{
    if force {
        return None;
    }
    match cmp {
        CompareByTimestamp::SourceModified => Some("source was modified"),
        CompareByTimestamp::BothModified => Some("source and target were modified"),
        CompareByTimestamp::TargetModified => Some("target was modified"),
        _ => None,
    }
}

/// What `forget` does with a target symlink.
pub struct ForgetLinkStep {
    /// Remove the link itself.
    pub delete_link: bool,
    /// Check the link's pointer file in the source directory.
    pub check_pointer: bool,
}

/// A target symlink that points into the source directory is a managed link
/// and is removed; its pointer file, when there is one, is checked next.
/// Nothing but a symlink is ever removed from the target directory.
pub fn forget_link_step(is_symlink: bool, points_into_source: bool, pointer_exists: bool) -> (r: ForgetLinkStep)
    ensures
        r.delete_link == (is_symlink && points_into_source),
        r.check_pointer == (is_symlink && pointer_exists),
        r.delete_link ==> is_symlink,
{
    ForgetLinkStep { delete_link: is_symlink && points_into_source, check_pointer: is_symlink && pointer_exists }
}

/// Where a walked path that resolves stands for `forget`.
#[derive(PartialEq, Eq, Structural)]
pub enum ForgetRoute {
    /// In the source directory: the path is a source copy.
    Source,
    /// In the target directory: the path is a target file.
    Target,
    /// Outside both: passed over.
    Outside,
}

/// The source directory is asked first, as it usually lies inside the
/// target directory.
pub fn forget_route(in_source_dir: bool, in_target_dir: bool) -> (r: ForgetRoute)
    ensures
        r == (if in_source_dir { ForgetRoute::Source } else if in_target_dir { ForgetRoute::Target } else { ForgetRoute::Outside }),
{
    if in_source_dir {
        ForgetRoute::Source
    } else if in_target_dir {
        ForgetRoute::Target
    } else {
        ForgetRoute::Outside
    }
}

/// What `forget` does with a walked path that does not resolve.
#[derive(PartialEq, Eq, Structural)]
pub enum ForgetMissingStep {
    /// Remove the path below the source directory that the walked path names.
    DeleteNamedSource,
    /// Remove the source copy of the walked path as a target path.
    DeleteSourceCopy,
    /// Nothing to remove.
    Skip,
}

/// A walked path that does not resolve: the path of the same name below the
/// source directory when it exists, else the source copy of the target
/// path when there is one, else nothing.
pub fn forget_missing_step(named_source_exists: bool, source_copy_exists: bool) -> (r: ForgetMissingStep)
    ensures
        r == (if named_source_exists {
            ForgetMissingStep::DeleteNamedSource
        } else if source_copy_exists {
            ForgetMissingStep::DeleteSourceCopy
        } else {
            ForgetMissingStep::Skip
        }),
{
    if named_source_exists {
        ForgetMissingStep::DeleteNamedSource
    } else if source_copy_exists {
        ForgetMissingStep::DeleteSourceCopy
    } else {
        ForgetMissingStep::Skip
    }
}

/// What `forget` does with a path in the source directory.
#[derive(PartialEq, Eq, Structural)]
pub enum ForgetSourceStep {
    /// Remove it.
    Delete,
    /// It is a symlink pointer whose link exists: check the two agree.
    CheckPointer,
    /// A pointer whose link is gone: nothing to do.
    Skip,
}

/// A source path is removed unless it is a symlink pointer; a pointer is
/// checked against its link when the link exists.
pub fn forget_source_step(is_pointer: bool, link_exists: bool) -> (r: ForgetSourceStep)
    ensures
        r == (if !is_pointer {
            ForgetSourceStep::Delete
        } else if link_exists {
            ForgetSourceStep::CheckPointer
        } else {
            ForgetSourceStep::Skip
        }),
{
    if !is_pointer {
        ForgetSourceStep::Delete
    } else if link_exists {
        ForgetSourceStep::CheckPointer
    } else {
        ForgetSourceStep::Skip
    }
}

/// What `forget` does with a target file.
#[derive(PartialEq, Eq, Structural)]
pub enum ForgetFileStep {
    /// No source copy to remove (a pointer belongs to a symlink, not a file).
    Skip,
    /// Remove the source directory.
    Delete,
    /// Compare the file with its source copy first (see `forget_check`).
    Compare,
}

/// A target file without a plain or encrypted source copy is passed over; a
/// source copy that is a directory is removed; a source file is compared
/// with the target first.
pub fn forget_file_step(variant: Option<SourceVariant>, source_is_dir: bool) -> (r: ForgetFileStep)
    ensures
        r == (match variant {
            None => ForgetFileStep::Skip,
            Some(SourceVariant::Symlink) => ForgetFileStep::Skip,
            Some(_) => if source_is_dir { ForgetFileStep::Delete } else { ForgetFileStep::Compare },
        }),
{
    match variant {
        None => ForgetFileStep::Skip,
        Some(SourceVariant::Symlink) => ForgetFileStep::Skip,
        Some(_) => if source_is_dir { ForgetFileStep::Delete } else { ForgetFileStep::Compare },
    }
}

/// What `forget` does with a state entry that the walk did not reach.
#[derive(PartialEq, Eq, Structural)]
pub enum OrphanStep {
    /// Delete the source copy.
    Delete,
    /// Refuse: the source copy changed since the sync.
    Refuse,
    /// Drop the state entry: its source copy is gone.
    DropState,
}

/// A state entry that the walk did not reach: its source copy is deleted,
/// unless it changed since the sync (then only when forced); an entry whose
/// source copy is gone is dropped.
pub fn forget_orphan(source_exists: bool, source_mtime: i128, sync_mtime: i128, force: bool) -> (r: OrphanStep)
    ensures
        r == (if !source_exists {
            OrphanStep::DropState
        } else if source_mtime > sync_mtime && !force {
            OrphanStep::Refuse
        } else {
            OrphanStep::Delete
        }),
        r is Refuse ==> !force && source_exists && source_mtime > sync_mtime,
        force && source_exists ==> r is Delete,
        !source_exists ==> r is DropState,
{
    if !source_exists {
        OrphanStep::DropState
    } else if source_mtime > sync_mtime && !force {
        OrphanStep::Refuse
    } else {
        OrphanStep::Delete
    }
}

/// The keys of `keys` that are not in `done`, in order.
pub open spec fn orphans_spec(keys: Seq<Seq<char>>, done: Seq<Seq<char>>) -> Seq<Seq<char>>
    decreases keys.len(),
{
    if keys.len() == 0 {
        Seq::empty()
    } else {
        orphans_spec(keys.drop_last(), done) + if done.contains(keys.last()) { Seq::empty() } else { seq![keys.last()] }
    }
}

/// The state keys that no queued task covers, see `orphans_spec`.
pub fn orphan_keys(keys: &Vec<String>, done: &Vec<String>) -> (r: Vec<String>)
    ensures
        strings_view(r@) == orphans_spec(strings_view(keys@), strings_view(done@)),
{
    let ghost kv = strings_view(keys@);
    let ghost dv = strings_view(done@);
    let mut seen: StringHashMap<bool> = StringHashMap::new();
    let mut i: usize = 0;
    while i < done.len()
        invariant
            i <= done@.len(),
            dv == strings_view(done@),
            forall|s: Seq<char>| #[trigger] seen@.contains_key(s) <==> dv.take(i as int).contains(s),
        decreases done.len() - i,
    {
        seen.insert(done[i].clone(), true);
        proof {
            assert forall|s: Seq<char>| #[trigger] seen@.contains_key(s) <==> dv.take(i + 1).contains(s) by {
                assert(dv.take(i + 1) =~= dv.take(i as int).push(dv[i as int]));
                if dv.take(i as int).contains(s) {
                    let x = choose|x: int| 0 <= x < dv.take(i as int).len() && dv.take(i as int)[x] == s;
                    assert(dv.take(i + 1)[x] == s);
                }
                if s == dv[i as int] {
                    assert(dv.take(i + 1)[i as int] == s);
                }
            }
        }
        i = i + 1;
    }
    assert(dv.take(done@.len() as int) =~= dv);
    let mut r: Vec<String> = Vec::new();
    let mut j: usize = 0;
    while j < keys.len()
        invariant
            j <= keys@.len(),
            kv == strings_view(keys@),
            forall|s: Seq<char>| #[trigger] seen@.contains_key(s) <==> dv.contains(s),
            strings_view(r@) == orphans_spec(kv.take(j as int), dv),
        decreases keys.len() - j,
    {
        let ghost before = r@;
        assert(kv.take(j + 1).drop_last() =~= kv.take(j as int));
        assert(kv[j as int] == keys@[j as int]@);
        if !seen.contains_key(keys[j].as_str()) {
            r.push(keys[j].clone());
            assert(strings_view(r@) =~= strings_view(before) + seq![kv[j as int]]);
        } else {
            assert(strings_view(r@) =~= strings_view(before) + Seq::empty());
        }
        j = j + 1;
    }
    assert(kv.take(keys@.len() as int) =~= kv);
    r
}

/// A state key at `key` or beneath it (below `key/`).
pub open spec fn in_subtree(k: Seq<char>, key: Seq<char>) -> bool {
    k == key || has_prefix(k, key + seq!['/'])
}

/// The keys at `key` or beneath it, in order.
pub open spec fn subtree_spec(keys: Seq<Seq<char>>, key: Seq<char>) -> Seq<Seq<char>>
    decreases keys.len(),
{
    if keys.len() == 0 {
        Seq::empty()
    } else {
        subtree_spec(keys.drop_last(), key) + if in_subtree(keys.last(), key) { seq![keys.last()] } else { Seq::empty() }
    }
}

/// The state keys that deleting the source object at `key` clears: the key
/// itself and every key beneath it, see `subtree_spec`.
pub fn subtree_keys(keys: &Vec<String>, key: &str) -> (r: Vec<String>)
    ensures
        strings_view(r@) == subtree_spec(strings_view(keys@), key@),
{
    let ghost kv = strings_view(keys@);
    let kc = chars_of(key);
    let prefix = concat_str(key, "/");
    let pc = chars_of(prefix.as_str());
    proof {
        reveal_strlit("/");
        assert(pc@ =~= key@ + seq!['/']);
    }
    let mut r: Vec<String> = Vec::new();
    let mut j: usize = 0;
    while j < keys.len()
        invariant
            j <= keys@.len(),
            kv == strings_view(keys@),
            kc@ == key@,
            pc@ == key@ + seq!['/'],
            strings_view(r@) == subtree_spec(kv.take(j as int), key@),
        decreases keys.len() - j,
    {
        let ghost before = r@;
        assert(kv.take(j + 1).drop_last() =~= kv.take(j as int));
        assert(kv[j as int] == keys@[j as int]@);
        let k = chars_of(keys[j].as_str());
        if crate::text::chars_eq(k.as_slice(), kc.as_slice()) || starts_with(k.as_slice(), pc.as_slice()) {
            r.push(keys[j].clone());
            assert(strings_view(r@) =~= strings_view(before) + seq![kv[j as int]]);
        } else {
            assert(strings_view(r@) =~= strings_view(before) + Seq::empty());
        }
        j = j + 1;
    }
    assert(kv.take(keys@.len() as int) =~= kv);
    r
}

/// The texts joined with `sep` between them.
pub open spec fn join_spec(ts: Seq<Seq<char>>, sep: Seq<char>) -> Seq<char>
    decreases ts.len(),
{
    if ts.len() == 0 {
        Seq::empty()
    } else if ts.len() == 1 {
        ts[0]
    } else {
        join_spec(ts.drop_last(), sep) + sep + ts.last()
    }
}

/// The texts joined with `sep` between them, see `join_spec`.
pub fn join(ts: &Vec<String>, sep: &str) -> (r: String)
    ensures
        r@ == join_spec(strings_view(ts@), sep@),
{
    let ghost tv = strings_view(ts@);
    let mut out = String::new();
    let mut i: usize = 0;
    while i < ts.len()
        invariant
            i <= ts@.len(),
            tv == strings_view(ts@),
            out@ == join_spec(tv.take(i as int), sep@),
        decreases ts.len() - i,
    {
        assert(tv.take(i + 1).drop_last() =~= tv.take(i as int));
        assert(tv[i as int] == ts@[i as int]@);
        if i > 0 {
            out.append(sep);
        } else {
            assert(tv.take(1)[0] == tv[0]);
        }
        out.append(ts[i].as_str());
        i = i + 1;
    }
    assert(tv.take(ts@.len() as int) =~= tv);
    out
}

/// The message of a refused `forget`: its reasons joined with `; `.
pub fn forget_failure(reasons: &Vec<String>) -> (r: String)
    ensures
        r@ == "forget failed: "@ + join_spec(strings_view(reasons@), "; "@),
{
    let joined = join(reasons, "; ");
    concat_str("forget failed: ", joined.as_str())
}

// init

/// The most `.dfm_root` pointers `init` follows.
pub const MAX_POINTER_HOPS: u32 = 8;

/// Whether following one more pointer, the `hops`-th, is too many.
pub fn too_many_hops(hops: u32) -> (b: bool)
    ensures
        b == (hops > MAX_POINTER_HOPS),
{
    hops > MAX_POINTER_HOPS
}

/// What a `.dfm_root` pointer holds, trimmed: `.` ends the search (`Some(None)`);
/// a single plain directory name is followed (`Some(Some(name))`); anything
/// else (an absolute path, `..`, an empty or nested path) is refused (`None`).
pub open spec fn pointer_spec(content: Seq<char>) -> Option<Option<Seq<char>>> {
    let t = trim_spec(content);
    if t == seq!['.'] {
        Some(None)
    } else if components(t).len() == 1 && components(t)[0] is Normal {
        Some(Some(t))
    } else {
        None
    }
}

/// See `pointer_spec`.
pub fn root_pointer_target(content: &str) -> (r: Option<Option<String>>)
    ensures
        (match r {
            Some(Some(name)) => Some(Some(name@)),
            Some(None) => Some(None),
            None => None,
        }) == pointer_spec(content@),
{
    let t = trim(content);
    let tc = chars_of(t.as_str());
    if tc.len() == 1 && tc[0] == '.' {
        assert(tc@ =~= seq!['.']);
        return Some(None);
    }
    assert(tc@ != seq!['.']);
    let comps = components_of(tc.as_slice());
    proof {
        assert(crate::paths::comps_view(comps@).len() == comps@.len());
    }
    if comps.len() == 1 {
        match &comps[0] {
            Component::Normal(_) => {
                assert(crate::paths::comps_view(comps@)[0] == comps@[0]@);
                return Some(Some(t));
            },
            _ => {
                assert(crate::paths::comps_view(comps@)[0] == comps@[0]@);
            },
        }
    }
    None
}

/// What `init` creates, in order.
#[derive(PartialEq, Eq, Structural)]
pub enum InitTask {
    SourceRootFile,
    SourceIgnoreFile,
    StateFile,
    DefaultConfigFile,
}

/// The tasks of `init`: the source root file when the source directory has
/// none, the source ignore file when its patterns do not cover the root file,
/// the state file when there is none, the configuration file when its place
/// is known and empty.
pub fn init_tasks(root_exists: bool, root_ignored: bool, state_exists: bool, config_missing: bool) -> (r: Vec<InitTask>)
    ensures
        r@ == (if root_exists { Seq::empty() } else { seq![InitTask::SourceRootFile] })
            + (if root_ignored { Seq::empty() } else { seq![InitTask::SourceIgnoreFile] })
            + (if state_exists { Seq::empty() } else { seq![InitTask::StateFile] })
            + (if config_missing { seq![InitTask::DefaultConfigFile] } else { Seq::empty() }),
{
    let mut r: Vec<InitTask> = Vec::new();
    if !root_exists {
        r.push(InitTask::SourceRootFile);
    }
    if !root_ignored {
        r.push(InitTask::SourceIgnoreFile);
    }
    if !state_exists {
        r.push(InitTask::StateFile);
    }
    if config_missing {
        r.push(InitTask::DefaultConfigFile);
    }
    proof {
        let a = if root_exists { Seq::empty() } else { seq![InitTask::SourceRootFile] };
        let b = if root_ignored { Seq::empty() } else { seq![InitTask::SourceIgnoreFile] };
        let c = if state_exists { Seq::empty() } else { seq![InitTask::StateFile] };
        let d = if config_missing { seq![InitTask::DefaultConfigFile] } else { Seq::empty() };
        assert(r@ =~= a + b + c + d);
    }
    r
}

// purge

/// A state entry as `purge` checks it before deleting the source directory:
/// its key, its target path, whether the target is a symlink, the
/// modification times of its copies that could be read, and its sync time.
pub struct PurgeEntry {
    pub key: String,
    pub target_rel: String,
    pub target_is_symlink: bool,
    pub source_mtime: Option<i128>,
    pub target_mtime: Option<i128>,
    pub sync_mtime: i128,
}

/// Whether a modification time is later than the sync.
pub open spec fn newer(t: Option<i128>, sync: i128) -> bool {
    t matches Some(m) && m > sync
}

/// The keys whose source copy changed since the sync (un-pulled), in order;
/// managed symlinks are left out, their data survives the purge.
pub open spec fn unpulled_spec(es: Seq<PurgeEntry>) -> Seq<Seq<char>>
    decreases es.len(),
{
    if es.len() == 0 {
        Seq::empty()
    } else {
        let e = es.last();
        unpulled_spec(es.drop_last()) + if !e.target_is_symlink && newer(e.source_mtime, e.sync_mtime) { seq![e.key@] } else { Seq::empty() }
    }
}

/// The target paths whose target copy changed since the sync (un-pushed), in
/// order; managed symlinks are left out.
pub open spec fn unpushed_spec(es: Seq<PurgeEntry>) -> Seq<Seq<char>>
    decreases es.len(),
{
    if es.len() == 0 {
        Seq::empty()
    } else {
        let e = es.last();
        unpushed_spec(es.drop_last()) + if !e.target_is_symlink && newer(e.target_mtime, e.sync_mtime) { seq![e.target_rel@] } else { Seq::empty() }
    }
}

/// Whether a purge removes the directory that holds the config file as well
/// as the file: only for the default config, and never the home directory. A
/// config named on the command line is removed alone.
pub fn purge_config_dir(custom_config: bool, parent_is_home: bool) -> (b: bool)
    ensures
        b == (!custom_config && !parent_is_home),
{
    !custom_config && !parent_is_home
}

/// What a purge would lose: the un-pulled keys and the un-pushed target
/// paths, see `unpulled_spec` and `unpushed_spec`. A purge without
/// `--force` stops when either is not empty.
pub fn purge_losses(entries: &Vec<PurgeEntry>) -> (r: (Vec<String>, Vec<String>))
    ensures
        strings_view(r.0@) == unpulled_spec(entries@),
        strings_view(r.1@) == unpushed_spec(entries@),
{
    let mut pulled: Vec<String> = Vec::new();
    let mut pushed: Vec<String> = Vec::new();
    let mut i: usize = 0;
    while i < entries.len()
        invariant
            i <= entries@.len(),
            strings_view(pulled@) == unpulled_spec(entries@.take(i as int)),
            strings_view(pushed@) == unpushed_spec(entries@.take(i as int)),
        decreases entries.len() - i,
    {
        let ghost b1 = pulled@;
        let ghost b2 = pushed@;
        assert(entries@.take(i + 1).drop_last() =~= entries@.take(i as int));
        let e = &entries[i];
        let src_newer = match e.source_mtime {
            Some(m) => m > e.sync_mtime,
            None => false,
        };
        let tgt_newer = match e.target_mtime {
            Some(m) => m > e.sync_mtime,
            None => false,
        };
        if !e.target_is_symlink && src_newer {
            pulled.push(e.key.clone());
            assert(strings_view(pulled@) =~= strings_view(b1) + seq![e.key@]);
        } else {
            assert(strings_view(pulled@) =~= strings_view(b1) + Seq::empty());
        }
        if !e.target_is_symlink && tgt_newer {
            pushed.push(e.target_rel.clone());
            assert(strings_view(pushed@) =~= strings_view(b2) + seq![e.target_rel@]);
        } else {
            assert(strings_view(pushed@) =~= strings_view(b2) + Seq::empty());
        }
        i = i + 1;
    }
    assert(entries@.take(entries@.len() as int) =~= entries@);
    (pulled, pushed)
}

// Source copies

/// The form a source copy takes.
#[derive(PartialEq, Eq, Structural)]
pub enum SourceVariant {
    Plain,
    Encrypted,
    Symlink,
}

/// The source copy of a target, tried in order: plain, encrypted, symlink
/// pointer; `None` when none exists.
pub fn source_variant(plain_exists: bool, encrypted_exists: bool, pointer_exists: bool) -> (r: Option<SourceVariant>)
    ensures
        r == (if plain_exists {
            Some(SourceVariant::Plain)
        } else if encrypted_exists {
            Some(SourceVariant::Encrypted)
        } else if pointer_exists {
            Some(SourceVariant::Symlink)
        } else {
            None
        }),
{
    if plain_exists {
        Some(SourceVariant::Plain)
    } else if encrypted_exists {
        Some(SourceVariant::Encrypted)
    } else if pointer_exists {
        Some(SourceVariant::Symlink)
    } else {
        None
    }
}

// pull

/// Whether `pull` copies a source over an existing target, from their
/// comparison with the last sync: conflicting changes and changes in the
/// target alone are refused unless forced (with the reason); copies unchanged
/// since the sync are copied only when forced; a change in the source alone
/// is copied; copies never synchronized are copied only when forced and
/// noted. `Ok((copy, unsynced))`.
pub open spec fn pull_check_spec(cmp: CompareByTimestamp, force: bool) -> Result<(bool, bool), Seq<char>> {
    match cmp {
        CompareByTimestamp::BothModified => if force { Ok((true, false)) } else { Err("target and source have conflicting modifications"@) },
        CompareByTimestamp::NonModified => Ok((force, false)),
        CompareByTimestamp::TargetModified => if force { Ok((true, false)) } else { Err("target was modified"@) },
        CompareByTimestamp::SourceModified => Ok((true, false)),
        CompareByTimestamp::NeverSynchronized => Ok((force, true)),
    }
}

/// See `pull_check_spec`.
pub fn pull_check(cmp: CompareByTimestamp, force: bool) -> (r: Result<(bool, bool), &'static str>)
    ensures
        (match r {
            Ok(x) => Ok(x),
            Err(m) => Err(m@),
        }) == pull_check_spec(cmp, force),
        force ==> (r matches Ok((copy, _)) && copy),
        !force ==> (r is Err <==> target_changed(cmp)),
{
    match cmp {
        CompareByTimestamp::BothModified => if force { Ok((true, false)) } else { Err("target and source have conflicting modifications") },
        CompareByTimestamp::NonModified => Ok((force, false)),
        CompareByTimestamp::TargetModified => if force { Ok((true, false)) } else { Err("target was modified") },
        CompareByTimestamp::SourceModified => Ok((true, false)),
        CompareByTimestamp::NeverSynchronized => Ok((force, true)),
    }
}

/// What `pull` does with a path walked in the source directory.
#[derive(PartialEq, Eq, Structural)]
pub enum PullSourceStep {
    /// Make the target a symlink to what the pointer file holds.
    SymlinkFromPointer,
    /// Decrypt the source into the target.
    Decrypt,
    /// Make the target a symlink to the source copy.
    SymlinkToSource,
    /// Copy the source to the target.
    Copy,
    /// Compare the target with the encrypted source first.
    CompareEncrypted,
    /// Go on as for a path in the target directory.
    AsTarget,
}

/// A source path: with its target missing, a pointer file becomes a symlink,
/// an encrypted copy is decrypted, a plain copy is linked (when symlinks are
/// asked for) or copied; a pointer file whose target symlink points
/// elsewhere updates it; an encrypted copy with a target is compared first;
/// anything else goes on as a target path.
pub open spec fn pull_source_spec(target_exists: bool, target_is_symlink: bool, source_exists: bool, is_pointer: bool,
    is_encrypted: bool, pointer_agrees: bool, must_be_symlink: bool) -> PullSourceStep {
    if !target_exists && source_exists {
        if is_pointer {
            PullSourceStep::SymlinkFromPointer
        } else if is_encrypted {
            PullSourceStep::Decrypt
        } else if must_be_symlink {
            PullSourceStep::SymlinkToSource
        } else {
            PullSourceStep::Copy
        }
    } else if target_is_symlink && source_exists && is_pointer {
        if pointer_agrees { PullSourceStep::AsTarget } else { PullSourceStep::SymlinkFromPointer }
    } else if target_exists && is_encrypted {
        PullSourceStep::CompareEncrypted
    } else {
        PullSourceStep::AsTarget
    }
}

/// See `pull_source_spec`; `pointer_agrees` matters only for a target
/// symlink with a pointer file.
pub fn pull_source_step(target_exists: bool, target_is_symlink: bool, source_exists: bool, is_pointer: bool,
    is_encrypted: bool, pointer_agrees: bool, must_be_symlink: bool) -> (r: PullSourceStep)
    ensures
        r == pull_source_spec(target_exists, target_is_symlink, source_exists, is_pointer, is_encrypted, pointer_agrees, must_be_symlink),
{
    if !target_exists && source_exists {
        if is_pointer {
            PullSourceStep::SymlinkFromPointer
        } else if is_encrypted {
            PullSourceStep::Decrypt
        } else if must_be_symlink {
            PullSourceStep::SymlinkToSource
        } else {
            PullSourceStep::Copy
        }
    } else if target_is_symlink && source_exists && is_pointer {
        if pointer_agrees { PullSourceStep::AsTarget } else { PullSourceStep::SymlinkFromPointer }
    } else if target_exists && is_encrypted {
        PullSourceStep::CompareEncrypted
    } else {
        PullSourceStep::AsTarget
    }
}

/// What `pull` does with an existing target symlink.
#[derive(PartialEq, Eq, Structural)]
pub enum PullLinkStep {
    Skip,
    /// Point it to what the pointer file holds.
    UpdateFromPointer,
    /// Point it to the plain source copy.
    PointToSource,
}

/// An existing target symlink: left when it resolves to its source copy;
/// with a pointer file, left when they agree and updated otherwise; without
/// one, left when it points outside the source directory and pointed to the
/// source copy otherwise.
pub fn pull_link_step(resolves_to_source: bool, pointer_exists: bool, pointer_agrees: bool, points_into_source: bool) -> (r: PullLinkStep)
    ensures
        r == (if resolves_to_source {
            PullLinkStep::Skip
        } else if pointer_exists {
            if pointer_agrees { PullLinkStep::Skip } else { PullLinkStep::UpdateFromPointer }
        } else if !points_into_source {
            PullLinkStep::Skip
        } else {
            PullLinkStep::PointToSource
        }),
{
    if resolves_to_source {
        PullLinkStep::Skip
    } else if pointer_exists {
        if pointer_agrees { PullLinkStep::Skip } else { PullLinkStep::UpdateFromPointer }
    } else if !points_into_source {
        PullLinkStep::Skip
    } else {
        PullLinkStep::PointToSource
    }
}

/// What `pull` does with a missing target.
#[derive(PartialEq, Eq, Structural)]
pub enum PullMissingStep {
    /// Link the target (each file, for a directory) to the plain copy.
    SymlinkToSource,
    /// Copy the plain copy (each file, for a directory).
    Copy,
    /// Decrypt the encrypted copy.
    Decrypt,
    /// Make the target a symlink to what the pointer file holds.
    SymlinkFromPointer,
}

/// A missing target comes from its plain copy (linked or copied), else its
/// encrypted copy, else its pointer file; `None` when it has no source, an
/// error.
pub fn pull_missing_step(plain_exists: bool, encrypted_exists: bool, pointer_exists: bool, must_be_symlink: bool) -> (r: Option<PullMissingStep>)
    ensures
        r == (if plain_exists {
            Some(if must_be_symlink { PullMissingStep::SymlinkToSource } else { PullMissingStep::Copy })
        } else if encrypted_exists {
            Some(PullMissingStep::Decrypt)
        } else if pointer_exists {
            Some(PullMissingStep::SymlinkFromPointer)
        } else {
            None
        }),
{
    if plain_exists {
        Some(if must_be_symlink { PullMissingStep::SymlinkToSource } else { PullMissingStep::Copy })
    } else if encrypted_exists {
        Some(PullMissingStep::Decrypt)
    } else if pointer_exists {
        Some(PullMissingStep::SymlinkFromPointer)
    } else {
        None
    }
}

/// A symlink's pointee as `pull` writes it: without a leading `./`.
pub open spec fn pointee_spec(p: Seq<char>) -> Seq<char> {
    if has_prefix(p, seq!['.', '/']) { p.skip(2) } else { p }
}

/// See `pointee_spec`.
pub fn pointee_for_link(p: &str) -> (r: String)
    ensures
        r@ == pointee_spec(p@),
{
    let c = chars_of(p);
    if c.len() >= 2 && c[0] == '.' && c[1] == '/' {
        assert(c@.subrange(0, 2) =~= seq!['.', '/']);
        assert(has_prefix(c@, seq!['.', '/']));
        let rest = crate::text::slice_to_vec(c.as_slice(), 2, c.len());
        assert(rest@ =~= p@.skip(2));
        crate::text::string_of(rest.as_slice())
    } else {
        assert(!has_prefix(p@, seq!['.', '/'])) by {
            if has_prefix(p@, seq!['.', '/']) {
                assert(p@.subrange(0, 2) == seq!['.', '/']);
                assert(p@.subrange(0, 2)[0] == p@[0]);
                assert(p@.subrange(0, 2)[1] == p@[1]);
            }
        }
        p.to_owned()
    }
}

// sync

/// What `sync` does with a managed regular file.
#[derive(PartialEq, Eq, Structural)]
pub enum SyncStep {
    Nothing,
    /// Copy (or decrypt) the source to the target.
    Pull,
    PullEncrypted,
    /// Copy (or encrypt) the target to the source.
    Add,
    AddEncrypted,
    /// Both changed: a conflict, left for `merge`.
    Conflict,
}

/// A managed file with a sync record goes the way its change went: a source
/// change is pulled, a target change added (each through encryption for an
/// encrypted copy); a change on both sides is a conflict; otherwise nothing.
pub fn sync_step(cmp: CompareByTimestamp, encrypted: bool) -> (r: SyncStep)
    ensures
        r == (match cmp {
            CompareByTimestamp::SourceModified => if encrypted { SyncStep::PullEncrypted } else { SyncStep::Pull },
            CompareByTimestamp::TargetModified => if encrypted { SyncStep::AddEncrypted } else { SyncStep::Add },
            CompareByTimestamp::BothModified => SyncStep::Conflict,
            _ => SyncStep::Nothing,
        }),
        (r is Pull || r is PullEncrypted) <==> cmp is SourceModified,
        (r is Add || r is AddEncrypted) <==> cmp is TargetModified,
        r is Conflict <==> cmp is BothModified,
        (r is PullEncrypted || r is AddEncrypted) ==> encrypted,
        (r is Pull || r is Add) ==> !encrypted,
{
    match cmp {
        CompareByTimestamp::SourceModified => if encrypted { SyncStep::PullEncrypted } else { SyncStep::Pull },
        CompareByTimestamp::TargetModified => if encrypted { SyncStep::AddEncrypted } else { SyncStep::Add },
        CompareByTimestamp::BothModified => SyncStep::Conflict,
        _ => SyncStep::Nothing,
    }
}

// diff

/// What a path given to `diff` resolves to.
#[derive(PartialEq, Eq, Structural)]
pub enum DiffTarget {
    /// A target file and its source copy.
    Pair,
    /// A target symlink: only its pointees are reported.
    TargetSymlink,
    /// A regular target whose source is a pointer file.
    SourcePointer,
    /// Nothing to diff: not managed.
    NotManaged,
    /// Nothing to diff: no such file.
    Missing,
    /// Nothing to diff: an ignore pattern matches.
    Ignored,
    /// Nothing to diff: the source was never pulled.
    NotPulled,
}

/// Which batch template `diff --all` runs for a managed pair.
#[derive(PartialEq, Eq, Structural)]
pub enum BatchSide {
    /// The target changed (alone or with the source).
    Target,
    /// Only the source changed.
    Source,
}

/// `diff --all` shows a changed target with the target template, a change of
/// the source alone with the source template, and nothing for pairs that are
/// up to date or never synchronized.
pub fn batch_diff_side(cmp: CompareByTimestamp) -> (r: Option<BatchSide>)
    ensures
        r == (match cmp {
            CompareByTimestamp::TargetModified | CompareByTimestamp::BothModified => Some(BatchSide::Target),
            CompareByTimestamp::SourceModified => Some(BatchSide::Source),
            _ => None,
        }),
        (r matches Some(BatchSide::Source)) <==> cmp is SourceModified,
        (r matches Some(BatchSide::Target)) <==> target_changed(cmp),
{
    match cmp {
        CompareByTimestamp::TargetModified | CompareByTimestamp::BothModified => Some(BatchSide::Target),
        CompareByTimestamp::SourceModified => Some(BatchSide::Source),
        _ => None,
    }
}

/// Whether `merge` runs the merge tool on a managed pair: both copies exist,
/// the target is no symlink and no pattern ignores it, and the pair
/// conflicts, or the path was named on the command line (then a change on
/// one side is merged too).
pub fn merge_wanted(both_exist: bool, target_is_symlink: bool, ignored: bool, cmp: Option<CompareByTimestamp>, paths_given: bool) -> (r: bool)
    ensures
        r == (both_exist && !target_is_symlink && !ignored && (paths_given || cmp == Some(CompareByTimestamp::BothModified))),
        r ==> both_exist && !target_is_symlink && !ignored,
        r && !paths_given ==> cmp == Some(CompareByTimestamp::BothModified),
        both_exist && !target_is_symlink && !ignored && cmp == Some(CompareByTimestamp::BothModified) ==> r,
{
    if !both_exist || target_is_symlink || ignored {
        return false;
    }
    paths_given || match cmp {
        Some(CompareByTimestamp::BothModified) => true,
        _ => false,
    }
}

/// What `diff --editable` does once the tool accepted the edit.
pub struct EditOutcome {
    /// Write the target copy back to the target.
    pub write_target: bool,
    /// Write the source copy back to the source.
    pub write_source: bool,
    /// Record the pair as synchronized.
    pub record_sync: bool,
}

/// Each side whose copy changed is written back on its own; the pair is
/// recorded as synchronized only when something changed and the two saved
/// copies are equal.
pub fn edit_outcome(target_edited: bool, source_edited: bool, copies_equal: bool) -> (r: EditOutcome)
    ensures
        r.write_target == target_edited,
        r.write_source == source_edited,
        r.record_sync == ((target_edited || source_edited) && copies_equal),
{
    EditOutcome {
        write_target: target_edited,
        write_source: source_edited,
        record_sync: (target_edited || source_edited) && copies_equal,
    }
}

/// A path in the source directory: missing when neither copy exists, not
/// managed when only the target does, ignored when a pattern matches its
/// target, not pulled without a target, a symlink's pointees for a target
/// symlink, else the pair.
pub fn diff_source_path(source_exists: bool, target_exists: bool, ignored: bool, target_is_symlink: bool) -> (r: DiffTarget)
    ensures
        r == (if !source_exists {
            if target_exists { DiffTarget::NotManaged } else { DiffTarget::Missing }
        } else if ignored {
            DiffTarget::Ignored
        } else if !target_exists {
            DiffTarget::NotPulled
        } else if target_is_symlink {
            DiffTarget::TargetSymlink
        } else {
            DiffTarget::Pair
        }),
{
    if !source_exists {
        if target_exists { DiffTarget::NotManaged } else { DiffTarget::Missing }
    } else if ignored {
        DiffTarget::Ignored
    } else if !target_exists {
        DiffTarget::NotPulled
    } else if target_is_symlink {
        DiffTarget::TargetSymlink
    } else {
        DiffTarget::Pair
    }
}

/// A path given as a target: not managed outside the target directory;
/// ignored when a pattern matches; a missing target is not pulled when it
/// has a source copy and missing otherwise; a symlink's pointees for a
/// target symlink; not managed without a source copy; a pointer file when
/// the source copy is one; else the pair.
pub fn diff_target_path(in_target_dir: bool, ignored: bool, target_exists: bool, target_is_symlink: bool, variant: Option<SourceVariant>) -> (r: DiffTarget)
    ensures
        r == (if !in_target_dir {
            DiffTarget::NotManaged
        } else if ignored {
            DiffTarget::Ignored
        } else if !target_exists {
            if variant is Some { DiffTarget::NotPulled } else { DiffTarget::Missing }
        } else if target_is_symlink {
            DiffTarget::TargetSymlink
        } else {
            match variant {
                None => DiffTarget::NotManaged,
                Some(SourceVariant::Symlink) => DiffTarget::SourcePointer,
                Some(_) => DiffTarget::Pair,
            }
        }),
{
    if !in_target_dir {
        DiffTarget::NotManaged
    } else if ignored {
        DiffTarget::Ignored
    } else if !target_exists {
        if variant.is_some() { DiffTarget::NotPulled } else { DiffTarget::Missing }
    } else if target_is_symlink {
        DiffTarget::TargetSymlink
    } else {
        match variant {
            None => DiffTarget::NotManaged,
            Some(SourceVariant::Symlink) => DiffTarget::SourcePointer,
            Some(_) => DiffTarget::Pair,
        }
    }
}

// Laws of the conflict checks

/// `add` never copies over a source copy that changed since the last sync
/// unless forced: such a change is a conflict, and without `--force` the
/// step is to skip; with `--force` it is to copy.
pub proof fn law_add_source_change_needs_force(cmp: CompareByTimestamp, equal: Option<bool>, force: bool)
    requires
        source_changed(cmp),
    ensures
        source_check_spec(cmp, equal, force).1,
        source_check_spec(cmp, equal, false).0 == AddStep::Skip,
        source_check_spec(cmp, equal, true).0 == AddStep::Proceed,
{
}

/// Without `--force`, `add` copies over an existing source copy only when
/// the target alone changed since the last sync.
pub proof fn law_add_unforced_copy_only_target_changes(cmp: CompareByTimestamp, equal: Option<bool>)
    requires
        cmp is NeverSynchronized ==> equal is Some,
    ensures
        source_check_spec(cmp, equal, false).0 == AddStep::Proceed ==> cmp is TargetModified,
{
}

/// `--force` turns every skip of `add` into a copy and changes nothing else:
/// the conflict seen stays the same, and a copy or a recorded sync stays.
pub proof fn law_add_force_only_overrides_skips(cmp: CompareByTimestamp, equal: Option<bool>)
    requires
        cmp is NeverSynchronized ==> equal is Some,
    ensures
        source_check_spec(cmp, equal, true).1 == source_check_spec(cmp, equal, false).1,
        source_check_spec(cmp, equal, false).0 == AddStep::Skip ==> source_check_spec(cmp, equal, true).0 == AddStep::Proceed,
        source_check_spec(cmp, equal, false).0 != AddStep::Skip ==> source_check_spec(cmp, equal, true).0 == source_check_spec(cmp, equal, false).0,
        source_check_spec(cmp, equal, true).0 != AddStep::Skip,
{
}

/// The plain copy that encryption replaces is kept from being overwritten
/// without `--force` when it changed since the last sync; `--force` always
/// lets `add` go on.
pub proof fn law_add_plain_copy_change_needs_force(cmp: CompareByTimestamp, equal: Option<bool>)
    requires
        cmp is NeverSynchronized ==> equal is Some,
    ensures
        source_changed(cmp) ==> !plain_check_spec(cmp, equal, false).0 && plain_check_spec(cmp, equal, false).1,
        plain_check_spec(cmp, equal, true).0,
        plain_check_spec(cmp, equal, true).1 == plain_check_spec(cmp, equal, false).1,
{
}

/// `pull --force` copies the source over the target whatever the comparison.
pub proof fn law_pull_force_always_copies(cmp: CompareByTimestamp)
    ensures
        pull_check_spec(cmp, true) matches Ok((copy, _)) && copy,
{
}

/// Without `--force`, `pull` refuses exactly when the target changed since
/// the last sync, copies when the source alone changed, and leaves copies
/// that did not change.
pub proof fn law_pull_refuses_target_changes(cmp: CompareByTimestamp)
    ensures
        pull_check_spec(cmp, false) is Err <==> target_changed(cmp),
        cmp is SourceModified ==> (pull_check_spec(cmp, false) matches Ok((copy, _)) && copy),
        cmp is NonModified ==> (pull_check_spec(cmp, false) matches Ok((copy, _)) && !copy),
{
}

/// A forced and an unforced `pull` agree wherever the unforced one copies.
pub proof fn law_pull_force_keeps_copies(cmp: CompareByTimestamp)
    ensures
        (pull_check_spec(cmp, false) matches Ok((copy, _)) && copy) ==> pull_check_spec(cmp, true) == pull_check_spec(cmp, false),
{
}

/// `forget --force` overrides every refusal.
pub proof fn law_forget_force_overrides(cmp: CompareByTimestamp)
    ensures
        forget_spec(cmp, true) is None,
{
}

/// Without `--force`, `forget` refuses exactly when either side changed since
/// the last sync.
pub proof fn law_forget_refuses_changes(cmp: CompareByTimestamp)
    ensures
        forget_spec(cmp, false) is Some <==> (target_changed(cmp) || source_changed(cmp)),
{
}

/// `pull` never replaces an existing target that is not a symlink without
/// comparing it first: such a target is either compared with its encrypted
/// source or handled as a target path (with the conflict check); and a
/// missing target whose source exists is always created.
pub proof fn law_pull_keeps_existing_targets(target_exists: bool, target_is_symlink: bool, source_exists: bool, is_pointer: bool,
    is_encrypted: bool, pointer_agrees: bool, must_be_symlink: bool)
    ensures
        ({
            let r = pull_source_spec(target_exists, target_is_symlink, source_exists, is_pointer, is_encrypted, pointer_agrees, must_be_symlink);
            &&& target_exists && !target_is_symlink ==> (r is CompareEncrypted || r is AsTarget)
            &&& target_exists && !target_is_symlink && is_encrypted ==> r is CompareEncrypted
            &&& !target_exists && source_exists ==> !(r is CompareEncrypted || r is AsTarget)
            &&& !target_exists && source_exists && is_encrypted && !is_pointer ==> r is Decrypt
        }),
{
}

/// `add` refuses a symlink that encryption is asked for, leaves an ignored
/// one, and with `--force` always writes the pointer file; without it, a
/// pointer file that already records the pointee is never rewritten.
pub proof fn law_add_symlink_steps(encrypt: bool, ignored: bool, force: bool, pointer_exists: bool, pointer_matches: bool, pointee_in_source: bool)
    ensures
        ({
            let r = symlink_step_spec(encrypt, ignored, force, pointer_exists, pointer_matches, pointee_in_source);
            &&& (r is Refuse <==> encrypt)
            &&& !encrypt && ignored ==> r is Skip
            &&& !encrypt && !ignored && force ==> r is WritePointer
            &&& !force && pointer_matches ==> !(r is WritePointer)
            &&& r is WritePointer ==> !encrypt && !ignored
        }),
{
}

/// A purge is told of every loss: the key of each regular entry whose source
/// copy changed since the sync is among the un-pulled keys, the target path
/// of each whose target copy changed is among the un-pushed paths, and
/// nothing else is.
pub proof fn law_purge_reports_every_loss(es: Seq<PurgeEntry>)
    ensures
        forall|i: int| 0 <= i < es.len() && !es[i].target_is_symlink && newer(es[i].source_mtime, es[i].sync_mtime)
            ==> unpulled_spec(es).contains(#[trigger] es[i].key@),
        forall|i: int| 0 <= i < es.len() && !es[i].target_is_symlink && newer(es[i].target_mtime, es[i].sync_mtime)
            ==> unpushed_spec(es).contains(#[trigger] es[i].target_rel@),
        forall|k: Seq<char>| unpulled_spec(es).contains(k) ==> exists|i: int| 0 <= i < es.len() && #[trigger] es[i].key@ == k
            && !es[i].target_is_symlink && newer(es[i].source_mtime, es[i].sync_mtime),
        forall|k: Seq<char>| unpushed_spec(es).contains(k) ==> exists|i: int| 0 <= i < es.len() && #[trigger] es[i].target_rel@ == k
            && !es[i].target_is_symlink && newer(es[i].target_mtime, es[i].sync_mtime),
    decreases es.len(),
{
    if es.len() > 0 {
        let d = es.drop_last();
        let e = es.last();
        law_purge_reports_every_loss(d);
        let tail_pulled: Seq<Seq<char>> = if !e.target_is_symlink && newer(e.source_mtime, e.sync_mtime) { seq![e.key@] } else { Seq::empty() };
        let tail_pushed: Seq<Seq<char>> = if !e.target_is_symlink && newer(e.target_mtime, e.sync_mtime) { seq![e.target_rel@] } else { Seq::empty() };
        assert(unpulled_spec(es) == unpulled_spec(d) + tail_pulled);
        assert(unpushed_spec(es) == unpushed_spec(d) + tail_pushed);
        assert forall|i: int| 0 <= i < es.len() && !es[i].target_is_symlink && newer(es[i].source_mtime, es[i].sync_mtime)
            implies unpulled_spec(es).contains(#[trigger] es[i].key@) by {
            if i < d.len() {
                assert(es[i] == d[i]);
                let j = choose|j: int| 0 <= j < unpulled_spec(d).len() && unpulled_spec(d)[j] == d[i].key@;
                assert(unpulled_spec(es)[j] == d[i].key@);
            } else {
                assert(unpulled_spec(es)[unpulled_spec(d).len() as int] == e.key@);
            }
        }
        assert forall|i: int| 0 <= i < es.len() && !es[i].target_is_symlink && newer(es[i].target_mtime, es[i].sync_mtime)
            implies unpushed_spec(es).contains(#[trigger] es[i].target_rel@) by {
            if i < d.len() {
                assert(es[i] == d[i]);
                let j = choose|j: int| 0 <= j < unpushed_spec(d).len() && unpushed_spec(d)[j] == d[i].target_rel@;
                assert(unpushed_spec(es)[j] == d[i].target_rel@);
            } else {
                assert(unpushed_spec(es)[unpushed_spec(d).len() as int] == e.target_rel@);
            }
        }
        assert forall|k: Seq<char>| unpulled_spec(es).contains(k) implies exists|i: int| 0 <= i < es.len() && #[trigger] es[i].key@ == k
            && !es[i].target_is_symlink && newer(es[i].source_mtime, es[i].sync_mtime) by {
            let j = choose|j: int| 0 <= j < unpulled_spec(es).len() && unpulled_spec(es)[j] == k;
            if j < unpulled_spec(d).len() {
                assert(unpulled_spec(d)[j] == k);
                assert(unpulled_spec(d).contains(k));
                let i = choose|i: int| 0 <= i < d.len() && #[trigger] d[i].key@ == k
                    && !d[i].target_is_symlink && newer(d[i].source_mtime, d[i].sync_mtime);
                assert(es[i] == d[i]);
            } else {
                assert(es[es.len() - 1] == e);
            }
        }
        assert forall|k: Seq<char>| unpushed_spec(es).contains(k) implies exists|i: int| 0 <= i < es.len() && #[trigger] es[i].target_rel@ == k
            && !es[i].target_is_symlink && newer(es[i].target_mtime, es[i].sync_mtime) by {
            let j = choose|j: int| 0 <= j < unpushed_spec(es).len() && unpushed_spec(es)[j] == k;
            if j < unpushed_spec(d).len() {
                assert(unpushed_spec(d)[j] == k);
                assert(unpushed_spec(d).contains(k));
                let i = choose|i: int| 0 <= i < d.len() && #[trigger] d[i].target_rel@ == k
                    && !d[i].target_is_symlink && newer(d[i].target_mtime, d[i].sync_mtime);
                assert(es[i] == d[i]);
            } else {
                assert(es[es.len() - 1] == e);
            }
        }
    }
}

} // verus!
