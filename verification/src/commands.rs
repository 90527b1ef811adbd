//! Decisions and texts shared by the commands: splitting tool command lines,
//! the dry-run and force rules, progress reporting, status codes, and the
//! choices made for encrypted sources and symlink pointers.

use vstd::prelude::*;
use crate::text::{chars_of, string_of, concat_str, decimal, dec_spec, has_suffix, ends_with, slice_to_vec};
use crate::error::DfmError;
use crate::settings::{is_white, is_white_exec};
use crate::state::CompareByTimestamp;

verus! {

// Command lines

/// The words of `s`: the maximal runs of characters that are not white
/// space, from left to right, with the run still being read at the end.
pub open spec fn words_acc(s: Seq<char>) -> (Seq<Seq<char>>, Seq<char>)
    decreases s.len(),
{
    if s.len() == 0 {
        (Seq::empty(), Seq::empty())
    } else {
        let (done, cur) = words_acc(s.drop_last());
        if is_white(s.last()) {
            if cur.len() > 0 { (done.push(cur), Seq::empty()) } else { (done, cur) }
        } else {
            (done, cur.push(s.last()))
        }
    }
}

/// The words of `s` (`str::split_whitespace`).
pub open spec fn words(s: Seq<char>) -> Seq<Seq<char>> {
    let (done, cur) = words_acc(s);
    if cur.len() > 0 { done.push(cur) } else { done }
}

/// The words of `s`, see `words`.
pub fn split_whitespace(s: &str) -> (v: Vec<String>)
    ensures
        v@.map_values(|w: String| w@) == words(s@),
{
    let cs = chars_of(s);
    let mut done: Vec<String> = Vec::new();
    let mut cur: Vec<char> = Vec::new();
    let mut i: usize = 0;
    assert(cs@.take(0) =~= Seq::<char>::empty());
    while i < cs.len()
        invariant
            i <= cs@.len(),
            cs@ == s@,
            (done@.map_values(|w: String| w@), cur@) == words_acc(cs@.take(i as int)),
        decreases cs.len() - i,
    {
        let c = cs[i];
        proof {
            assert(cs@.take(i + 1).drop_last() =~= cs@.take(i as int));
            assert(cs@.take(i + 1).last() == c);
        }
        let ghost before = done@.map_values(|w: String| w@);
        if is_white_exec(c) {
            if cur.len() > 0 {
                let w = string_of(cur.as_slice());
                done.push(w);
                cur = Vec::new();
                assert(done@.map_values(|w: String| w@) =~= before.push(w@));
                assert(cur@ =~= Seq::<char>::empty());
            }
        } else {
            cur.push(c);
        }
        i = i + 1;
    }
    assert(cs@.take(cs@.len() as int) =~= cs@);
    if cur.len() > 0 {
        let ghost before = done@.map_values(|w: String| w@);
        let w = string_of(cur.as_slice());
        done.push(w);
        assert(done@.map_values(|w: String| w@) =~= before.push(w@));
    }
    done
}

/// Split a command line template into its program and arguments; no program
/// for an empty or white-space-only command.
pub fn split_command(command: &str) -> (r: (Option<String>, Vec<String>))
    ensures
        words(command@).len() == 0 ==> r.0 is None && r.1@.len() == 0,
        words(command@).len() > 0 ==> (r.0 matches Some(p) && p@ == words(command@)[0])
            && r.1@.map_values(|w: String| w@) == words(command@).drop_first(),
{
    let parts = split_whitespace(command);
    if parts.len() == 0 {
        return (None, Vec::new());
    }
    let mut args: Vec<String> = Vec::new();
    let mut i: usize = 1;
    let ghost pv = parts@.map_values(|w: String| w@);
    while i < parts.len()
        invariant
            1 <= i <= parts@.len(),
            pv == parts@.map_values(|w: String| w@),
            args@.map_values(|w: String| w@) == pv.subrange(1, i as int),
        decreases parts.len() - i,
    {
        let w = parts[i].clone();
        let ghost before = args@.map_values(|w: String| w@);
        args.push(w);
        assert(args@.map_values(|w: String| w@) =~= before.push(pv[i as int]));
        i = i + 1;
        assert(pv.subrange(1, i as int) =~= pv.subrange(1, i - 1).push(pv[i - 1]));
    }
    assert(pv.subrange(1, pv.len() as int) =~= pv.drop_first());
    (Some(parts[0].clone()), args)
}

/// The tool command template configured, or an error naming the setting to
/// configure when it is missing or empty.
pub fn resolve_tool_command(command_opt: &Option<String>, tool_name: &str, config_key: &str) -> (r: Result<String, DfmError>)
    ensures
        match command_opt {
            Some(c) => c@.len() > 0 ==> (r matches Ok(s) && s@ == c@),
            None => true,
        },
        (command_opt is None || command_opt->0@.len() == 0) ==> (r matches Err(e) && e is Other),
{
    match command_opt {
        Some(cmd) => {
            if chars_of(cmd.as_str()).len() > 0 {
                return Ok(cmd.clone());
            }
        },
        None => {},
    }
    let a = concat_str("no ", tool_name);
    let b = concat_str(a.as_str(), " tool configured — set ");
    let c = concat_str(b.as_str(), config_key);
    let d = concat_str(c.as_str(), " in config");
    Err(DfmError::Other(d))
}

/// The effective dry-run value: the command's flag or the global one.
pub fn resolve_dry_run(cmd_dry_run: bool, args_dry_run: bool) -> (b: bool)
    ensures
        b == (cmd_dry_run || args_dry_run),
{
    cmd_dry_run || args_dry_run
}

/// Whether the program refuses to run: with root powers gained by elevation
/// (an effective root user that is not the real user, or root through sudo),
/// unless explicitly allowed. A genuine root session runs.
pub fn refuses_elevation(real_uid: u32, effective_uid: u32, via_sudo: bool, allowed: bool) -> (b: bool)
    ensures
        b == (!allowed && effective_uid == 0 && (real_uid != 0 || via_sudo)),
{
    !allowed && effective_uid == 0 && (real_uid != 0 || via_sudo)
}

/// Refuse without `--force`: an error carrying `msg` unless `force` is set.
pub fn require_force(force: bool, msg: &str) -> (r: Result<(), DfmError>)
    ensures
        force ==> r is Ok,
        !force ==> (r matches Err(DfmError::Other(m)) && m@ == msg@),
{
    if force {
        Ok(())
    } else {
        Err(DfmError::Other(msg.to_owned()))
    }
}

/// Message printed when --dry-run is active.
pub fn msg_dry_run() -> (s: &'static str)
    ensures
        s@ == "dry run specified, no changes will be made"@,
{
    "dry run specified, no changes will be made"
}

/// Message printed when there is nothing to do.
pub fn msg_nothing_to_do() -> (s: &'static str)
    ensures
        s@ == "nothing to do"@,
{
    "nothing to do"
}

/// Message printed when a multi-file command fails partway through.
pub fn msg_tasks_failure(completed: usize, total: usize) -> (s: String)
    ensures
        s@ == dec_spec(completed as nat) + " of "@ + dec_spec(total as nat) + " tasks completed before failure"@,
{
    let a = decimal(completed as u64);
    let b = concat_str(a.as_str(), " of ");
    let t = decimal(total as u64);
    let c = concat_str(b.as_str(), t.as_str());
    concat_str(c.as_str(), " tasks completed before failure")
}

// Progress

/// Whether a bulk operation reports its progress after `done` of `total`
/// items: only batches of at least 100, about 20 times per run (every
/// `max(total / 20, 100)` items) and at the end.
pub open spec fn progress_due_spec(done: nat, total: nat) -> bool {
    let step = if total / 20 > 100 { total / 20 } else { 100 };
    total >= 100 && (done % step == 0 || done == total)
}

/// See `progress_due_spec`.
pub fn progress_due(done: usize, total: usize) -> (b: bool)
    ensures
        b == progress_due_spec(done as nat, total as nat),
{
    let step: usize = if total / 20 > 100 { total / 20 } else { 100 };
    total >= 100 && (done % step == 0 || done == total)
}

/// The text of a bulk operation's progress.
pub fn progress_text(done: usize, total: usize) -> (s: String)
    ensures
        s@ == "processed "@ + dec_spec(done as nat) + "/"@ + dec_spec(total as nat) + " files"@,
{
    let a = concat_str("processed ", decimal(done as u64).as_str());
    let b = concat_str(a.as_str(), "/");
    let c = concat_str(b.as_str(), decimal(total as u64).as_str());
    concat_str(c.as_str(), " files")
}

/// A self-overwriting progress line: how long the line on screen is, and
/// whether one is shown.
pub struct ProgressLine {
    pub last_len: usize,
    pub active: bool,
}

/// `n` spaces.
pub open spec fn spaces(n: nat) -> Seq<char> {
    Seq::new(n, |i: int| ' ')
}

pub fn push_spaces(v: &mut Vec<char>, n: usize)
    ensures
        final(v)@ == old(v)@ + spaces(n as nat),
{
    let mut i: usize = 0;
    while i < n
        invariant
            i <= n,
            v@ == old(v)@ + spaces(i as nat),
        decreases n - i,
    {
        v.push(' ');
        i = i + 1;
        assert(v@ =~= old(v)@ + spaces(i as nat));
    }
}

impl ProgressLine {
    /// No line shown yet.
    pub fn new() -> (p: ProgressLine)
        ensures
            p.last_len == 0,
            !p.active,
    {
        ProgressLine { last_len: 0, active: false }
    }

    /// What replaces the shown line with `text`: a carriage return, the text,
    /// and spaces over what is left of a longer previous line. The line is
    /// then shown, as long as `text` is (in bytes).
    pub fn set_text(&mut self, text: &str) -> (out: String)
        ensures
            out@ == seq!['\r'] + text@ + if text.len() < old(self).last_len {
                spaces((old(self).last_len - text.len()) as nat)
            } else {
                Seq::empty()
            },
            final(self).last_len == text.len(),
            final(self).active,
    {
        let mut v: Vec<char> = Vec::new();
        v.push('\r');
        crate::text::push_all(&mut v, chars_of(text).as_slice());
        if text.len() < self.last_len {
            push_spaces(&mut v, self.last_len - text.len());
        } else {
            assert(v@ =~= seq!['\r'] + text@ + Seq::<char>::empty());
        }
        self.last_len = text.len();
        self.active = true;
        string_of(v.as_slice())
    }

    /// What erases the shown line, if one is shown: a carriage return, spaces
    /// over the line, and a carriage return. No line is shown afterwards.
    pub fn clear_text(&mut self) -> (out: Option<String>)
        ensures
            old(self).active ==> (out matches Some(s) && s@ == seq!['\r'] + spaces(old(self).last_len as nat) + seq!['\r']),
            !old(self).active ==> out is None,
            !final(self).active,
            final(self).last_len == old(self).last_len,
    {
        if self.active {
            let mut v: Vec<char> = Vec::new();
            v.push('\r');
            push_spaces(&mut v, self.last_len);
            v.push('\r');
            self.active = false;
            Some(string_of(v.as_slice()))
        } else {
            None
        }
    }
}

/// What a directory walk found: the files, the error messages, and the
/// directories pruned as ignored.
#[derive(Debug)]
pub struct ListDirectories {
    pub found: Vec<String>,
    pub errors: Vec<String>,
    pub pruned: Vec<String>,
}

/// `v` with consecutive repeats removed (`Vec::dedup`).
pub open spec fn dedup_spec(v: Seq<Seq<char>>) -> Seq<Seq<char>>
    decreases v.len(),
{
    if v.len() == 0 {
        Seq::empty()
    } else if v.len() >= 2 && v.last() == v[v.len() - 2] {
        dedup_spec(v.drop_last())
    } else {
        dedup_spec(v.drop_last()).push(v.last())
    }
}

proof fn lemma_dedup_last(v: Seq<Seq<char>>)
    requires
        v.len() > 0,
    ensures
        dedup_spec(v).len() > 0,
        dedup_spec(v).last() == v.last(),
    decreases v.len(),
{
    if v.len() >= 2 && v.last() == v[v.len() - 2] {
        lemma_dedup_last(v.drop_last());
    }
}

/// `v` with consecutive repeats removed, see `dedup_spec`.
pub fn dedup_strings(v: &Vec<String>) -> (r: Vec<String>)
    ensures
        r@.map_values(|s: String| s@) == dedup_spec(v@.map_values(|s: String| s@)),
{
    let ghost vv = v@.map_values(|s: String| s@);
    let mut r: Vec<String> = Vec::new();
    let mut i: usize = 0;
    assert(vv.take(0) =~= Seq::<Seq<char>>::empty());
    while i < v.len()
        invariant
            i <= v@.len(),
            vv == v@.map_values(|s: String| s@),
            r@.map_values(|s: String| s@) == dedup_spec(vv.take(i as int)),
        decreases v.len() - i,
    {
        let ghost t = vv.take(i + 1);
        proof {
            assert(t.drop_last() =~= vv.take(i as int));
            assert(t.last() == vv[i as int]);
            if i > 0 {
                assert(t[t.len() - 2] == vv[i - 1]);
                lemma_dedup_last(vv.take(i as int));
                assert(vv.take(i as int).last() == vv[i - 1]);
            }
        }
        let ghost before = r@.map_values(|s: String| s@);
        if i > 0 && crate::text::chars_eq(chars_of(v[i].as_str()).as_slice(), chars_of(v[i - 1].as_str()).as_slice()) {
        } else {
            r.push(v[i].clone());
            assert(r@.map_values(|s: String| s@) =~= before.push(vv[i as int]));
        }
        i = i + 1;
    }
    assert(vv.take(v@.len() as int) =~= vv);
    r
}

// Status codes

/// The status of a path in the report.
#[derive(Debug, Clone, Copy, PartialEq, Eq, Structural)]
pub enum StatusCode {
    UpToDate,
    BothModified,
    TargetModified,
    SourceModified,
    NeverSynchronized,
    Unpulled,
    Unmanaged,
    UnmanagedSymlink,
    ManagedSymlink,
    Ignored,
    IgnoredSymlink,
    StalePattern,
}

impl StatusCode {
    /// Modified on one side or both.
    pub fn is_modified(self) -> (b: bool)
        ensures
            b == (self is BothModified || self is TargetModified || self is SourceModified),
    {
        match self {
            StatusCode::BothModified | StatusCode::TargetModified | StatusCode::SourceModified => true,
            _ => false,
        }
    }

    /// Under management.
    pub fn is_managed(self) -> (b: bool)
        ensures
            b == (self is UpToDate || self is BothModified || self is TargetModified || self is SourceModified
                || self is NeverSynchronized || self is Unpulled || self is ManagedSymlink),
    {
        match self {
            StatusCode::UpToDate | StatusCode::BothModified | StatusCode::TargetModified | StatusCode::SourceModified
            | StatusCode::NeverSynchronized | StatusCode::Unpulled | StatusCode::ManagedSymlink => true,
            _ => false,
        }
    }

    /// Ignored.
    pub fn is_ignored(self) -> (b: bool)
        ensures
            b == (self is Ignored || self is IgnoredSymlink),
    {
        match self {
            StatusCode::Ignored | StatusCode::IgnoredSymlink => true,
            _ => false,
        }
    }

    /// Up to date.
    pub fn is_up_to_date(self) -> (b: bool)
        ensures
            b == (self is UpToDate || self is ManagedSymlink),
    {
        match self {
            StatusCode::UpToDate | StatusCode::ManagedSymlink => true,
            _ => false,
        }
    }

    /// The two-letter code, as the report prints it (stable, part of the
    /// porcelain output).
    pub fn code(self) -> (s: &'static str)
        ensures
            s@ == status_code_text(self),
    {
        match self {
            StatusCode::UpToDate => "--",
            StatusCode::BothModified => "MM",
            StatusCode::TargetModified => "M ",
            StatusCode::SourceModified => " M",
            StatusCode::NeverSynchronized => "NM",
            StatusCode::Unpulled => "!?",
            StatusCode::Unmanaged => "??",
            StatusCode::UnmanagedSymlink => "?L",
            StatusCode::ManagedSymlink => "LL",
            StatusCode::Ignored => "!!",
            StatusCode::IgnoredSymlink => "!L",
            StatusCode::StalePattern => "!P",
        }
    }
}

/// The two-letter code of a status.
pub open spec fn status_code_text(c: StatusCode) -> Seq<char> {
    match c {
        StatusCode::UpToDate => "--"@,
        StatusCode::BothModified => "MM"@,
        StatusCode::TargetModified => "M "@,
        StatusCode::SourceModified => " M"@,
        StatusCode::NeverSynchronized => "NM"@,
        StatusCode::Unpulled => "!?"@,
        StatusCode::Unmanaged => "??"@,
        StatusCode::UnmanagedSymlink => "?L"@,
        StatusCode::ManagedSymlink => "LL"@,
        StatusCode::Ignored => "!!"@,
        StatusCode::IgnoredSymlink => "!L"@,
        StatusCode::StalePattern => "!P"@,
    }
}

// Decisions

/// What `pull` does with an encrypted source after comparing it with its
/// target: decrypt it (`Ok(true)`), skip it (`Ok(false)`), or refuse without
/// `--force`. Only a change of the source alone is decrypted without
/// `--force`; unchanged sides are skipped unless forced.
pub open spec fn encrypted_pull_spec(cmp: CompareByTimestamp, force: bool) -> Option<bool> {
    match cmp {
        CompareByTimestamp::SourceModified => Some(true),
        CompareByTimestamp::NonModified => Some(force),
        _ => if force { Some(true) } else { None },
    }
}

/// See `encrypted_pull_spec`; the refusal carries the reason.
pub fn handle_encrypted_timestamps(cmp: CompareByTimestamp, force: bool) -> (r: Result<bool, DfmError>)
    ensures
        match encrypted_pull_spec(cmp, force) {
            Some(b) => r == Ok::<bool, DfmError>(b),
            None => r matches Err(e) && e is Other,
        },
        force ==> r == Ok::<bool, DfmError>(true),
        !force ==> (r is Err <==> (cmp is TargetModified || cmp is BothModified || cmp is NeverSynchronized)),
        cmp is SourceModified ==> r == Ok::<bool, DfmError>(true),
{
    match cmp {
        CompareByTimestamp::BothModified => {
            match require_force(force, "target and encrypted source have conflicting modifications") {
                Ok(()) => Ok(true),
                Err(e) => Err(e),
            }
        },
        CompareByTimestamp::NonModified => Ok(force),
        CompareByTimestamp::TargetModified => {
            match require_force(force, "target was modified") {
                Ok(()) => Ok(true),
                Err(e) => Err(e),
            }
        },
        CompareByTimestamp::SourceModified => Ok(true),
        CompareByTimestamp::NeverSynchronized => {
            match require_force(force, "encrypted source was not synchronized") {
                Ok(()) => Ok(true),
                Err(e) => Err(e),
            }
        },
    }
}

/// Whether `forget` deletes a symlink's pointer file: when it records the
/// symlink's current pointee, or with `--force`.
pub fn handle_symlink_pointer(pointer_content: &str, pointee: &str, force: bool) -> (delete: bool)
    ensures
        delete == (pointer_content@ == pointee@ || force),
        force ==> delete,
        pointer_content@ == pointee@ ==> delete,
{
    let a = chars_of(pointer_content);
    let b = chars_of(pointee);
    crate::text::chars_eq(a.as_slice(), b.as_slice()) || force
}

/// The default output of `encrypt`: the input with the encrypted postfix.
pub fn encrypt_output_path(path: &str, encrypted_postfix: &str) -> (r: String)
    ensures
        r@ == path@ + encrypted_postfix@,
{
    concat_str(path, encrypted_postfix)
}

/// The default output of `decrypt`: the input without the encrypted postfix;
/// an error when the input has none.
pub fn decrypt_output_path(path: &str, encrypted_postfix: &str) -> (r: Result<String, DfmError>)
    ensures
        has_suffix(path@, encrypted_postfix@) ==> (r matches Ok(o) && o@ == path@.take(path@.len() - encrypted_postfix@.len())),
        !has_suffix(path@, encrypted_postfix@) ==> (r matches Err(e) && e is InvalidInput),
{
    let p = chars_of(path);
    let e = chars_of(encrypted_postfix);
    if ends_with(p.as_slice(), e.as_slice()) {
        let r = slice_to_vec(p.as_slice(), 0, p.len() - e.len());
        assert(r@ =~= path@.take(path@.len() - encrypted_postfix@.len()));
        Ok(string_of(r.as_slice()))
    } else {
        let a = concat_str("input has no ", encrypted_postfix);
        let b = concat_str(a.as_str(), " suffix; pass --output to choose the output path");
        Err(DfmError::InvalidInput(b))
    }
}

/// Password providers print a trailing line break: `s` without one trailing
/// line terminator, `\r\n` or `\n`; other text is kept as it is.
pub open spec fn trim_line_end_spec(s: Seq<char>) -> Seq<char> {
    if s.len() >= 2 && s[s.len() - 2] == '\r' && s.last() == '\n' {
        s.take(s.len() - 2)
    } else if s.len() >= 1 && s.last() == '\n' {
        s.drop_last()
    } else {
        s
    }
}

/// See `trim_line_end_spec`.
pub fn trim_password_output(s: &str) -> (r: String)
    ensures
        r@ == trim_line_end_spec(s@),
{
    let cs = chars_of(s);
    let n: usize = cs.len();
    let keep: usize = if n >= 2 && cs[n - 2] == '\r' && cs[n - 1] == '\n' {
        n - 2
    } else if n >= 1 && cs[n - 1] == '\n' {
        n - 1
    } else {
        n
    };
    let r = slice_to_vec(cs.as_slice(), 0, keep);
    assert(r@ =~= trim_line_end_spec(s@));
    string_of(r.as_slice())
}

/// `pull --force` always decrypts an encrypted source over its target;
/// without it, a change of the target (alone or with the source) and a
/// source never synchronized are refused, a change of the source alone is
/// decrypted, and unchanged copies are left.
pub proof fn law_encrypted_pull(cmp: CompareByTimestamp)
    ensures
        encrypted_pull_spec(cmp, true) == Some(true),
        encrypted_pull_spec(cmp, false) is None <==> (cmp is TargetModified || cmp is BothModified || cmp is NeverSynchronized),
        cmp is SourceModified ==> encrypted_pull_spec(cmp, false) == Some(true),
        cmp is NonModified ==> encrypted_pull_spec(cmp, false) == Some(false),
{
}

} // verus!
