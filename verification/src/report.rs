//! The status report: how each managed or walked path is classified, which
//! entries a filter shows, which ignore patterns are in use, and the text of
//! the report.

use vstd::prelude::*;
use crate::cli::StatusArgs;
use crate::commands::{StatusCode, status_code_text};
use crate::state::CompareByTimestamp;
use crate::ignore::{IgnoreSet, regex_search, pattern_matches_spec, pattern_matches_path_components, component_wise_spec, check_path_matches_regex_component_wise};
use crate::paths::{decode_rel_spec, decode_source_rel_path};
use crate::settings::{strings_view, opt_view};
use crate::text::{chars_of, string_of, concat_str, has_prefix, starts_with, slice_to_vec, lines_spec, lines_of, trim, trim_spec, trim_start_spec, split_on};
use crate::tasks::{join, join_spec, target_changed, source_changed};
use crate::status::{entry_view, entries_view, clone_entry, folded_report, collapse_shared_dirs};
use crate::commands::{spaces, push_spaces};
use vstd::hash_map::StringHashMap;
use colored::Colorize;

verus! {

// Classifying entries

/// The code of an ignored entry.
pub open spec fn ignored_code(symlink: bool) -> StatusCode {
    if symlink { StatusCode::IgnoredSymlink } else { StatusCode::Ignored }
}

/// The code of a managed file from its comparison with the last sync.
pub open spec fn compare_code(cmp: CompareByTimestamp) -> StatusCode {
    match cmp {
        CompareByTimestamp::BothModified => StatusCode::BothModified,
        CompareByTimestamp::TargetModified => StatusCode::TargetModified,
        CompareByTimestamp::SourceModified => StatusCode::SourceModified,
        CompareByTimestamp::NonModified => StatusCode::UpToDate,
        CompareByTimestamp::NeverSynchronized => StatusCode::NeverSynchronized,
    }
}

/// `code` reports the comparison `cmp` of a file with its last sync: each
/// change names its own side, an unchanged file is up to date and a file
/// never synchronized is reported as such.
pub open spec fn names_comparison(code: StatusCode, cmp: CompareByTimestamp) -> bool {
    &&& (code is TargetModified <==> cmp is TargetModified)
    &&& (code is SourceModified <==> cmp is SourceModified)
    &&& (code is BothModified <==> cmp is BothModified)
    &&& (code is UpToDate <==> cmp is NonModified)
    &&& (code is NeverSynchronized <==> cmp is NeverSynchronized)
}

/// A state entry in the report: the code and matched pattern it is shown
/// with, or `None` for a stale entry, whose files are gone. A target-side
/// ignore pattern wins over a source-side one; an ignored entry keeps its
/// pattern. A managed symlink is present while its pointer file exists; a
/// regular file is unpulled when only its source exists and is compared with
/// the last sync when both exist.
pub open spec fn state_entry_spec(
    symlink: bool,
    target_match: Option<Seq<char>>,
    source_match: Option<Seq<char>>,
    target_exists: bool,
    source_exists: bool,
    cmp: Option<CompareByTimestamp>,
) -> Option<(StatusCode, Option<Seq<char>>)> {
    if target_match is Some {
        Some((ignored_code(symlink), target_match))
    } else if source_match is Some {
        Some((ignored_code(symlink), source_match))
    } else if symlink {
        if !source_exists {
            None
        } else if target_exists {
            Some((StatusCode::ManagedSymlink, None))
        } else {
            Some((StatusCode::Unpulled, None))
        }
    } else if !target_exists && source_exists {
        Some((StatusCode::Unpulled, None))
    } else if target_exists && source_exists {
        Some((compare_code(cmp.unwrap()), None))
    } else {
        None
    }
}

/// The report entry of a state entry, see `state_entry_spec`. `cmp` is the
/// comparison with the last sync, needed when a regular file that no pattern
/// ignores exists on both sides.
pub fn classify_state_entry(
    symlink: bool,
    target_match: Option<String>,
    source_match: Option<String>,
    target_exists: bool,
    source_exists: bool,
    cmp: Option<CompareByTimestamp>,
) -> (r: Option<(StatusCode, Option<String>)>)
    requires
        (!symlink && target_match is None && source_match is None && target_exists && source_exists) ==> cmp is Some,
    ensures
        (match r {
            Some((code, pattern)) => Some((code, opt_view(pattern))),
            None => None,
        }) == state_entry_spec(symlink, opt_view(target_match), opt_view(source_match), target_exists, source_exists, cmp),
        (!symlink && target_match is None && source_match is None && target_exists && source_exists) ==> (r matches Some((code, p))
            && p is None && names_comparison(code, cmp->0)),
{
    let ignored = if symlink { StatusCode::IgnoredSymlink } else { StatusCode::Ignored };
    if target_match.is_some() {
        return Some((ignored, target_match));
    }
    if source_match.is_some() {
        return Some((ignored, source_match));
    }
    if symlink {
        if !source_exists {
            None
        } else if target_exists {
            Some((StatusCode::ManagedSymlink, None))
        } else {
            Some((StatusCode::Unpulled, None))
        }
    } else if !target_exists && source_exists {
        Some((StatusCode::Unpulled, None))
    } else if target_exists && source_exists {
        let code = match cmp.unwrap() {
            CompareByTimestamp::BothModified => StatusCode::BothModified,
            CompareByTimestamp::TargetModified => StatusCode::TargetModified,
            CompareByTimestamp::SourceModified => StatusCode::SourceModified,
            CompareByTimestamp::NonModified => StatusCode::UpToDate,
            CompareByTimestamp::NeverSynchronized => StatusCode::NeverSynchronized,
        };
        Some((code, None))
    } else {
        None
    }
}

/// A symlink met in the target walk: nothing when its pointer file is in
/// state (the state entry already reports it); a managed symlink, shown only
/// with `all`, when its pointee is a managed source copy; an ignored symlink,
/// shown only when ignored entries are, when a pattern matches; an unmanaged
/// symlink otherwise.
pub open spec fn target_symlink_spec(pointer_in_state: bool, pointee_in_state: bool, ignore_match: Option<Seq<char>>, all: bool, show_ignored: bool) -> Option<(StatusCode, Option<Seq<char>>)> {
    if pointer_in_state {
        None
    } else if pointee_in_state {
        if all { Some((StatusCode::ManagedSymlink, None)) } else { None }
    } else if ignore_match is Some {
        if show_ignored { Some((StatusCode::IgnoredSymlink, ignore_match)) } else { None }
    } else {
        Some((StatusCode::UnmanagedSymlink, None))
    }
}

/// The report entry of a symlink met in the target walk, see
/// `target_symlink_spec`.
pub fn classify_target_symlink(pointer_in_state: bool, pointee_in_state: bool, ignore_match: Option<String>, all: bool, show_ignored: bool) -> (r: Option<(StatusCode, Option<String>)>)
    ensures
        (match r {
            Some((code, pattern)) => Some((code, opt_view(pattern))),
            None => None,
        }) == target_symlink_spec(pointer_in_state, pointee_in_state, opt_view(ignore_match), all, show_ignored),
{
    if pointer_in_state {
        None
    } else if pointee_in_state {
        if all { Some((StatusCode::ManagedSymlink, None)) } else { None }
    } else if ignore_match.is_some() {
        if show_ignored { Some((StatusCode::IgnoredSymlink, ignore_match)) } else { None }
    } else {
        Some((StatusCode::UnmanagedSymlink, None))
    }
}

/// A regular file met in the target walk: nothing when it is in state under
/// any of its source names; an ignored file, shown only when ignored entries
/// are, when a pattern matches; an unmanaged file otherwise.
pub open spec fn target_file_spec(in_state: bool, ignore_match: Option<Seq<char>>, show_ignored: bool) -> Option<(StatusCode, Option<Seq<char>>)> {
    if in_state {
        None
    } else if ignore_match is Some {
        if show_ignored { Some((StatusCode::Ignored, ignore_match)) } else { None }
    } else {
        Some((StatusCode::Unmanaged, None))
    }
}

/// The report entry of a regular file met in the target walk, see
/// `target_file_spec`.
pub fn classify_target_file(in_state: bool, ignore_match: Option<String>, show_ignored: bool) -> (r: Option<(StatusCode, Option<String>)>)
    ensures
        (match r {
            Some((code, pattern)) => Some((code, opt_view(pattern))),
            None => None,
        }) == target_file_spec(in_state, opt_view(ignore_match), show_ignored),
{
    if in_state {
        None
    } else if ignore_match.is_some() {
        if show_ignored { Some((StatusCode::Ignored, ignore_match)) } else { None }
    } else {
        Some((StatusCode::Unmanaged, None))
    }
}

/// The state keys that the report counts as managed.
pub struct ManagedKeys {
    keys: StringHashMap<()>,
}

impl View for ManagedKeys {
    type V = Set<Seq<char>>;

    closed spec fn view(&self) -> Set<Seq<char>> {
        self.keys@.dom()
    }
}

/// Whether a source path is managed under its own name or under that name
/// with the encrypted or the symlink postfix.
pub open spec fn managed_in_any_form(keys: Set<Seq<char>>, source_rel: Seq<char>, encrypted_postfix: Seq<char>, symlink_postfix: Seq<char>) -> bool {
    keys.contains(source_rel) || keys.contains(source_rel + encrypted_postfix) || keys.contains(source_rel + symlink_postfix)
}

impl ManagedKeys {
    /// No key.
    pub fn new() -> (r: ManagedKeys)
        ensures
            r@ == Set::<Seq<char>>::empty(),
    {
        let r = ManagedKeys { keys: StringHashMap::new() };
        assert(r@ =~= Set::<Seq<char>>::empty());
        r
    }

    /// Adds a key.
    pub fn insert(&mut self, key: String)
        ensures
            final(self)@ == old(self)@.insert(key@),
    {
        self.keys.insert(key, ());
        assert(self@ =~= old(self)@.insert(key@));
    }

    /// Takes a key out.
    pub fn remove(&mut self, key: &str)
        ensures
            final(self)@ == old(self)@.remove(key@),
    {
        self.keys.remove(key);
        assert(self@ =~= old(self)@.remove(key@));
    }

    /// Whether the key is there.
    pub fn contains(&self, key: &str) -> (b: bool)
        ensures
            b == self@.contains(key@),
    {
        self.keys.contains_key(key)
    }

    /// See `managed_in_any_form`.
    pub fn managed_in_any_form(&self, source_rel: &str, encrypted_postfix: &str, symlink_postfix: &str) -> (b: bool)
        ensures
            b == managed_in_any_form(self@, source_rel@, encrypted_postfix@, symlink_postfix@),
    {
        if self.keys.contains_key(source_rel) {
            return true;
        }
        let enc = concat_str(source_rel, encrypted_postfix);
        if self.keys.contains_key(enc.as_str()) {
            return true;
        }
        let sym = concat_str(source_rel, symlink_postfix);
        self.keys.contains_key(sym.as_str())
    }
}

/// The record of the source ignore file that matches a state key: the first
/// that matches the key component-wise, else the first that matches the key
/// read back on the target side (with the dot prefix removed).
pub open spec fn source_ignore_spec(patterns: Seq<Seq<char>>, key: Seq<char>, dot_prefix: Seq<char>) -> Option<Seq<char>> {
    match component_wise_spec(patterns, key) {
        Some(p) => Some(p),
        None => component_wise_spec(patterns, decode_rel_spec(key, dot_prefix, false)),
    }
}

/// See `source_ignore_spec`.
pub fn source_ignore_match(set: &IgnoreSet, key: &str, dot_prefix: &str) -> (r: Option<String>)
    ensures
        opt_view(r) == source_ignore_spec(set.patterns(), key@, dot_prefix@),
{
    match check_path_matches_regex_component_wise(set, key) {
        Some(p) => Some(p),
        None => {
            let decoded = decode_source_rel_path(key, dot_prefix, false);
            check_path_matches_regex_component_wise(set, decoded.as_str())
        },
    }
}

// Filtering entries

/// Whether a filter flag that picks categories is set.
pub open spec fn any_category(a: StatusArgs) -> bool {
    a.conflicted || a.modified || a.unmanaged || a.managed || a.unpulled || a.ignored
}

/// Whether the report shows an entry. `--encrypted` shows exactly the
/// encrypted set. Otherwise ignored entries stay hidden unless `--all`,
/// `--ignored` or explicit paths ask for them, up-to-date ones unless `--all`
/// or `--managed` do; with no category flag every other entry shows, and the
/// category flags add up.
pub open spec fn entry_shown_spec(a: StatusArgs, code: StatusCode, encrypted: bool) -> bool {
    if a.encrypted {
        encrypted
    } else if !a.all && !a.ignored && a.paths is None && (code is Ignored || code is IgnoredSymlink) {
        false
    } else if !a.all && !a.managed && (code is UpToDate || code is ManagedSymlink) {
        false
    } else if !any_category(a) {
        true
    } else {
        (a.conflicted && code is BothModified)
            || (a.modified && (code is BothModified || code is TargetModified || code is SourceModified))
            || (a.unmanaged && (code is Unmanaged || code is UnmanagedSymlink))
            || (a.managed && (code is UpToDate || code is BothModified || code is TargetModified || code is SourceModified
                || code is NeverSynchronized || code is Unpulled || code is ManagedSymlink))
            || (a.unpulled && code is Unpulled)
            || (a.ignored && (code is Ignored || code is IgnoredSymlink))
    }
}

/// Whether the report shows an entry, see `entry_shown_spec`.
pub fn entry_shown(a: &StatusArgs, code: StatusCode, encrypted: bool) -> (b: bool)
    ensures
        b == entry_shown_spec(*a, code, encrypted),
{
    if a.encrypted {
        return encrypted;
    }
    if !a.all && !a.ignored && a.paths.is_none() && code.is_ignored() {
        return false;
    }
    if !a.all && !a.managed && code.is_up_to_date() {
        return false;
    }
    let any = a.conflicted || a.modified || a.unmanaged || a.managed || a.unpulled || a.ignored;
    if !any {
        return true;
    }
    (a.conflicted && code == StatusCode::BothModified)
        || (a.modified && code.is_modified())
        || (a.unmanaged && (code == StatusCode::Unmanaged || code == StatusCode::UnmanagedSymlink))
        || (a.managed && code.is_managed())
        || (a.unpulled && code == StatusCode::Unpulled)
        || (a.ignored && code.is_ignored())
}

/// The flags of two filters together.
pub open spec fn union_flags(a: StatusArgs, b: StatusArgs) -> StatusArgs {
    StatusArgs {
        all: a.all || b.all,
        short: a.short || b.short,
        porcelain: a.porcelain || b.porcelain,
        conflicted: a.conflicted || b.conflicted,
        modified: a.modified || b.modified,
        unmanaged: a.unmanaged || b.unmanaged,
        managed: a.managed || b.managed,
        unpulled: a.unpulled || b.unpulled,
        encrypted: a.encrypted || b.encrypted,
        ignored: a.ignored || b.ignored,
        ignored_patterns: a.ignored_patterns || b.ignored_patterns,
        unused_patterns: a.unused_patterns || b.unused_patterns,
        paths: a.paths,
    }
}

/// Filter flags combine additively: two filters that each pick some
/// categories show together exactly what either shows; `--encrypted`
/// overrides every other flag and shows exactly the encrypted entries.
pub proof fn lemma_filters_add_up(a: StatusArgs, b: StatusArgs, code: StatusCode, encrypted: bool)
    requires
        any_category(a),
        any_category(b),
        !a.encrypted,
        !b.encrypted,
        a.all == b.all,
        a.paths == b.paths,
    ensures
        entry_shown_spec(union_flags(a, b), code, encrypted) == (entry_shown_spec(a, code, encrypted) || entry_shown_spec(b, code, encrypted)),
        forall|c: StatusArgs| #[trigger] entry_shown_spec(c, code, encrypted) && c.encrypted ==> encrypted,
        forall|c: StatusArgs| c.encrypted && encrypted ==> #[trigger] entry_shown_spec(c, code, encrypted),
{
}

/// The entries the report shows, in order, see `entry_shown_spec`.
pub open spec fn shown_spec(a: StatusArgs, es: Seq<(StatusCode, Seq<char>, Option<Seq<char>>, bool)>) -> Seq<(StatusCode, Seq<char>, Option<Seq<char>>, bool)>
    decreases es.len(),
{
    if es.len() == 0 {
        Seq::empty()
    } else {
        shown_spec(a, es.drop_last()) + if entry_shown_spec(a, es.last().0, es.last().3) { seq![es.last()] } else { Seq::empty() }
    }
}

/// The entries the report shows, see `shown_spec`.
pub fn shown_entries(a: &StatusArgs, entries: &Vec<(StatusCode, String, Option<String>, bool)>) -> (r: Vec<(StatusCode, String, Option<String>, bool)>)
    ensures
        entries_view(r@) == shown_spec(*a, entries_view(entries@)),
{
    let ghost ev = entries_view(entries@);
    let mut out: Vec<(StatusCode, String, Option<String>, bool)> = Vec::new();
    let mut i: usize = 0;
    while i < entries.len()
        invariant
            i <= entries@.len(),
            ev == entries_view(entries@),
            entries_view(out@) == shown_spec(*a, ev.take(i as int)),
        decreases entries.len() - i,
    {
        let ghost b = entries_view(out@);
        assert(ev[i as int] == entry_view(entries@[i as int]));
        assert(ev.take(i + 1).drop_last() =~= ev.take(i as int));
        if entry_shown(a, entries[i].0, entries[i].3) {
            out.push(clone_entry(&entries[i]));
            assert(entries_view(out@) =~= b + seq![ev[i as int]]);
        } else {
            assert(entries_view(out@) =~= b + Seq::empty());
        }
        i = i + 1;
    }
    assert(ev.take(entries@.len() as int) =~= ev);
    out
}

/// Whether ignored entries of the target walk are shown: with `--all`,
/// `--ignored`, or explicit paths.
pub fn show_ignored(a: &StatusArgs) -> (b: bool)
    ensures
        b == (a.all || a.ignored || a.paths is Some),
{
    a.all || a.ignored || a.paths.is_some()
}

/// Whether a filter narrows the report to some categories, which drops the
/// block of unused patterns.
pub fn restrictive_filter(a: &StatusArgs) -> (b: bool)
    ensures
        b == (any_category(*a) || a.encrypted),
{
    a.conflicted || a.modified || a.unmanaged || a.managed || a.unpulled || a.encrypted || a.ignored
}

// Unused ignore patterns

/// A pattern with an anchor: a `^` or a `$` anywhere in it.
pub open spec fn has_anchor(p: Seq<char>) -> bool {
    p.contains('^') || p.contains('$')
}

/// Whether pattern `p` is in use for the relative paths `paths`: some path
/// matches it component-wise. A pattern without an anchor must also match
/// the path as a substring (the regex set's prefilter); for one with an
/// anchor only the component-wise match counts.
pub open spec fn pattern_used(p: Seq<char>, paths: Seq<Seq<char>>) -> bool {
    exists|j: int| 0 <= j < paths.len() && (has_anchor(p) || regex_search(p, paths[j])) && #[trigger] pattern_matches_spec(p, paths[j])
}

/// The patterns among the first `n` that no path uses, in order.
pub open spec fn unused_spec(pats: Seq<Seq<char>>, paths: Seq<Seq<char>>, n: int) -> Seq<Seq<char>>
    decreases n,
{
    if n <= 0 {
        Seq::empty()
    } else {
        unused_spec(pats, paths, n - 1) + if pattern_used(pats[n - 1], paths) { Seq::empty() } else { seq![pats[n - 1]] }
    }
}

fn contains_char(s: &[char], c: char) -> (b: bool)
    ensures
        b == s@.contains(c),
{
    let mut i: usize = 0;
    while i < s.len()
        invariant
            i <= s@.len(),
            forall|j: int| 0 <= j < i ==> s@[j] != c,
        decreases s.len() - i,
    {
        if s[i] == c {
            return true;
        }
        i = i + 1;
    }
    false
}

/// The patterns of `set` that none of the relative paths `paths` uses, in
/// the set's order, see `pattern_used`.
pub fn unused_patterns(set: &IgnoreSet, paths: &Vec<String>) -> (r: Vec<String>)
    ensures
        strings_view(r@) == unused_spec(set.patterns(), strings_view(paths@), set.patterns().len() as int),
{
    let ghost pats = set.patterns();
    let ghost pv = strings_view(paths@);
    let list = set.pattern_list();
    let np = list.len();
    let mut anchor: Vec<bool> = Vec::new();
    let mut used: Vec<bool> = Vec::new();
    let mut i: usize = 0;
    while i < np
        invariant
            i <= np,
            np == pats.len(),
            strings_view(list@) == pats,
            anchor@.len() == i,
            used@.len() == i,
            forall|x: int| 0 <= x < i ==> #[trigger] anchor@[x] == has_anchor(pats[x]),
            forall|x: int| 0 <= x < i ==> !#[trigger] used@[x],
        decreases np - i,
    {
        let chars = chars_of(list[i].as_str());
        assert(chars@ == pats[i as int]);
        let a = contains_char(chars.as_slice(), '^') || contains_char(chars.as_slice(), '$');
        anchor.push(a);
        used.push(false);
        i = i + 1;
    }
    // Patterns without an anchor: probe each path through the set once, then
    // confirm each hit component-wise.
    let mut j: usize = 0;
    while j < paths.len()
        invariant
            j <= paths@.len(),
            np == pats.len(),
            pats == set.patterns(),
            pv == strings_view(paths@),
            strings_view(list@) == pats,
            anchor@.len() == np,
            used@.len() == np,
            forall|x: int| 0 <= x < np ==> #[trigger] anchor@[x] == has_anchor(pats[x]),
            forall|x: int| 0 <= x < np ==> #[trigger] used@[x] == (!has_anchor(pats[x]) && exists|j2: int| 0 <= j2 < j
                && regex_search(pats[x], pv[j2]) && #[trigger] pattern_matches_spec(pats[x], pv[j2])),
        decreases paths.len() - j,
    {
        assert(pv[j as int] == paths@[j as int]@);
        let hits = set.matching_indices(paths[j].as_str());
        let ghost before = used@;
        let mut h: usize = 0;
        while h < hits.len()
            invariant
                j < paths@.len(),
                h <= hits@.len(),
                np == pats.len(),
                    pv == strings_view(paths@),
                pv[j as int] == paths@[j as int]@,
                strings_view(list@) == pats,
                anchor@.len() == np,
                used@.len() == np,
                before.len() == np,
                forall|x: int| 0 <= x < np ==> #[trigger] anchor@[x] == has_anchor(pats[x]),
                forall|k: int| 0 <= k < hits@.len() ==> (#[trigger] hits@[k]) < pats.len() && regex_search(pats[hits@[k] as int], pv[j as int]),
                forall|x: int| 0 <= x < np ==> #[trigger] used@[x] == (before[x] || (exists|k: int| 0 <= k < h && hits@[k] == x)
                    && !has_anchor(pats[x]) && pattern_matches_spec(pats[x], pv[j as int])),
            decreases hits.len() - h,
        {
            let idx = hits[h];
            assert(list@[idx as int]@ == pats[idx as int]);
            if !anchor[idx] {
                let m = pattern_matches_path_components(list[idx].as_str(), paths[j].as_str());
                if m {
                    used.set(idx, true);
                }
            }
            h = h + 1;
            proof {
                assert forall|x: int| 0 <= x < np implies #[trigger] used@[x] == (before[x] || (exists|k: int| 0 <= k < h && hits@[k] == x)
                    && !has_anchor(pats[x]) && pattern_matches_spec(pats[x], pv[j as int])) by {
                    if exists|k: int| 0 <= k < h && hits@[k] == x {
                        let k = choose|k: int| 0 <= k < h && hits@[k] == x;
                        if k < h - 1 {
                            assert(exists|k2: int| 0 <= k2 < h - 1 && hits@[k2] == x);
                        }
                    }
                    if exists|k: int| 0 <= k < h - 1 && hits@[k] == x {
                        let k = choose|k: int| 0 <= k < h - 1 && hits@[k] == x;
                        assert(0 <= k < h && hits@[k] == x);
                    }
                }
            }
        }
        proof {
            assert forall|x: int| 0 <= x < np implies #[trigger] used@[x] == (!has_anchor(pats[x]) && exists|j2: int| 0 <= j2 < j + 1
                && regex_search(pats[x], pv[j2]) && #[trigger] pattern_matches_spec(pats[x], pv[j2])) by {
                if !has_anchor(pats[x]) && regex_search(pats[x], pv[j as int]) && pattern_matches_spec(pats[x], pv[j as int]) {
                    assert(hits@.contains(x as usize));
                    let k = choose|k: int| 0 <= k < hits@.len() && hits@[k] == x as usize;
                    assert(exists|k2: int| 0 <= k2 < hits@.len() && hits@[k2] == x);
                }
                if exists|j2: int| 0 <= j2 < j + 1 && regex_search(pats[x], pv[j2]) && #[trigger] pattern_matches_spec(pats[x], pv[j2]) {
                    let j2 = choose|j2: int| 0 <= j2 < j + 1 && regex_search(pats[x], pv[j2]) && #[trigger] pattern_matches_spec(pats[x], pv[j2]);
                    if j2 < j && !has_anchor(pats[x]) {
                        assert(before[x]);
                    }
                }
                if exists|k: int| 0 <= k < hits@.len() && hits@[k] == x {
                    let k = choose|k: int| 0 <= k < hits@.len() && hits@[k] == x;
                    assert(regex_search(pats[x], pv[j as int]));
                }
            }
        }
        j = j + 1;
    }
    // Patterns with an anchor: check every path.
    let mut x: usize = 0;
    while x < np
        invariant
            x <= np,
            np == pats.len(),
            pats == set.patterns(),
            pv == strings_view(paths@),
            strings_view(list@) == pats,
            anchor@.len() == np,
            used@.len() == np,
            forall|y: int| 0 <= y < np ==> #[trigger] anchor@[y] == has_anchor(pats[y]),
            forall|y: int| 0 <= y < x ==> #[trigger] used@[y] == pattern_used(pats[y], pv),
            forall|y: int| x <= y < np ==> #[trigger] used@[y] == (!has_anchor(pats[y]) && exists|j2: int| 0 <= j2 < pv.len()
                && regex_search(pats[y], pv[j2]) && #[trigger] pattern_matches_spec(pats[y], pv[j2])),
        decreases np - x,
    {
        assert(list@[x as int]@ == pats[x as int]);
        if anchor[x] {
            let mut j: usize = 0;
            let mut found = false;
            while j < paths.len() && !found
                invariant
                    j <= paths@.len(),
                    x < np,
                    np == pats.len(),
                    pv == strings_view(paths@),
                    list@[x as int]@ == pats[x as int],
                    list@.len() == np,
                    found == exists|j2: int| 0 <= j2 < j && #[trigger] pattern_matches_spec(pats[x as int], pv[j2]),
                decreases paths.len() - j,
            {
                assert(pv[j as int] == paths@[j as int]@);
                if pattern_matches_path_components(list[x].as_str(), paths[j].as_str()) {
                    found = true;
                }
                j = j + 1;
            }
            used.set(x, found);
            proof {
                if found {
                    let j2 = choose|j2: int| 0 <= j2 < j && #[trigger] pattern_matches_spec(pats[x as int], pv[j2]);
                    assert(pattern_used(pats[x as int], pv));
                }
            }
        } else {
            proof {
                if used@[x as int] {
                    let j2 = choose|j2: int| 0 <= j2 < pv.len() && regex_search(pats[x as int], pv[j2]) && #[trigger] pattern_matches_spec(pats[x as int], pv[j2]);
                    assert(pattern_used(pats[x as int], pv));
                }
            }
        }
        x = x + 1;
    }
    // Collect the unused ones in order.
    let mut r: Vec<String> = Vec::new();
    let mut x: usize = 0;
    while x < np
        invariant
            x <= np,
            np == pats.len(),
            pv == strings_view(paths@),
            strings_view(list@) == pats,
            used@.len() == np,
            forall|y: int| 0 <= y < np ==> #[trigger] used@[y] == pattern_used(pats[y], pv),
            strings_view(r@) == unused_spec(pats, pv, x as int),
        decreases np - x,
    {
        let ghost before = r@;
        assert(list@[x as int]@ == pats[x as int]);
        if !used[x] {
            r.push(list[x].clone());
            assert(strings_view(r@) =~= strings_view(before) + seq![pats[x as int]]);
        } else {
            assert(strings_view(r@) =~= strings_view(before) + Seq::<Seq<char>>::empty());
        }
        x = x + 1;
    }
    r
}

// Report text

/// The line of an entry in the porcelain (`sep` a tab) or short (`sep` a
/// space) report.
pub open spec fn entry_line(code: StatusCode, sep: char, path: Seq<char>) -> Seq<char> {
    status_code_text(code) + seq![sep] + path + seq!['\n']
}

/// The lines of the entries.
pub open spec fn entry_lines(es: Seq<(StatusCode, Seq<char>, Option<Seq<char>>, bool)>, sep: char) -> Seq<char>
    decreases es.len(),
{
    if es.len() == 0 {
        Seq::empty()
    } else {
        entry_lines(es.drop_last(), sep) + entry_line(es.last().0, sep, es.last().1)
    }
}

/// The lines of unused patterns.
pub open spec fn stale_lines(ps: Seq<Seq<char>>, sep: Seq<char>) -> Seq<char>
    decreases ps.len(),
{
    if ps.len() == 0 {
        Seq::empty()
    } else {
        stale_lines(ps.drop_last(), sep) + status_code_text(StatusCode::StalePattern) + sep + ps.last() + seq!['\n']
    }
}

fn push_entry_lines(out: &mut String, es: &Vec<(StatusCode, String, Option<String>, bool)>, sep: &str)
    requires
        sep@.len() == 1,
    ensures
        final(out)@ == old(out)@ + entry_lines(entries_view(es@), sep@[0]),
{
    let ghost ev = entries_view(es@);
    let mut i: usize = 0;
    while i < es.len()
        invariant
            i <= es@.len(),
            sep@.len() == 1,
            ev == entries_view(es@),
            out@ == old(out)@ + entry_lines(ev.take(i as int), sep@[0]),
        decreases es.len() - i,
    {
        let ghost before = out@;
        out.append(es[i].0.code());
        out.append(sep);
        out.append(es[i].1.as_str());
        out.append("\n");
        proof {
            reveal_strlit("\n");
            assert(ev.take(i + 1).drop_last() =~= ev.take(i as int));
            assert(ev[i as int] == entry_view(es@[i as int]));
            assert(seq![sep@[0]] =~= sep@);
            assert(out@ =~= before + entry_line(ev[i as int].0, sep@[0], ev[i as int].1));
        }
        i = i + 1;
    }
    assert(ev.take(es@.len() as int) =~= ev);
}

fn push_stale_lines(out: &mut String, ps: &Vec<String>, sep: &str)
    ensures
        final(out)@ == old(out)@ + stale_lines(strings_view(ps@), sep@),
{
    let ghost pv = strings_view(ps@);
    let mut i: usize = 0;
    while i < ps.len()
        invariant
            i <= ps@.len(),
            pv == strings_view(ps@),
            out@ == old(out)@ + stale_lines(pv.take(i as int), sep@),
        decreases ps.len() - i,
    {
        let ghost before = out@;
        out.append(StatusCode::StalePattern.code());
        out.append(sep);
        out.append(ps[i].as_str());
        out.append("\n");
        proof {
            reveal_strlit("\n");
            assert(pv.take(i + 1).drop_last() =~= pv.take(i as int));
            assert(out@ =~= before + status_code_text(StatusCode::StalePattern) + sep@ + pv[i as int] + seq!['\n']);
        }
        i = i + 1;
    }
    assert(pv.take(ps@.len() as int) =~= pv);
}

/// The porcelain report: a code, a tab and the path per entry; with no
/// entry, the unused patterns the same way.
pub open spec fn porcelain_spec(es: Seq<(StatusCode, Seq<char>, Option<Seq<char>>, bool)>, stale: Seq<Seq<char>>) -> Seq<char> {
    entry_lines(es, '\t') + if es.len() == 0 { stale_lines(stale, seq!['\t']) } else { Seq::empty() }
}

/// The porcelain report, see `porcelain_spec`.
pub fn porcelain_report(entries: &Vec<(StatusCode, String, Option<String>, bool)>, stale: &Vec<String>) -> (r: String)
    ensures
        r@ == porcelain_spec(entries_view(entries@), strings_view(stale@)),
{
    let mut out = String::new();
    proof {
        reveal_strlit("\t");
    }
    push_entry_lines(&mut out, entries, "\t");
    if entries.len() == 0 {
        push_stale_lines(&mut out, stale, "\t");
        assert(seq!['\t'] =~= "\t"@);
    }
    out
}

/// The short report: a code, a space and the path per entry.
pub fn short_report(entries: &Vec<(StatusCode, String, Option<String>, bool)>) -> (r: String)
    ensures
        r@ == entry_lines(entries_view(entries@), ' '),
{
    let mut out = String::new();
    proof {
        reveal_strlit(" ");
    }
    push_entry_lines(&mut out, entries, " ");
    out
}

/// The path for display: the home directory itself as `~`, a path inside it
/// with `~` in place of it.
pub open spec fn tilde_spec(path: Seq<char>, home: Option<Seq<char>>) -> Seq<char> {
    match home {
        Some(h) => if path == h {
            seq!['~']
        } else if has_prefix(path, h) && h.len() < path.len() {
            seq!['~'] + path.skip(h.len() as int)
        } else {
            path
        },
        None => path,
    }
}

/// The path for display, see `tilde_spec`.
pub fn tilde_path(path: &str, home: &Option<String>) -> (r: String)
    ensures
        r@ == tilde_spec(path@, opt_view(*home)),
{
    let p = chars_of(path);
    match home {
        Some(h) => {
            let hc = chars_of(h.as_str());
            if crate::text::chars_eq(p.as_slice(), hc.as_slice()) {
                let mut v: Vec<char> = Vec::new();
                v.push('~');
                return string_of(v.as_slice());
            }
            if starts_with(p.as_slice(), hc.as_slice()) && hc.len() < p.len() {
                let mut v: Vec<char> = Vec::new();
                v.push('~');
                let rest = slice_to_vec(p.as_slice(), hc.len(), p.len());
                crate::text::push_all(&mut v, rest.as_slice());
                assert(p@.subrange(hc@.len() as int, p@.len() as int) =~= p@.skip(hc@.len() as int));
                assert(v@ =~= seq!['~'] + p@.skip(hc@.len() as int));
                return string_of(v.as_slice());
            }
            path.to_owned()
        },
        None => path.to_owned(),
    }
}

// The default report

/// The group of the default report a code belongs to: changes to merge, to
/// add, to pull, unpulled, unmanaged, up to date, ignored (7: none).
pub open spec fn group_of(c: StatusCode) -> int {
    match c {
        StatusCode::BothModified => 0,
        StatusCode::TargetModified => 1,
        StatusCode::SourceModified => 2,
        StatusCode::Unpulled => 3,
        StatusCode::Unmanaged | StatusCode::UnmanagedSymlink => 4,
        StatusCode::UpToDate | StatusCode::ManagedSymlink | StatusCode::NeverSynchronized => 5,
        StatusCode::Ignored | StatusCode::IgnoredSymlink => 6,
        StatusCode::StalePattern => 7,
    }
}

fn group_index(c: StatusCode) -> (g: usize)
    ensures
        g == group_of(c),
{
    match c {
        StatusCode::BothModified => 0,
        StatusCode::TargetModified => 1,
        StatusCode::SourceModified => 2,
        StatusCode::Unpulled => 3,
        StatusCode::Unmanaged | StatusCode::UnmanagedSymlink => 4,
        StatusCode::UpToDate | StatusCode::ManagedSymlink | StatusCode::NeverSynchronized => 5,
        StatusCode::Ignored | StatusCode::IgnoredSymlink => 6,
        StatusCode::StalePattern => 7,
    }
}

/// The header of a group.
pub open spec fn group_header(g: int) -> Seq<char> {
    if g == 0 {
        "Changes to merge"@
    } else if g == 1 {
        "Changes to add"@
    } else if g == 2 {
        "Changes to pull"@
    } else if g == 3 {
        "Unpulled"@
    } else if g == 4 {
        "Unmanaged files"@
    } else if g == 5 {
        "Up to date"@
    } else {
        "Ignored"@
    }
}

fn group_header_text(g: usize) -> (s: &'static str)
    ensures
        s@ == group_header(g as int),
{
    if g == 0 {
        "Changes to merge"
    } else if g == 1 {
        "Changes to add"
    } else if g == 2 {
        "Changes to pull"
    } else if g == 3 {
        "Unpulled"
    } else if g == 4 {
        "Unmanaged files"
    } else if g == 5 {
        "Up to date"
    } else {
        "Ignored"
    }
}

/// Whether the default report keeps an entry: an unpulled one only when the
/// unpulled block is asked for.
pub open spec fn kept(e: (StatusCode, Seq<char>, Option<Seq<char>>, bool), show_unpulled: bool) -> bool {
    show_unpulled || !(e.0 is Unpulled)
}

/// The kept entries of group `g`, in order.
pub open spec fn group_items(es: Seq<(StatusCode, Seq<char>, Option<Seq<char>>, bool)>, g: int, show_unpulled: bool) -> Seq<(StatusCode, Seq<char>, Option<Seq<char>>, bool)>
    decreases es.len(),
{
    if es.len() == 0 {
        Seq::empty()
    } else {
        group_items(es.drop_last(), g, show_unpulled) + if group_of(es.last().0) == g && kept(es.last(), show_unpulled) {
            seq![es.last()]
        } else {
            Seq::empty()
        }
    }
}

/// Whether some kept entry exists.
pub open spec fn any_kept(es: Seq<(StatusCode, Seq<char>, Option<Seq<char>>, bool)>, show_unpulled: bool) -> bool {
    exists|i: int| 0 <= i < es.len() && kept(#[trigger] es[i], show_unpulled)
}

/// Whether some entry is managed.
pub open spec fn any_managed(es: Seq<(StatusCode, Seq<char>, Option<Seq<char>>, bool)>) -> bool {
    exists|i: int| 0 <= i < es.len() && ((#[trigger] es[i]).0 is UpToDate || es[i].0 is BothModified || es[i].0 is TargetModified
        || es[i].0 is SourceModified || es[i].0 is NeverSynchronized || es[i].0 is Unpulled || es[i].0 is ManagedSymlink)
}

/// Whether a path is the path of one of the entries.
pub open spec fn path_in(items: Seq<(StatusCode, Seq<char>, Option<Seq<char>>, bool)>, p: Seq<char>) -> bool {
    exists|i: int| 0 <= i < items.len() && (#[trigger] items[i]).1 == p
}

/// The paths that keep a group from folding: those of the kept entries of
/// the whole report that are not in the group.
pub open spec fn blocked_for(all: Seq<(StatusCode, Seq<char>, Option<Seq<char>>, bool)>, items: Seq<(StatusCode, Seq<char>, Option<Seq<char>>, bool)>, show_unpulled: bool) -> Seq<Seq<char>>
    decreases all.len(),
{
    if all.len() == 0 {
        Seq::empty()
    } else {
        blocked_for(all.drop_last(), items, show_unpulled) + if kept(all.last(), show_unpulled) && !path_in(items, all.last().1) {
            seq![all.last().1]
        } else {
            Seq::empty()
        }
    }
}

/// The SGR sequence that selects a color.
pub open spec fn sgr(color: Seq<char>) -> Seq<char> {
    seq!['\x1b', '['] + color + seq!['m']
}

/// The SGR reset sequence.
pub open spec fn sgr_reset() -> Seq<char> {
    seq!['\x1b', '[', '0', 'm']
}

/// Whether `s` holds the reset sequence.
pub open spec fn has_reset(s: Seq<char>) -> bool {
    exists|i: int| 0 <= i && i + 4 <= s.len() && #[trigger] s.subrange(i, i + 4) == sgr_reset()
}

/// What painting `s` in a color gives: `s` itself when colors are off, or,
/// for a text without a reset in it, the text between the color's sequence
/// and a reset.
pub open spec fn painted(s: Seq<char>, r: Seq<char>, color: Seq<char>) -> bool {
    r == s || has_reset(s) || r == sgr(color) + s + sgr_reset()
}

/// Calls `colored`'s `red` and renders the result with `to_string`. Whether
/// colors are on depends on the terminal and the environment: the contract
/// claims only `painted` with the red foreground code, and says nothing of
/// how a reset inside the text is handled.
#[verifier::external_body]
fn paint_red(s: &str) -> (r: String)
    ensures
        painted(s@, r@, seq!['3', '1']),
{
    s.red().to_string()
}

/// Calls `colored`'s `yellow` and renders the result with `to_string`; the
/// contract claims `painted` with the yellow foreground code, as for red.
#[verifier::external_body]
fn paint_yellow(s: &str) -> (r: String)
    ensures
        painted(s@, r@, seq!['3', '3']),
{
    s.yellow().to_string()
}

/// Calls `colored`'s `green` and renders the result with `to_string`; the
/// contract claims `painted` with the green foreground code, as for red.
#[verifier::external_body]
fn paint_green(s: &str) -> (r: String)
    ensures
        painted(s@, r@, seq!['3', '2']),
{
    s.green().to_string()
}

/// What coloring the path of an entry gives: conflicts red, one-sided
/// changes yellow, up-to-date files green, anything else as it is.
pub open spec fn color_ok(c: StatusCode, path: Seq<char>, r: Seq<char>) -> bool {
    match c {
        StatusCode::BothModified => painted(path, r, seq!['3', '1']),
        StatusCode::TargetModified | StatusCode::SourceModified => painted(path, r, seq!['3', '3']),
        StatusCode::UpToDate => painted(path, r, seq!['3', '2']),
        _ => r == path,
    }
}

/// The path of an entry in its color, see `color_ok`.
pub fn color_path(code: StatusCode, path: &str) -> (r: String)
    ensures
        color_ok(code, path@, r@),
{
    match code {
        StatusCode::BothModified => paint_red(path),
        StatusCode::TargetModified | StatusCode::SourceModified => paint_yellow(path),
        StatusCode::UpToDate => paint_green(path),
        _ => path.to_owned(),
    }
}

/// The note on an encrypted entry.
pub open spec fn encrypted_note() -> Seq<char> {
    "(encrypted)"@
}

/// The annotations of a line: the matched pattern in parentheses, then
/// `(encrypted)`, separated by a space.
pub open spec fn annotation(pattern: Option<Seq<char>>, encrypted: bool) -> Seq<char> {
    match pattern {
        Some(p) => seq!['('] + p + seq![')'] + if encrypted { seq![' '] + encrypted_note() } else { Seq::empty() },
        None => if encrypted { encrypted_note() } else { Seq::empty() },
    }
}

/// The width the annotations align to: the longest path, in bytes (as
/// `str::len` counts them), among the lines that have an annotation.
pub open spec fn note_width(ls: Seq<(StatusCode, Seq<char>, Option<Seq<char>>, bool)>) -> nat
    decreases ls.len(),
{
    if ls.len() == 0 {
        0
    } else {
        let w = note_width(ls.drop_last());
        let e = ls.last();
        let b = (vstd::utf8::encode_utf8(e.1).len() as usize) as nat;
        if (e.2 is Some || e.3) && b > w {
            b
        } else {
            w
        }
    }
}

/// `c` padded with spaces to `w` characters.
pub open spec fn pad_to(c: Seq<char>, w: nat) -> Seq<char> {
    if c.len() < w { c + spaces((w - c.len()) as nat) } else { c }
}

/// A line of a group: two spaces, the code, two spaces and the colored path,
/// then, when the entry has annotations, the path padded to the width, two
/// spaces and the annotations.
pub open spec fn display_line(e: (StatusCode, Seq<char>, Option<Seq<char>>, bool), c: Seq<char>, w: nat) -> Seq<char> {
    seq![' ', ' '] + status_code_text(e.0) + seq![' ', ' '] + (if e.2 is None && !e.3 {
        c
    } else {
        pad_to(c, w) + seq![' ', ' '] + annotation(e.2, e.3)
    }) + seq!['\n']
}

/// The lines of a group, with the colored paths `cs`.
pub open spec fn display_lines(ls: Seq<(StatusCode, Seq<char>, Option<Seq<char>>, bool)>, cs: Seq<Seq<char>>, w: nat) -> Seq<char>
    decreases ls.len(),
{
    if ls.len() == 0 {
        Seq::empty()
    } else {
        display_lines(ls.drop_last(), cs.drop_last(), w) + display_line(ls.last(), cs.last(), w)
    }
}

/// `cs` are colorings of the paths of `ls`.
pub open spec fn colors_ok(ls: Seq<(StatusCode, Seq<char>, Option<Seq<char>>, bool)>, cs: Seq<Seq<char>>) -> bool {
    cs.len() == ls.len() && forall|i: int| 0 <= i < ls.len() ==> color_ok(ls[i].0, ls[i].1, #[trigger] cs[i])
}

/// The text of a group: nothing without entries; else the header, a colon,
/// the lines of the folded entries and, unless it is the last block, an
/// empty line.
pub open spec fn group_text(header: Seq<char>, items: Seq<(StatusCode, Seq<char>, Option<Seq<char>>, bool)>, bl: Seq<Seq<char>>, cs: Seq<Seq<char>>, last: bool) -> Seq<char> {
    let ls = folded_report(items, bl, items.len() as int);
    if items.len() == 0 {
        Seq::empty()
    } else {
        header + seq![':', '\n'] + display_lines(ls, cs, note_width(ls)) + if last { Seq::empty() } else { seq!['\n'] }
    }
}

/// `t` is the text of a group for some coloring of its paths.
pub open spec fn is_group_text(t: Seq<char>, header: Seq<char>, items: Seq<(StatusCode, Seq<char>, Option<Seq<char>>, bool)>, bl: Seq<Seq<char>>, last: bool) -> bool {
    exists|cs: Seq<Seq<char>>| colors_ok(folded_report(items, bl, items.len() as int), cs) && t == #[trigger] group_text(header, items, bl, cs, last)
}

fn push_str_chars(v: &mut Vec<char>, s: &str)
    ensures
        final(v)@ == old(v)@ + s@,
{
    let c = chars_of(s);
    crate::text::push_all(v, c.as_slice());
}

/// The annotations of a line, see `annotation`.
fn annotation_text(pattern: &Option<String>, encrypted: bool) -> (r: String)
    ensures
        r@ == annotation(opt_view(*pattern), encrypted),
{
    let mut out = String::new();
    match pattern {
        Some(p) => {
            out.append("(");
            out.append(p.as_str());
            out.append(")");
            if encrypted {
                out.append(" ");
                out.append("(encrypted)");
            }
            proof {
                reveal_strlit("(");
                reveal_strlit(")");
                reveal_strlit(" ");
            }
        },
        None => {
            if encrypted {
                out.append("(encrypted)");
            }
        },
    }
    out
}

/// The entries of group `g` that the default report keeps.
fn select_group(es: &Vec<(StatusCode, String, Option<String>, bool)>, g: usize, show_unpulled: bool) -> (r: Vec<(StatusCode, String, Option<String>, bool)>)
    ensures
        entries_view(r@) == group_items(entries_view(es@), g as int, show_unpulled),
        r@.len() <= es@.len(),
{
    let ghost ev = entries_view(es@);
    let mut r: Vec<(StatusCode, String, Option<String>, bool)> = Vec::new();
    let mut i: usize = 0;
    while i < es.len()
        invariant
            i <= es@.len(),
            ev == entries_view(es@),
            entries_view(r@) == group_items(ev.take(i as int), g as int, show_unpulled),
            r@.len() <= i,
        decreases es.len() - i,
    {
        let ghost before = r@;
        proof {
            assert(ev.take(i + 1).drop_last() =~= ev.take(i as int));
            assert(ev[i as int] == entry_view(es@[i as int]));
        }
        let code = es[i].0;
        if group_index(code) == g && (show_unpulled || code != StatusCode::Unpulled) {
            r.push(clone_entry(&es[i]));
            assert(entries_view(r@) =~= entries_view(before) + seq![ev[i as int]]);
        } else {
            assert(entries_view(r@) =~= entries_view(before) + Seq::empty());
        }
        i = i + 1;
    }
    assert(ev.take(es@.len() as int) =~= ev);
    r
}

/// The paths that keep the group `items` from folding, see `blocked_for`.
fn blocked_paths(all: &Vec<(StatusCode, String, Option<String>, bool)>, items: &Vec<(StatusCode, String, Option<String>, bool)>, show_unpulled: bool) -> (r: Vec<String>)
    ensures
        strings_view(r@) == blocked_for(entries_view(all@), entries_view(items@), show_unpulled),
{
    let ghost iv = entries_view(items@);
    let ghost av = entries_view(all@);
    let mut members: StringHashMap<bool> = StringHashMap::new();
    let mut i: usize = 0;
    while i < items.len()
        invariant
            i <= items@.len(),
            iv == entries_view(items@),
            forall|s: Seq<char>| #[trigger] members@.contains_key(s) <==> exists|x: int| 0 <= x < i && (#[trigger] iv[x]).1 == s,
        decreases items.len() - i,
    {
        members.insert(items[i].1.clone(), true);
        proof {
            assert(iv[i as int] == entry_view(items@[i as int]));
            assert forall|s: Seq<char>| #[trigger] members@.contains_key(s) <==> exists|x: int| 0 <= x < i + 1 && (#[trigger] iv[x]).1 == s by {
                if s == iv[i as int].1 {
                    assert(iv[i as int].1 == s);
                }
                if exists|x: int| 0 <= x < i + 1 && (#[trigger] iv[x]).1 == s {
                    let x = choose|x: int| 0 <= x < i + 1 && (#[trigger] iv[x]).1 == s;
                    if x < i {
                        assert(exists|x2: int| 0 <= x2 < i && (#[trigger] iv[x2]).1 == s);
                    }
                }
            }
        }
        i = i + 1;
    }
    let mut r: Vec<String> = Vec::new();
    let mut j: usize = 0;
    while j < all.len()
        invariant
            j <= all@.len(),
            iv == entries_view(items@),
            av == entries_view(all@),
            forall|s: Seq<char>| #[trigger] members@.contains_key(s) <==> path_in(iv, s),
            strings_view(r@) == blocked_for(av.take(j as int), iv, show_unpulled),
        decreases all.len() - j,
    {
        let ghost before = r@;
        proof {
            assert(av.take(j + 1).drop_last() =~= av.take(j as int));
            assert(av[j as int] == entry_view(all@[j as int]));
        }
        let code = all[j].0;
        if (show_unpulled || code != StatusCode::Unpulled) && !members.contains_key(all[j].1.as_str()) {
            r.push(all[j].1.clone());
            assert(strings_view(r@) =~= strings_view(before) + seq![av[j as int].1]);
        } else {
            assert(strings_view(r@) =~= strings_view(before) + Seq::empty());
        }
        j = j + 1;
    }
    assert(av.take(all@.len() as int) =~= av);
    r
}

fn spaces_text(n: usize) -> (r: String)
    ensures
        r@ == spaces(n as nat),
{
    let mut v: Vec<char> = Vec::new();
    push_spaces(&mut v, n);
    assert(v@ =~= spaces(n as nat));
    string_of(v.as_slice())
}

/// One line of a group, see `display_line`, with the coloring of its path.
#[verifier::spinoff_prover]
#[verifier::rlimit(40)]
fn render_line(e: &(StatusCode, String, Option<String>, bool), w: usize) -> (r: (String, Ghost<Seq<char>>))
    ensures
        color_ok(e.0, e.1@, r.1@),
        r.0@ == display_line(entry_view(*e), r.1@, w as nat),
{
    let c = color_path(e.0, e.1.as_str());
    let mut out = String::new();
    out.append("  ");
    out.append(e.0.code());
    out.append("  ");
    if e.2.is_none() && !e.3 {
        out.append(c.as_str());
    } else {
        out.append(c.as_str());
        let cc = chars_of(c.as_str());
        if cc.len() < w {
            let pad = spaces_text(w - cc.len());
            out.append(pad.as_str());
        }
        out.append("  ");
        let note = annotation_text(&e.2, e.3);
        out.append(note.as_str());
    }
    out.append("\n");
    proof {
        reveal_strlit("  ");
        reveal_strlit("\n");
        assert(out@ =~= display_line(entry_view(*e), c@, w as nat));
    }
    (out, Ghost(c@))
}

/// The text of one group of the default report, see `group_text`: its kept
/// entries folded by shared directory, against the paths of the whole report
/// outside the group.
fn render_group(header: &str, items: &Vec<(StatusCode, String, Option<String>, bool)>, all: &Vec<(StatusCode, String, Option<String>, bool)>, show_unpulled: bool, last: bool) -> (t: String)
    requires
        2 * items@.len() <= usize::MAX,
    ensures
        is_group_text(t@, header@, entries_view(items@), blocked_for(entries_view(all@), entries_view(items@), show_unpulled), last),
{
    let ghost iv = entries_view(items@);
    let ghost bl = blocked_for(entries_view(all@), iv, show_unpulled);
    if items.len() == 0 {
        let t = String::new();
        proof {
            let cs = Seq::<Seq<char>>::empty();
            assert(colors_ok(folded_report(iv, bl, iv.len() as int), cs));
            assert(t@ == group_text(header@, iv, bl, cs, last));
        }
        return t;
    }
    let blocked = blocked_paths(all, items, show_unpulled);
    let mut examined: usize = 0;
    let lines = collapse_shared_dirs(items, &blocked, &mut examined);
    let ghost ls = entries_view(lines@);
    assert(ls == folded_report(iv, bl, iv.len() as int));
    let mut w: usize = 0;
    let mut i: usize = 0;
    while i < lines.len()
        invariant
            i <= lines@.len(),
            ls == entries_view(lines@),
            w == note_width(ls.take(i as int)),
        decreases lines.len() - i,
    {
        proof {
            assert(ls.take(i + 1).drop_last() =~= ls.take(i as int));
            assert(ls[i as int] == entry_view(lines@[i as int]));
        }
        let e = &lines[i];
        let es = e.1.as_str();
        let len = es.len();
        assert(es@ == e.1@);
        if (e.2.is_some() || e.3) && len > w {
            w = len;
        }
        i = i + 1;
    }
    assert(ls.take(lines@.len() as int) =~= ls);
    let mut out = String::new();
    out.append(header);
    out.append(":\n");
    proof {
        reveal_strlit(":\n");
    }
    let ghost mut cs: Seq<Seq<char>> = Seq::empty();
    let mut i: usize = 0;
    while i < lines.len()
        invariant
            i <= lines@.len(),
            ls == entries_view(lines@),
            w == note_width(ls),
            cs.len() == i,
            forall|x: int| 0 <= x < i ==> color_ok(ls[x].0, ls[x].1, #[trigger] cs[x]),
            out@ == header@ + seq![':', '\n'] + display_lines(ls.take(i as int), cs, w as nat),
        decreases lines.len() - i,
    {
        let ghost before = out@;
        assert(ls[i as int] == entry_view(lines@[i as int]));
        let (line, Ghost(c)) = render_line(&lines[i], w);
        out.append(line.as_str());
        proof {
            let cs2 = cs.push(c);
            assert(ls.take(i + 1).drop_last() =~= ls.take(i as int));
            assert(cs2.drop_last() =~= cs);
            assert(out@ =~= before + display_line(ls[i as int], c, w as nat));
            cs = cs2;
        }
        i = i + 1;
    }
    if !last {
        out.append("\n");
        proof {
            reveal_strlit("\n");
        }
    }
    proof {
        assert(ls.take(lines@.len() as int) =~= ls);
        assert(colors_ok(ls, cs));
        assert(out@ =~= group_text(header@, iv, bl, cs, last));
    }
    out
}

/// The texts joined.
pub open spec fn concat_all(ts: Seq<Seq<char>>) -> Seq<char>
    decreases ts.len(),
{
    if ts.len() == 0 {
        Seq::empty()
    } else {
        concat_all(ts.drop_last()) + ts.last()
    }
}

/// The head of the default report: the source directory, with the git line
/// when there is one, and the target directory.
pub open spec fn report_header(source: Seq<char>, target: Seq<char>, git: Option<Seq<char>>) -> Seq<char> {
    "Source: "@ + source + (match git {
        Some(info) => "  ("@ + info + ")"@,
        None => Seq::empty(),
    }) + "\n"@ + "Target: "@ + target + "\n"@
}

/// What follows the head: with no kept entry, whether all is up to date or
/// nothing is managed; else an empty line.
pub open spec fn report_opening(es: Seq<(StatusCode, Seq<char>, Option<Seq<char>>, bool)>, all: Seq<(StatusCode, Seq<char>, Option<Seq<char>>, bool)>, show_unpulled: bool) -> Seq<char> {
    if !any_kept(es, show_unpulled) {
        if any_managed(all) { "All up-to-date.\n"@ } else { "No files managed.\n"@ }
    } else {
        "\n"@
    }
}

/// Group `g` is the last block: no later group has entries and there is no
/// unused pattern.
pub open spec fn group_last(es: Seq<(StatusCode, Seq<char>, Option<Seq<char>>, bool)>, g: int, show_unpulled: bool, stale_empty: bool) -> bool {
    stale_empty && forall|h: int| g < h < 7 ==> (#[trigger] group_items(es, h, show_unpulled)).len() == 0
}

/// The lines of unused patterns in the default report.
pub open spec fn stale_block_lines(ps: Seq<Seq<char>>) -> Seq<char>
    decreases ps.len(),
{
    if ps.len() == 0 {
        Seq::empty()
    } else {
        stale_block_lines(ps.drop_last()) + seq![' ', ' '] + status_code_text(StatusCode::StalePattern) + seq![' ', ' '] + ps.last() + seq!['\n']
    }
}

/// The block of unused patterns, when there are some.
pub open spec fn stale_block(ps: Seq<Seq<char>>) -> Seq<char> {
    if ps.len() == 0 { Seq::empty() } else { "Unused ignore patterns:\n"@ + stale_block_lines(ps) }
}

/// `r` is the default report: the head, the opening, the groups in order
/// (merge, add, pull, unpulled, unmanaged, up to date, ignored), each as
/// `is_group_text` says for some coloring, and the unused patterns.
pub open spec fn default_report_ok(
    r: Seq<char>,
    es: Seq<(StatusCode, Seq<char>, Option<Seq<char>>, bool)>,
    all: Seq<(StatusCode, Seq<char>, Option<Seq<char>>, bool)>,
    stale: Seq<Seq<char>>,
    git: Option<Seq<char>>,
    target: Seq<char>,
    source: Seq<char>,
    home: Option<Seq<char>>,
    show_unpulled: bool,
) -> bool {
    exists|ts: Seq<Seq<char>>| ts.len() == 7
        && (forall|g: int| 0 <= g < 7 ==> is_group_text(#[trigger] ts[g], group_header(g), group_items(es, g, show_unpulled),
            blocked_for(all, group_items(es, g, show_unpulled), show_unpulled), group_last(es, g, show_unpulled, stale.len() == 0)))
        && r == report_header(tilde_spec(source, home), tilde_spec(target, home), git) + report_opening(es, all, show_unpulled)
            + concat_all(ts) + stale_block(stale)
}

/// The block of unused patterns, see `stale_block`: a title line, then a
/// line per pattern with its code; nothing when there is none.
pub fn unused_patterns_block(stale: &Vec<String>) -> (r: String)
    ensures
        r@ == stale_block(strings_view(stale@)),
{
    let mut out = String::new();
    if stale.len() != 0 {
        out.append("Unused ignore patterns:\n");
        let ghost before = out@;
        let ghost pv = strings_view(stale@);
        let mut i: usize = 0;
        while i < stale.len()
            invariant
                i <= stale@.len(),
                pv == strings_view(stale@),
                out@ == before + stale_block_lines(pv.take(i as int)),
            decreases stale.len() - i,
        {
            let ghost b2 = out@;
            out.append("  ");
            out.append(StatusCode::StalePattern.code());
            out.append("  ");
            out.append(stale[i].as_str());
            out.append("\n");
            proof {
                reveal_strlit("  ");
                reveal_strlit("\n");
                assert(pv.take(i + 1).drop_last() =~= pv.take(i as int));
                assert(out@ =~= b2 + seq![' ', ' '] + status_code_text(StatusCode::StalePattern) + seq![' ', ' '] + pv[i as int] + seq!['\n']);
            }
            i = i + 1;
        }
        assert(pv.take(stale@.len() as int) =~= pv);
        proof {
            reveal_strlit("");
        }
        assert(out@ =~= stale_block(pv));
    } else {
        assert(out@ =~= stale_block(strings_view(stale@)));
    }
    out
}

/// The patterns, each on a line of its own.
pub open spec fn pattern_lines(ps: Seq<Seq<char>>) -> Seq<char>
    decreases ps.len(),
{
    if ps.len() == 0 { Seq::empty() } else { pattern_lines(ps.drop_last()) + ps.last() + seq!['\n'] }
}

/// The listing of `--ignored-patterns`, see `pattern_lines`.
pub fn pattern_listing(ps: &Vec<String>) -> (r: String)
    ensures
        r@ == pattern_lines(strings_view(ps@)),
{
    let ghost pv = strings_view(ps@);
    let mut out = String::new();
    let mut i: usize = 0;
    while i < ps.len()
        invariant
            i <= ps@.len(),
            pv == strings_view(ps@),
            out@ == pattern_lines(pv.take(i as int)),
        decreases ps.len() - i,
    {
        let ghost b = out@;
        out.append(ps[i].as_str());
        out.append("\n");
        proof {
            reveal_strlit("\n");
            assert(pv.take(i + 1).drop_last() =~= pv.take(i as int));
            assert(out@ =~= b + pv[i as int] + seq!['\n']);
        }
        i = i + 1;
    }
    assert(pv.take(ps@.len() as int) =~= pv);
    out
}

/// The paths the unused-pattern analysis probes: the walked files, the
/// pruned directories (with a trailing `/`), and the report's entries but
/// the unpulled ones, in that order.
pub open spec fn probe_spec(walk: Seq<Seq<char>>, pruned: Seq<Seq<char>>, es: Seq<(StatusCode, Seq<char>, Option<Seq<char>>, bool)>) -> Seq<Seq<char>> {
    walk + pruned.map_values(|d: Seq<char>| d + seq!['/']) + pulled_paths(es)
}

/// The paths of the entries that are not unpulled, in order.
pub open spec fn pulled_paths(es: Seq<(StatusCode, Seq<char>, Option<Seq<char>>, bool)>) -> Seq<Seq<char>>
    decreases es.len(),
{
    if es.len() == 0 {
        Seq::empty()
    } else {
        pulled_paths(es.drop_last()) + if es.last().0 is Unpulled { Seq::empty() } else { seq![es.last().1] }
    }
}

/// See `probe_spec`.
pub fn probe_paths(walk: &Vec<String>, pruned: &Vec<String>, entries: &Vec<(StatusCode, String, Option<String>, bool)>) -> (r: Vec<String>)
    ensures
        strings_view(r@) == probe_spec(strings_view(walk@), strings_view(pruned@), entries_view(entries@)),
{
    let ghost wv = strings_view(walk@);
    let ghost pv = strings_view(pruned@);
    let ghost ev = entries_view(entries@);
    let mut out: Vec<String> = Vec::new();
    let mut i: usize = 0;
    while i < walk.len()
        invariant
            i <= walk@.len(),
            wv == strings_view(walk@),
            strings_view(out@) == wv.take(i as int),
        decreases walk.len() - i,
    {
        assert(wv[i as int] == walk@[i as int]@);
        let ghost b = strings_view(out@);
        let w = walk[i].clone();
        assert(w@ == wv[i as int]);
        out.push(w);
        assert(strings_view(out@) =~= b.push(wv[i as int]));
        assert(wv.take(i + 1) =~= wv.take(i as int).push(wv[i as int]));
        i = i + 1;
    }
    assert(wv.take(walk@.len() as int) =~= wv);
    let mut j: usize = 0;
    while j < pruned.len()
        invariant
            j <= pruned@.len(),
            pv == strings_view(pruned@),
            strings_view(out@) == wv + pv.take(j as int).map_values(|d: Seq<char>| d + seq!['/']),
        decreases pruned.len() - j,
    {
        let d = concat_str(pruned[j].as_str(), "/");
        proof {
            reveal_strlit("/");
            assert("/"@ =~= seq!['/']);
        }
        let ghost b = strings_view(out@);
        out.push(d);
        assert(strings_view(out@) =~= b.push(pv[j as int] + seq!['/']));
        assert(pv[j as int] == pruned@[j as int]@);
        assert(pv.take(j + 1).map_values(|d: Seq<char>| d + seq!['/']) =~= pv.take(j as int).map_values(|d: Seq<char>| d + seq!['/']).push(pv[j as int] + seq!['/']));
        assert(strings_view(out@) =~= wv + pv.take(j + 1).map_values(|d: Seq<char>| d + seq!['/']));
        j = j + 1;
    }
    assert(pv.take(pruned@.len() as int) =~= pv);
    let ghost head = strings_view(out@);
    let mut k: usize = 0;
    while k < entries.len()
        invariant
            k <= entries@.len(),
            ev == entries_view(entries@),
            strings_view(out@) == head + pulled_paths(ev.take(k as int)),
        decreases entries.len() - k,
    {
        let ghost b = strings_view(out@);
        assert(ev[k as int] == entry_view(entries@[k as int]));
        assert(ev.take(k + 1).drop_last() =~= ev.take(k as int));
        if entries[k].0 != StatusCode::Unpulled {
            out.push(entries[k].1.clone());
            assert(strings_view(out@) =~= b + seq![ev[k as int].1]);
        } else {
            assert(strings_view(out@) =~= b + Seq::<Seq<char>>::empty());
        }
        k = k + 1;
    }
    assert(ev.take(entries@.len() as int) =~= ev);
    out
}

/// The default status report, see `default_report_ok`. `entries` are the
/// entries the filter shows, `all_entries` every entry of the report (both
/// sorted), `stale` the unused patterns to list.
pub fn format_default(
    entries: &Vec<(StatusCode, String, Option<String>, bool)>,
    all_entries: &Vec<(StatusCode, String, Option<String>, bool)>,
    stale: &Vec<String>,
    git_info: &Option<String>,
    target_dir: &str,
    source_dir: &str,
    home: &Option<String>,
    show_unpulled: bool,
) -> (r: String)
    requires
        2 * entries@.len() <= usize::MAX,
    ensures
        default_report_ok(r@, entries_view(entries@), entries_view(all_entries@), strings_view(stale@), opt_view(*git_info),
            target_dir@, source_dir@, opt_view(*home), show_unpulled),
{
    let ghost ev = entries_view(entries@);
    let ghost av = entries_view(all_entries@);
    let mut out = String::new();
    out.append("Source: ");
    let src = tilde_path(source_dir, home);
    out.append(src.as_str());
    match git_info {
        Some(info) => {
            out.append("  (");
            out.append(info.as_str());
            out.append(")");
        },
        None => {},
    }
    out.append("\n");
    out.append("Target: ");
    let tgt = tilde_path(target_dir, home);
    out.append(tgt.as_str());
    out.append("\n");
    assert(out@ =~= report_header(tilde_spec(source_dir@, opt_view(*home)), tilde_spec(target_dir@, opt_view(*home)), opt_view(*git_info)));
    let ghost head = out@;

    let mut kept_any = false;
    let mut i: usize = 0;
    while i < entries.len()
        invariant
            i <= entries@.len(),
            ev == entries_view(entries@),
            kept_any == exists|x: int| 0 <= x < i && kept(#[trigger] ev[x], show_unpulled),
        decreases entries.len() - i,
    {
        assert(ev[i as int] == entry_view(entries@[i as int]));
        if show_unpulled || entries[i].0 != StatusCode::Unpulled {
            kept_any = true;
        }
        i = i + 1;
    }
    let mut managed_any = false;
    let mut i: usize = 0;
    while i < all_entries.len()
        invariant
            i <= all_entries@.len(),
            av == entries_view(all_entries@),
            managed_any == exists|x: int| 0 <= x < i && ((#[trigger] av[x]).0 is UpToDate || av[x].0 is BothModified || av[x].0 is TargetModified
                || av[x].0 is SourceModified || av[x].0 is NeverSynchronized || av[x].0 is Unpulled || av[x].0 is ManagedSymlink),
        decreases all_entries.len() - i,
    {
        assert(av[i as int] == entry_view(all_entries@[i as int]));
        if all_entries[i].0.is_managed() {
            managed_any = true;
        }
        i = i + 1;
    }
    if !kept_any {
        if managed_any {
            out.append("All up-to-date.\n");
        } else {
            out.append("No files managed.\n");
        }
    } else {
        out.append("\n");
    }
    assert(out@ =~= head + report_opening(ev, av, show_unpulled));
    let ghost opened = out@;

    let mut groups: Vec<Vec<(StatusCode, String, Option<String>, bool)>> = Vec::new();
    let mut g: usize = 0;
    while g < 7
        invariant
            g <= 7,
            ev == entries_view(entries@),
            groups@.len() == g,
            forall|h: int| 0 <= h < g ==> entries_view((#[trigger] groups@[h])@) == group_items(ev, h, show_unpulled)
                && groups@[h]@.len() <= entries@.len(),
        decreases 7 - g,
    {
        let items = select_group(entries, g, show_unpulled);
        groups.push(items);
        g = g + 1;
    }
    let ghost mut ts: Seq<Seq<char>> = Seq::empty();
    let mut g: usize = 0;
    while g < 7
        invariant
            g <= 7,
            ev == entries_view(entries@),
            av == entries_view(all_entries@),
            2 * entries@.len() <= usize::MAX,
            groups@.len() == 7,
            forall|h: int| 0 <= h < 7 ==> entries_view((#[trigger] groups@[h])@) == group_items(ev, h, show_unpulled)
                && groups@[h]@.len() <= entries@.len(),
            ts.len() == g,
            forall|h: int| 0 <= h < g ==> is_group_text(#[trigger] ts[h], group_header(h), group_items(ev, h, show_unpulled),
                blocked_for(av, group_items(ev, h, show_unpulled), show_unpulled), group_last(ev, h, show_unpulled, stale@.len() == 0)),
            out@ == opened + concat_all(ts),
        decreases 7 - g,
    {
        let mut last = stale.len() == 0;
        let mut h: usize = g + 1;
        while h < 7
            invariant
                g < h <= 7,
                groups@.len() == 7,
                forall|h2: int| 0 <= h2 < 7 ==> entries_view((#[trigger] groups@[h2])@) == group_items(ev, h2, show_unpulled),
                last == (stale@.len() == 0 && forall|h2: int| g < h2 < h ==> (#[trigger] group_items(ev, h2, show_unpulled)).len() == 0),
            decreases 7 - h,
        {
            assert(entries_view(groups@[h as int]@).len() == groups@[h as int]@.len());
            if groups[h].len() != 0 {
                last = false;
            }
            h = h + 1;
        }
        let t = render_group(group_header_text(g), &groups[g], all_entries, show_unpulled, last);
        out.append(t.as_str());
        proof {
            let ts2 = ts.push(t@);
            assert(ts2.drop_last() =~= ts);
            assert forall|h2: int| 0 <= h2 < g + 1 implies is_group_text(#[trigger] ts2[h2], group_header(h2), group_items(ev, h2, show_unpulled),
                blocked_for(av, group_items(ev, h2, show_unpulled), show_unpulled), group_last(ev, h2, show_unpulled, stale@.len() == 0)) by {
                if h2 < g {
                    assert(ts2[h2] == ts[h2]);
                }
            }
            ts = ts2;
        }
        g = g + 1;
    }
    let block = unused_patterns_block(stale);
    out.append(block.as_str());
    proof {
        assert(out@ =~= report_header(tilde_spec(source_dir@, opt_view(*home)), tilde_spec(target_dir@, opt_view(*home)), opt_view(*git_info))
            + report_opening(ev, av, show_unpulled) + concat_all(ts) + stale_block(strings_view(stale@)));
    }
    out
}

// The git line

/// `s` without as many leading copies of `p` as it starts with
/// (`str::trim_start_matches` with a non-empty text).
pub open spec fn strip_leading(s: Seq<char>, p: Seq<char>) -> Seq<char>
    decreases s.len(),
{
    if p.len() > 0 && has_prefix(s, p) { strip_leading(s.skip(p.len() as int), p) } else { s }
}

/// Where the first white space character of `s` is at or after `i` (its
/// length when there is none).
pub open spec fn white_from(s: Seq<char>, i: int) -> int
    decreases s.len() - i,
{
    if i >= s.len() || i < 0 {
        s.len() as int
    } else if crate::settings::is_white(s[i]) {
        i
    } else {
        white_from(s, i + 1)
    }
}

/// The first word of `s` (`split_whitespace().next()`).
pub open spec fn first_word(s: Seq<char>) -> Option<Seq<char>> {
    let t = trim_start_spec(s);
    if t.len() == 0 { None } else { Some(t.take(white_from(t, 0))) }
}

/// Where `p` first occurs in `s` at or after `i`, if it does.
pub open spec fn find_from(s: Seq<char>, p: Seq<char>, i: int) -> Option<int>
    decreases s.len() + 1 - i,
{
    if i < 0 || i + p.len() > s.len() {
        None
    } else if s.subrange(i, i + p.len() as int) == p {
        Some(i)
    } else {
        find_from(s, p, i + 1)
    }
}

/// `s` up to the first occurrence of `p` (`split(p).next()`).
pub open spec fn before_first(s: Seq<char>, p: Seq<char>) -> Seq<char> {
    match find_from(s, p, 0) {
        Some(i) => s.take(i),
        None => s,
    }
}

/// The items of the `[...]` part of a branch header that report a distance
/// to the upstream (`ahead N`, `behind M`).
pub open spec fn distance_items(header: Seq<char>) -> Seq<Seq<char>> {
    match find_from(header, seq!['['], 0) {
        Some(i) => keep_distance(split_on(before_first(header.skip(i + 1), seq![']']), ','), 0),
        None => Seq::empty(),
    }
}

/// The trimmed items from `k` on that start with `ahead ` or `behind `.
pub open spec fn keep_distance(items: Seq<Seq<char>>, k: int) -> Seq<Seq<char>>
    decreases items.len() - k,
{
    if k < 0 || k >= items.len() {
        Seq::empty()
    } else {
        let t = trim_spec(items[k]);
        (if has_prefix(t, "ahead "@) || has_prefix(t, "behind "@) { seq![t] } else { Seq::empty() }) + keep_distance(items, k + 1)
    }
}

/// The git line of the report, from the output of
/// `git status --porcelain -b`: the branch of the header line (its first
/// word up to any `...`) with the distance to the upstream and whether any
/// further line holds a change; nothing without a header, for a detached or
/// unborn head, or for an empty branch name.
pub open spec fn git_info_spec(output: Seq<char>) -> Option<Seq<char>> {
    let ls = lines_spec(output);
    if ls.len() == 0 {
        None
    } else {
        let header = strip_leading(trim_spec(ls[0]), "## "@);
        match first_word(header) {
            None => None,
            Some(w) => {
                let branch = before_first(w, "..."@);
                if branch == "HEAD"@ || find_from(header, "No commits yet"@, 0) is Some || branch.len() == 0 {
                    None
                } else {
                    let dirty = exists|k: int| 1 <= k < ls.len() && trim_spec(#[trigger] ls[k]).len() > 0;
                    let parts = distance_items(header).push(if dirty { "dirty"@ } else { "clean"@ });
                    Some("branch: "@ + branch + ", "@ + join_spec(parts, ", "@))
                }
            },
        }
    }
}
fn strip_leading_exec(s: &[char], p: &[char]) -> (r: Vec<char>)
    requires
        p@.len() > 0,
    ensures
        r@ == strip_leading(s@, p@),
{
    let mut i: usize = 0;
    assert(s@.skip(0) =~= s@);
    loop
        invariant
            i <= s@.len(),
            p@.len() > 0,
            strip_leading(s@, p@) == strip_leading(s@.skip(i as int), p@),
        decreases s.len() - i,
    {
        let rest = slice_to_vec(s, i, s.len());
        assert(rest@ =~= s@.skip(i as int));
        if starts_with(rest.as_slice(), p) {
            assert(s@.skip(i as int).skip(p@.len() as int) =~= s@.skip(i + p@.len()));
            i = i + p.len();
        } else {
            return rest;
        }
    }
}

fn find_exec(s: &[char], p: &[char]) -> (r: Option<usize>)
    ensures
        (match r {
            Some(i) => Some(i as int),
            None => None,
        }) == find_from(s@, p@, 0),
        r matches Some(i) ==> i + p@.len() <= s@.len(),
{
    if p.len() > s.len() {
        return None;
    }
    let mut i: usize = 0;
    while i <= s.len() - p.len()
        invariant
            p@.len() <= s@.len(),
            i <= s@.len() - p@.len() + 1,
            find_from(s@, p@, 0) == find_from(s@, p@, i as int),
        decreases s.len() - p.len() + 1 - i,
    {
        let piece = slice_to_vec(s, i, i + p.len());
        if crate::text::chars_eq(piece.as_slice(), p) {
            return Some(i);
        }
        if i == s.len() - p.len() {
            assert(find_from(s@, p@, i + 1) is None);
            return None;
        }
        i = i + 1;
    }
    None
}

fn before_first_exec(s: &[char], p: &[char]) -> (r: Vec<char>)
    ensures
        r@ == before_first(s@, p@),
{
    match find_exec(s, p) {
        Some(i) => {
            let v = slice_to_vec(s, 0, i);
            assert(v@ =~= s@.take(i as int));
            v
        },
        None => slice_to_vec(s, 0, s.len()),
    }
}

fn first_word_exec(s: &[char]) -> (r: Option<Vec<char>>)
    ensures
        (match r {
            Some(v) => Some(v@),
            None => None,
        }) == first_word(s@),
{
    let mut i: usize = 0;
    assert(s@.skip(0) =~= s@);
    while i < s.len() && crate::settings::is_white_exec(s[i])
        invariant
            i <= s@.len(),
            trim_start_spec(s@) == trim_start_spec(s@.skip(i as int)),
        decreases s.len() - i,
    {
        assert(s@.skip(i as int).drop_first() =~= s@.skip(i + 1));
        i = i + 1;
    }
    let t = slice_to_vec(s, i, s.len());
    assert(t@ =~= s@.skip(i as int));
    assert(trim_start_spec(s@) == t@);
    if t.len() == 0 {
        return None;
    }
    let mut j: usize = 0;
    while j < t.len() && !crate::settings::is_white_exec(t[j])
        invariant
            j <= t@.len(),
            white_from(t@, 0) == white_from(t@, j as int),
        decreases t.len() - j,
    {
        j = j + 1;
    }
    let w = slice_to_vec(t.as_slice(), 0, j);
    assert(w@ =~= t@.take(j as int));
    Some(w)
}

fn distance_items_exec(header: &[char]) -> (r: Vec<String>)
    ensures
        strings_view(r@) == distance_items(header@),
{
    let open = chars_of("[");
    let close = chars_of("]");
    proof {
        reveal_strlit("[");
        reveal_strlit("]");
        assert(open@ =~= seq!['[']);
        assert(close@ =~= seq![']']);
    }
    match find_exec(header, open.as_slice()) {
        None => Vec::new(),
        Some(i) => {
            let hl = header.len();
            assert(open@.len() == 1);
            assert(i + 1 <= hl);
            let rest = slice_to_vec(header, i + 1, hl);
            assert(rest@ =~= header@.skip(i + 1));
            let seg = before_first_exec(rest.as_slice(), close.as_slice());
            let items = crate::text::split_on_exec(seg.as_slice(), ',');
            let ghost iv = items@.map_values(|v: Vec<char>| v@);
            let ahead = chars_of("ahead ");
            let behind = chars_of("behind ");
            let mut out: Vec<String> = Vec::new();
            let mut k: usize = 0;
            while k < items.len()
                invariant
                    k <= items@.len(),
                    iv == items@.map_values(|v: Vec<char>| v@),
                    iv == split_on(seg@, ','),
                    ahead@ == "ahead "@,
                    behind@ == "behind "@,
                    strings_view(out@) + keep_distance(iv, k as int) == keep_distance(iv, 0),
                decreases items.len() - k,
            {
                let ghost before = strings_view(out@);
                assert(iv[k as int] == items@[k as int]@);
                let t = trim(string_of(items[k].as_slice()).as_str());
                let tc = chars_of(t.as_str());
                if starts_with(tc.as_slice(), ahead.as_slice()) || starts_with(tc.as_slice(), behind.as_slice()) {
                    out.push(t);
                    assert(strings_view(out@) =~= before + seq![tc@]);
                } else {
                    assert(strings_view(out@) =~= before + Seq::empty());
                }
                k = k + 1;
            }
            assert(keep_distance(iv, items@.len() as int) =~= Seq::<Seq<char>>::empty());
            assert(strings_view(out@) =~= strings_view(out@) + keep_distance(iv, items@.len() as int));
            out
        },
    }
}

/// The git line of the report, see `git_info_spec`.
pub fn git_info(output: &str) -> (r: Option<String>)
    ensures
        opt_view(r) == git_info_spec(output@),
{
    let lines = lines_of(output);
    let ghost ls = lines_spec(output@);
    assert(strings_view(lines@) == ls);
    if lines.len() == 0 {
        return None;
    }
    assert(ls[0] == lines@[0]@);
    let first = trim(lines[0].as_str());
    let marker = chars_of("## ");
    proof {
        reveal_strlit("## ");
    }
    let header = strip_leading_exec(chars_of(first.as_str()).as_slice(), marker.as_slice());
    let word = match first_word_exec(header.as_slice()) {
        Some(w) => w,
        None => return None,
    };
    let dots = chars_of("...");
    let branch = before_first_exec(word.as_slice(), dots.as_slice());
    let head = chars_of("HEAD");
    let unborn = chars_of("No commits yet");
    if crate::text::chars_eq(branch.as_slice(), head.as_slice()) || find_exec(header.as_slice(), unborn.as_slice()).is_some()
        || branch.len() == 0 {
        return None;
    }
    let mut dirty = false;
    let mut k: usize = 1;
    while k < lines.len()
        invariant
            1 <= k <= lines@.len(),
            strings_view(lines@) == ls,
            dirty == exists|x: int| 1 <= x < k && trim_spec(#[trigger] ls[x]).len() > 0,
        decreases lines.len() - k,
    {
        assert(ls[k as int] == lines@[k as int]@);
        let t = trim(lines[k].as_str());
        if !t.as_str().is_empty() {
            dirty = true;
        }
        k = k + 1;
    }
    let mut parts = distance_items_exec(header.as_slice());
    let ghost dv = strings_view(parts@);
    if dirty {
        parts.push("dirty".to_owned());
    } else {
        parts.push("clean".to_owned());
    }
    assert(strings_view(parts@) =~= dv.push(if dirty { "dirty"@ } else { "clean"@ }));
    let joined = join(&parts, ", ");
    let a = concat_str("branch: ", string_of(branch.as_slice()).as_str());
    let b = concat_str(a.as_str(), ", ");
    let r = concat_str(b.as_str(), joined.as_str());
    Some(r)
}

// Laws of the report

/// A managed regular file present on both sides and ignored by no pattern is
/// shown without a pattern, with a code whose first column marks a change of
/// the target and whose second a change of the source since the last sync
/// (`M ` to add, ` M` to pull, `MM` for both); an unchanged file is up to
/// date (`--`) and one never synchronized is `NM`.
pub proof fn law_status_names_the_changed_side(cmp: CompareByTimestamp)
    ensures
        state_entry_spec(false, None, None, true, true, Some(cmp)) matches Some((code, pattern)) && pattern is None && {
            let t = status_code_text(code);
            &&& (target_changed(cmp) || source_changed(cmp)) ==> (t[0] == 'M' <==> target_changed(cmp)) && (t[1] == 'M' <==> source_changed(cmp))
            &&& cmp is NonModified ==> t == "--"@
            &&& cmp is NeverSynchronized ==> t == "NM"@
            &&& names_comparison(code, cmp)
        },
{
    reveal_strlit("MM");
    reveal_strlit("M ");
    reveal_strlit(" M");
    reveal_strlit("--");
    reveal_strlit("NM");
}

/// A file that changed on one side only is never reported as changed on the
/// other: the report tells to add exactly the target-side changes and to
/// pull exactly the source-side ones.
pub proof fn law_status_sides_do_not_swap(cmp: CompareByTimestamp)
    ensures
        cmp is TargetModified ==> state_entry_spec(false, None, None, true, true, Some(cmp)) == Some((StatusCode::TargetModified, None::<Seq<char>>)),
        cmp is SourceModified ==> state_entry_spec(false, None, None, true, true, Some(cmp)) == Some((StatusCode::SourceModified, None::<Seq<char>>)),
{
}

/// The walk of the target directory never reports a managed file or link
/// again (the state entries report those); a file or link that no pattern
/// ignores and the state does not know is reported as unmanaged; an ignored
/// one shows, with its pattern, only when ignored entries are shown.
pub proof fn law_walk_reports_only_unmanaged(in_state: bool, pointer_in_state: bool, pointee_in_state: bool,
    ignore_match: Option<Seq<char>>, all: bool, show_ignored: bool)
    ensures
        in_state ==> target_file_spec(in_state, ignore_match, show_ignored) is None,
        pointer_in_state ==> target_symlink_spec(pointer_in_state, pointee_in_state, ignore_match, all, show_ignored) is None,
        !in_state && ignore_match is None ==> target_file_spec(in_state, ignore_match, show_ignored) == Some((StatusCode::Unmanaged, None::<Seq<char>>)),
        !pointer_in_state && !pointee_in_state && ignore_match is None
            ==> target_symlink_spec(pointer_in_state, pointee_in_state, ignore_match, all, show_ignored) == Some((StatusCode::UnmanagedSymlink, None::<Seq<char>>)),
        !in_state && ignore_match is Some ==> target_file_spec(in_state, ignore_match, show_ignored)
            == (if show_ignored { Some((StatusCode::Ignored, ignore_match)) } else { None }),
{
}

/// The default report (no category flag, no `--encrypted`) hides no change:
/// every modified, never synchronized, unpulled or unmanaged entry shows;
/// `--all` shows every entry; `--encrypted` shows exactly the encrypted
/// entries; each category flag shows its own entries.
pub proof fn law_report_hides_no_change(a: StatusArgs, code: StatusCode, encrypted: bool)
    ensures
        !a.encrypted && !any_category(a) && (code is BothModified || code is TargetModified || code is SourceModified
            || code is NeverSynchronized || code is Unpulled || code is Unmanaged || code is UnmanagedSymlink)
            ==> entry_shown_spec(a, code, encrypted),
        !a.encrypted && a.all && !any_category(a) ==> entry_shown_spec(a, code, encrypted),
        a.encrypted ==> entry_shown_spec(a, code, encrypted) == encrypted,
        !a.encrypted && a.conflicted && code is BothModified ==> entry_shown_spec(a, code, encrypted),
        !a.encrypted && a.modified && (code is BothModified || code is TargetModified || code is SourceModified) ==> entry_shown_spec(a, code, encrypted),
        !a.encrypted && a.unpulled && code is Unpulled ==> entry_shown_spec(a, code, encrypted),
        !a.encrypted && a.unmanaged && (code is Unmanaged || code is UnmanagedSymlink) ==> entry_shown_spec(a, code, encrypted),
{
}

} // verus!
