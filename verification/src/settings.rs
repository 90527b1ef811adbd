//! Settings: the defaults, the config file's optional values, and how they
//! merge with the directories recorded in the state.

use vstd::prelude::*;
use crate::text::{chars_of, string_of};
use crate::error::DfmError;
use crate::paths::{remove_dots_chars, remove_dots_spec};
use crate::state::StateObject;

verus! {

/// Config read from the config file: every value optional.
#[derive(Debug)]
pub struct Config {
    pub dot_prefix: Option<String>,
    pub symlink_postfix: Option<String>,
    pub encrypted_postfix: Option<String>,
    /// Patterns of target paths that are always stored encrypted.
    pub force_encryption_for: Vec<String>,
    pub obtain_password_shell_command: Option<String>,
    pub merge_tool_command: Option<String>,
    /// The diff tool of `diff` with paths (`{target}`, `{source}`).
    pub diff_tool_command: Option<String>,
    /// The diff of `diff --all` for a changed target (`{target}`, `{source}`).
    pub diff_all_tool_command_target: Option<String>,
    /// The diff of `diff --all` for a changed source (`{target}`, `{source}`).
    pub diff_all_tool_command_source: Option<String>,
    /// The tool of `diff --editable`, which may write both files.
    pub diff_editable_tool_command: Option<String>,
}

/// Runtime settings after merging defaults, the config file and the state.
#[derive(Debug)]
pub struct Settings {
    pub source_dir: String,
    pub target_dir: String,
    pub dot_prefix: String,
    pub symlink_postfix: String,
    pub encrypted_postfix: String,
    /// Patterns of target paths that are always stored encrypted.
    pub force_encryption_for: Vec<String>,
    pub obtain_password_shell_command: Option<String>,
    pub merge_tool_command: Option<String>,
    /// The diff tool of `diff` with paths (`{target}`, `{source}`).
    pub diff_tool_command: Option<String>,
    /// The diff of `diff --all` for a changed target (`{target}`, `{source}`).
    pub diff_all_tool_command_target: Option<String>,
    /// The diff of `diff --all` for a changed source (`{target}`, `{source}`).
    pub diff_all_tool_command_source: Option<String>,
    /// The tool of `diff --editable`, which may write both files.
    pub diff_editable_tool_command: Option<String>,
}

/// The views of a list of strings.
pub open spec fn strings_view(v: Seq<String>) -> Seq<Seq<char>> {
    v.map_values(|s: String| s@)
}

/// The view of an optional string.
pub open spec fn opt_view(o: Option<String>) -> Option<Seq<char>> {
    match o {
        Some(s) => Some(s@),
        None => None,
    }
}

/// A copy of an optional string.
pub fn clone_opt(o: &Option<String>) -> (r: Option<String>)
    ensures
        opt_view(r) == opt_view(*o),
{
    match o {
        Some(s) => Some(s.clone()),
        None => None,
    }
}

/// A copy of a list of strings.
pub fn clone_strings(v: &Vec<String>) -> (r: Vec<String>)
    ensures
        strings_view(r@) == strings_view(v@),
{
    let mut r: Vec<String> = Vec::new();
    let mut i: usize = 0;
    while i < v.len()
        invariant
            i <= v@.len(),
            strings_view(r@) == strings_view(v@).take(i as int),
        decreases v.len() - i,
    {
        let c = v[i].clone();
        assert(c@ == v@[i as int]@);
        let ghost before = r@;
        r.push(c);
        assert(r@ == before.push(c));
        assert(strings_view(r@) =~= strings_view(before).push(c@));
        i = i + 1;
        assert(strings_view(r@) =~= strings_view(v@).take(i as int));
    }
    assert(strings_view(v@).take(v@.len() as int) =~= strings_view(v@));
    r
}

impl Config {
    /// The config that records every tunable value of `settings`.
    pub fn from_settings(settings: &Settings) -> (c: Config)
        ensures
            opt_view(c.dot_prefix) == Some(settings.dot_prefix@),
            opt_view(c.symlink_postfix) == Some(settings.symlink_postfix@),
            opt_view(c.encrypted_postfix) == Some(settings.encrypted_postfix@),
            strings_view(c.force_encryption_for@) == strings_view(settings.force_encryption_for@),
            opt_view(c.obtain_password_shell_command) == opt_view(settings.obtain_password_shell_command),
            opt_view(c.merge_tool_command) == opt_view(settings.merge_tool_command),
            opt_view(c.diff_tool_command) == opt_view(settings.diff_tool_command),
            opt_view(c.diff_all_tool_command_target) == opt_view(settings.diff_all_tool_command_target),
            opt_view(c.diff_all_tool_command_source) == opt_view(settings.diff_all_tool_command_source),
            opt_view(c.diff_editable_tool_command) == opt_view(settings.diff_editable_tool_command),
    {
        Config {
            dot_prefix: Some(settings.dot_prefix.clone()),
            symlink_postfix: Some(settings.symlink_postfix.clone()),
            encrypted_postfix: Some(settings.encrypted_postfix.clone()),
            force_encryption_for: clone_strings(&settings.force_encryption_for),
            obtain_password_shell_command: clone_opt(&settings.obtain_password_shell_command),
            merge_tool_command: clone_opt(&settings.merge_tool_command),
            diff_tool_command: clone_opt(&settings.diff_tool_command),
            diff_all_tool_command_target: clone_opt(&settings.diff_all_tool_command_target),
            diff_all_tool_command_source: clone_opt(&settings.diff_all_tool_command_source),
            diff_editable_tool_command: clone_opt(&settings.diff_editable_tool_command),
        }
    }
}

/// `\.ssh`, the default encryption pattern.
pub open spec fn default_encryption_pattern() -> Seq<char> {
    seq!['\\', '.', 's', 's', 'h']
}

/// The built-in settings: no directories yet besides `$HOME` as the target,
/// the `dot_` prefix, the `.symlink` and `.encrypted` postfixes, `\.ssh`
/// always encrypted, an empty password command, `vimdiff` as merge and diff
/// tool and `diff -u` for the batch diffs.
pub fn create_default_settings() -> (s: Settings)
    ensures
        s.source_dir@ == ""@,
        s.target_dir@ == "$HOME"@,
        s.dot_prefix@ == "dot_"@,
        s.symlink_postfix@ == ".symlink"@,
        s.encrypted_postfix@ == ".encrypted"@,
        strings_view(s.force_encryption_for@) == seq![default_encryption_pattern()],
        opt_view(s.obtain_password_shell_command) == Some(""@),
        opt_view(s.merge_tool_command) == Some("vimdiff {target} {source} {result}"@),
        opt_view(s.diff_tool_command) == Some("vimdiff -M {target} {source}"@),
        opt_view(s.diff_all_tool_command_target) == Some("diff -u --color=always {source} {target}"@),
        opt_view(s.diff_all_tool_command_source) == Some("diff -u --color=always {target} {source}"@),
        opt_view(s.diff_editable_tool_command) == Some("vimdiff {target} {source}"@),
{
    let pattern = "\\.ssh";
    proof {
        reveal_strlit("\\.ssh");
    }
    assert(pattern@ =~= default_encryption_pattern());
    let mut force: Vec<String> = Vec::new();
    force.push(pattern.to_owned());
    assert(strings_view(force@) =~= seq![default_encryption_pattern()]);
    Settings {
        source_dir: "".to_owned(),
        target_dir: "$HOME".to_owned(),
        dot_prefix: "dot_".to_owned(),
        symlink_postfix: ".symlink".to_owned(),
        encrypted_postfix: ".encrypted".to_owned(),
        force_encryption_for: force,
        obtain_password_shell_command: Some("".to_owned()),
        merge_tool_command: Some("vimdiff {target} {source} {result}".to_owned()),
        diff_tool_command: Some("vimdiff -M {target} {source}".to_owned()),
        diff_all_tool_command_target: Some("diff -u --color=always {source} {target}".to_owned()),
        diff_all_tool_command_source: Some("diff -u --color=always {target} {source}".to_owned()),
        diff_editable_tool_command: Some("vimdiff {target} {source}".to_owned()),
    }
}

/// The value of an optional setting: the config's when present, the
/// default's otherwise.
pub open spec fn or_default(custom: Option<Seq<char>>, default: Seq<char>) -> Seq<char> {
    match custom {
        Some(v) => v,
        None => default,
    }
}

/// The settings that the defaults, the optional config and the optional state
/// give together: the directories come from the state (empty without one);
/// with a config, each tunable value comes from it when present (an empty
/// encryption list counts as absent) and from the defaults otherwise; without
/// a config, every tunable value is the default's.
pub open spec fn merged_fields_ok(m: Settings, default: Settings, custom: Option<Config>, state: Option<StateObject>) -> bool {
    &&& m.source_dir@ == (match state { Some(st) => st.source_directory@, None => Seq::<char>::empty() })
    &&& m.target_dir@ == (match state { Some(st) => st.target_directory@, None => Seq::<char>::empty() })
    &&& match custom {
        Some(c) => {
            &&& m.dot_prefix@ == or_default(opt_view(c.dot_prefix), default.dot_prefix@)
            &&& m.symlink_postfix@ == or_default(opt_view(c.symlink_postfix), default.symlink_postfix@)
            &&& m.encrypted_postfix@ == or_default(opt_view(c.encrypted_postfix), default.encrypted_postfix@)
            &&& strings_view(m.force_encryption_for@) == if c.force_encryption_for@.len() == 0 {
                strings_view(default.force_encryption_for@)
            } else {
                strings_view(c.force_encryption_for@)
            }
            &&& opt_view(m.obtain_password_shell_command) == match opt_view(c.obtain_password_shell_command) {
                Some(v) => Some(v),
                None => opt_view(default.obtain_password_shell_command),
            }
            &&& opt_view(m.merge_tool_command) == match opt_view(c.merge_tool_command) {
                Some(v) => Some(v),
                None => opt_view(default.merge_tool_command),
            }
            &&& opt_view(m.diff_tool_command) == match opt_view(c.diff_tool_command) {
                Some(v) => Some(v),
                None => opt_view(default.diff_tool_command),
            }
            &&& opt_view(m.diff_all_tool_command_target) == match opt_view(c.diff_all_tool_command_target) {
                Some(v) => Some(v),
                None => opt_view(default.diff_all_tool_command_target),
            }
            &&& opt_view(m.diff_all_tool_command_source) == match opt_view(c.diff_all_tool_command_source) {
                Some(v) => Some(v),
                None => opt_view(default.diff_all_tool_command_source),
            }
            &&& opt_view(m.diff_editable_tool_command) == match opt_view(c.diff_editable_tool_command) {
                Some(v) => Some(v),
                None => opt_view(default.diff_editable_tool_command),
            }
        },
        None => {
            &&& m.dot_prefix@ == default.dot_prefix@
            &&& m.symlink_postfix@ == default.symlink_postfix@
            &&& m.encrypted_postfix@ == default.encrypted_postfix@
            &&& strings_view(m.force_encryption_for@) == strings_view(default.force_encryption_for@)
            &&& opt_view(m.obtain_password_shell_command) == opt_view(default.obtain_password_shell_command)
            &&& opt_view(m.merge_tool_command) == opt_view(default.merge_tool_command)
            &&& opt_view(m.diff_tool_command) == opt_view(default.diff_tool_command)
            &&& opt_view(m.diff_all_tool_command_target) == opt_view(default.diff_all_tool_command_target)
            &&& opt_view(m.diff_all_tool_command_source) == opt_view(default.diff_all_tool_command_source)
            &&& opt_view(m.diff_editable_tool_command) == opt_view(default.diff_editable_tool_command)
        },
    }
}

fn pick(custom: &Option<String>, default: &String) -> (r: String)
    ensures
        r@ == or_default(opt_view(*custom), default@),
{
    match custom {
        Some(v) => v.clone(),
        None => default.clone(),
    }
}

/// Merge the defaults, the config file and the state, see `merged_fields_ok`.
pub fn merge_settings(default: &Settings, custom_opt: &Option<Config>, state_object: Option<&StateObject>) -> (m: Settings)
    ensures
        merged_fields_ok(m, *default, *custom_opt, match state_object { Some(s) => Some(*s), None => None }),
        state_object is Some ==> m.source_dir@ == state_object->0.source_directory@ && m.target_dir@ == state_object->0.target_directory@,
        custom_opt is Some && custom_opt->0.dot_prefix is Some ==> m.dot_prefix@ == custom_opt->0.dot_prefix->0@,
        custom_opt is Some && custom_opt->0.symlink_postfix is Some ==> m.symlink_postfix@ == custom_opt->0.symlink_postfix->0@,
        custom_opt is Some && custom_opt->0.encrypted_postfix is Some ==> m.encrypted_postfix@ == custom_opt->0.encrypted_postfix->0@,
        custom_opt is Some && custom_opt->0.merge_tool_command is Some
            ==> opt_view(m.merge_tool_command) == Some(custom_opt->0.merge_tool_command->0@),
        (custom_opt is None || custom_opt->0.dot_prefix is None) ==> m.dot_prefix@ == default.dot_prefix@,
        (custom_opt is None || custom_opt->0.symlink_postfix is None) ==> m.symlink_postfix@ == default.symlink_postfix@,
        (custom_opt is None || custom_opt->0.encrypted_postfix is None) ==> m.encrypted_postfix@ == default.encrypted_postfix@,
        custom_opt is Some && custom_opt->0.force_encryption_for@.len() > 0
            ==> strings_view(m.force_encryption_for@) == strings_view(custom_opt->0.force_encryption_for@),
{
    let source_dir = match state_object {
        Some(s) => s.source_directory.clone(),
        None => String::new(),
    };
    let target_dir = match state_object {
        Some(s) => s.target_directory.clone(),
        None => String::new(),
    };
    match custom_opt {
        Some(custom) => Settings {
            source_dir,
            target_dir,
            dot_prefix: pick(&custom.dot_prefix, &default.dot_prefix),
            symlink_postfix: pick(&custom.symlink_postfix, &default.symlink_postfix),
            encrypted_postfix: pick(&custom.encrypted_postfix, &default.encrypted_postfix),
            force_encryption_for: if custom.force_encryption_for.len() == 0 {
                clone_strings(&default.force_encryption_for)
            } else {
                clone_strings(&custom.force_encryption_for)
            },
            obtain_password_shell_command: match &custom.obtain_password_shell_command {
                Some(v) => Some(v.clone()),
                None => clone_opt(&default.obtain_password_shell_command),
            },
            merge_tool_command: match &custom.merge_tool_command {
                Some(v) => Some(v.clone()),
                None => clone_opt(&default.merge_tool_command),
            },
            diff_tool_command: match &custom.diff_tool_command {
                Some(v) => Some(v.clone()),
                None => clone_opt(&default.diff_tool_command),
            },
            diff_all_tool_command_target: match &custom.diff_all_tool_command_target {
                Some(v) => Some(v.clone()),
                None => clone_opt(&default.diff_all_tool_command_target),
            },
            diff_all_tool_command_source: match &custom.diff_all_tool_command_source {
                Some(v) => Some(v.clone()),
                None => clone_opt(&default.diff_all_tool_command_source),
            },
            diff_editable_tool_command: match &custom.diff_editable_tool_command {
                Some(v) => Some(v.clone()),
                None => clone_opt(&default.diff_editable_tool_command),
            },
        },
        None => Settings {
            source_dir,
            target_dir,
            dot_prefix: default.dot_prefix.clone(),
            symlink_postfix: default.symlink_postfix.clone(),
            encrypted_postfix: default.encrypted_postfix.clone(),
            force_encryption_for: clone_strings(&default.force_encryption_for),
            obtain_password_shell_command: clone_opt(&default.obtain_password_shell_command),
            merge_tool_command: clone_opt(&default.merge_tool_command),
            diff_tool_command: clone_opt(&default.diff_tool_command),
            diff_all_tool_command_target: clone_opt(&default.diff_all_tool_command_target),
            diff_all_tool_command_source: clone_opt(&default.diff_all_tool_command_source),
            diff_editable_tool_command: clone_opt(&default.diff_editable_tool_command),
        },
    }
}

/// Whether `c` is white space (`char::is_whitespace`: Unicode `White_Space`).
pub open spec fn is_white(c: char) -> bool {
    c == '\t' || c == '\n' || c == '\u{B}' || c == '\u{C}' || c == '\r' || c == ' ' || c == '\u{85}'
        || c == '\u{A0}' || c == '\u{1680}' || ('\u{2000}' <= c <= '\u{200A}') || c == '\u{2028}'
        || c == '\u{2029}' || c == '\u{202F}' || c == '\u{205F}' || c == '\u{3000}'
}

/// See `is_white`.
pub fn is_white_exec(c: char) -> (b: bool)
    ensures
        b == is_white(c),
{
    c == '\t' || c == '\n' || c == '\u{B}' || c == '\u{C}' || c == '\r' || c == ' ' || c == '\u{85}'
        || c == '\u{A0}' || c == '\u{1680}' || ('\u{2000}' <= c && c <= '\u{200A}') || c == '\u{2028}'
        || c == '\u{2029}' || c == '\u{202F}' || c == '\u{205F}' || c == '\u{3000}'
}

/// Whether `s` holds nothing but white space (so trimming leaves nothing).
pub open spec fn blank(s: Seq<char>) -> bool {
    forall|i: int| 0 <= i < s.len() ==> is_white(#[trigger] s[i])
}

/// See `blank`.
pub fn is_blank(s: &str) -> (b: bool)
    ensures
        b == blank(s@),
{
    let cs = chars_of(s);
    let mut i: usize = 0;
    while i < cs.len()
        invariant
            i <= cs@.len(),
            cs@ == s@,
            forall|j: int| 0 <= j < i ==> is_white(#[trigger] cs@[j]),
        decreases cs.len() - i,
    {
        if !is_white_exec(cs[i]) {
            return false;
        }
        i = i + 1;
    }
    true
}

/// Text that no expansion touches: without `$` (which starts `$VAR` and
/// `${VAR}`) and without `%` (which wraps `%VAR%` on Windows).
pub open spec fn without_variables(value: Seq<char>) -> bool {
    !value.contains('$') && !value.contains('%')
}

/// Calls `envmnt::expand` without options. It replaces `$VAR` and `${VAR}`
/// (`%VAR%` on Windows) with the environment's values, so of the result the
/// contract claims only that text without those markers comes back
/// unchanged: the crate copies every character until it meets a marker.
#[verifier::external_body]
fn expand_env_vars(value: &str) -> (r: String)
    ensures
        without_variables(value@) ==> r@ == value@,
{
    envmnt::expand(value, None)
}

/// The working directories from their expanded settings, normalized.
pub fn working_dir_paths(source_dir: &str, expanded_target_dir: &str, expanded_source_dir: &str) -> (r: Result<(String, String), DfmError>)
    ensures
        blank(source_dir@) ==> (r matches Err(e) && e is NotFound),
        !blank(source_dir@) ==> (r matches Ok((t, s)) && t@ == remove_dots_spec(expanded_target_dir@)
            && s@ == remove_dots_spec(expanded_source_dir@)),
{
    if is_blank(source_dir) {
        return Err(DfmError::NotFound(
            "source directory is not set (state file missing or not initialized); run `dfm init`".to_owned(),
        ));
    }
    let t = remove_dots_chars(chars_of(expanded_target_dir).as_slice());
    let s = remove_dots_chars(chars_of(expanded_source_dir).as_slice());
    Ok((string_of(t.as_slice()), string_of(s.as_slice())))
}

/// The target and source directories of `settings`, in that order, with
/// environment variables expanded and normalized; an error when no source
/// directory is set. What the variables expand to depends on the
/// environment; a directory written without them is only normalized.
pub fn calc_working_dir_paths_unchecked(settings: &Settings) -> (r: Result<(String, String), DfmError>)
    ensures
        blank(settings.source_dir@) ==> (r matches Err(e) && e is NotFound),
        !blank(settings.source_dir@) ==> (r matches Ok((t, s)) && (exists|a: Seq<char>| t@ == #[trigger] remove_dots_spec(a))
            && (exists|b: Seq<char>| s@ == #[trigger] remove_dots_spec(b))),
        !blank(settings.source_dir@) && without_variables(settings.target_dir@)
            ==> (r matches Ok((t, _)) && t@ == remove_dots_spec(settings.target_dir@)),
        !blank(settings.source_dir@) && without_variables(settings.source_dir@)
            ==> (r matches Ok((_, s)) && s@ == remove_dots_spec(settings.source_dir@)),
{
    if is_blank(settings.source_dir.as_str()) {
        return Err(DfmError::NotFound(
            "source directory is not set (state file missing or not initialized); run `dfm init`".to_owned(),
        ));
    }
    let target = expand_env_vars(settings.target_dir.as_str());
    let source = expand_env_vars(settings.source_dir.as_str());
    working_dir_paths(settings.source_dir.as_str(), target.as_str(), source.as_str())
}

} // verus!
