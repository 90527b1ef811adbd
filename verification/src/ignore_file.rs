//! Editing ignore files: the lines `ignore` and `init` write, moving an old
//! record to its canonical form, and removing records.

use vstd::prelude::*;
use crate::settings::strings_view;
use crate::text::{chars_of, string_of, has_prefix, has_suffix, starts_with, lines_spec, lines_of, trim, trim_spec, trim_start_spec, trim_end_spec, concat_str, push_all};
use crate::tasks::{join, join_spec};
use crate::settings::opt_view;
use crate::ignore::{IgnoreSet, component_wise_spec, check_path_matches_regex_component_wise};

verus! {

/// Whether a character has a meaning in a regular expression
/// (`regex_syntax::is_meta_character`).
pub open spec fn is_meta(c: char) -> bool {
    c == '\\' || c == '.' || c == '+' || c == '*' || c == '?' || c == '(' || c == ')' || c == '|'
        || c == '[' || c == ']' || c == '{' || c == '}' || c == '^' || c == '$' || c == '#' || c == '&'
        || c == '-' || c == '~'
}

/// `s` with a backslash before each meta character.
pub open spec fn escape_spec(s: Seq<char>) -> Seq<char>
    decreases s.len(),
{
    if s.len() == 0 {
        Seq::empty()
    } else {
        escape_spec(s.drop_last()) + if is_meta(s.last()) { seq!['\\', s.last()] } else { seq![s.last()] }
    }
}

/// Calls `regex::escape`. The contract claims what its source does: a
/// backslash goes before each meta character, see `escape_spec`.
#[verifier::external_body]
fn regex_escape(s: &str) -> (r: String)
    ensures
        r@ == escape_spec(s@),
{
    regex::escape(s)
}

/// `s` with each occurrence of `from`, left to right and not overlapping,
/// replaced by `to` (`str::replace`; an empty `from` puts `to` around every
/// character).
pub open spec fn replace_spec(s: Seq<char>, from: Seq<char>, to: Seq<char>) -> Seq<char>
    decreases s.len(),
{
    if from.len() == 0 {
        if s.len() == 0 { to } else { to + seq![s[0]] + replace_spec(s.drop_first(), from, to) }
    } else if has_prefix(s, from) {
        to + replace_spec(s.skip(from.len() as int), from, to)
    } else if s.len() == 0 {
        Seq::empty()
    } else {
        seq![s[0]] + replace_spec(s.drop_first(), from, to)
    }
}

/// See `replace_spec`.
pub fn replace_all(s: &str, from: &str, to: &str) -> (r: String)
    ensures
        r@ == replace_spec(s@, from@, to@),
{
    let sc = chars_of(s);
    let fc = chars_of(from);
    let tc = chars_of(to);
    let mut out: Vec<char> = Vec::new();
    let mut i: usize = 0;
    assert(sc@.skip(0) =~= sc@);
    while i < sc.len()
        invariant
            i <= sc@.len(),
            sc@ == s@,
            fc@ == from@,
            tc@ == to@,
            replace_spec(s@, from@, to@) == out@ + replace_spec(sc@.skip(i as int), from@, to@),
        decreases sc.len() - i,
    {
        let rest = crate::text::slice_to_vec(sc.as_slice(), i, sc.len());
        assert(rest@ =~= sc@.skip(i as int));
        if fc.len() == 0 {
            push_all(&mut out, tc.as_slice());
            out.push(sc[i]);
            assert(sc@.skip(i as int).drop_first() =~= sc@.skip(i + 1));
            assert(out@ =~= (out@.subrange(0, out@.len() - tc@.len() - 1)) + tc@ + seq![sc@[i as int]]);
            i = i + 1;
        } else if starts_with(rest.as_slice(), fc.as_slice()) {
            push_all(&mut out, tc.as_slice());
            assert(sc@.skip(i as int).skip(fc@.len() as int) =~= sc@.skip(i + fc@.len()));
            i = i + fc.len();
        } else {
            out.push(sc[i]);
            assert(sc@.skip(i as int).drop_first() =~= sc@.skip(i + 1));
            i = i + 1;
        }
    }
    proof {
        assert(sc@.skip(sc@.len() as int) =~= Seq::<char>::empty());
    }
    if fc.len() == 0 {
        push_all(&mut out, tc.as_slice());
    }
    assert(out@ =~= replace_spec(s@, from@, to@));
    string_of(out.as_slice())
}

/// The record that ignores the target file of a source path: the path with
/// the dot prefix removed, escaped, between `^` and `$`.
pub open spec fn canonical_line_spec(source_rel: Seq<char>, dot_prefix: Seq<char>) -> Seq<char> {
    seq!['^'] + escape_spec(replace_spec(source_rel, dot_prefix, Seq::empty())) + seq!['$']
}

/// See `canonical_line_spec`.
pub fn canonical_source_line(source_rel: &str, dot_prefix: &str) -> (r: String)
    ensures
        r@ == canonical_line_spec(source_rel@, dot_prefix@),
{
    let stripped = replace_all(source_rel, dot_prefix, "");
    let escaped = regex_escape(stripped.as_str());
    let a = concat_str("^", escaped.as_str());
    let r = concat_str(a.as_str(), "$");
    proof {
        reveal_strlit("");
        reveal_strlit("^");
        reveal_strlit("$");
        assert(""@ =~= Seq::<char>::empty());
    }
    r
}

/// The record that ignores a target path: the path, escaped.
pub fn target_ignore_line(path: &str) -> (r: String)
    ensures
        r@ == escape_spec(path@),
{
    regex_escape(path)
}

/// What `ignore` does with a path in the source directory.
#[derive(PartialEq, Eq, Structural)]
pub enum SourceIgnoreStep {
    /// The canonical record is there already.
    Keep,
    /// Another record matches: replace it with the canonical one.
    Migrate,
    /// No record matches: add the canonical one.
    Add,
}

/// A source path whose target the source ignore file should cover: nothing
/// to do when the matching record is the canonical one, a migration when
/// another record matches, an addition when none does.
pub fn source_ignore_step(matched: &Option<String>, canonical: &str) -> (r: SourceIgnoreStep)
    ensures
        r == (match *matched {
            Some(m) => if m@ == canonical@ { SourceIgnoreStep::Keep } else { SourceIgnoreStep::Migrate },
            None => SourceIgnoreStep::Add,
        }),
{
    match matched {
        Some(m) => {
            let mc = chars_of(m.as_str());
            let cc = chars_of(canonical);
            if crate::text::chars_eq(mc.as_slice(), cc.as_slice()) {
                SourceIgnoreStep::Keep
            } else {
                SourceIgnoreStep::Migrate
            }
        },
        None => SourceIgnoreStep::Add,
    }
}

/// The record of the source ignore file that already covers a source path:
/// the first that matches the path component-wise, else the first that
/// matches it with the dot prefix removed.
pub open spec fn source_path_match_spec(patterns: Seq<Seq<char>>, source_rel: Seq<char>, dot_prefix: Seq<char>) -> Option<Seq<char>> {
    match component_wise_spec(patterns, source_rel) {
        Some(p) => Some(p),
        None => component_wise_spec(patterns, replace_spec(source_rel, dot_prefix, Seq::empty())),
    }
}

/// See `source_path_match_spec`.
pub fn source_path_match(set: &IgnoreSet, source_rel: &str, dot_prefix: &str) -> (r: Option<String>)
    ensures
        opt_view(r) == source_path_match_spec(set.patterns(), source_rel@, dot_prefix@),
{
    match check_path_matches_regex_component_wise(set, source_rel) {
        Some(p) => Some(p),
        None => {
            let stripped = replace_all(source_rel, dot_prefix, "");
            proof {
                reveal_strlit("");
                assert(""@ =~= Seq::<char>::empty());
            }
            check_path_matches_regex_component_wise(set, stripped.as_str())
        },
    }
}

/// Where `ignore` files a path that it was given.
#[derive(PartialEq, Eq, Structural)]
pub enum IgnoreRoute {
    /// Under the source directory: a record in the source ignore file.
    Source,
    /// Under the target directory: a record in the local ignore file.
    Target,
    /// Outside both and not on disk: an error.
    Missing,
    /// Outside both but on disk: passed over.
    Skip,
}

/// The source directory is asked first, as it usually lies inside the
/// target directory.
pub fn ignore_route(in_source_dir: bool, in_target_dir: bool, exists: bool) -> (r: IgnoreRoute)
    ensures
        r == (if in_source_dir {
            IgnoreRoute::Source
        } else if in_target_dir {
            IgnoreRoute::Target
        } else if !exists {
            IgnoreRoute::Missing
        } else {
            IgnoreRoute::Skip
        }),
{
    if in_source_dir {
        IgnoreRoute::Source
    } else if in_target_dir {
        IgnoreRoute::Target
    } else if !exists {
        IgnoreRoute::Missing
    } else {
        IgnoreRoute::Skip
    }
}

/// Whether appending to a file with this content needs a newline first: it
/// is not empty and does not end with one.
pub fn needs_newline(content: &str) -> (b: bool)
    ensures
        b == (content@.len() > 0 && content@.last() != '\n'),
{
    let c = chars_of(content);
    c.len() > 0 && c[c.len() - 1] != '\n'
}

/// The lines, without those equal to `old`, in order.
pub open spec fn without_spec(ls: Seq<Seq<char>>, old: Seq<char>) -> Seq<Seq<char>>
    decreases ls.len(),
{
    if ls.len() == 0 {
        Seq::empty()
    } else {
        without_spec(ls.drop_last(), old) + if ls.last() == old { Seq::empty() } else { seq![ls.last()] }
    }
}

/// Text made of lines: each followed by a newline.
pub open spec fn lines_text(ls: Seq<Seq<char>>) -> Seq<char> {
    let j = join_spec(ls, seq!['\n']);
    if j.len() == 0 { j } else { j + seq!['\n'] }
}

/// The ignore file after moving record `old` to `new`: every line but those
/// equal to `old`, then `new` unless some line already is it, joined with
/// newlines and ended by one (an empty result stays empty).
pub open spec fn migrate_spec(content: Seq<char>, old: Seq<char>, new: Seq<char>) -> Seq<char> {
    let kept = without_spec(lines_spec(content), old);
    lines_text(if kept.contains(new) { kept } else { kept.push(new) })
}

/// See `migrate_spec`.
pub fn migrate_text(content: &str, old: &str, new: &str) -> (r: String)
    ensures
        r@ == migrate_spec(content@, old@, new@),
{
    let lines = lines_of(content);
    let ghost lv = strings_view(lines@);
    let oc = chars_of(old);
    let nc = chars_of(new);
    let mut kept: Vec<String> = Vec::new();
    let mut has_new = false;
    let mut i: usize = 0;
    while i < lines.len()
        invariant
            i <= lines@.len(),
            lv == strings_view(lines@),
            oc@ == old@,
            nc@ == new@,
            strings_view(kept@) == without_spec(lv.take(i as int), old@),
            has_new == strings_view(kept@).contains(new@),
        decreases lines.len() - i,
    {
        let ghost before = strings_view(kept@);
        assert(lv.take(i + 1).drop_last() =~= lv.take(i as int));
        assert(lv[i as int] == lines@[i as int]@);
        let lc = chars_of(lines[i].as_str());
        if !crate::text::chars_eq(lc.as_slice(), oc.as_slice()) {
            kept.push(lines[i].clone());
            assert(strings_view(kept@) =~= before + seq![lv[i as int]]);
            if crate::text::chars_eq(lc.as_slice(), nc.as_slice()) {
                has_new = true;
                proof {
                    let kv2 = strings_view(kept@);
                    assert(kv2[before.len() as int] == new@);
                }
            } else {
                proof {
                    let kv2 = strings_view(kept@);
                    if kv2.contains(new@) {
                        let x = choose|x: int| 0 <= x < kv2.len() && kv2[x] == new@;
                        if x < before.len() {
                            assert(before[x] == new@);
                        }
                    }
                    if before.contains(new@) {
                        let x = choose|x: int| 0 <= x < before.len() && before[x] == new@;
                        assert(kv2[x] == new@);
                    }
                }
            }
        } else {
            assert(strings_view(kept@) =~= before + Seq::empty());
        }
        i = i + 1;
    }
    assert(lv.take(lines@.len() as int) =~= lv);
    assert(lv == lines_spec(content@));
    let ghost kv = strings_view(kept@);
    if !has_new {
        kept.push(new.to_owned());
        assert(strings_view(kept@) =~= kv.push(new@));
    }
    let mut text = join(&kept, "\n");
    proof {
        reveal_strlit("\n");
        assert("\n"@ =~= seq!['\n']);
    }
    if !text.as_str().is_empty() {
        text.append("\n");
    }
    text
}

/// Whether a trimmed line is one of the records to remove, written as given
/// or escaped.
pub open spec fn is_removed(t: Seq<char>, records: Seq<Seq<char>>) -> bool {
    exists|r: int| 0 <= r < records.len() && (#[trigger] records[r] == t || escape_spec(records[r]) == t)
}

/// The lines an ignore file keeps when records are removed: those whose
/// trimmed text is neither empty nor a removed record.
pub open spec fn kept_lines_spec(ls: Seq<Seq<char>>, records: Seq<Seq<char>>) -> Seq<Seq<char>>
    decreases ls.len(),
{
    if ls.len() == 0 {
        Seq::empty()
    } else {
        let t = trim_spec(ls.last());
        kept_lines_spec(ls.drop_last(), records) + if t.len() == 0 || is_removed(t, records) { Seq::empty() } else { seq![ls.last()] }
    }
}

/// The first character of an escaped text: a backslash before a meta
/// character, the character itself otherwise.
proof fn lemma_escape_first(r: Seq<char>)
    requires
        r.len() > 0,
    ensures
        escape_spec(r).len() > 0,
        escape_spec(r)[0] == (if is_meta(r[0]) { '\\' } else { r[0] }),
        escape_spec(r).last() == r.last(),
    decreases r.len(),
{
    let piece = if is_meta(r.last()) { seq!['\\', r.last()] } else { seq![r.last()] };
    assert(escape_spec(r) == escape_spec(r.drop_last()) + piece);
    if r.len() > 1 {
        lemma_escape_first(r.drop_last());
        assert(r.drop_last()[0] == r[0]);
        assert((escape_spec(r.drop_last()) + piece)[0] == escape_spec(r.drop_last())[0]);
    } else {
        assert(escape_spec(r.drop_last()) =~= Seq::<char>::empty());
        assert(r.last() == r[0]);
        assert(escape_spec(r) =~= piece);
    }
}

/// A text with no white space at its ends is its own trimmed form.
proof fn lemma_trim_keeps(x: Seq<char>)
    requires
        x.len() > 0,
        !crate::settings::is_white(x[0]),
        !crate::settings::is_white(x.last()),
    ensures
        trim_spec(x) == x,
{
    assert(trim_start_spec(x) == x);
    assert(trim_end_spec(x) == x);
}

/// What `ignore` appends as a line, a path in its escaped form or a pattern
/// as given, `ignore --remove` with that same path or pattern takes out
/// again: the file keeps its other lines as if the line had never been added.
pub proof fn lemma_remove_undoes_add(ls: Seq<Seq<char>>, r: Seq<char>)
    requires
        r.len() > 0,
        !crate::settings::is_white(r[0]),
        !crate::settings::is_white(r.last()),
    ensures
        kept_lines_spec(ls.push(escape_spec(r)), seq![r]) == kept_lines_spec(ls, seq![r]),
        kept_lines_spec(ls.push(r), seq![r]) == kept_lines_spec(ls, seq![r]),
{
    let e = escape_spec(r);
    lemma_escape_first(r);
    lemma_trim_keeps(e);
    lemma_trim_keeps(r);
    assert(ls.push(e).drop_last() =~= ls);
    assert(ls.push(r).drop_last() =~= ls);
    assert(seq![r][0] == r);
    assert(is_removed(e, seq![r]));
    assert(is_removed(r, seq![r]));
    assert(kept_lines_spec(ls.push(e), seq![r]) =~= kept_lines_spec(ls, seq![r]) + Seq::empty());
    assert(kept_lines_spec(ls.push(r), seq![r]) =~= kept_lines_spec(ls, seq![r]) + Seq::empty());
}

/// The removed records, trimmed, in order.
pub open spec fn removed_spec(ls: Seq<Seq<char>>, records: Seq<Seq<char>>) -> Seq<Seq<char>>
    decreases ls.len(),
{
    if ls.len() == 0 {
        Seq::empty()
    } else {
        let t = trim_spec(ls.last());
        removed_spec(ls.drop_last(), records) + if t.len() != 0 && is_removed(t, records) { seq![t] } else { Seq::empty() }
    }
}

/// Removing records from an ignore file: the new content (the kept lines
/// joined with newlines) and the removed records, see `kept_lines_spec` and
/// `removed_spec`.
pub fn remove_records(content: &str, records: &Vec<String>) -> (r: (String, Vec<String>))
    ensures
        r.0@ == join_spec(kept_lines_spec(lines_spec(content@), strings_view(records@)), seq!['\n']),
        strings_view(r.1@) == removed_spec(lines_spec(content@), strings_view(records@)),
{
    let ghost rv = strings_view(records@);
    let mut escaped: Vec<Vec<char>> = Vec::new();
    let mut plain: Vec<Vec<char>> = Vec::new();
    let mut k: usize = 0;
    while k < records.len()
        invariant
            k <= records@.len(),
            rv == strings_view(records@),
            escaped@.len() == k,
            plain@.len() == k,
            forall|x: int| 0 <= x < k ==> (#[trigger] plain@[x])@ == rv[x] && escaped@[x]@ == escape_spec(rv[x]),
        decreases records.len() - k,
    {
        assert(rv[k as int] == records@[k as int]@);
        let ghost pe = escaped@;
        let ghost pp = plain@;
        let e = regex_escape(records[k].as_str());
        escaped.push(chars_of(e.as_str()));
        plain.push(chars_of(records[k].as_str()));
        assert forall|x: int| 0 <= x < k + 1 implies (#[trigger] plain@[x])@ == rv[x] && escaped@[x]@ == escape_spec(rv[x]) by {
            if x < k {
                assert(plain@[x] == pp[x] && escaped@[x] == pe[x]);
            }
        }
        k = k + 1;
    }
    let lines = lines_of(content);
    let ghost lv = strings_view(lines@);
    let mut kept: Vec<String> = Vec::new();
    let mut removed: Vec<String> = Vec::new();
    let mut i: usize = 0;
    while i < lines.len()
        invariant
            i <= lines@.len(),
            lv == strings_view(lines@),
            rv == strings_view(records@),
            escaped@.len() == rv.len(),
            plain@.len() == rv.len(),
            forall|x: int| 0 <= x < rv.len() ==> (#[trigger] plain@[x])@ == rv[x] && escaped@[x]@ == escape_spec(rv[x]),
            strings_view(kept@) == kept_lines_spec(lv.take(i as int), rv),
            strings_view(removed@) == removed_spec(lv.take(i as int), rv),
        decreases lines.len() - i,
    {
        let ghost bk = strings_view(kept@);
        let ghost br = strings_view(removed@);
        assert(lv.take(i + 1).drop_last() =~= lv.take(i as int));
        assert(lv[i as int] == lines@[i as int]@);
        let t = trim(lines[i].as_str());
        let tc = chars_of(t.as_str());
        let mut hit = false;
        let mut x: usize = 0;
        while x < plain.len()
            invariant
                x <= plain@.len(),
                plain@.len() == rv.len(),
                escaped@.len() == rv.len(),
                forall|y: int| 0 <= y < rv.len() ==> (#[trigger] plain@[y])@ == rv[y] && escaped@[y]@ == escape_spec(rv[y]),
                hit == exists|y: int| 0 <= y < x && (#[trigger] rv[y] == tc@ || escape_spec(rv[y]) == tc@),
            decreases plain.len() - x,
        {
            assert(plain@[x as int]@ == rv[x as int]);
            if crate::text::chars_eq(plain[x].as_slice(), tc.as_slice()) || crate::text::chars_eq(escaped[x].as_slice(), tc.as_slice()) {
                hit = true;
            }
            x = x + 1;
        }
        assert(hit == is_removed(tc@, rv));
        if tc.len() == 0 || hit {
            if tc.len() != 0 {
                removed.push(t);
                assert(strings_view(removed@) =~= br + seq![tc@]);
            } else {
                assert(strings_view(removed@) =~= br + Seq::empty());
            }
            assert(strings_view(kept@) =~= bk + Seq::empty());
        } else {
            kept.push(lines[i].clone());
            assert(strings_view(kept@) =~= bk + seq![lv[i as int]]);
            assert(strings_view(removed@) =~= br + Seq::empty());
        }
        i = i + 1;
    }
    assert(lv.take(lines@.len() as int) =~= lv);
    let text = join(&kept, "\n");
    proof {
        reveal_strlit("\n");
        assert("\n"@ =~= seq!['\n']);
    }
    (text, removed)
}

/// The records of a new source ignore file, unescaped.
pub open spec fn default_source_records() -> Seq<Seq<char>> {
    seq![".dfm_root"@, ".git"@, ".dfm_ignore_source"@, ".dfm_ignore_target"@, ".current_merge"@, ".current_diff"@]
}

/// The lines of records, each escaped and followed by a newline.
pub open spec fn escaped_lines(rs: Seq<Seq<char>>) -> Seq<char>
    decreases rs.len(),
{
    if rs.len() == 0 {
        Seq::empty()
    } else {
        escaped_lines(rs.drop_last()) + escape_spec(rs.last()) + seq!['\n']
    }
}

/// The content of a new source ignore file: dfm's own files and the git
/// directory, each record escaped on a line of its own.
pub fn default_source_ignore_text() -> (r: String)
    ensures
        r@ == escaped_lines(default_source_records()),
{
    let mut records: Vec<&str> = Vec::new();
    records.push(".dfm_root");
    records.push(".git");
    records.push(".dfm_ignore_source");
    records.push(".dfm_ignore_target");
    records.push(".current_merge");
    records.push(".current_diff");
    let ghost rs = default_source_records();
    assert(records@.map_values(|r: &str| r@) =~= rs);
    let mut out = String::new();
    let mut i: usize = 0;
    while i < records.len()
        invariant
            i <= records@.len(),
            records@.map_values(|r: &str| r@) == rs,
            out@ == escaped_lines(rs.take(i as int)),
        decreases records.len() - i,
    {
        assert(rs.take(i + 1).drop_last() =~= rs.take(i as int));
        assert(rs[i as int] == records@[i as int]@);
        let e = regex_escape(records[i]);
        out.append(e.as_str());
        out.append("\n");
        proof {
            reveal_strlit("\n");
        }
        i = i + 1;
    }
    assert(rs.take(6) =~= rs);
    out
}

/// The lines an ignore file keeps when matched patterns are pruned: blank
/// lines and those whose trimmed text is none of the patterns.
pub open spec fn pruned_kept_spec(ls: Seq<Seq<char>>, patterns: Seq<Seq<char>>) -> Seq<Seq<char>>
    decreases ls.len(),
{
    if ls.len() == 0 {
        Seq::empty()
    } else {
        let t = trim_spec(ls.last());
        pruned_kept_spec(ls.drop_last(), patterns) + if t.len() == 0 || !patterns.contains(t) { seq![ls.last()] } else { Seq::empty() }
    }
}

/// The pruned patterns, trimmed, in order.
pub open spec fn pruned_spec(ls: Seq<Seq<char>>, patterns: Seq<Seq<char>>) -> Seq<Seq<char>>
    decreases ls.len(),
{
    if ls.len() == 0 {
        Seq::empty()
    } else {
        let t = trim_spec(ls.last());
        pruned_spec(ls.drop_last(), patterns) + if t.len() != 0 && patterns.contains(t) { seq![t] } else { Seq::empty() }
    }
}

/// Pruning the patterns that matched files `add` or `pull` took over from an
/// ignore file: the new content (the kept lines joined with newlines) and
/// the pruned patterns, see `pruned_kept_spec` and `pruned_spec`.
pub fn prune_patterns(content: &str, patterns: &Vec<String>) -> (r: (String, Vec<String>))
    ensures
        r.0@ == join_spec(pruned_kept_spec(lines_spec(content@), strings_view(patterns@)), seq!['\n']),
        strings_view(r.1@) == pruned_spec(lines_spec(content@), strings_view(patterns@)),
{
    let ghost pv = strings_view(patterns@);
    let lines = lines_of(content);
    let ghost lv = strings_view(lines@);
    let mut kept: Vec<String> = Vec::new();
    let mut removed: Vec<String> = Vec::new();
    let mut i: usize = 0;
    while i < lines.len()
        invariant
            i <= lines@.len(),
            lv == strings_view(lines@),
            pv == strings_view(patterns@),
            strings_view(kept@) == pruned_kept_spec(lv.take(i as int), pv),
            strings_view(removed@) == pruned_spec(lv.take(i as int), pv),
        decreases lines.len() - i,
    {
        let ghost bk = strings_view(kept@);
        let ghost br = strings_view(removed@);
        assert(lv.take(i + 1).drop_last() =~= lv.take(i as int));
        assert(lv[i as int] == lines@[i as int]@);
        let t = trim(lines[i].as_str());
        let tc = chars_of(t.as_str());
        let mut hit = false;
        let mut x: usize = 0;
        while x < patterns.len()
            invariant
                x <= patterns@.len(),
                pv == strings_view(patterns@),
                hit == exists|y: int| 0 <= y < x && pv[y] == tc@,
            decreases patterns.len() - x,
        {
            assert(pv[x as int] == patterns@[x as int]@);
            let pc = chars_of(patterns[x].as_str());
            if crate::text::chars_eq(pc.as_slice(), tc.as_slice()) {
                hit = true;
            }
            x = x + 1;
        }
        assert(hit == pv.contains(tc@));
        if tc.len() == 0 || !hit {
            kept.push(lines[i].clone());
            assert(strings_view(kept@) =~= bk + seq![lv[i as int]]);
            assert(strings_view(removed@) =~= br + Seq::empty());
        } else {
            removed.push(t);
            assert(strings_view(removed@) =~= br + seq![tc@]);
            assert(strings_view(kept@) =~= bk + Seq::empty());
        }
        i = i + 1;
    }
    assert(lv.take(lines@.len() as int) =~= lv);
    let text = join(&kept, "\n");
    proof {
        reveal_strlit("\n");
        assert("\n"@ =~= seq!['\n']);
    }
    (text, removed)
}

} // verus!
