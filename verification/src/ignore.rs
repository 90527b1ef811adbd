//! Ignore patterns: reading them from the lines of an ignore file, and
//! matching them against relative paths, either as a substring of the whole
//! path or component by component.

use vstd::prelude::*;
use crate::text::{chars_of, string_of, concat_str, has_prefix, has_suffix, starts_with, ends_with, push_all, trim, trim_spec};
use crate::paths::{split_slash, split_pieces, dot};
use crate::error::DfmError;
use regex::RegexSet;

verus! {

/// `regex::RegexSet`, the compiled set of ignore patterns.
#[verifier::external_type_specification]
#[verifier::external_body]
pub struct ExRegexSet(RegexSet);

/// The patterns a regex set was built from, in order.
pub uninterp spec fn regex_set_patterns(s: RegexSet) -> Seq<Seq<char>>;

/// Whether a pattern is a valid regular expression for the `regex` crate.
pub uninterp spec fn regex_valid(pattern: Seq<char>) -> bool;

/// Whether the regular expression `pattern` matches somewhere in `text`
/// (`Regex::is_match`, unanchored).
pub uninterp spec fn regex_search(pattern: Seq<char>, text: Seq<char>) -> bool;

/// Whether every pattern is a valid regular expression.
pub open spec fn all_valid(patterns: Seq<Seq<char>>) -> bool {
    forall|i: int| 0 <= i < patterns.len() ==> regex_valid(#[trigger] patterns[i])
}

/// Whether `RegexSet::new` builds a set from the patterns, in order.
pub uninterp spec fn regex_set_builds(patterns: Seq<Seq<char>>) -> bool;

/// Calls `RegexSet::new`. The contract claims that the call succeeds exactly
/// when the named `regex_set_builds` holds of the patterns, that it fails
/// when one pattern is not a valid regular expression (the crate's
/// documentation) and succeeds on no pattern (`RegexSet::empty` is that
/// call), and that a built set holds the given patterns in order (what
/// `RegexSet::patterns` returns); a failure carries the crate's message, of
/// which nothing is claimed.
#[verifier::external_body]
fn regex_set_new(patterns: &Vec<String>) -> (r: Result<RegexSet, String>)
    ensures
        r is Ok == regex_set_builds(patterns@.map_values(|p: String| p@)),
        !all_valid(patterns@.map_values(|p: String| p@)) ==> r is Err,
        patterns@.len() == 0 ==> r is Ok,
        r matches Ok(s) ==> regex_set_patterns(s) == patterns@.map_values(|p: String| p@),
{
    RegexSet::new(patterns.iter()).map_err(|e| e.to_string())
}

/// Calls `RegexSet::empty`. The contract claims the set holds no pattern.
#[verifier::external_body]
fn regex_set_empty() -> (s: RegexSet)
    ensures
        regex_set_patterns(s) == Seq::<Seq<char>>::empty(),
{
    RegexSet::empty()
}

/// Calls `RegexSet::patterns` and copies the list. The contract claims it is
/// the list the set was built from.
#[verifier::external_body]
fn regex_set_pattern_list(s: &RegexSet) -> (v: Vec<String>)
    ensures
        v@.map_values(|p: String| p@) == regex_set_patterns(*s),
{
    s.patterns().to_vec()
}

/// Calls `RegexSet::matches` and takes the first index its iterator yields.
/// The contract claims the iterator yields, in increasing order, the indices
/// of the patterns that match somewhere in `text`, as each pattern alone
/// would.
#[verifier::external_body]
fn regex_set_first_match(s: &RegexSet, text: &str) -> (r: Option<usize>)
    ensures
        r matches Some(i) ==> i < regex_set_patterns(*s).len() && regex_search(regex_set_patterns(*s)[i as int], text@)
            && forall|j: int| 0 <= j < i ==> !regex_search(#[trigger] regex_set_patterns(*s)[j], text@),
        r is None ==> forall|j: int| 0 <= j < regex_set_patterns(*s).len() ==> !regex_search(#[trigger] regex_set_patterns(*s)[j], text@),
{
    s.matches(text).iter().next()
}

/// Calls `RegexSet::matches` and collects the indices its iterator yields.
/// The contract claims these are exactly the indices of the patterns that
/// match somewhere in `text`, as each pattern alone would.
#[verifier::external_body]
fn regex_set_matches(s: &RegexSet, text: &str) -> (v: Vec<usize>)
    ensures
        forall|k: int| 0 <= k < v@.len() ==> (#[trigger] v@[k]) < regex_set_patterns(*s).len()
            && regex_search(regex_set_patterns(*s)[v@[k] as int], text@),
        forall|i: int| 0 <= i < regex_set_patterns(*s).len() && regex_search(#[trigger] regex_set_patterns(*s)[i], text@)
            ==> v@.contains(i as usize),
{
    s.matches(text).iter().collect()
}

/// Calls `Regex::new` and then `Regex::is_match`. The contract claims the
/// pattern compiles exactly when it is valid, and that a compiled pattern
/// answers whether it matches somewhere in `text`.
#[verifier::external_body]
fn regex_match(pattern: &str, text: &str) -> (r: Option<bool>)
    ensures
        r is Some == regex_valid(pattern@),
        r matches Some(b) ==> b == regex_search(pattern@, text@),
{
    match regex::Regex::new(pattern) {
        Ok(re) => Some(re.is_match(text)),
        Err(_) => None,
    }
}

/// Whether `pull` walks a source path: the pattern `^(.+/)?[^.][^/]+$`,
/// which keeps paths whose name does not start with a dot (and has two
/// characters or more).
pub fn pull_walks(rel: &str) -> (b: bool)
    ensures
        b == (regex_valid("^(.+/)?[^.][^/]+$"@) && regex_search("^(.+/)?[^.][^/]+$"@, rel@)),
{
    match regex_match("^(.+/)?[^.][^/]+$", rel) {
        Some(b) => b,
        None => false,
    }
}

// Reading patterns

/// Whether a `#` at `i` opens a comment: it is not escaped by a backslash
/// right before it.
pub open spec fn comment_at(line: Seq<char>, i: int) -> bool {
    line[i] == '#' && (i == 0 || line[i - 1] != '\\')
}

/// Where the comment of `line` starts at or after `i` (its length when it has
/// none).
pub open spec fn comment_from(line: Seq<char>, i: nat) -> nat
    decreases line.len() - i,
{
    if i >= line.len() {
        line.len()
    } else if comment_at(line, i as int) {
        i
    } else {
        comment_from(line, i + 1)
    }
}

/// A line without its comment.
pub open spec fn strip_comment(line: Seq<char>) -> Seq<char> {
    line.take(comment_from(line, 0) as int)
}

/// The patterns of an ignore file: each line without its comment; lines
/// whose remainder is empty or only white space are left out.
pub open spec fn ignore_patterns_spec(lines: Seq<Seq<char>>) -> Seq<Seq<char>>
    decreases lines.len(),
{
    if lines.len() == 0 {
        Seq::empty()
    } else {
        ignore_patterns_spec(lines.drop_last()) + if trim_spec(strip_comment(lines.last())).len() > 0 {
            seq![strip_comment(lines.last())]
        } else {
            Seq::empty()
        }
    }
}

proof fn lemma_comment_from_bound(line: Seq<char>, i: nat)
    ensures
        comment_from(line, i) <= line.len(),
        i <= line.len() ==> i <= comment_from(line, i),
    decreases line.len() - i,
{
    if i < line.len() && !comment_at(line, i as int) {
        lemma_comment_from_bound(line, i + 1);
    }
}

/// `line` without its comment.
pub fn strip_comment_chars(line: &[char]) -> (r: Vec<char>)
    ensures
        r@ == strip_comment(line@),
{
    let mut prev: char = ' ';
    let mut i: usize = 0;
    while i < line.len()
        invariant
            i <= line@.len(),
            comment_from(line@, 0) == comment_from(line@, i as nat),
            i > 0 ==> prev == line@[i - 1],
            i == 0 ==> prev == ' ',
        decreases line.len() - i,
    {
        let c = line[i];
        if c == '#' && prev != '\\' {
            assert(comment_at(line@, i as int));
            return slice_to_vec_chars(line, i);
        }
        prev = c;
        i = i + 1;
    }
    slice_to_vec_chars(line, line.len())
}

fn slice_to_vec_chars(line: &[char], n: usize) -> (r: Vec<char>)
    requires
        n <= line@.len(),
    ensures
        r@ == line@.take(n as int),
{
    let r = crate::text::slice_to_vec(line, 0, n);
    assert(line@.subrange(0, n as int) =~= line@.take(n as int));
    r
}

/// The patterns in the lines of an ignore file, see `ignore_patterns_spec`.
pub fn ignore_patterns_from_lines(lines: &Vec<String>) -> (v: Vec<String>)
    ensures
        v@.map_values(|p: String| p@) == ignore_patterns_spec(lines@.map_values(|l: String| l@)),
{
    let ghost lv = lines@.map_values(|l: String| l@);
    let mut v: Vec<String> = Vec::new();
    let mut i: usize = 0;
    assert(lv.take(0) =~= Seq::<Seq<char>>::empty());
    while i < lines.len()
        invariant
            i <= lines@.len(),
            lv == lines@.map_values(|l: String| l@),
            v@.map_values(|p: String| p@) == ignore_patterns_spec(lv.take(i as int)),
        decreases lines.len() - i,
    {
        let chars = chars_of(lines[i].as_str());
        let stripped = strip_comment_chars(chars.as_slice());
        let ghost before = v@.map_values(|p: String| p@);
        proof {
            assert(lv.take(i + 1).drop_last() =~= lv.take(i as int));
            assert(lv.take(i + 1).last() == lines@[i as int]@);
        }
        let pattern = string_of(stripped.as_slice());
        let trimmed = trim(pattern.as_str());
        if !trimmed.as_str().is_empty() {
            v.push(pattern);
            assert(v@.map_values(|p: String| p@) =~= before + seq![stripped@]);
        } else {
            assert(v@.map_values(|p: String| p@) =~= before + Seq::<Seq<char>>::empty());
        }
        i = i + 1;
    }
    assert(lv.take(lines@.len() as int) =~= lv);
    v
}

/// A compiled set of ignore patterns.
pub struct IgnoreSet {
    pub set: RegexSet,
}

impl IgnoreSet {
    /// The patterns of the set, in order.
    pub closed spec fn patterns(&self) -> Seq<Seq<char>> {
        regex_set_patterns(self.set)
    }

    /// A set without patterns, which ignores nothing.
    pub fn empty() -> (r: IgnoreSet)
        ensures
            r.patterns() == Seq::<Seq<char>>::empty(),
    {
        IgnoreSet { set: regex_set_empty() }
    }

    /// The set of the given patterns; an error when one does not compile.
    pub fn from_patterns(patterns: &Vec<String>) -> (r: Result<IgnoreSet, DfmError>)
        ensures
            r is Ok == regex_set_builds(patterns@.map_values(|p: String| p@)),
            !all_valid(patterns@.map_values(|p: String| p@)) ==> r is Err,
            r matches Ok(s) ==> s.patterns() == patterns@.map_values(|p: String| p@),
            r matches Err(e) ==> e is Other,
    {
        match regex_set_new(patterns) {
            Ok(set) => Ok(IgnoreSet { set }),
            Err(msg) => Err(DfmError::Other(msg)),
        }
    }

    /// The patterns of the set, in order.
    pub fn pattern_list(&self) -> (v: Vec<String>)
        ensures
            v@.map_values(|p: String| p@) == self.patterns(),
    {
        regex_set_pattern_list(&self.set)
    }

    /// The indices of the patterns that match somewhere in `text`.
    pub fn matching_indices(&self, text: &str) -> (v: Vec<usize>)
        ensures
            forall|k: int| 0 <= k < v@.len() ==> (#[trigger] v@[k]) < self.patterns().len()
                && regex_search(self.patterns()[v@[k] as int], text@),
            forall|i: int| 0 <= i < self.patterns().len() && regex_search(#[trigger] self.patterns()[i], text@)
                ==> v@.contains(i as usize),
    {
        regex_set_matches(&self.set, text)
    }
}

/// The ignore set of an ignore file's lines: the set compiled from their
/// patterns (empty when there are none), or an error when they do not
/// compile.
pub fn ignore_set_from_lines(lines: &Vec<String>) -> (r: Result<IgnoreSet, DfmError>)
    ensures
        r is Ok == regex_set_builds(ignore_patterns_spec(lines@.map_values(|l: String| l@))),
        !all_valid(ignore_patterns_spec(lines@.map_values(|l: String| l@))) ==> r is Err,
        r matches Ok(s) ==> s.patterns() == ignore_patterns_spec(lines@.map_values(|l: String| l@)),
        r matches Err(e) ==> e is Other,
{
    let patterns = ignore_patterns_from_lines(lines);
    IgnoreSet::from_patterns(&patterns)
}

// Matching

/// The first pattern, in order, that matches somewhere in `haystack`.
pub open spec fn first_substring_match(patterns: Seq<Seq<char>>, haystack: Seq<char>) -> Option<Seq<char>>
    decreases patterns.len(),
{
    if patterns.len() == 0 {
        None
    } else if regex_search(patterns[0], haystack) {
        Some(patterns[0])
    } else {
        first_substring_match(patterns.drop_first(), haystack)
    }
}

proof fn lemma_first_substring_match(patterns: Seq<Seq<char>>, haystack: Seq<char>, i: int)
    requires
        0 <= i <= patterns.len(),
        forall|j: int| 0 <= j < i ==> !regex_search(#[trigger] patterns[j], haystack),
    ensures
        first_substring_match(patterns, haystack) == first_substring_match(patterns.skip(i), haystack),
    decreases i,
{
    if i > 0 {
        lemma_first_substring_match(patterns, haystack, i - 1);
        let s = patterns.skip(i - 1);
        assert(s[0] == patterns[i - 1]);
        assert(s.drop_first() =~= patterns.skip(i));
    } else {
        assert(patterns.skip(0) =~= patterns);
    }
}

/// The first pattern of `set` that matches anywhere inside `haystack` (no
/// anchoring); used for the encryption patterns, where `\.ssh` is meant to
/// match any path that contains it.
pub fn check_path_matches_regex_substring(set: &IgnoreSet, haystack: &str) -> (r: Option<String>)
    ensures
        match r {
            Some(p) => first_substring_match(set.patterns(), haystack@) == Some(p@),
            None => first_substring_match(set.patterns(), haystack@) is None,
        },
{
    let ghost pats = set.patterns();
    match regex_set_first_match(&set.set, haystack) {
        Some(i) => {
            let list = set.pattern_list();
            proof {
                lemma_first_substring_match(pats, haystack@, i as int);
                assert(pats.skip(i as int)[0] == pats[i as int]);
            }
            assert(list@[i as int]@ == pats[i as int]);
            Some(list[i].clone())
        },
        None => {
            proof {
                lemma_first_substring_match(pats, haystack@, pats.len() as int);
                assert(pats.skip(pats.len() as int) =~= Seq::<Seq<char>>::empty());
            }
            None
        },
    }
}


/// `parts` without its trailing empty pieces.
pub open spec fn drop_trailing_empty(parts: Seq<Seq<char>>) -> Seq<Seq<char>>
    decreases parts.len(),
{
    if parts.len() > 0 && parts.last().len() == 0 {
        drop_trailing_empty(parts.drop_last())
    } else {
        parts
    }
}

/// A sub-pattern anchored to match a whole component, unless it already has
/// an anchor (`^` at its start or `$` at its end).
pub open spec fn anchored(p: Seq<char>) -> Seq<char> {
    if (p.len() > 0 && p[0] == '^') || (p.len() > 0 && p.last() == '$') {
        p
    } else {
        seq!['^', '(', '?', ':'] + p + seq![')', '$']
    }
}

/// Whether the sub-pattern `sub`, anchored, compiles and matches component `c`.
pub open spec fn sub_matches(sub: Seq<char>, c: Seq<char>) -> bool {
    regex_valid(anchored(sub)) && regex_search(anchored(sub), c)
}

/// A sub-pattern that may match at any depth: it starts with `.*` or `^`.
pub open spec fn left_glob(sub: Seq<char>) -> bool {
    has_prefix(sub, seq!['.', '*']) || (sub.len() > 0 && sub[0] == '^')
}

/// The components of a relative path as the matcher sees them: split at
/// `/`, trailing empty pieces dropped.
pub open spec fn match_comps(rel: Seq<char>) -> Seq<Seq<char>> {
    drop_trailing_empty(split_slash(rel))
}

/// `comps` without a leading `.` component.
pub open spec fn after_dot(comps: Seq<Seq<char>>) -> Seq<Seq<char>> {
    if comps.len() > 0 && comps[0] == dot() { comps.drop_first() } else { comps }
}

/// Whether `pattern` matches the relative path `rel` component-wise:
/// - a single sub-pattern with a left glob matches when any component
///   matches it;
/// - a single sub-pattern without one matches the only component of a
///   root-level path (after a leading `.`), or else any component but the
///   last, which is the file's name;
/// - several sub-patterns match when adjacent components match them in order.
/// Each sub-pattern is anchored to whole components (see `anchored`).
pub open spec fn pattern_matches_spec(pattern: Seq<char>, rel: Seq<char>) -> bool {
    let comps = match_comps(rel);
    let subs = match_comps(pattern);
    if subs.len() == 0 {
        false
    } else if subs.len() == 1 {
        let sub = subs[0];
        if left_glob(sub) {
            exists|i: int| 0 <= i < comps.len() && sub_matches(sub, #[trigger] comps[i])
        } else {
            let cs = after_dot(comps);
            if cs.len() == 1 {
                sub_matches(sub, cs[0])
            } else {
                exists|i: int| 0 <= i < cs.len() - 1 && sub_matches(sub, #[trigger] cs[i])
            }
        }
    } else {
        subs.len() <= comps.len() && exists|w: int| 0 <= w <= comps.len() - subs.len() && #[trigger] window_matches(subs, comps, w)
    }
}

/// Whether the components from `w` on match the sub-patterns in order.
pub open spec fn window_matches(subs: Seq<Seq<char>>, comps: Seq<Seq<char>>, w: int) -> bool {
    forall|k: int| 0 <= k < subs.len() ==> sub_matches(#[trigger] subs[k], comps[w + k])
}

/// Split at `/` and drop trailing empty pieces.
fn match_comps_exec(s: &str) -> (v: Vec<Vec<char>>)
    ensures
        v@.map_values(|p: Vec<char>| p@) == match_comps(s@),
{
    let chars = chars_of(s);
    let mut v = split_pieces(chars.as_slice());
    while v.len() > 0 && v[v.len() - 1].len() == 0
        invariant
            drop_trailing_empty(v@.map_values(|p: Vec<char>| p@)) == match_comps(s@),
        decreases v.len(),
    {
        let ghost before = v@.map_values(|p: Vec<char>| p@);
        v.pop();
        assert(v@.map_values(|p: Vec<char>| p@) =~= before.drop_last());
    }
    v
}

/// The anchored form of a sub-pattern, see `anchored`.
fn anchored_exec(p: &[char]) -> (r: String)
    ensures
        r@ == anchored(p@),
{
    if (p.len() > 0 && p[0] == '^') || (p.len() > 0 && p[p.len() - 1] == '$') {
        string_of(p)
    } else {
        let mut v: Vec<char> = Vec::new();
        v.push('^');
        v.push('(');
        v.push('?');
        v.push(':');
        push_all(&mut v, p);
        v.push(')');
        v.push('$');
        assert(v@ =~= seq!['^', '(', '?', ':'] + p@ + seq![')', '$']);
        string_of(v.as_slice())
    }
}

/// Whether the anchored pattern `ap` compiles and matches `c`.
fn anchored_matches(ap: &str, c: &[char]) -> (b: bool)
    ensures
        b == (regex_valid(ap@) && regex_search(ap@, c@)),
{
    let cs = string_of(c);
    match regex_match(ap, cs.as_str()) {
        Some(b) => b,
        None => false,
    }
}

/// Whether `.*` or `^` opens the sub-pattern.
fn left_glob_exec(sub: &[char]) -> (b: bool)
    ensures
        b == left_glob(sub@),
{
    let dot_star: [char; 2] = ['.', '*'];
    assert(dot_star@ =~= seq!['.', '*']);
    starts_with(sub, &dot_star) || (sub.len() > 0 && sub[0] == '^')
}

/// Whether `c` is `.`.
fn is_dot_chars(c: &[char]) -> (b: bool)
    ensures
        b == (c@ == dot()),
{
    let r = c.len() == 1 && c[0] == '.';
    assert(r ==> c@ =~= dot());
    r
}

/// Whether `pattern` matches the relative path `relative_path`
/// component-wise, see `pattern_matches_spec`. A single sub-pattern without a
/// left glob matches no path without a component other than a leading `.`.
#[verifier::rlimit(50)]
#[verifier::spinoff_prover]
pub fn pattern_matches_path_components(pattern: &str, relative_path: &str) -> (b: bool)
    ensures
        b == pattern_matches_spec(pattern@, relative_path@),
{
    let comps = match_comps_exec(relative_path);
    let subs = match_comps_exec(pattern);
    let ghost cv = comps@.map_values(|p: Vec<char>| p@);
    let ghost sv = subs@.map_values(|p: Vec<char>| p@);
    if subs.len() == 0 {
        return false;
    }
    if subs.len() == 1 {
        let sub = subs[0].as_slice();
        let ap = anchored_exec(sub);
        if left_glob_exec(sub) {
            let mut i: usize = 0;
            while i < comps.len()
                invariant
                    i <= comps@.len(),
                    cv == comps@.map_values(|p: Vec<char>| p@),
                    sv == subs@.map_values(|p: Vec<char>| p@),
                    cv == match_comps(relative_path@),
                    sv == match_comps(pattern@),
                    sv.len() == 1,
                    ap@ == anchored(sv[0]),
                    left_glob(sv[0]),
                    forall|j: int| 0 <= j < i ==> !sub_matches(sv[0], #[trigger] cv[j]),
                decreases comps.len() - i,
            {
                if anchored_matches(ap.as_str(), comps[i].as_slice()) {
                    assert(sub_matches(sv[0], cv[i as int]));
                    return true;
                }
                i = i + 1;
            }
            return false;
        } else {
            let start: usize = if comps.len() > 0 && is_dot_chars(comps[0].as_slice()) { 1 } else { 0 };
            let ghost cs = after_dot(cv);
            assert(cs =~= cv.skip(start as int));
            let n = comps.len() - start;
            if n == 0 {
                return false;
            }
            if n == 1 {
                return anchored_matches(ap.as_str(), comps[start].as_slice());
            }
            assert(n > 0);
            let mut i: usize = 0;
            while i < n - 1
                invariant
                    i <= n - 1,
                    n == cs.len(),
                    start <= 1,
                    start + n == comps@.len(),
                    comps@.len() == comps.len(),
                    cs == cv.skip(start as int),
                    cv == comps@.map_values(|p: Vec<char>| p@),
                    sv == subs@.map_values(|p: Vec<char>| p@),
                    cv == match_comps(relative_path@),
                    sv == match_comps(pattern@),
                    sv.len() == 1,
                    ap@ == anchored(sv[0]),
                    !left_glob(sv[0]),
                    cs == after_dot(cv),
                    n != 1,
                    forall|j: int| 0 <= j < i ==> !sub_matches(sv[0], #[trigger] cs[j]),
                decreases n - 1 - i,
            {
                if anchored_matches(ap.as_str(), comps[start + i].as_slice()) {
                    assert(sub_matches(sv[0], cs[i as int]));
                    return true;
                }
                i = i + 1;
            }
            return false;
        }
    }
    if subs.len() > comps.len() {
        return false;
    }
    let mut anchored_subs: Vec<String> = Vec::new();
    let mut k: usize = 0;
    while k < subs.len()
        invariant
            k <= subs@.len(),
            sv == subs@.map_values(|p: Vec<char>| p@),
            anchored_subs@.len() == k,
            forall|j: int| 0 <= j < k ==> (#[trigger] anchored_subs@[j])@ == anchored(sv[j]),
        decreases subs.len() - k,
    {
        anchored_subs.push(anchored_exec(subs[k].as_slice()));
        k = k + 1;
    }
    let last_w = comps.len() - subs.len();
    let mut w: usize = 0;
    while w <= last_w
        invariant
            last_w == comps@.len() - subs@.len(),
            subs@.len() <= comps@.len(),
            comps@.len() == comps.len(),
            cv == comps@.map_values(|p: Vec<char>| p@),
            sv == subs@.map_values(|p: Vec<char>| p@),
            cv == match_comps(relative_path@),
            sv == match_comps(pattern@),
            sv.len() > 1,
            anchored_subs@.len() == subs@.len(),
            forall|j: int| 0 <= j < subs@.len() ==> (#[trigger] anchored_subs@[j])@ == anchored(sv[j]),
            forall|x: int| 0 <= x < w ==> !#[trigger] window_matches(sv, cv, x),
        decreases last_w + 1 - w,
    {
        let mut all = true;
        let mut k: usize = 0;
        while k < subs.len() && all
            invariant
                k <= subs@.len(),
                w <= last_w,
                last_w == comps@.len() - subs@.len(),
                comps@.len() == comps.len(),
                cv == comps@.map_values(|p: Vec<char>| p@),
                sv == subs@.map_values(|p: Vec<char>| p@),
                anchored_subs@.len() == subs@.len(),
                forall|j: int| 0 <= j < subs@.len() ==> (#[trigger] anchored_subs@[j])@ == anchored(sv[j]),
                all ==> forall|j: int| 0 <= j < k ==> sub_matches(#[trigger] sv[j], cv[w + j]),
                !all ==> !window_matches(sv, cv, w as int),
            decreases subs.len() - k,
        {
            assert(w + k < comps@.len());
            if !anchored_matches(anchored_subs[k].as_str(), comps[w + k].as_slice()) {
                all = false;
                assert(!sub_matches(sv[k as int], cv[w + k]));
            }
            k = k + 1;
        }
        if all {
            assert(window_matches(sv, cv, w as int));
            return true;
        }
        w = w + 1;
    }
    proof {
        assert forall|x: int| 0 <= x <= cv.len() - sv.len() implies !#[trigger] window_matches(sv, cv, x) by {}
    }
    false
}


/// The first pattern, in order, that matches `rel` component-wise.
pub open spec fn first_component_match(patterns: Seq<Seq<char>>, rel: Seq<char>) -> Option<Seq<char>>
    decreases patterns.len(),
{
    if patterns.len() == 0 {
        None
    } else if pattern_matches_spec(patterns[0], rel) {
        Some(patterns[0])
    } else {
        first_component_match(patterns.drop_first(), rel)
    }
}

/// The pattern of `patterns` that ignores `rel`: the first that matches it
/// component-wise.
pub open spec fn component_wise_spec(patterns: Seq<Seq<char>>, rel: Seq<char>) -> Option<Seq<char>> {
    first_component_match(patterns, rel)
}

proof fn lemma_first_component_match(patterns: Seq<Seq<char>>, rel: Seq<char>, i: int)
    requires
        0 <= i <= patterns.len(),
        forall|j: int| 0 <= j < i ==> !pattern_matches_spec(#[trigger] patterns[j], rel),
    ensures
        first_component_match(patterns, rel) == first_component_match(patterns.skip(i), rel),
    decreases i,
{
    if i > 0 {
        lemma_first_component_match(patterns, rel, i - 1);
        let s = patterns.skip(i - 1);
        assert(s[0] == patterns[i - 1]);
        assert(s.drop_first() =~= patterns.skip(i));
    } else {
        assert(patterns.skip(0) =~= patterns);
    }
}

/// The pattern of `set` that ignores the relative path `haystack`,
/// component-wise (see `component_wise_spec`); `haystack` is relative to the
/// directory whose ignore file `set` comes from.
pub fn check_path_matches_regex_component_wise(set: &IgnoreSet, haystack: &str) -> (r: Option<String>)
    ensures
        match r {
            Some(p) => component_wise_spec(set.patterns(), haystack@) == Some(p@),
            None => component_wise_spec(set.patterns(), haystack@) is None,
        },
{
    let ghost pats = set.patterns();
    let list = set.pattern_list();
    let mut i: usize = 0;
    while i < list.len()
        invariant
            i <= list@.len(),
            list@.map_values(|p: String| p@) == pats,
            pats == set.patterns(),
            forall|j: int| 0 <= j < i ==> !pattern_matches_spec(#[trigger] pats[j], haystack@),
        decreases list.len() - i,
    {
        assert(list@[i as int]@ == pats[i as int]);
        if pattern_matches_path_components(list[i].as_str(), haystack) {
            proof {
                lemma_first_component_match(pats, haystack@, i as int);
                assert(pats.skip(i as int)[0] == pats[i as int]);
            }
            return Some(list[i].clone());
        }
        i = i + 1;
    }
    proof {
        lemma_first_component_match(pats, haystack@, pats.len() as int);
        assert(pats.skip(pats.len() as int) =~= Seq::<Seq<char>>::empty());
    }
    None
}

/// The probe path of a directory: the directory with a child `x` appended,
/// so that it is tested as a non-last component.
pub open spec fn dir_probe(dir_rel: Seq<char>) -> Seq<char> {
    dir_rel + seq!['/', 'x']
}

/// The pattern that ignores the whole directory at `dir_rel`: a pattern
/// matching the probe path `dir_rel/x`; `None` when the directory is not
/// ignored.
pub fn dir_ignore_pattern(set: &IgnoreSet, dir_rel: &str) -> (r: Option<String>)
    ensures
        match r {
            Some(p) => component_wise_spec(set.patterns(), dir_probe(dir_rel@)) == Some(p@),
            None => component_wise_spec(set.patterns(), dir_probe(dir_rel@)) is None,
        },
{
    let probe = concat_str(dir_rel, "/x");
    proof {
        reveal_strlit("/x");
        assert(probe@ =~= dir_probe(dir_rel@));
    }
    check_path_matches_regex_component_wise(set, probe.as_str())
}

/// Whether the whole directory at `dir_rel` is ignored.
pub fn is_dir_ignored(set: &IgnoreSet, dir_rel: &str) -> (b: bool)
    ensures
        b == component_wise_spec(set.patterns(), dir_probe(dir_rel@)) is Some,
{
    dir_ignore_pattern(set, dir_rel).is_some()
}

/// Whether the relative path `rel` is ignored by `set`.
pub fn is_ignored(set: &IgnoreSet, rel: &str) -> (b: bool)
    ensures
        b == component_wise_spec(set.patterns(), rel@) is Some,
{
    check_path_matches_regex_component_wise(set, rel).is_some()
}


proof fn lemma_match_comps_trailing_slash(s: Seq<char>)
    ensures
        match_comps(s + seq!['/']) == match_comps(s),
{
    let t = s + seq!['/'];
    assert(t.drop_last() =~= s);
    assert(t.last() == '/');
    let parts = split_slash(t);
    assert(parts == split_slash(s).push(Seq::empty()));
    assert(parts.drop_last() =~= split_slash(s));
}

/// A trailing `/` changes nothing in matching, neither on the pattern
/// (`dirname/` ignores what `dirname` ignores) nor on the path.
pub proof fn lemma_trailing_slash_equivalence(pattern: Seq<char>, rel: Seq<char>)
    ensures
        pattern_matches_spec(pattern + seq!['/'], rel) == pattern_matches_spec(pattern, rel),
        pattern_matches_spec(pattern, rel + seq!['/']) == pattern_matches_spec(pattern, rel),
{
    lemma_match_comps_trailing_slash(pattern);
    lemma_match_comps_trailing_slash(rel);
}

/// A pattern with a sub-pattern that does not compile, once anchored,
/// matches no path.
pub proof fn lemma_invalid_sub_pattern_matches_nothing(pattern: Seq<char>, rel: Seq<char>, k: int)
    requires
        0 <= k < match_comps(pattern).len(),
        !regex_valid(anchored(match_comps(pattern)[k])),
    ensures
        !pattern_matches_spec(pattern, rel),
{
    let subs = match_comps(pattern);
    let comps = match_comps(rel);
    assert forall|c: Seq<char>| !sub_matches(subs[k], c) by {}
    if subs.len() > 1 {
        assert forall|w: int| !#[trigger] window_matches(subs, comps, w) by {
            if window_matches(subs, comps, w) {
                assert(sub_matches(subs[k], comps[w + k]));
            }
        }
    }
}

} // verus!
