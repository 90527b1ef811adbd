//! Folding the status report: paths that share a directory collapse into one
//! `dir/*` entry when the directory holds at least two report items.

use vstd::prelude::*;
use vstd::hash_map::StringHashMap;
use crate::text::{chars_of, string_of, push_all, concat_str};
use crate::paths::{split_pieces, split_slash};
use crate::commands::StatusCode;
use crate::settings::strings_view;

verus! {

// What the report folds

/// How many of `0..n` satisfy `p`.
pub open spec fn count_where(p: spec_fn(int) -> bool, n: int) -> nat
    decreases n,
{
    if n <= 0 {
        0
    } else {
        count_where(p, n - 1) + if p(n - 1) { 1nat } else { 0nat }
    }
}

/// `min(c, 2)`.
pub open spec fn sat2(c: nat) -> nat {
    if c >= 2 { 2 } else { c }
}

pub proof fn lemma_count_zero(p: spec_fn(int) -> bool, n: int)
    ensures
        count_where(p, n) == 0 <==> forall|x: int| 0 <= x < n ==> !#[trigger] p(x),
    decreases n,
{
    if n > 0 {
        lemma_count_zero(p, n - 1);
        if count_where(p, n) == 0 {
            assert forall|x: int| 0 <= x < n implies !#[trigger] p(x) by {
                if x < n - 1 {
                } else {
                }
            }
        }
    }
}

pub proof fn lemma_count_two(p: spec_fn(int) -> bool, n: int)
    ensures
        count_where(p, n) >= 2 <==> exists|x: int, y: int| 0 <= x < n && 0 <= y < n && x != y && #[trigger] p(x) && #[trigger] p(y),
    decreases n,
{
    if n > 0 {
        lemma_count_two(p, n - 1);
        lemma_count_zero(p, n - 1);
        if count_where(p, n) >= 2 {
            if count_where(p, n - 1) >= 2 {
                let (x, y) = choose|x: int, y: int| 0 <= x < n - 1 && 0 <= y < n - 1 && x != y && #[trigger] p(x) && #[trigger] p(y);
                assert(p(x) && p(y));
            } else {
                assert(p(n - 1));
                assert(count_where(p, n - 1) >= 1);
                let x = choose|x: int| 0 <= x < n - 1 && #[trigger] p(x);
                assert(p(x) && p(n - 1));
            }
        }
        if exists|x: int, y: int| 0 <= x < n && 0 <= y < n && x != y && #[trigger] p(x) && #[trigger] p(y) {
            let (x, y) = choose|x: int, y: int| 0 <= x < n && 0 <= y < n && x != y && #[trigger] p(x) && #[trigger] p(y);
            if x < n - 1 && y < n - 1 {
            } else if x == n - 1 {
                assert(count_where(p, n - 1) != 0);
            } else {
                assert(count_where(p, n - 1) != 0);
            }
        }
    }
}

/// The wildcard piece `*`.
pub open spec fn star() -> Seq<char> {
    seq!['*']
}

/// Where the first `*` piece is at or after `i` (the number of pieces when
/// there is none).
pub open spec fn star_from(parts: Seq<Seq<char>>, i: nat) -> nat
    decreases parts.len() - i,
{
    if i >= parts.len() {
        parts.len()
    } else if parts[i as int] == star() {
        i
    } else {
        star_from(parts, i + 1)
    }
}

/// How many directories of a report path can fold: every piece but the
/// last, up to the first `*`.
pub open spec fn fold_depth(p: Seq<char>) -> nat {
    let parts = split_slash(p);
    let c = star_from(parts, 0);
    if c < parts.len() - 1 { c } else { (parts.len() - 1) as nat }
}

/// Directory `d` (as pieces) holds path `k` of `ps`.
pub open spec fn under(ps: Seq<Seq<char>>, d: Seq<Seq<char>>, k: int) -> bool {
    1 <= d.len() <= fold_depth(ps[k]) && split_slash(ps[k]).take(d.len() as int) == d
}

/// `d` is a directory of some path of `ps`.
pub open spec fn is_dir(ps: Seq<Seq<char>>, d: Seq<Seq<char>>) -> bool {
    exists|k: int| 0 <= k < ps.len() && #[trigger] under(ps, d, k)
}

/// Path `k` lies directly in `d`: `d` is its deepest directory that can fold.
pub open spec fn attached(ps: Seq<Seq<char>>, d: Seq<Seq<char>>, k: int) -> bool {
    under(ps, d, k) && d.len() == fold_depth(ps[k])
}

/// `c` is a directory right below `d`.
pub open spec fn child_dir(ps: Seq<Seq<char>>, d: Seq<Seq<char>>, c: Seq<Seq<char>>) -> bool {
    c.len() == d.len() + 1 && c.take(d.len() as int) == d && is_dir(ps, c)
}

/// `d` holds at least two items: paths lying directly in it, and directories
/// right below it.
pub open spec fn two_items(ps: Seq<Seq<char>>, d: Seq<Seq<char>>) -> bool {
    ||| exists|k1: int, k2: int| 0 <= k1 < ps.len() && 0 <= k2 < ps.len() && k1 != k2 && #[trigger] attached(ps, d, k1) && #[trigger] attached(ps, d, k2)
    ||| exists|k: int, c: Seq<Seq<char>>| 0 <= k < ps.len() && #[trigger] attached(ps, d, k) && #[trigger] child_dir(ps, d, c)
    ||| exists|c1: Seq<Seq<char>>, c2: Seq<Seq<char>>| c1 != c2 && #[trigger] child_dir(ps, d, c1) && #[trigger] child_dir(ps, d, c2)
}

/// `d` is blocked: it begins some blocked path, above any `*` in it.
pub open spec fn blocked_dir(bl: Seq<Seq<char>>, d: Seq<Seq<char>>) -> bool {
    exists|b: int, j: int| 0 <= b < bl.len() && 1 <= j <= star_from(split_slash(bl[b]), 0)
        && #[trigger] split_slash(bl[b]).take(j) == d
}

/// `d` folds: it is a directory of the report, not blocked, and holds at
/// least two items. (A sub-directory that does not fold holds one item unless
/// it is blocked, and then so is `d`; so each sub-directory of an unblocked
/// `d` is one item of `d`, whether it folds or not.)
pub open spec fn folds(ps: Seq<Seq<char>>, bl: Seq<Seq<char>>, d: Seq<Seq<char>>) -> bool {
    is_dir(ps, d) && !blocked_dir(bl, d) && two_items(ps, d)
}

/// The shallowest folding directory of path `k`, looking from depth `j` on.
pub open spec fn outer_from(ps: Seq<Seq<char>>, bl: Seq<Seq<char>>, k: int, j: nat) -> Option<Seq<Seq<char>>>
    decreases fold_depth(ps[k]) + 1 - j,
{
    if j == 0 || j > fold_depth(ps[k]) {
        None
    } else if folds(ps, bl, split_slash(ps[k]).take(j as int)) {
        Some(split_slash(ps[k]).take(j as int))
    } else {
        outer_from(ps, bl, k, j + 1)
    }
}

/// The shallowest folding directory of path `k`.
pub open spec fn outer(ps: Seq<Seq<char>>, bl: Seq<Seq<char>>, k: int) -> Option<Seq<Seq<char>>> {
    outer_from(ps, bl, k, 1)
}

/// The pieces joined with `/`.
pub open spec fn dir_key(d: Seq<Seq<char>>) -> Seq<char>
    decreases d.len(),
{
    if d.len() == 0 {
        Seq::empty()
    } else if d.len() == 1 {
        d[0]
    } else {
        dir_key(d.drop_last()) + seq!['/'] + d.last()
    }
}

/// A report entry as plain values.
pub open spec fn entry_view(e: (StatusCode, String, Option<String>, bool)) -> (StatusCode, Seq<char>, Option<Seq<char>>, bool) {
    (e.0, e.1@, match e.2 { Some(p) => Some(p@), None => None }, e.3)
}

/// Whether path `k` is the first, in order, whose shallowest fold is its own.
pub open spec fn first_of_fold(ps: Seq<Seq<char>>, bl: Seq<Seq<char>>, k: int) -> bool {
    outer(ps, bl, k) is Some && forall|k2: int| 0 <= k2 < k ==> #[trigger] outer(ps, bl, k2) != outer(ps, bl, k)
}

/// The paths of report entries.
pub open spec fn report_paths(es: Seq<(StatusCode, Seq<char>, Option<Seq<char>>, bool)>) -> Seq<Seq<char>> {
    es.map_values(|e: (StatusCode, Seq<char>, Option<Seq<char>>, bool)| e.1)
}

/// Whether every path folded into `f` is encrypted.
pub open spec fn all_members_encrypted(es: Seq<(StatusCode, Seq<char>, Option<Seq<char>>, bool)>, bl: Seq<Seq<char>>, f: Seq<Seq<char>>) -> bool {
    forall|k: int| 0 <= k < es.len() && #[trigger] outer(report_paths(es), bl, k) == Some(f) ==> es[k].3
}

/// The entries of the folded report for the first `m` paths: a folded path
/// becomes its fold's `dir/*` entry at the fold's first member (with that
/// member's code, no pattern, encrypted when all members are); any other path
/// stays as it is.
pub open spec fn folded_report(es: Seq<(StatusCode, Seq<char>, Option<Seq<char>>, bool)>, bl: Seq<Seq<char>>, m: int) -> Seq<(StatusCode, Seq<char>, Option<Seq<char>>, bool)>
    decreases m,
{
    if m <= 0 {
        Seq::empty()
    } else {
        let ps = report_paths(es);
        let k = m - 1;
        folded_report(es, bl, m - 1) + match outer(ps, bl, k) {
            None => seq![es[k]],
            Some(f) => if first_of_fold(ps, bl, k) {
                seq![(es[k].0, dir_key(f) + seq!['/', '*'], None, all_members_encrypted(es, bl, f))]
            } else {
                Seq::empty()
            },
        }
    }
}

/// Whether two paths of `ps` share a directory.
pub open spec fn shares_dir(ps: Seq<Seq<char>>) -> bool {
    exists|d: Seq<Seq<char>>, k1: int, k2: int| 0 <= k1 < ps.len() && 0 <= k2 < ps.len() && k1 != k2
        && #[trigger] under(ps, d, k1) && #[trigger] under(ps, d, k2)
}

pub proof fn lemma_count_ext(p: spec_fn(int) -> bool, q: spec_fn(int) -> bool, n: int)
    requires
        forall|x: int| 0 <= x < n ==> #[trigger] p(x) == q(x),
    ensures
        count_where(p, n) == count_where(q, n),
    decreases n,
{
    if n > 0 {
        lemma_count_ext(p, q, n - 1);
    }
}

/// No piece holds a `/`.
pub open spec fn slash_free(d: Seq<Seq<char>>) -> bool {
    forall|i: int| 0 <= i < d.len() ==> !(#[trigger] d[i]).contains('/')
}

proof fn lemma_split_dir_key(d: Seq<Seq<char>>)
    requires
        d.len() >= 1,
        slash_free(d),
    ensures
        split_slash(dir_key(d)) == d,
    decreases d.len(),
{
    let e = Seq::<char>::empty();
    let x = d.last();
    assert(!d[d.len() - 1].contains('/'));
    if d.len() == 1 {
        crate::path_laws::lemma_split_append(e, x);
        assert(split_slash(e) =~= seq![e]);
        assert(e + x =~= x);
        assert(seq![e].update(0, e + x) =~= d);
    } else {
        let r = d.drop_last();
        assert(slash_free(r)) by {
            assert forall|i: int| 0 <= i < r.len() implies !(#[trigger] r[i]).contains('/') by {
                assert(r[i] == d[i]);
            }
        }
        lemma_split_dir_key(r);
        let k = dir_key(r);
        crate::path_laws::lemma_split_append(k + seq!['/'], x);
        assert((k + seq!['/']).drop_last() =~= k);
        assert(split_slash(k + seq!['/']) =~= r.push(e));
        assert(r.push(e).update(r.len() as int, e + x) =~= d);
        assert(e + x =~= x);
    }
}

/// Different directories have different keys.
proof fn lemma_dir_key_injective(a: Seq<Seq<char>>, b: Seq<Seq<char>>)
    requires
        a.len() >= 1,
        b.len() >= 1,
        slash_free(a),
        slash_free(b),
        dir_key(a) == dir_key(b),
    ensures
        a == b,
{
    lemma_split_dir_key(a);
    lemma_split_dir_key(b);
}

/// The pieces of a path hold no `/`.
proof fn lemma_pieces_slash_free(p: Seq<char>)
    ensures
        slash_free(split_slash(p)),
        split_slash(p).len() >= 1,
{
    crate::path_laws::lemma_split_pieces_solid(p);
    crate::paths::lemma_split_slash_nonempty(p);
}

/// Whether the piece is the wildcard marker `*`.
fn is_star(p: &[char]) -> (b: bool)
    ensures
        b == (p@ == seq!['*']),
{
    let r = p.len() == 1 && p[0] == '*';
    assert(r ==> p@ =~= seq!['*']);
    r
}

/// A copy of a report entry.
pub fn clone_entry(e: &(StatusCode, String, Option<String>, bool)) -> (r: (StatusCode, String, Option<String>, bool))
    ensures
        entry_view(r) == entry_view(*e),
{
    let pattern = match &e.2 {
        Some(p) => Some(p.clone()),
        None => None,
    };
    (e.0, e.1.clone(), pattern, e.3)
}

/// The pieces of a path and how many of its leading pieces name directories
/// that can fold: every piece but the last, up to the first `*`.
fn path_dirs(path: &str) -> (r: (Vec<Vec<char>>, usize))
    ensures
        r.0@.map_values(|p: Vec<char>| p@) == split_slash(path@),
        r.1 == fold_depth(path@),
        r.1 < r.0@.len(),
{
    let parts = split_pieces(chars_of(path).as_slice());
    let ghost pv = parts@.map_values(|p: Vec<char>| p@);
    proof {
        crate::paths::lemma_split_slash_nonempty(path@);
    }
    let mut cut: usize = 0;
    while cut < parts.len() && !is_star(parts[cut].as_slice())
        invariant
            cut <= parts@.len(),
            pv == parts@.map_values(|p: Vec<char>| p@),
            star_from(pv, 0) == star_from(pv, cut as nat),
        decreases parts.len() - cut,
    {
        assert(pv[cut as int] == parts@[cut as int]@);
        cut = cut + 1;
    }
    proof {
        if cut < parts.len() {
            assert(pv[cut as int] == star());
        }
    }
    let last = parts.len() - 1;
    let nd = if cut < last { cut } else { last };
    (parts, nd)
}

/// The views of report entries.
pub open spec fn entries_view(v: Seq<(StatusCode, String, Option<String>, bool)>) -> Seq<(StatusCode, Seq<char>, Option<Seq<char>>, bool)> {
    v.map_values(|e: (StatusCode, String, Option<String>, bool)| entry_view(e))
}

/// `c` lies right below `d`.
pub open spec fn is_child(c: Seq<Seq<char>>, d: Seq<Seq<char>>) -> bool {
    c.len() == d.len() + 1 && c.take(d.len() as int) == d
}

/// How many of the first `n` paths lie under `d`.
pub open spec fn under_count(ps: Seq<Seq<char>>, d: Seq<Seq<char>>, n: int) -> nat {
    count_where(|k: int| under(ps, d, k), n)
}

/// How many of the first `n` paths lie directly in `d`.
pub open spec fn attached_count(ps: Seq<Seq<char>>, d: Seq<Seq<char>>, n: int) -> nat {
    count_where(|k: int| attached(ps, d, k), n)
}

/// How many of `nodes` lie right below `d`.
pub open spec fn child_count(nodes: Seq<Seq<Seq<char>>>, d: Seq<Seq<char>>) -> nat {
    count_where(|j: int| is_child(nodes[j], d), nodes.len() as int)
}

/// `d` is a directory of a path before `kk`, or one of the first `t`
/// directories of path `kk`.
pub open spec fn seen(ps: Seq<Seq<char>>, d: Seq<Seq<char>>, kk: int, t: int) -> bool {
    exists|k: int, u: int| 0 <= k <= kk && (k < kk || u < t) && 0 <= u < fold_depth(ps[k])
        && #[trigger] split_slash(ps[k]).take(u + 1) == d
}

/// `c` lists, for path `k`, the nodes of its first `len` directories.
pub open spec fn chain_ok(ps: Seq<Seq<char>>, nodes: Seq<Seq<Seq<char>>>, c: Seq<usize>, k: int, len: int) -> bool {
    &&& c.len() == len
    &&& forall|u: int| 0 <= u < len ==> (#[trigger] c[u]) < nodes.len() && nodes[c[u] as int] == split_slash(ps[k]).take(u + 1)
}

/// The nodes are distinct, non-empty, slash-free, and keyed by their names.
pub open spec fn nodes_ok(nodes: Seq<Seq<Seq<char>>>, names: Seq<String>) -> bool {
    &&& names.len() == nodes.len()
    &&& forall|i: int| 0 <= i < nodes.len() ==> (#[trigger] nodes[i]).len() >= 1 && slash_free(nodes[i]) && names[i]@ == dir_key(nodes[i])
    &&& forall|a: int, b: int| 0 <= a < nodes.len() && 0 <= b < nodes.len() && a != b ==> #[trigger] nodes[a] != #[trigger] nodes[b]
}

/// The paths of report entries, as the library holds them.
pub open spec fn paths_view(v: Seq<(StatusCode, String, Option<String>, bool)>) -> Seq<Seq<char>> {
    v.map_values(|e: (StatusCode, String, Option<String>, bool)| e.1@)
}

/// Whether `i` occurs in `c`.
pub open spec fn in_chain(c: Seq<usize>, i: int) -> bool {
    exists|u: int| 0 <= u < c.len() && c[u] == i
}

/// `s` names a directory that a blocked path among the first `nb` begins,
/// above any `*` in it.
pub open spec fn blocks_key(bl: Seq<Seq<char>>, nb: int, s: Seq<char>) -> bool {
    exists|b: int, j: int| 0 <= b < nb && 1 <= j <= star_from(split_slash(bl[b]), 0)
        && #[trigger] dir_key(split_slash(bl[b]).take(j)) == s
}

proof fn lemma_fold_depth(p: Seq<char>)
    ensures
        fold_depth(p) + 1 <= split_slash(p).len(),
        fold_depth(p) <= star_from(split_slash(p), 0),
{
    crate::paths::lemma_split_slash_nonempty(p);
}

proof fn lemma_star_from_le(parts: Seq<Seq<char>>, i: nat)
    ensures
        star_from(parts, i) <= parts.len(),
    decreases parts.len() - i,
{
    if i < parts.len() && parts[i as int] != star() {
        lemma_star_from_le(parts, i + 1);
    }
}

proof fn lemma_dir_key_step(d: Seq<Seq<char>>, t: int)
    requires
        0 <= t < d.len(),
    ensures
        dir_key(d.take(t + 1)) == if t == 0 { d[0] } else { dir_key(d.take(t)) + seq!['/'] + d[t] },
{
    assert(d.take(t + 1).drop_last() =~= d.take(t));
}

proof fn lemma_take_slash_free(d: Seq<Seq<char>>, j: int)
    requires
        slash_free(d),
        0 <= j <= d.len(),
    ensures
        slash_free(d.take(j)),
{
    assert forall|i: int| 0 <= i < d.take(j).len() implies !(#[trigger] d.take(j)[i]).contains('/') by {
        assert(d.take(j)[i] == d[i]);
    }
}

proof fn lemma_seen_next(ps: Seq<Seq<char>>, d: Seq<Seq<char>>, kk: int, t: int)
    requires
        seen(ps, d, kk, t),
        t >= fold_depth(ps[kk]),
    ensures
        seen(ps, d, kk + 1, 0),
{
    let (k, u) = choose|k: int, u: int| 0 <= k <= kk && (k < kk || u < t) && 0 <= u < fold_depth(ps[k])
        && #[trigger] split_slash(ps[k]).take(u + 1) == d;
    assert(split_slash(ps[k]).take(u + 1) == d);
}

proof fn lemma_child_count_push(nodes: Seq<Seq<Seq<char>>>, x: Seq<Seq<char>>, d: Seq<Seq<char>>)
    ensures
        child_count(nodes.push(x), d) == child_count(nodes, d) + if is_child(x, d) { 1nat } else { 0nat },
{
    let p = |j: int| is_child(nodes.push(x)[j], d);
    let q = |j: int| is_child(nodes[j], d);
    assert forall|j: int| 0 <= j < nodes.len() implies #[trigger] p(j) == q(j) by {
        assert(nodes.push(x)[j] == nodes[j]);
    }
    lemma_count_ext(p, q, nodes.len() as int);
    assert(nodes.push(x)[nodes.len() as int] == x);
}

/// A directory not among the nodes is no directory of an earlier path, and
/// no node lies right below it.
proof fn lemma_fresh_node(ps: Seq<Seq<char>>, nodes: Seq<Seq<Seq<char>>>, chains: Seq<Seq<usize>>, kk: int, t: int, new: Seq<Seq<char>>)
    requires
        0 <= kk < ps.len(),
        0 <= t < fold_depth(ps[kk]),
        new == split_slash(ps[kk]).take(t + 1),
        chains.len() >= kk,
        forall|k: int| 0 <= k < kk ==> chain_ok(ps, nodes, #[trigger] chains[k], k, fold_depth(ps[k]) as int),
        forall|i: int| 0 <= i < nodes.len() ==> seen(ps, #[trigger] nodes[i], kk, t),
        forall|i: int| 0 <= i < nodes.len() ==> #[trigger] nodes[i] != new,
    ensures
        forall|k: int| 0 <= k < kk ==> !#[trigger] under(ps, new, k),
        forall|j: int| 0 <= j < nodes.len() ==> !#[trigger] is_child(nodes[j], new),
{
    lemma_fold_depth(ps[kk]);
    assert(new.len() == t + 1);
    assert forall|k: int| 0 <= k < kk implies !#[trigger] under(ps, new, k) by {
        if under(ps, new, k) {
            assert(chain_ok(ps, nodes, chains[k], k, fold_depth(ps[k]) as int));
            let c = chains[k];
            assert(nodes[c[t] as int] == split_slash(ps[k]).take(t + 1));
        }
    }
    assert forall|j: int| 0 <= j < nodes.len() implies !#[trigger] is_child(nodes[j], new) by {
        if is_child(nodes[j], new) {
            assert(seen(ps, nodes[j], kk, t));
            let (k, u) = choose|k: int, u: int| 0 <= k <= kk && (k < kk || u < t) && 0 <= u < fold_depth(ps[k])
                && #[trigger] split_slash(ps[k]).take(u + 1) == nodes[j];
            lemma_fold_depth(ps[k]);
            assert(nodes[j].len() == u + 1);
            assert(chain_ok(ps, nodes, chains[k], k, fold_depth(ps[k]) as int));
            let c = chains[k];
            assert(split_slash(ps[k]).take(u + 1).take(t + 1) =~= split_slash(ps[k]).take(t + 1));
            assert(nodes[c[t] as int] == new);
        }
    }
}

/// The keys of the directories that the blocked paths block.
fn blocked_keys(blocked: &Vec<String>) -> (m: StringHashMap<bool>)
    ensures
        forall|s: Seq<char>| #[trigger] m@.contains_key(s) <==> blocks_key(strings_view(blocked@), blocked@.len() as int, s),
{
    let ghost bl = strings_view(blocked@);
    let mut m: StringHashMap<bool> = StringHashMap::new();
    let mut b: usize = 0;
    while b < blocked.len()
        invariant
            b <= blocked@.len(),
            bl == strings_view(blocked@),
            forall|s: Seq<char>| #[trigger] m@.contains_key(s) <==> blocks_key(bl, b as int, s),
        decreases blocked.len() - b,
    {
        let parts = split_pieces(chars_of(blocked[b].as_str()).as_slice());
        let ghost pv = parts@.map_values(|p: Vec<char>| p@);
        assert(bl[b as int] == blocked@[b as int]@);
        let mut prefix: Vec<char> = Vec::new();
        let mut i: usize = 0;
        while i < parts.len() && !is_star(parts[i].as_slice())
            invariant
                b < blocked@.len(),
                i <= parts@.len(),
                bl == strings_view(blocked@),
                pv == parts@.map_values(|p: Vec<char>| p@),
                pv == split_slash(bl[b as int]),
                star_from(pv, 0) == star_from(pv, i as nat),
                prefix@ == dir_key(pv.take(i as int)),
                forall|s: Seq<char>| #[trigger] m@.contains_key(s) <==> (blocks_key(bl, b as int, s)
                    || exists|j: int| 1 <= j <= i && #[trigger] dir_key(pv.take(j)) == s),
            decreases parts.len() - i,
        {
            assert(pv[i as int] == parts@[i as int]@);
            let ghost old_prefix = prefix@;
            if i > 0 {
                prefix.push('/');
            }
            push_all(&mut prefix, parts[i].as_slice());
            proof {
                lemma_dir_key_step(pv, i as int);
                if i == 0 {
                    assert(prefix@ =~= pv[0]);
                } else {
                    assert(prefix@ =~= old_prefix + seq!['/'] + pv[i as int]);
                }
            }
            let ghost key = prefix@;
            m.insert(string_of(prefix.as_slice()), true);
            i = i + 1;
            proof {
                assert(dir_key(pv.take(i as int)) == key);
                assert forall|s: Seq<char>| #[trigger] m@.contains_key(s) <==> (blocks_key(bl, b as int, s)
                    || exists|j: int| 1 <= j <= i && #[trigger] dir_key(pv.take(j)) == s) by {
                    if s == key {
                        assert(dir_key(pv.take(i as int)) == s);
                    }
                }
            }
        }
        proof {
            if i < parts.len() {
                assert(pv[i as int] == star());
            }
            assert(star_from(pv, 0) == i);
            assert forall|s: Seq<char>| #[trigger] m@.contains_key(s) <==> blocks_key(bl, b + 1, s) by {
                if blocks_key(bl, b + 1, s) {
                    let (bb, j) = choose|bb: int, j: int| 0 <= bb < b + 1 && 1 <= j <= star_from(split_slash(bl[bb]), 0)
                        && #[trigger] dir_key(split_slash(bl[bb]).take(j)) == s;
                    if bb < b {
                        assert(blocks_key(bl, b as int, s));
                    } else {
                        assert(dir_key(pv.take(j)) == s);
                    }
                }
                if exists|j: int| 1 <= j <= i && #[trigger] dir_key(pv.take(j)) == s {
                    let j = choose|j: int| 1 <= j <= i && #[trigger] dir_key(pv.take(j)) == s;
                    assert(dir_key(split_slash(bl[b as int]).take(j)) == s);
                }
                if blocks_key(bl, b as int, s) {
                    let (bb, j) = choose|bb: int, j: int| 0 <= bb < b && 1 <= j <= star_from(split_slash(bl[bb]), 0)
                        && #[trigger] dir_key(split_slash(bl[bb]).take(j)) == s;
                    assert(dir_key(split_slash(bl[bb]).take(j)) == s);
                }
            }
        }
        b = b + 1;
    }
    m
}

/// Path `k` is done: its chain lists exactly the nodes above it.
proof fn lemma_path_done(ps: Seq<Seq<char>>, nodes: Seq<Seq<Seq<char>>>, names: Seq<String>, c: Seq<usize>, k: int, i: int)
    requires
        0 <= k < ps.len(),
        nodes_ok(nodes, names),
        chain_ok(ps, nodes, c, k, fold_depth(ps[k]) as int),
        0 <= i < nodes.len(),
    ensures
        in_chain(c, i) <==> under(ps, nodes[i], k),
        attached(ps, nodes[i], k) <==> (fold_depth(ps[k]) > 0 && i == c[fold_depth(ps[k]) - 1]),
{
    lemma_fold_depth(ps[k]);
    let fd = fold_depth(ps[k]) as int;
    if in_chain(c, i) {
        let u = choose|u: int| 0 <= u < c.len() && c[u] == i;
        assert(nodes[c[u] as int] == split_slash(ps[k]).take(u + 1));
    }
    if under(ps, nodes[i], k) {
        let l = nodes[i].len() as int;
        assert(nodes[c[l - 1] as int] == split_slash(ps[k]).take(l));
        assert(c[l - 1] == i);
    }
    if fd > 0 {
        assert(nodes[c[fd - 1] as int] == split_slash(ps[k]).take(fd));
        if attached(ps, nodes[i], k) {
            assert(nodes[c[fd - 1] as int] == nodes[i]);
        }
    }
}

/// Every directory of the report, numbered as first met, with the chain of
/// directories of each path and, per directory, how many paths lie under it,
/// how many lie directly in it and how many directories lie right below it
/// (each counted up to 2).
struct DirIndex {
    names: Vec<String>,
    chains: Vec<Vec<usize>>,
    under: Vec<u8>,
    attached: Vec<u8>,
    children: Vec<u8>,
    nodes: Ghost<Seq<Seq<Seq<char>>>>,
}

spec fn index_ok(x: DirIndex, ps: Seq<Seq<char>>) -> bool {
    let nodes = x.nodes@;
    &&& nodes_ok(nodes, x.names@)
    &&& x.chains@.len() == ps.len()
    &&& forall|k: int| 0 <= k < ps.len() ==> chain_ok(ps, nodes, #[trigger] x.chains@[k]@, k, fold_depth(ps[k]) as int)
    &&& forall|i: int| 0 <= i < nodes.len() ==> is_dir(ps, #[trigger] nodes[i])
    &&& x.under@.len() == nodes.len()
    &&& x.attached@.len() == nodes.len()
    &&& x.children@.len() == nodes.len()
    &&& forall|i: int| 0 <= i < nodes.len() ==> #[trigger] x.under@[i] == sat2(under_count(ps, nodes[i], ps.len() as int))
    &&& forall|i: int| 0 <= i < nodes.len() ==> #[trigger] x.attached@[i] == sat2(attached_count(ps, nodes[i], ps.len() as int))
    &&& forall|i: int| 0 <= i < nodes.len() ==> #[trigger] x.children@[i] == sat2(child_count(nodes, nodes[i]))
}

fn index_dirs(paths: &Vec<(StatusCode, String, Option<String>, bool)>) -> (x: DirIndex)
    ensures
        index_ok(x, paths_view(paths@)),
{
    let ghost ps = paths_view(paths@);
    let n = paths.len();
    let mut ids: StringHashMap<usize> = StringHashMap::new();
    let mut names: Vec<String> = Vec::new();
    let mut chains: Vec<Vec<usize>> = Vec::new();
    let mut count: Vec<u8> = Vec::new();
    let mut att: Vec<u8> = Vec::new();
    let mut ch: Vec<u8> = Vec::new();
    let ghost mut nodes: Seq<Seq<Seq<char>>> = Seq::empty();
    let mut k: usize = 0;
    while k < n
        invariant
            k <= n,
            n == paths@.len(),
            ps == paths_view(paths@),
            nodes_ok(nodes, names@),
            forall|i: int| 0 <= i < names@.len() ==> ids@.contains_key(#[trigger] names@[i]@),
            forall|s: Seq<char>| #[trigger] ids@.contains_key(s) ==> ids@[s] < names@.len() && names@[ids@[s] as int]@ == s,
            chains@.len() == k,
            forall|k2: int| 0 <= k2 < k ==> chain_ok(ps, nodes, #[trigger] chains@[k2]@, k2, fold_depth(ps[k2]) as int),
            forall|i: int| 0 <= i < nodes.len() ==> seen(ps, #[trigger] nodes[i], k as int, 0),
            count@.len() == nodes.len(),
            att@.len() == nodes.len(),
            ch@.len() == nodes.len(),
            forall|i: int| 0 <= i < nodes.len() ==> #[trigger] count@[i] == sat2(under_count(ps, nodes[i], k as int)),
            forall|i: int| 0 <= i < nodes.len() ==> #[trigger] att@[i] == sat2(attached_count(ps, nodes[i], k as int)),
            forall|i: int| 0 <= i < nodes.len() ==> #[trigger] ch@[i] == sat2(child_count(nodes, nodes[i])),
        decreases n - k,
    {
        assert(ps[k as int] == paths@[k as int].1@);
        let (parts, nd) = path_dirs(paths[k].1.as_str());
        let ghost pv = parts@.map_values(|p: Vec<char>| p@);
        proof {
            lemma_pieces_slash_free(ps[k as int]);
            lemma_fold_depth(ps[k as int]);
        }
        let mut chain: Vec<usize> = Vec::new();
        let mut prefix: Vec<char> = Vec::new();
        let mut i: usize = 0;
        while i < nd
            invariant
                k < n,
                n == paths@.len(),
                ps == paths_view(paths@),
                pv == parts@.map_values(|p: Vec<char>| p@),
                pv == split_slash(ps[k as int]),
                slash_free(pv),
                nd == fold_depth(ps[k as int]),
                nd < pv.len(),
                i <= nd,
                prefix@ == dir_key(pv.take(i as int)),
                nodes_ok(nodes, names@),
                forall|i2: int| 0 <= i2 < names@.len() ==> ids@.contains_key(#[trigger] names@[i2]@),
                forall|s: Seq<char>| #[trigger] ids@.contains_key(s) ==> ids@[s] < names@.len() && names@[ids@[s] as int]@ == s,
                chains@.len() == k,
                forall|k2: int| 0 <= k2 < k ==> chain_ok(ps, nodes, #[trigger] chains@[k2]@, k2, fold_depth(ps[k2]) as int),
                chain_ok(ps, nodes, chain@, k as int, i as int),
                forall|i2: int| 0 <= i2 < nodes.len() ==> seen(ps, #[trigger] nodes[i2], k as int, i as int),
                count@.len() == nodes.len(),
                att@.len() == nodes.len(),
                ch@.len() == nodes.len(),
                forall|i2: int| 0 <= i2 < nodes.len() ==> #[trigger] count@[i2] == sat2(under_count(ps, nodes[i2], k as int) + if in_chain(chain@, i2) { 1nat } else { 0nat }),
                forall|i2: int| 0 <= i2 < nodes.len() ==> #[trigger] att@[i2] == sat2(attached_count(ps, nodes[i2], k as int)),
                forall|i2: int| 0 <= i2 < nodes.len() ==> #[trigger] ch@[i2] == sat2(child_count(nodes, nodes[i2])),
            decreases nd - i,
        {
            assert(pv[i as int] == parts@[i as int]@);
            let ghost old_prefix = prefix@;
            if i > 0 {
                prefix.push('/');
            }
            push_all(&mut prefix, parts[i].as_slice());
            let ghost d = pv.take(i + 1);
            proof {
                lemma_dir_key_step(pv, i as int);
                if i == 0 {
                    assert(prefix@ =~= pv[0]);
                } else {
                    assert(prefix@ =~= old_prefix + seq!['/'] + pv[i as int]);
                }
                lemma_take_slash_free(pv, i + 1);
            }
            let key = string_of(prefix.as_slice());
            assert(key@ == dir_key(d));
            let id = match ids.get(key.as_str()) {
                Some(v) => {
                    let v = *v;
                    proof {
                        lemma_dir_key_injective(nodes[v as int], d);
                    }
                    v
                },
                None => {
                    proof {
                        assert forall|i2: int| 0 <= i2 < nodes.len() implies #[trigger] nodes[i2] != d by {
                            if nodes[i2] == d {
                                assert(ids@.contains_key(names@[i2]@));
                            }
                        }
                        lemma_fresh_node(ps, nodes, chains@.map_values(|c: Vec<usize>| c@), k as int, i as int, d);
                    }
                    let v = names.len();
                    ids.insert(key.clone(), v);
                    names.push(key);
                    count.push(0);
                    att.push(0);
                    ch.push(0);
                    if i > 0 {
                        let parent = chain[i - 1];
                        if ch[parent] < 2 {
                            let c = ch[parent] + 1;
                            ch.set(parent, c);
                        }
                    }
                    proof {
                        lemma_count_zero(|k2: int| under(ps, d, k2), k as int);
                        lemma_count_zero(|k2: int| attached(ps, d, k2), k as int);
                        let old_nodes = nodes;
                        nodes = nodes.push(d);
                        lemma_count_zero(|j: int| is_child(old_nodes[j], d), old_nodes.len() as int);
                        assert(child_count(old_nodes, d) == 0);
                        assert forall|i2: int| 0 <= i2 < nodes.len() implies #[trigger] ch@[i2] == sat2(child_count(nodes, nodes[i2])) by {
                            lemma_child_count_push(old_nodes, d, nodes[i2]);
                            if i2 < old_nodes.len() {
                                assert(nodes[i2] == old_nodes[i2]);
                                if i > 0 {
                                    assert(old_nodes[chain@[i - 1] as int] == pv.take(i as int));
                                    assert(d.take(i as int) =~= pv.take(i as int));
                                }
                                if is_child(d, old_nodes[i2]) {
                                    assert(i > 0);
                                    assert(old_nodes[i2] == old_nodes[chain@[i - 1] as int]);
                                }
                            }
                        }
                    }
                    v
                },
            };
            let ghost old_chain = chain@;
            assert(nodes[id as int] == d);
            assert(!in_chain(old_chain, id as int)) by {
                if in_chain(old_chain, id as int) {
                    let u = choose|u: int| 0 <= u < old_chain.len() && old_chain[u] == id;
                    assert(nodes[old_chain[u] as int] == pv.take(u + 1));
                }
            }
            if count[id] < 2 {
                let c = count[id] + 1;
                count.set(id, c);
            }
            chain.push(id);
            i = i + 1;
            proof {
                assert forall|i2: int| 0 <= i2 < nodes.len() implies #[trigger] count@[i2] == sat2(under_count(ps, nodes[i2], k as int) + if in_chain(chain@, i2) { 1nat } else { 0nat }) by {
                    if in_chain(chain@, i2) && i2 != id {
                        let u = choose|u: int| 0 <= u < chain@.len() && chain@[u] == i2;
                        assert(old_chain[u] == i2);
                    }
                    if in_chain(old_chain, i2) {
                        let u = choose|u: int| 0 <= u < old_chain.len() && old_chain[u] == i2;
                        assert(chain@[u] == i2);
                    }
                    if i2 == id {
                        assert(chain@[chain@.len() - 1] == id);
                    }
                }
            }
        }
        let ghost old_att = att@;
        if nd > 0 {
            let a = chain[nd - 1];
            if att[a] < 2 {
                let c = att[a] + 1;
                att.set(a, c);
            }
        }
        proof {
            assert forall|i2: int| 0 <= i2 < nodes.len() implies #[trigger] count@[i2] == sat2(under_count(ps, nodes[i2], k + 1)) by {
                lemma_path_done(ps, nodes, names@, chain@, k as int, i2);
                let d = nodes[i2];
                assert(under_count(ps, d, k + 1) == under_count(ps, d, k as int) + if under(ps, d, k as int) { 1nat } else { 0nat });
            }
            assert forall|i2: int| 0 <= i2 < nodes.len() implies #[trigger] att@[i2] == sat2(attached_count(ps, nodes[i2], k + 1)) by {
                lemma_path_done(ps, nodes, names@, chain@, k as int, i2);
                let d = nodes[i2];
                assert(old_att[i2] == sat2(attached_count(ps, d, k as int)));
                assert(attached_count(ps, d, k + 1) == attached_count(ps, d, k as int) + if attached(ps, d, k as int) { 1nat } else { 0nat });
            }
            assert forall|i2: int| 0 <= i2 < nodes.len() implies seen(ps, #[trigger] nodes[i2], k + 1, 0) by {
                lemma_seen_next(ps, nodes[i2], k as int, nd as int);
            }
        }
        chains.push(chain);
        k = k + 1;
    }
    proof {
        assert forall|i: int| 0 <= i < nodes.len() implies is_dir(ps, #[trigger] nodes[i]) by {
            let (k2, u) = choose|k2: int, u: int| 0 <= k2 <= n && (k2 < n || u < 0) && 0 <= u < fold_depth(ps[k2])
                && #[trigger] split_slash(ps[k2]).take(u + 1) == nodes[i];
            lemma_fold_depth(ps[k2]);
            assert(under(ps, nodes[i], k2));
        }
    }
    DirIndex { names, chains, under: count, attached: att, children: ch, nodes: Ghost(nodes) }
}

/// Some directory holds two paths exactly when some node does.
proof fn lemma_shared(ps: Seq<Seq<char>>, x: DirIndex)
    requires
        index_ok(x, ps),
    ensures
        shares_dir(ps) <==> exists|i: int| 0 <= i < x.nodes@.len() && #[trigger] x.under@[i] >= 2,
{
    let nodes = x.nodes@;
    let n = ps.len() as int;
    if shares_dir(ps) {
        let (d, k1, k2) = choose|d: Seq<Seq<char>>, k1: int, k2: int| 0 <= k1 < ps.len() && 0 <= k2 < ps.len() && k1 != k2
            && #[trigger] under(ps, d, k1) && #[trigger] under(ps, d, k2);
        let l = d.len() as int;
        let c = x.chains@[k1]@;
        assert(chain_ok(ps, nodes, c, k1, fold_depth(ps[k1]) as int));
        let i = c[l - 1] as int;
        assert(nodes[i] == d);
        let p = |k: int| under(ps, d, k);
        assert(p(k1) && p(k2));
        lemma_count_two(p, n);
        assert(x.under@[i] >= 2);
    }
    if exists|i: int| 0 <= i < x.nodes@.len() && #[trigger] x.under@[i] >= 2 {
        let i = choose|i: int| 0 <= i < x.nodes@.len() && #[trigger] x.under@[i] >= 2;
        let d = nodes[i];
        let p = |k: int| under(ps, d, k);
        lemma_count_two(p, n);
        let (k1, k2) = choose|k1: int, k2: int| 0 <= k1 < n && 0 <= k2 < n && k1 != k2 && #[trigger] p(k1) && #[trigger] p(k2);
        assert(under(ps, d, k1) && under(ps, d, k2));
    }
}

/// A directory's key is blocked exactly when the directory is.
proof fn lemma_blocked_key(bl: Seq<Seq<char>>, d: Seq<Seq<char>>)
    requires
        d.len() >= 1,
        slash_free(d),
    ensures
        blocks_key(bl, bl.len() as int, dir_key(d)) <==> blocked_dir(bl, d),
{
    if blocks_key(bl, bl.len() as int, dir_key(d)) {
        let (b, j) = choose|b: int, j: int| 0 <= b < bl.len() && 1 <= j <= star_from(split_slash(bl[b]), 0)
            && #[trigger] dir_key(split_slash(bl[b]).take(j)) == dir_key(d);
        let parts = split_slash(bl[b]);
        lemma_pieces_slash_free(bl[b]);
        lemma_star_from_le(parts, 0);
        lemma_take_slash_free(parts, j);
        lemma_dir_key_injective(parts.take(j), d);
        assert(parts.take(j) == d);
    }
    if blocked_dir(bl, d) {
        let (b, j) = choose|b: int, j: int| 0 <= b < bl.len() && 1 <= j <= star_from(split_slash(bl[b]), 0)
            && #[trigger] split_slash(bl[b]).take(j) == d;
        assert(dir_key(split_slash(bl[b]).take(j)) == dir_key(d));
    }
}

/// The directories right below `d` are the nodes right below it.
proof fn lemma_child_dirs(ps: Seq<Seq<char>>, x: DirIndex, d: Seq<Seq<char>>, c: Seq<Seq<char>>)
    requires
        index_ok(x, ps),
    ensures
        child_dir(ps, d, c) <==> exists|j: int| 0 <= j < x.nodes@.len() && x.nodes@[j] == c && #[trigger] is_child(x.nodes@[j], d),
{
    let nodes = x.nodes@;
    if child_dir(ps, d, c) {
        let k = choose|k: int| 0 <= k < ps.len() && #[trigger] under(ps, c, k);
        let l = c.len() as int;
        let ch = x.chains@[k]@;
        assert(chain_ok(ps, nodes, ch, k, fold_depth(ps[k]) as int));
        let j = ch[l - 1] as int;
        assert(nodes[j] == c);
        assert(is_child(nodes[j], d));
    }
    if exists|j: int| 0 <= j < x.nodes@.len() && x.nodes@[j] == c && #[trigger] is_child(x.nodes@[j], d) {
        let j = choose|j: int| 0 <= j < x.nodes@.len() && x.nodes@[j] == c && #[trigger] is_child(x.nodes@[j], d);
        assert(is_dir(ps, nodes[j]));
    }
}

/// A directory holds two items exactly when its counts add up to two.
proof fn lemma_two_items(ps: Seq<Seq<char>>, x: DirIndex, d: Seq<Seq<char>>)
    requires
        index_ok(x, ps),
    ensures
        two_items(ps, d) <==> sat2(attached_count(ps, d, ps.len() as int)) + sat2(child_count(x.nodes@, d)) >= 2,
{
    let nodes = x.nodes@;
    let n = ps.len() as int;
    let p = |k: int| attached(ps, d, k);
    let q = |j: int| is_child(nodes[j], d);
    lemma_count_zero(p, n);
    lemma_count_two(p, n);
    lemma_count_zero(q, nodes.len() as int);
    lemma_count_two(q, nodes.len() as int);
    let sum = sat2(attached_count(ps, d, n)) + sat2(child_count(nodes, d));
    if two_items(ps, d) {
        if exists|k1: int, k2: int| 0 <= k1 < ps.len() && 0 <= k2 < ps.len() && k1 != k2 && #[trigger] attached(ps, d, k1) && #[trigger] attached(ps, d, k2) {
            let (k1, k2) = choose|k1: int, k2: int| 0 <= k1 < ps.len() && 0 <= k2 < ps.len() && k1 != k2 && #[trigger] attached(ps, d, k1) && #[trigger] attached(ps, d, k2);
            assert(p(k1) && p(k2));
        } else if exists|k: int, c: Seq<Seq<char>>| 0 <= k < ps.len() && #[trigger] attached(ps, d, k) && #[trigger] child_dir(ps, d, c) {
            let (k, c) = choose|k: int, c: Seq<Seq<char>>| 0 <= k < ps.len() && #[trigger] attached(ps, d, k) && #[trigger] child_dir(ps, d, c);
            lemma_child_dirs(ps, x, d, c);
            let j = choose|j: int| 0 <= j < x.nodes@.len() && x.nodes@[j] == c && #[trigger] is_child(x.nodes@[j], d);
            assert(p(k));
            assert(q(j));
        } else {
            let (c1, c2) = choose|c1: Seq<Seq<char>>, c2: Seq<Seq<char>>| c1 != c2 && #[trigger] child_dir(ps, d, c1) && #[trigger] child_dir(ps, d, c2);
            lemma_child_dirs(ps, x, d, c1);
            lemma_child_dirs(ps, x, d, c2);
            let j1 = choose|j: int| 0 <= j < x.nodes@.len() && x.nodes@[j] == c1 && #[trigger] is_child(x.nodes@[j], d);
            let j2 = choose|j: int| 0 <= j < x.nodes@.len() && x.nodes@[j] == c2 && #[trigger] is_child(x.nodes@[j], d);
            assert(q(j1) && q(j2));
        }
    }
    if sum >= 2 {
        if attached_count(ps, d, n) >= 2 {
            let (k1, k2) = choose|k1: int, k2: int| 0 <= k1 < n && 0 <= k2 < n && k1 != k2 && #[trigger] p(k1) && #[trigger] p(k2);
            assert(attached(ps, d, k1) && attached(ps, d, k2));
        } else if child_count(nodes, d) >= 2 {
            let (j1, j2) = choose|j1: int, j2: int| 0 <= j1 < nodes.len() && 0 <= j2 < nodes.len() && j1 != j2 && #[trigger] q(j1) && #[trigger] q(j2);
            lemma_child_dirs(ps, x, d, nodes[j1]);
            lemma_child_dirs(ps, x, d, nodes[j2]);
            assert(is_child(nodes[j1], d) && is_child(nodes[j2], d));
            assert(nodes[j1] != nodes[j2]);
            assert(child_dir(ps, d, nodes[j1]) && child_dir(ps, d, nodes[j2]));
        } else {
            let k = choose|k: int| 0 <= k < n && #[trigger] p(k);
            let j = choose|j: int| 0 <= j < nodes.len() && #[trigger] q(j);
            lemma_child_dirs(ps, x, d, nodes[j]);
            assert(is_child(nodes[j], d));
            assert(attached(ps, d, k) && child_dir(ps, d, nodes[j]));
        }
    }
}

/// Whether every path before `k` whose shallowest fold is node `f` is
/// encrypted.
spec fn encrypted_upto(outer_of: Seq<usize>, paths: Seq<(StatusCode, String, Option<String>, bool)>, f: int, k: int) -> bool {
    forall|x: int| 0 <= x < k && #[trigger] outer_of[x] == f ==> paths[x].3
}

/// Collapse shared directories of one report group. A directory folds into a
/// single `dir/*` entry when it holds at least two items (a path lying
/// directly in it, or a directory right below it), and neither it nor
/// anything below it is blocked; a path is shown under its shallowest folded
/// directory, at the position of that directory's first member, with that
/// member's code, no pattern, and encrypted only when every member is. Paths
/// through a `*` component fold only above it. `examined` counts the paths
/// looked at: each path once, and once more when two paths share a directory.
pub fn collapse_shared_dirs(
    paths: &Vec<(StatusCode, String, Option<String>, bool)>,
    blocked: &Vec<String>,
    examined: &mut usize,
) -> (r: Vec<(StatusCode, String, Option<String>, bool)>)
    requires
        *old(examined) + 2 * paths@.len() <= usize::MAX,
    ensures
        entries_view(r@) == folded_report(entries_view(paths@), strings_view(blocked@), paths@.len() as int),
        *final(examined) == *old(examined) + if shares_dir(paths_view(paths@)) { 2 * paths@.len() } else { paths@.len() },
{
    let ghost ps = paths_view(paths@);
    let ghost bl = strings_view(blocked@);
    let ghost es = entries_view(paths@);
    proof {
        assert(report_paths(es) =~= ps);
    }
    let keys = blocked_keys(blocked);
    let index = index_dirs(paths);
    let n = paths.len();
    let m = index.names.len();
    let ghost nodes = index.nodes@;

    // Two paths share a directory when some directory holds two of them.
    let mut shared = false;
    let mut i: usize = 0;
    while i < m
        invariant
            i <= m,
            m == nodes.len(),
            nodes == index.nodes@,
            index_ok(index, ps),
            shared == exists|i2: int| 0 <= i2 < i && #[trigger] index.under@[i2] >= 2,
        decreases m - i,
    {
        if index.under[i] >= 2 {
            shared = true;
        }
        i = i + 1;
    }
    proof {
        lemma_shared(ps, index);
    }
    *examined = *examined + n;

    // Which directories fold.
    let mut fold: Vec<bool> = Vec::new();
    let mut i: usize = 0;
    while i < m
        invariant
            i <= m,
            m == nodes.len(),
            nodes == index.nodes@,
            index_ok(index, ps),
            bl == strings_view(blocked@),
            forall|s: Seq<char>| #[trigger] keys@.contains_key(s) <==> blocks_key(bl, blocked@.len() as int, s),
            fold@.len() == i,
            forall|i2: int| 0 <= i2 < i ==> #[trigger] fold@[i2] == folds(ps, bl, nodes[i2]),
        decreases m - i,
    {
        let blocked_here = keys.contains_key(index.names[i].as_str());
        let items = index.attached[i] + index.children[i];
        proof {
            lemma_blocked_key(bl, nodes[i as int]);
            lemma_two_items(ps, index, nodes[i as int]);
        }
        fold.push(!blocked_here && items >= 2);
        i = i + 1;
    }

    // Each path's shallowest fold, and per fold its first member and whether
    // all of its members are encrypted.
    let mut first_member: Vec<usize> = Vec::new();
    let mut all_encrypted: Vec<bool> = Vec::new();
    let mut i: usize = 0;
    while i < m
        invariant
            i <= m,
            first_member@.len() == i,
            all_encrypted@.len() == i,
            forall|f: int| 0 <= f < i ==> #[trigger] first_member@[f] == n,
            forall|f: int| 0 <= f < i ==> #[trigger] all_encrypted@[f],
        decreases m - i,
    {
        first_member.push(n);
        all_encrypted.push(true);
        i = i + 1;
    }
    let mut outer_of: Vec<usize> = Vec::new();
    let mut k: usize = 0;
    while k < n
        invariant
            k <= n,
            n == paths@.len(),
            ps == paths_view(paths@),
            m == nodes.len(),
            nodes == index.nodes@,
            index_ok(index, ps),
            fold@.len() == m,
            forall|i2: int| 0 <= i2 < m ==> #[trigger] fold@[i2] == folds(ps, bl, nodes[i2]),
            outer_of@.len() == k,
            forall|x: int| 0 <= x < k ==> #[trigger] outer_of@[x] <= m,
            forall|x: int| 0 <= x < k ==> (#[trigger] outer_of@[x] < m ==> outer(ps, bl, x) == Some(nodes[outer_of@[x] as int])),
            forall|x: int| 0 <= x < k ==> (#[trigger] outer_of@[x] == m ==> outer(ps, bl, x) is None),
            first_member@.len() == m,
            all_encrypted@.len() == m,
            forall|f: int| 0 <= f < m ==> #[trigger] first_member@[f] <= n,
            forall|f: int, x: int| #![trigger first_member@[f], outer_of@[x]] 0 <= f < m && 0 <= x < k && x < first_member@[f] ==> outer_of@[x] != f,
            forall|f: int| 0 <= f < m && #[trigger] first_member@[f] < n ==> first_member@[f] < k && outer_of@[first_member@[f] as int] == f,
            forall|f: int| 0 <= f < m ==> #[trigger] all_encrypted@[f] == encrypted_upto(outer_of@, paths@, f, k as int),
        decreases n - k,
    {
        let chain = &index.chains[k];
        let ghost fd = fold_depth(ps[k as int]) as int;
        assert(chain_ok(ps, nodes, chain@, k as int, fd));
        let mut j: usize = 0;
        while j < chain.len() && !fold[chain[j]]
            invariant
                k < n,
                n == ps.len(),
                j <= chain@.len(),
                fd == fold_depth(ps[k as int]),
                chain_ok(ps, nodes, chain@, k as int, fd),
                m == nodes.len(),
                fold@.len() == m,
                forall|i2: int| 0 <= i2 < m ==> #[trigger] fold@[i2] == folds(ps, bl, nodes[i2]),
                outer(ps, bl, k as int) == outer_from(ps, bl, k as int, (j + 1) as nat),
            decreases chain.len() - j,
        {
            assert(nodes[chain@[j as int] as int] == split_slash(ps[k as int]).take(j + 1));
            j = j + 1;
        }
        let ghost old_outer = outer_of@;
        let ghost old_first = first_member@;
        let ghost old_enc = all_encrypted@;
        if j < chain.len() {
            let f = chain[j];
            assert(nodes[f as int] == split_slash(ps[k as int]).take(j + 1));
            if first_member[f] == n {
                first_member.set(f, k);
            }
            let e = all_encrypted[f] && paths[k].3;
            all_encrypted.set(f, e);
            outer_of.push(f);
        } else {
            outer_of.push(m);
        }
        proof {
            let o = outer_of@[k as int];
            assert forall|f: int| 0 <= f < m implies #[trigger] all_encrypted@[f] == encrypted_upto(outer_of@, paths@, f, k + 1) by {
                assert(old_enc[f] == encrypted_upto(old_outer, paths@, f, k as int));
                if encrypted_upto(outer_of@, paths@, f, k + 1) {
                    assert forall|x: int| 0 <= x < k && #[trigger] old_outer[x] == f implies paths@[x].3 by {
                        assert(outer_of@[x] == old_outer[x]);
                    }
                }
                if all_encrypted@[f] {
                    assert forall|x: int| 0 <= x < k + 1 && #[trigger] outer_of@[x] == f implies paths@[x].3 by {
                        if x < k {
                            assert(outer_of@[x] == old_outer[x]);
                        }
                    }
                }
            }
            assert forall|f: int, x: int| #![trigger first_member@[f], outer_of@[x]] 0 <= f < m && 0 <= x < k + 1 && x < first_member@[f] implies outer_of@[x] != f by {
                if x < k {
                    assert(outer_of@[x] == old_outer[x]);
                    assert(first_member@[f] == old_first[f] || old_first[f] == n);
                    assert(x < old_first[f]);
                }
            }
            assert forall|f: int| 0 <= f < m && #[trigger] first_member@[f] < n implies first_member@[f] < k + 1 && outer_of@[first_member@[f] as int] == f by {
                if old_first[f] < n {
                    assert(old_outer[old_first[f] as int] == f);
                }
            }
        }
        k = k + 1;
    }

    // Emit: a folded path as its fold's `dir/*` entry at the fold's first
    // member, any other path as it is.
    let mut result: Vec<(StatusCode, String, Option<String>, bool)> = Vec::new();
    let mut k: usize = 0;
    while k < n
        invariant
            k <= n,
            n == paths@.len(),
            ps == paths_view(paths@),
            es == entries_view(paths@),
            report_paths(es) == ps,
            m == nodes.len(),
            nodes == index.nodes@,
            index_ok(index, ps),
            outer_of@.len() == n,
            forall|x: int| 0 <= x < n ==> #[trigger] outer_of@[x] <= m,
            forall|x: int| 0 <= x < n ==> (#[trigger] outer_of@[x] < m ==> outer(ps, bl, x) == Some(nodes[outer_of@[x] as int])),
            forall|x: int| 0 <= x < n ==> (#[trigger] outer_of@[x] == m ==> outer(ps, bl, x) is None),
            first_member@.len() == m,
            all_encrypted@.len() == m,
            forall|f: int| 0 <= f < m ==> #[trigger] first_member@[f] <= n,
            forall|f: int, x: int| #![trigger first_member@[f], outer_of@[x]] 0 <= f < m && 0 <= x < n && x < first_member@[f] ==> outer_of@[x] != f,
            forall|f: int| 0 <= f < m && #[trigger] first_member@[f] < n ==> outer_of@[first_member@[f] as int] == f,
            forall|f: int| 0 <= f < m ==> #[trigger] all_encrypted@[f] == encrypted_upto(outer_of@, paths@, f, n as int),
            entries_view(result@) == folded_report(es, bl, k as int),
        decreases n - k,
    {
        let ghost old_result = result@;
        let f = outer_of[k];
        if f < m {
            let ghost d = nodes[f as int];
            proof {
                assert(outer(ps, bl, k as int) == Some(d));
                assert(first_member@[f as int] <= k);
                if first_member@[f as int] == k {
                    assert forall|k2: int| 0 <= k2 < k implies #[trigger] outer(ps, bl, k2) != outer(ps, bl, k as int) by {
                        assert(outer_of@[k2] != f);
                        if outer_of@[k2] < m {
                            assert(nodes[outer_of@[k2] as int] != d);
                        }
                    }
                    assert(first_of_fold(ps, bl, k as int));
                } else {
                    let x0 = first_member@[f as int] as int;
                    assert(outer_of@[x0] == f);
                    assert(outer(ps, bl, x0) == outer(ps, bl, k as int));
                    assert(!first_of_fold(ps, bl, k as int));
                }
            }
            if first_member[f] == k {
                let name = concat_str(index.names[f].as_str(), "/*");
                let enc = all_encrypted[f];
                proof {
                    reveal_strlit("/*");
                    assert(name@ == dir_key(d) + seq!['/', '*']);
                    if enc {
                        assert forall|x: int| 0 <= x < es.len() && #[trigger] outer(report_paths(es), bl, x) == Some(d) implies es[x].3 by {
                            if outer_of@[x] < m {
                                assert(nodes[outer_of@[x] as int] == d);
                            }
                            assert(outer_of@[x] == f);
                            assert(es[x].3 == paths@[x].3);
                        }
                    }
                    if all_members_encrypted(es, bl, d) {
                        assert forall|x: int| 0 <= x < n && #[trigger] outer_of@[x] == f implies paths@[x].3 by {
                            assert(es[x].3 == paths@[x].3);
                        }
                    }
                    assert(enc == all_members_encrypted(es, bl, d));
                }
                result.push((paths[k].0, name, None, enc));
                proof {
                    assert(entries_view(result@) =~= entries_view(old_result).push(entry_view(result@.last())));
                }
            } else {
                proof {
                    assert(entries_view(result@) =~= entries_view(old_result) + Seq::empty());
                }
            }
        } else {
            result.push(clone_entry(&paths[k]));
            proof {
                assert(entries_view(result@) =~= entries_view(old_result).push(es[k as int]));
            }
        }
        k = k + 1;
    }
    if shared {
        *examined = *examined + n;
    }
    result
}

/// Folding never lengthens a report: the folded report of the first `m`
/// entries has at most `m` entries.
pub proof fn lemma_folded_report_len(es: Seq<(StatusCode, Seq<char>, Option<Seq<char>>, bool)>, bl: Seq<Seq<char>>, m: int)
    requires
        0 <= m <= es.len(),
    ensures
        folded_report(es, bl, m).len() <= m,
    decreases m,
{
    if m > 0 {
        lemma_folded_report_len(es, bl, m - 1);
    }
}

proof fn lemma_outer_from_folds(ps: Seq<Seq<char>>, bl: Seq<Seq<char>>, k: int, j: nat)
    requires
        0 <= k < ps.len(),
    ensures
        outer_from(ps, bl, k, j) matches Some(f) ==> folds(ps, bl, f) && under(ps, f, k),
    decreases fold_depth(ps[k]) + 1 - j,
{
    lemma_fold_depth(ps[k]);
    if j == 0 || j > fold_depth(ps[k]) {
    } else if folds(ps, bl, split_slash(ps[k]).take(j as int)) {
    } else {
        lemma_outer_from_folds(ps, bl, k, j + 1);
    }
}

/// A path is only ever shown under a directory that folds: one that lies
/// above the path, holds at least two items, and has no blocked path below
/// it, so a `dir/*` entry never hides a path of another group.
pub proof fn lemma_outer_folds(ps: Seq<Seq<char>>, bl: Seq<Seq<char>>, k: int)
    requires
        0 <= k < ps.len(),
    ensures
        outer(ps, bl, k) matches Some(f) ==> under(ps, f, k) && two_items(ps, f) && !blocked_dir(bl, f),
{
    lemma_outer_from_folds(ps, bl, k, 1);
}

/// Folding needs two paths sharing a directory: a directory that holds two
/// items holds two of the paths.
proof fn lemma_two_items_shares(ps: Seq<Seq<char>>, d: Seq<Seq<char>>)
    requires
        d.len() >= 1,
        two_items(ps, d),
    ensures
        shares_dir(ps),
{
    if exists|k1: int, k2: int| 0 <= k1 < ps.len() && 0 <= k2 < ps.len() && k1 != k2 && #[trigger] attached(ps, d, k1) && #[trigger] attached(ps, d, k2) {
        let (k1, k2) = choose|k1: int, k2: int| 0 <= k1 < ps.len() && 0 <= k2 < ps.len() && k1 != k2 && #[trigger] attached(ps, d, k1) && #[trigger] attached(ps, d, k2);
        assert(under(ps, d, k1) && under(ps, d, k2));
    } else if exists|k: int, c: Seq<Seq<char>>| 0 <= k < ps.len() && #[trigger] attached(ps, d, k) && #[trigger] child_dir(ps, d, c) {
        let (k, c) = choose|k: int, c: Seq<Seq<char>>| 0 <= k < ps.len() && #[trigger] attached(ps, d, k) && #[trigger] child_dir(ps, d, c);
        let k2 = choose|k2: int| 0 <= k2 < ps.len() && #[trigger] under(ps, c, k2);
        lemma_fold_depth(ps[k2]);
        assert(split_slash(ps[k2]).take(c.len() as int).take(d.len() as int) =~= split_slash(ps[k2]).take(d.len() as int));
        assert(under(ps, d, k2));
        assert(k != k2);
        assert(under(ps, d, k));
    } else {
        let (c1, c2) = choose|c1: Seq<Seq<char>>, c2: Seq<Seq<char>>| c1 != c2 && #[trigger] child_dir(ps, d, c1) && #[trigger] child_dir(ps, d, c2);
        let k1 = choose|k1: int| 0 <= k1 < ps.len() && #[trigger] under(ps, c1, k1);
        let k2 = choose|k2: int| 0 <= k2 < ps.len() && #[trigger] under(ps, c2, k2);
        lemma_fold_depth(ps[k1]);
        lemma_fold_depth(ps[k2]);
        assert(split_slash(ps[k1]).take(c1.len() as int).take(d.len() as int) =~= split_slash(ps[k1]).take(d.len() as int));
        assert(split_slash(ps[k2]).take(c2.len() as int).take(d.len() as int) =~= split_slash(ps[k2]).take(d.len() as int));
        assert(under(ps, d, k1) && under(ps, d, k2));
        assert(k1 != k2);
    }
}

/// When no two paths share a directory, folding leaves the report as it is.
pub proof fn lemma_unshared_unchanged(es: Seq<(StatusCode, Seq<char>, Option<Seq<char>>, bool)>, bl: Seq<Seq<char>>, m: int)
    requires
        0 <= m <= es.len(),
        !shares_dir(report_paths(es)),
    ensures
        folded_report(es, bl, m) == es.take(m),
    decreases m,
{
    if m > 0 {
        lemma_unshared_unchanged(es, bl, m - 1);
        let ps = report_paths(es);
        lemma_outer_folds(ps, bl, m - 1);
        if outer(ps, bl, m - 1) is Some {
            let f = outer(ps, bl, m - 1)->0;
            lemma_two_items_shares(ps, f);
        }
        assert(es.take(m) =~= es.take(m - 1).push(es[m - 1]));
    } else {
        assert(es.take(0) =~= Seq::<(StatusCode, Seq<char>, Option<Seq<char>>, bool)>::empty());
    }
}

} // verus!
