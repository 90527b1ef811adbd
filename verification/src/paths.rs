//! A model of Unix paths as character sequences: their components (as
//! `std::path::Path::components` yields them), appending (as
//! `PathBuf::push` does), lexical normalization, relative paths, and the
//! mapping between target-relative and source-relative names.

use vstd::prelude::*;
use crate::text::{chars_of, string_of, starts_with, slice_to_vec, push_all, has_prefix};
use crate::error::DfmError;

verus! {

/// A path component.
pub enum CompV {
    RootDir,
    CurDir,
    ParentDir,
    Normal(Seq<char>),
}

/// A path component, as the library computes it.
pub enum Component {
    RootDir,
    CurDir,
    ParentDir,
    Normal(Vec<char>),
}

impl View for Component {
    type V = CompV;

    open spec fn view(&self) -> CompV {
        match self {
            Component::RootDir => CompV::RootDir,
            Component::CurDir => CompV::CurDir,
            Component::ParentDir => CompV::ParentDir,
            Component::Normal(v) => CompV::Normal(v@),
        }
    }
}

/// The views of a list of components.
pub open spec fn comps_view(v: Seq<Component>) -> Seq<CompV> {
    v.map_values(|c: Component| c@)
}

/// The text between separators, from left to right (`a//b/` gives
/// `a`, ``, `b`, ``).
pub open spec fn split_slash(s: Seq<char>) -> Seq<Seq<char>>
    decreases s.len(),
{
    if s.len() == 0 {
        seq![Seq::empty()]
    } else {
        let r = split_slash(s.drop_last());
        if s.last() == '/' {
            r.push(Seq::empty())
        } else {
            r.update(r.len() - 1, r.last().push(s.last()))
        }
    }
}

/// `.`
pub open spec fn dot() -> Seq<char> {
    seq!['.']
}

/// `..`
pub open spec fn dotdot() -> Seq<char> {
    seq!['.', '.']
}

/// The component a piece of text between separators stands for: none for an
/// empty piece or `.`, the parent for `..`, a name otherwise.
pub open spec fn piece_comp(x: Seq<char>) -> Seq<CompV> {
    if x.len() == 0 || x == dot() {
        Seq::empty()
    } else if x == dotdot() {
        seq![CompV::ParentDir]
    } else {
        seq![CompV::Normal(x)]
    }
}

/// The components the pieces stand for.
pub open spec fn pieces_comps(parts: Seq<Seq<char>>) -> Seq<CompV>
    decreases parts.len(),
{
    if parts.len() == 0 {
        Seq::empty()
    } else {
        pieces_comps(parts.drop_last()) + piece_comp(parts.last())
    }
}

/// Whether the path starts at the root.
pub open spec fn is_absolute(s: Seq<char>) -> bool {
    s.len() > 0 && s[0] == '/'
}

/// Whether the path starts with a `.` component.
pub open spec fn starts_with_cur(s: Seq<char>) -> bool {
    s.len() > 0 && s[0] == '.' && (s.len() == 1 || s[1] == '/')
}

/// The components of a path: a root for a leading `/`, a current-directory
/// component for a leading `.`, then the names and parents; repeated
/// separators, other `.` pieces and a trailing separator are dropped.
pub open spec fn components(s: Seq<char>) -> Seq<CompV> {
    if is_absolute(s) {
        seq![CompV::RootDir] + pieces_comps(split_slash(s).drop_first())
    } else if starts_with_cur(s) {
        seq![CompV::CurDir] + pieces_comps(split_slash(s).drop_first())
    } else {
        pieces_comps(split_slash(s))
    }
}

pub proof fn lemma_split_slash_nonempty(s: Seq<char>)
    ensures
        split_slash(s).len() >= 1,
    decreases s.len(),
{
    if s.len() > 0 {
        lemma_split_slash_nonempty(s.drop_last());
    }
}

/// Split `s` at its separators.
pub fn split_pieces(s: &[char]) -> (parts: Vec<Vec<char>>)
    ensures
        parts@.map_values(|p: Vec<char>| p@) == split_slash(s@),
{
    let mut parts: Vec<Vec<char>> = Vec::new();
    let mut cur: Vec<char> = Vec::new();
    let mut i: usize = 0;
    assert(s@.take(0) =~= Seq::<char>::empty());
    while i < s.len()
        invariant
            i <= s.len(),
            parts@.map_values(|p: Vec<char>| p@).push(cur@) == split_slash(s@.take(i as int)),
        decreases s.len() - i,
    {
        let c = s[i];
        let ghost before = parts@.map_values(|p: Vec<char>| p@).push(cur@);
        proof {
            assert(s@.take(i + 1).drop_last() =~= s@.take(i as int));
            assert(s@.take(i + 1).last() == c);
        }
        if c == '/' {
            parts.push(cur);
            cur = Vec::new();
            assert(parts@.map_values(|p: Vec<char>| p@).push(cur@) =~= before.push(Seq::empty()));
        } else {
            cur.push(c);
            assert(parts@.map_values(|p: Vec<char>| p@).push(cur@) =~= before.update(
                before.len() - 1,
                before.last().push(c),
            ));
        }
        i = i + 1;
    }
    parts.push(cur);
    assert(s@.take(s.len() as int) =~= s@);
    parts
}

/// Whether `v` is `.`.
fn is_dot(v: &[char]) -> (b: bool)
    ensures
        b == (v@ == dot()),
{
    let r = v.len() == 1 && v[0] == '.';
    assert(r ==> v@ =~= dot());
    r
}

/// Whether `v` is `..`.
fn is_dotdot(v: &[char]) -> (b: bool)
    ensures
        b == (v@ == dotdot()),
{
    let r = v.len() == 2 && v[0] == '.' && v[1] == '.';
    assert(r ==> v@ =~= dotdot());
    r
}

/// Append the components that the pieces `parts[from..]` stand for.
fn push_piece_comps(out: &mut Vec<Component>, parts: Vec<Vec<char>>, from: usize)
    requires
        from <= parts@.len(),
    ensures
        comps_view(final(out)@) == comps_view(old(out)@) + pieces_comps(
            parts@.map_values(|p: Vec<char>| p@).skip(from as int),
        ),
{
    let ghost pv = parts@.map_values(|p: Vec<char>| p@);
    let mut i: usize = from;
    let n = parts.len();
    let mut parts = parts;
    assert(pv.skip(from as int).take(0) =~= Seq::<Seq<char>>::empty());
    while i < n
        invariant
            from <= i <= n,
            n == pv.len(),
            parts@.len() == n,
            forall|j: int| i <= j < n ==> (#[trigger] parts@[j])@ == pv[j],
            comps_view(out@) == comps_view(old(out)@) + pieces_comps(pv.skip(from as int).take(i - from)),
        decreases n - i,
    {
        let mut piece: Vec<char> = Vec::new();
        std::mem::swap(&mut piece, &mut parts[i]);
        let ghost q = pv.skip(from as int).take(i + 1 - from);
        proof {
            assert(q.drop_last() =~= pv.skip(from as int).take(i - from));
            assert(q.last() == pv[i as int]);
        }
        let ghost before = out@;
        if piece.len() == 0 || is_dot(piece.as_slice()) {
        } else if is_dotdot(piece.as_slice()) {
            out.push(Component::ParentDir);
        } else {
            out.push(Component::Normal(piece));
        }
        proof {
            assert(comps_view(out@) =~= comps_view(before) + piece_comp(pv[i as int]));
        }
        i = i + 1;
    }
    assert(pv.skip(from as int).take(n - from) =~= pv.skip(from as int));
}

/// The components of the path `s`.
pub fn components_of(s: &[char]) -> (c: Vec<Component>)
    ensures
        comps_view(c@) == components(s@),
{
    let parts = split_pieces(s);
    proof {
        lemma_split_slash_nonempty(s@);
    }
    let ghost pv = parts@.map_values(|p: Vec<char>| p@);
    let mut out: Vec<Component> = Vec::new();
    if s.len() > 0 && s[0] == '/' {
        out.push(Component::RootDir);
        push_piece_comps(&mut out, parts, 1);
    } else if s.len() > 0 && s[0] == '.' && (s.len() == 1 || s[1] == '/') {
        out.push(Component::CurDir);
        push_piece_comps(&mut out, parts, 1);
    } else {
        push_piece_comps(&mut out, parts, 0);
        assert(pv.skip(0) =~= pv);
    }
    assert(pv.skip(1) =~= pv.drop_first());
    out
}


/// Appending `x` to the path `buf`: an absolute `x` replaces `buf`; otherwise
/// a separator goes between them unless `buf` is empty or already ends with
/// one.
pub open spec fn push_spec(buf: Seq<char>, x: Seq<char>) -> Seq<char> {
    if is_absolute(x) {
        x
    } else if buf.len() > 0 && buf.last() != '/' {
        buf + seq!['/'] + x
    } else {
        buf + x
    }
}

/// Appending every element of `xs` in turn.
pub open spec fn push_all_spec(buf: Seq<char>, xs: Seq<Seq<char>>) -> Seq<char>
    decreases xs.len(),
{
    if xs.len() == 0 {
        buf
    } else {
        push_spec(push_all_spec(buf, xs.drop_last()), xs.last())
    }
}

/// Append `x` to the path `buf`, see `push_spec`.
pub fn path_push(buf: &mut Vec<char>, x: &[char])
    ensures
        final(buf)@ == push_spec(old(buf)@, x@),
{
    if x.len() > 0 && x[0] == '/' {
        buf.clear();
        push_all(buf, x);
        assert(buf@ =~= x@);
    } else {
        if buf.len() > 0 && buf[buf.len() - 1] != '/' {
            buf.push('/');
        }
        push_all(buf, x);
    }
}

/// A copy of `v`.
pub fn copy_chars(v: &[char]) -> (r: Vec<char>)
    ensures
        r@ == v@,
{
    let r = slice_to_vec(v, 0, v.len());
    assert(v@.subrange(0, v@.len() as int) =~= v@);
    r
}

/// The views of a list of character vectors.
pub open spec fn names_view(v: Seq<Vec<char>>) -> Seq<Seq<char>> {
    v.map_values(|x: Vec<char>| x@)
}

/// The names kept and the parent steps left over when `cs` is resolved
/// lexically: a name is pushed, a parent pops the last name or, with none
/// left, counts a step above the start.
pub open spec fn resolve_dots(cs: Seq<CompV>) -> (Seq<Seq<char>>, nat)
    decreases cs.len(),
{
    if cs.len() == 0 {
        (Seq::empty(), 0)
    } else {
        let (st, pops) = resolve_dots(cs.drop_last());
        match cs.last() {
            CompV::ParentDir => if st.len() > 0 {
                (st.drop_last(), pops)
            } else {
                (st, pops + 1)
            },
            CompV::Normal(n) => (st.push(n), pops),
            _ => (st, pops),
        }
    }
}

/// `n` parent steps.
pub open spec fn parents(n: nat) -> Seq<Seq<char>> {
    Seq::new(n, |i: int| dotdot())
}

/// Lexical normalization: `.` removed, `..` resolved against the preceding
/// name; `..` that climbs above the start stays (and then the result is
/// relative); an empty result is `.`.
pub open spec fn remove_dots_spec(p: Seq<char>) -> Seq<char> {
    let (st, pops) = resolve_dots(components(p));
    let start = if is_absolute(p) && pops == 0 { seq!['/'] } else { Seq::empty() };
    let r = push_all_spec(push_all_spec(start, parents(pops)), st);
    if r.len() == 0 { dot() } else { r }
}

/// Lexical normalization of the path `path`, see `remove_dots_spec`.
pub fn remove_dots_from_path(path: &str) -> (r: String)
    ensures
        r@ == remove_dots_spec(path@),
{
    let s = chars_of(path);
    let r = remove_dots_chars(s.as_slice());
    string_of(r.as_slice())
}

/// `remove_dots_from_path` over characters.
pub fn remove_dots_chars(s: &[char]) -> (r: Vec<char>)
    ensures
        r@ == remove_dots_spec(s@),
{
    let comps = components_of(s);
    let ghost cv = comps_view(comps@);
    let absolute = s.len() > 0 && s[0] == '/';
    let mut stack: Vec<Vec<char>> = Vec::new();
    let mut pops: usize = 0;
    let mut i: usize = 0;
    assert(cv.take(0) =~= Seq::<CompV>::empty());
    while i < comps.len()
        invariant
            i <= comps@.len(),
            cv == comps_view(comps@),
            pops <= i,
            (names_view(stack@), pops as nat) == resolve_dots(cv.take(i as int)),
        decreases comps.len() - i,
    {
        proof {
            assert(cv.take(i + 1).drop_last() =~= cv.take(i as int));
            assert(cv.take(i + 1).last() == comps@[i as int]@);
        }
        let ghost before = names_view(stack@);
        match &comps[i] {
            Component::ParentDir => {
                if stack.len() > 0 {
                    stack.pop();
                    assert(names_view(stack@) =~= before.drop_last());
                } else {
                    pops = pops + 1;
                }
            },
            Component::Normal(n) => {
                stack.push(copy_chars(n.as_slice()));
                assert(names_view(stack@) =~= before.push(n@));
            },
            _ => {},
        }
        i = i + 1;
    }
    assert(cv.take(comps@.len() as int) =~= cv);
    let ghost st = names_view(stack@);
    let mut ret: Vec<char> = Vec::new();
    if absolute && pops == 0 {
        ret.push('/');
    }
    let ghost start = ret@;
    let mut k: usize = 0;
    assert(parents(0) =~= Seq::<Seq<char>>::empty());
    while k < pops
        invariant
            k <= pops,
            ret@ == push_all_spec(start, parents(k as nat)),
        decreases pops - k,
    {
        let dd: [char; 2] = ['.', '.'];
        assert(dd@ =~= dotdot());
        path_push(&mut ret, &dd);
        k = k + 1;
        assert(parents(k as nat).drop_last() =~= parents((k - 1) as nat));
    }
    let ghost mid = ret@;
    let mut j: usize = 0;
    assert(st.take(0) =~= Seq::<Seq<char>>::empty());
    while j < stack.len()
        invariant
            j <= stack@.len(),
            st == names_view(stack@),
            ret@ == push_all_spec(mid, st.take(j as int)),
        decreases stack.len() - j,
    {
        path_push(&mut ret, stack[j].as_slice());
        assert(st.take(j + 1).drop_last() =~= st.take(j as int));
        j = j + 1;
    }
    assert(st.take(stack@.len() as int) =~= st);
    if ret.len() == 0 {
        ret.push('.');
        assert(ret@ =~= dot());
    }
    ret
}


/// Equality of two components.
pub fn comp_eq(a: &Component, b: &Component) -> (r: bool)
    ensures
        r == (a@ == b@),
{
    match (a, b) {
        (Component::RootDir, Component::RootDir) => true,
        (Component::CurDir, Component::CurDir) => true,
        (Component::ParentDir, Component::ParentDir) => true,
        (Component::Normal(x), Component::Normal(y)) => crate::text::chars_eq(x.as_slice(), y.as_slice()),
        _ => false,
    }
}

/// Whether the components `bc` begin the components `fc`.
pub fn comps_prefix(fc: &[Component], bc: &[Component]) -> (r: bool)
    ensures
        r == (bc@.len() <= fc@.len() && comps_view(fc@).take(bc@.len() as int) == comps_view(bc@)),
{
    if bc.len() > fc.len() {
        return false;
    }
    let mut i: usize = 0;
    while i < bc.len()
        invariant
            bc@.len() <= fc@.len(),
            i <= bc@.len(),
            forall|j: int| 0 <= j < i ==> fc@[j]@ == bc@[j]@,
        decreases bc.len() - i,
    {
        if !comp_eq(&fc[i], &bc[i]) {
            assert(comps_view(fc@).take(bc@.len() as int)[i as int] != comps_view(bc@)[i as int]);
            return false;
        }
        i = i + 1;
    }
    assert(comps_view(fc@).take(bc@.len() as int) =~= comps_view(bc@));
    true
}

/// The names among the components, in order.
pub open spec fn normal_names(cs: Seq<CompV>) -> Seq<Seq<char>>
    decreases cs.len(),
{
    if cs.len() == 0 {
        Seq::empty()
    } else {
        normal_names(cs.drop_last()) + match cs.last() {
            CompV::Normal(n) => seq![n],
            _ => Seq::empty(),
        }
    }
}

/// `/..` repeated `n` times.
pub open spec fn ups(n: nat) -> Seq<char>
    decreases n,
{
    if n == 0 {
        Seq::empty()
    } else {
        ups((n - 1) as nat) + seq!['/', '.', '.']
    }
}

/// The shortest ancestor of a path with components `fc`: the root for an
/// absolute path, the empty path otherwise.
pub open spec fn ancestor_floor(fc: Seq<CompV>) -> nat {
    if fc.len() > 0 && fc[0] is RootDir { 1 } else { 0 }
}

/// Whether one of the ancestors of a path with components `fc` (the path
/// itself, its parent, and so on) has the components `bc`.
pub open spec fn ancestor_match(fc: Seq<CompV>, bc: Seq<CompV>) -> bool {
    ancestor_floor(fc) <= bc.len() <= fc.len() && fc.take(bc.len() as int) == bc
}

/// `file` relative to `base`: the names below `base` when `base` is an
/// ancestor of `file` (`.` when it is `file` itself); otherwise `.`, one `/..`
/// per name in `file`, then `file` itself.
pub open spec fn relative_spec(file: Seq<char>, base: Seq<char>) -> Seq<char> {
    let fc = components(file);
    let bc = components(base);
    if ancestor_match(fc, bc) {
        let r = push_all_spec(Seq::empty(), normal_names(fc.skip(bc.len() as int)));
        if r.len() == 0 { dot() } else { r }
    } else {
        dot() + ups(normal_names(fc).len()) + file
    }
}

/// Collect the names among `cs[from..]`.
fn collect_names(cs: &[Component], from: usize) -> (v: Vec<Vec<char>>)
    requires
        from <= cs@.len(),
    ensures
        names_view(v@) == normal_names(comps_view(cs@).skip(from as int)),
{
    let ghost cv = comps_view(cs@).skip(from as int);
    let mut v: Vec<Vec<char>> = Vec::new();
    let mut i: usize = from;
    assert(cv.take(0) =~= Seq::<CompV>::empty());
    while i < cs.len()
        invariant
            from <= i <= cs@.len(),
            cv == comps_view(cs@).skip(from as int),
            names_view(v@) == normal_names(cv.take(i - from)),
        decreases cs.len() - i,
    {
        proof {
            assert(cv.take(i + 1 - from).drop_last() =~= cv.take(i - from));
            assert(cv.take(i + 1 - from).last() == cs@[i as int]@);
        }
        let ghost before = names_view(v@);
        match &cs[i] {
            Component::Normal(n) => {
                v.push(copy_chars(n.as_slice()));
                assert(names_view(v@) =~= before + seq![n@]);
            },
            _ => {
                assert(names_view(v@) =~= before + Seq::<Seq<char>>::empty());
            },
        }
        i = i + 1;
    }
    assert(cv.take(cs@.len() - from) =~= cv);
    v
}

/// Append every name in `names`, see `push_all_spec`.
fn push_names(buf: &mut Vec<char>, names: &Vec<Vec<char>>)
    ensures
        final(buf)@ == push_all_spec(old(buf)@, names_view(names@)),
{
    let ghost nv = names_view(names@);
    let mut j: usize = 0;
    assert(nv.take(0) =~= Seq::<Seq<char>>::empty());
    while j < names.len()
        invariant
            j <= names@.len(),
            nv == names_view(names@),
            buf@ == push_all_spec(old(buf)@, nv.take(j as int)),
        decreases names.len() - j,
    {
        path_push(buf, names[j].as_slice());
        assert(nv.take(j + 1).drop_last() =~= nv.take(j as int));
        j = j + 1;
    }
    assert(nv.take(names@.len() as int) =~= nv);
}

/// `file` relative to `base`, see `relative_spec`.
pub fn relative_chars(file: &[char], base: &[char]) -> (r: Vec<char>)
    ensures
        r@ == relative_spec(file@, base@),
{
    let fc = components_of(file);
    let bc = components_of(base);
    let floor: usize = if fc.len() > 0 && matches!(fc[0], Component::RootDir) { 1 } else { 0 };
    if floor <= bc.len() && comps_prefix(fc.as_slice(), bc.as_slice()) {
        let names = collect_names(fc.as_slice(), bc.len());
        let mut r: Vec<char> = Vec::new();
        push_names(&mut r, &names);
        if r.len() == 0 {
            r.push('.');
            assert(r@ =~= dot());
        }
        r
    } else {
        let names = collect_names(fc.as_slice(), 0);
        assert(comps_view(fc@).skip(0) =~= comps_view(fc@));
        let mut r: Vec<char> = Vec::new();
        r.push('.');
        let mut k: usize = 0;
        while k < names.len()
            invariant
                k <= names@.len(),
                r@ == dot() + ups(k as nat),
            decreases names.len() - k,
        {
            r.push('/');
            r.push('.');
            r.push('.');
            k = k + 1;
            assert(r@ =~= dot() + ups(k as nat));
        }
        push_all(&mut r, file);
        r
    }
}

/// The path of `file_abs_path` relative to `relative_to_abs_path`, see
/// `relative_spec`.
pub fn file_path_relative_to(file_abs_path: &str, relative_to_abs_path: &str) -> (r: String)
    ensures
        r@ == relative_spec(file_abs_path@, relative_to_abs_path@),
{
    let f = chars_of(file_abs_path);
    let b = chars_of(relative_to_abs_path);
    let r = relative_chars(f.as_slice(), b.as_slice());
    string_of(r.as_slice())
}


/// The text of a component.
pub open spec fn comp_text(c: CompV) -> Seq<char> {
    match c {
        CompV::RootDir => seq!['/'],
        CompV::CurDir => dot(),
        CompV::ParentDir => dotdot(),
        CompV::Normal(n) => n,
    }
}

/// The text of a component, as a new vector.
fn comp_chars(c: &Component) -> (r: Vec<char>)
    ensures
        r@ == comp_text(c@),
{
    match c {
        Component::RootDir => {
            let mut r: Vec<char> = Vec::new();
            r.push('/');
            assert(r@ =~= seq!['/']);
            r
        },
        Component::CurDir => {
            let mut r: Vec<char> = Vec::new();
            r.push('.');
            assert(r@ =~= dot());
            r
        },
        Component::ParentDir => {
            let mut r: Vec<char> = Vec::new();
            r.push('.');
            r.push('.');
            assert(r@ =~= dotdot());
            r
        },
        Component::Normal(n) => copy_chars(n.as_slice()),
    }
}

/// How a target-side name is written on the source side: a leading `.`
/// becomes the dot prefix; a name that already starts with the dot prefix or
/// with `~` is escaped with a leading `~`; any other name is kept.
pub open spec fn encode_name(n: Seq<char>, dot_prefix: Seq<char>) -> Seq<char> {
    if n.len() > 0 && n[0] == '.' {
        dot_prefix + n.skip(1)
    } else if has_prefix(n, dot_prefix) || (n.len() > 0 && n[0] == '~') {
        seq!['~'] + n
    } else {
        n
    }
}

/// How a source-side name is read back on the target side: `~~` stands for
/// `~`, a single leading `~` is dropped, a leading dot prefix stands for `.`
/// (or is dropped when `hidden_as_dot` is off), any other name is kept.
pub open spec fn decode_name(n: Seq<char>, dot_prefix: Seq<char>, hidden_as_dot: bool) -> Seq<char> {
    if has_prefix(n, seq!['~', '~']) {
        seq!['~'] + n.skip(2)
    } else if n.len() > 0 && n[0] == '~' {
        n.skip(1)
    } else if has_prefix(n, dot_prefix) {
        if hidden_as_dot { dot() + n.skip(dot_prefix.len() as int) } else { n.skip(dot_prefix.len() as int) }
    } else {
        n
    }
}

/// Every component of `rel` written on the source side.
pub open spec fn encode_rel_spec(rel: Seq<char>, dot_prefix: Seq<char>) -> Seq<char> {
    push_all_spec(Seq::empty(), components(rel).map_values(|c: CompV| match c {
        CompV::Normal(n) => encode_name(n, dot_prefix),
        _ => comp_text(c),
    }))
}

/// Every component of `source_rel` read back on the target side.
pub open spec fn decode_rel_spec(source_rel: Seq<char>, dot_prefix: Seq<char>, hidden_as_dot: bool) -> Seq<char> {
    push_all_spec(Seq::empty(), components(source_rel).map_values(|c: CompV| match c {
        CompV::Normal(n) => decode_name(n, dot_prefix, hidden_as_dot),
        _ => comp_text(c),
    }))
}

/// Where the source copy of `target_abs` lives: its path relative to the
/// target directory, written on the source side, with the postfix appended,
/// under the source directory, normalized.
pub open spec fn source_path_spec(dot_prefix: Seq<char>, target_dir: Seq<char>, source_dir: Seq<char>, target_abs: Seq<char>, postfix: Option<Seq<char>>) -> Seq<char> {
    let enc = encode_rel_spec(relative_spec(target_abs, target_dir), dot_prefix);
    let with_postfix = match postfix {
        Some(p) => enc + p,
        None => enc,
    };
    remove_dots_spec(push_spec(source_dir, with_postfix))
}

/// Whether the slice `n` begins with a `~`.
fn starts_with_tilde(n: &[char]) -> (b: bool)
    ensures
        b == (n@.len() > 0 && n@[0] == '~'),
{
    n.len() > 0 && n[0] == '~'
}

/// `encode_name` over characters.
pub fn encode_name_chars(n: &[char], dot_prefix: &[char]) -> (r: Vec<char>)
    ensures
        r@ == encode_name(n@, dot_prefix@),
{
    if n.len() > 0 && n[0] == '.' {
        let mut r = copy_chars(dot_prefix);
        let rest = slice_to_vec(n, 1, n.len());
        push_all(&mut r, rest.as_slice());
        assert(n@.subrange(1, n@.len() as int) =~= n@.skip(1));
        r
    } else if starts_with(n, dot_prefix) || starts_with_tilde(n) {
        let mut r: Vec<char> = Vec::new();
        r.push('~');
        push_all(&mut r, n);
        assert(r@ =~= seq!['~'] + n@);
        r
    } else {
        copy_chars(n)
    }
}

/// `decode_name` over characters.
pub fn decode_name_chars(n: &[char], dot_prefix: &[char], hidden_as_dot: bool) -> (r: Vec<char>)
    ensures
        r@ == decode_name(n@, dot_prefix@, hidden_as_dot),
{
    if n.len() >= 2 && n[0] == '~' && n[1] == '~' {
        assert(n@.subrange(0, 2) =~= seq!['~', '~']);
        let mut r: Vec<char> = Vec::new();
        r.push('~');
        let rest = slice_to_vec(n, 2, n.len());
        push_all(&mut r, rest.as_slice());
        assert(r@ =~= seq!['~'] + n@.skip(2));
        r
    } else if starts_with_tilde(n) {
        proof {
            if n@.len() >= 2 {
                assert(n@.subrange(0, 2)[1] == n@[1]);
            }
        }
        let r = slice_to_vec(n, 1, n.len());
        assert(r@ =~= n@.skip(1));
        r
    } else if starts_with(n, dot_prefix) {
        proof {
            if n@.len() >= 2 {
                assert(n@.subrange(0, 2)[0] == n@[0]);
            }
        }
        let rest = slice_to_vec(n, dot_prefix.len(), n.len());
        assert(rest@ =~= n@.skip(dot_prefix@.len() as int));
        if hidden_as_dot {
            let mut r: Vec<char> = Vec::new();
            r.push('.');
            push_all(&mut r, rest.as_slice());
            assert(r@ =~= dot() + rest@);
            r
        } else {
            rest
        }
    } else {
        proof {
            if n@.len() >= 2 {
                assert(n@.subrange(0, 2)[0] == n@[0]);
            }
        }
        copy_chars(n)
    }
}

/// `encode_rel_spec` over characters.
pub fn encode_rel_chars(rel: &[char], dot_prefix: &[char]) -> (r: Vec<char>)
    ensures
        r@ == encode_rel_spec(rel@, dot_prefix@),
{
    let cs = components_of(rel);
    let ghost xs = components(rel@).map_values(|c: CompV| match c {
        CompV::Normal(n) => encode_name(n, dot_prefix@),
        _ => comp_text(c),
    });
    let mut r: Vec<char> = Vec::new();
    let mut i: usize = 0;
    assert(xs.take(0) =~= Seq::<Seq<char>>::empty());
    while i < cs.len()
        invariant
            i <= cs@.len(),
            comps_view(cs@) == components(rel@),
            xs.len() == cs@.len(),
            xs == components(rel@).map_values(|c: CompV| match c {
                CompV::Normal(n) => encode_name(n, dot_prefix@),
                _ => comp_text(c),
            }),
            r@ == push_all_spec(Seq::empty(), xs.take(i as int)),
        decreases cs.len() - i,
    {
        let piece = match &cs[i] {
            Component::Normal(n) => encode_name_chars(n.as_slice(), dot_prefix),
            other => comp_chars(other),
        };
        assert(piece@ == xs[i as int]);
        path_push(&mut r, piece.as_slice());
        assert(xs.take(i + 1).drop_last() =~= xs.take(i as int));
        i = i + 1;
    }
    assert(xs.take(cs@.len() as int) =~= xs);
    r
}

/// `decode_rel_spec` over characters.
pub fn decode_rel_chars(source_rel: &[char], dot_prefix: &[char], hidden_as_dot: bool) -> (r: Vec<char>)
    ensures
        r@ == decode_rel_spec(source_rel@, dot_prefix@, hidden_as_dot),
{
    let cs = components_of(source_rel);
    let ghost xs = components(source_rel@).map_values(|c: CompV| match c {
        CompV::Normal(n) => decode_name(n, dot_prefix@, hidden_as_dot),
        _ => comp_text(c),
    });
    let mut r: Vec<char> = Vec::new();
    let mut i: usize = 0;
    assert(xs.take(0) =~= Seq::<Seq<char>>::empty());
    while i < cs.len()
        invariant
            i <= cs@.len(),
            comps_view(cs@) == components(source_rel@),
            xs.len() == cs@.len(),
            xs == components(source_rel@).map_values(|c: CompV| match c {
                CompV::Normal(n) => decode_name(n, dot_prefix@, hidden_as_dot),
                _ => comp_text(c),
            }),
            r@ == push_all_spec(Seq::empty(), xs.take(i as int)),
        decreases cs.len() - i,
    {
        let piece = match &cs[i] {
            Component::Normal(n) => decode_name_chars(n.as_slice(), dot_prefix, hidden_as_dot),
            other => comp_chars(other),
        };
        assert(piece@ == xs[i as int]);
        path_push(&mut r, piece.as_slice());
        assert(xs.take(i + 1).drop_last() =~= xs.take(i as int));
        i = i + 1;
    }
    assert(xs.take(cs@.len() as int) =~= xs);
    r
}

/// The path of the source copy of `target_abs_path`, see `source_path_spec`.
pub fn filepath_in_source_dir(dot_prefix: &str, target_dir_abs_path: &str, source_dir_abs_path: &str, target_abs_path: &str, add_postfix_opt: Option<&str>) -> (r: String)
    ensures
        r@ == source_path_spec(dot_prefix@, target_dir_abs_path@, source_dir_abs_path@, target_abs_path@,
            match add_postfix_opt { Some(p) => Some(p@), None => None }),
{
    let dp = chars_of(dot_prefix);
    let rel = relative_chars(chars_of(target_abs_path).as_slice(), chars_of(target_dir_abs_path).as_slice());
    let mut enc = encode_rel_chars(rel.as_slice(), dp.as_slice());
    match add_postfix_opt {
        Some(p) => {
            let pc = chars_of(p);
            push_all(&mut enc, pc.as_slice());
        },
        None => {},
    }
    let mut full = chars_of(source_dir_abs_path);
    path_push(&mut full, enc.as_slice());
    let r = remove_dots_chars(full.as_slice());
    string_of(r.as_slice())
}

/// `source_rel` read back on the target side, see `decode_rel_spec`.
pub fn decode_source_rel_path(source_rel: &str, dot_prefix: &str, hidden_as_dot: bool) -> (r: String)
    ensures
        r@ == decode_rel_spec(source_rel@, dot_prefix@, hidden_as_dot),
{
    let r = decode_rel_chars(chars_of(source_rel).as_slice(), chars_of(dot_prefix).as_slice(), hidden_as_dot);
    string_of(r.as_slice())
}

/// `t` without the suffix `p`, which it ends with.
pub open spec fn strip_suffix_spec(t: Seq<char>, p: Seq<char>) -> Seq<char> {
    t.take(t.len() - p.len())
}

/// The target-relative path of a source-relative path: read back on the
/// target side, then without the symlink postfix, or else without the
/// encrypted postfix, when it ends with one.
pub open spec fn target_rel_spec(source_rel: Seq<char>, dot_prefix: Seq<char>, symlink_postfix: Seq<char>, encrypted_postfix: Seq<char>) -> Seq<char> {
    let t = decode_rel_spec(source_rel, dot_prefix, true);
    if crate::text::has_suffix(t, symlink_postfix) {
        strip_suffix_spec(t, symlink_postfix)
    } else if crate::text::has_suffix(t, encrypted_postfix) {
        strip_suffix_spec(t, encrypted_postfix)
    } else {
        t
    }
}

/// The target-relative path of a source-relative path (a state key), see
/// `target_rel_spec`.
pub fn source_rel_to_target_rel(source_rel: &str, dot_prefix: &str, symlink_postfix: &str, encrypted_postfix: &str) -> (r: String)
    ensures
        r@ == target_rel_spec(source_rel@, dot_prefix@, symlink_postfix@, encrypted_postfix@),
{
    let t = decode_rel_chars(chars_of(source_rel).as_slice(), chars_of(dot_prefix).as_slice(), true);
    let sp = chars_of(symlink_postfix);
    let ep = chars_of(encrypted_postfix);
    if crate::text::ends_with(t.as_slice(), sp.as_slice()) {
        let r = slice_to_vec(t.as_slice(), 0, t.len() - sp.len());
        string_of(r.as_slice())
    } else if crate::text::ends_with(t.as_slice(), ep.as_slice()) {
        let r = slice_to_vec(t.as_slice(), 0, t.len() - ep.len());
        string_of(r.as_slice())
    } else {
        string_of(t.as_slice())
    }
}


/// Whether a component climbs out of where a relative path starts: a parent
/// or the root.
pub open spec fn escapes(c: CompV) -> bool {
    c is ParentDir || c is RootDir
}

/// Whether some component of `cs` escapes.
fn any_escape(cs: &[Component]) -> (r: bool)
    ensures
        r == exists|i: int| 0 <= i < cs@.len() && escapes(#[trigger] cs@[i]@),
{
    let mut i: usize = 0;
    while i < cs.len()
        invariant
            i <= cs@.len(),
            forall|j: int| 0 <= j < i ==> !escapes(#[trigger] cs@[j]@),
        decreases cs.len() - i,
    {
        match &cs[i] {
            Component::ParentDir | Component::RootDir => {
                assert(escapes(cs@[i as int]@));
                return true;
            },
            _ => {},
        }
        i = i + 1;
    }
    false
}

/// Reject a state key that could escape the source directory: one with a
/// parent or root component.
pub fn validate_state_key(key: &str) -> (r: Result<(), DfmError>)
    ensures
        r is Ok <==> forall|i: int| 0 <= i < components(key@).len() ==> !escapes(#[trigger] components(key@)[i]),
        r matches Err(e) ==> e is InvalidData,
{
    let cs = components_of(chars_of(key).as_slice());
    if any_escape(cs.as_slice()) {
        proof {
            let i = choose|i: int| 0 <= i < cs@.len() && escapes(#[trigger] cs@[i]@);
            assert(components(key@)[i] == cs@[i]@);
        }
        return Err(DfmError::InvalidData("state key contains path component that escapes the source directory".to_owned()));
    }
    proof {
        assert forall|i: int| 0 <= i < components(key@).len() implies !escapes(#[trigger] components(key@)[i]) by {
            assert(components(key@)[i] == cs@[i]@);
        }
    }
    Ok(())
}

/// Whether a directory entry recorded in a container may be restored: none of
/// its components escapes the restore root, and it names at least one
/// directory (an empty entry would change the root itself).
pub open spec fn dir_rel_safe_spec(dir_rel: Seq<char>) -> bool {
    &&& forall|i: int| 0 <= i < components(dir_rel).len() ==> !escapes(#[trigger] components(dir_rel)[i])
    &&& exists|i: int| 0 <= i < components(dir_rel).len() && (#[trigger] components(dir_rel)[i]) is Normal
}

/// See `dir_rel_safe_spec`.
pub fn dir_rel_is_safe(dir_rel: &str) -> (b: bool)
    ensures
        b == dir_rel_safe_spec(dir_rel@),
{
    let cs = components_of(chars_of(dir_rel).as_slice());
    let ghost cv = comps_view(cs@);
    let mut saw_normal = false;
    let mut i: usize = 0;
    while i < cs.len()
        invariant
            i <= cs@.len(),
            cv == comps_view(cs@),
            cv == components(dir_rel@),
            forall|j: int| 0 <= j < i ==> !escapes(#[trigger] cv[j]),
            saw_normal == exists|j: int| 0 <= j < i && (#[trigger] cv[j]) is Normal,
        decreases cs.len() - i,
    {
        match &cs[i] {
            Component::Normal(_) => {
                saw_normal = true;
                assert(cv[i as int] is Normal);
            },
            Component::CurDir => {},
            _ => {
                assert(escapes(cv[i as int]));
                return false;
            },
        }
        i = i + 1;
    }
    saw_normal
}

/// The directories enclosing a relative path, shallowest first: for `a/b/c`,
/// `a` and `a/b`.
pub open spec fn enclosing_dirs_spec(rel: Seq<char>) -> Seq<Seq<char>> {
    let cs = components(rel);
    let names = if cs.len() > 0 { normal_names(cs.drop_last()) } else { Seq::empty() };
    Seq::new(names.len(), |i: int| push_all_spec(Seq::empty(), names.take(i + 1)))
}

/// See `enclosing_dirs_spec`.
pub fn enclosing_dirs(rel: &str) -> (v: Vec<String>)
    ensures
        v@.map_values(|s: String| s@) == enclosing_dirs_spec(rel@),
{
    let cs = components_of(chars_of(rel).as_slice());
    let mut v: Vec<String> = Vec::new();
    if cs.len() == 0 {
        assert(v@.map_values(|s: String| s@) =~= enclosing_dirs_spec(rel@));
        return v;
    }
    let last = cs.len() - 1;
    let parent = slice_to_comps(cs.as_slice(), last);
    let names = collect_names(parent.as_slice(), 0);
    let ghost nv = names_view(names@);
    proof {
        assert(comps_view(parent@).skip(0) =~= comps_view(cs@).drop_last());
    }
    let mut acc: Vec<char> = Vec::new();
    let mut i: usize = 0;
    while i < names.len()
        invariant
            i <= names@.len(),
            nv == names_view(names@),
            acc@ == push_all_spec(Seq::empty(), nv.take(i as int)),
            v@.len() == i,
            forall|j: int| 0 <= j < i ==> (#[trigger] v@[j])@ == push_all_spec(Seq::empty(), nv.take(j + 1)),
        decreases names.len() - i,
    {
        path_push(&mut acc, names[i].as_slice());
        assert(nv.take(i + 1).drop_last() =~= nv.take(i as int));
        v.push(string_of(acc.as_slice()));
        i = i + 1;
    }
    assert(v@.map_values(|s: String| s@) =~= enclosing_dirs_spec(rel@));
    v
}

/// The first `n` components, copied.
fn slice_to_comps(cs: &[Component], n: usize) -> (r: Vec<Component>)
    requires
        n <= cs@.len(),
    ensures
        comps_view(r@) == comps_view(cs@).take(n as int),
{
    let mut r: Vec<Component> = Vec::new();
    let mut i: usize = 0;
    while i < n
        invariant
            i <= n <= cs@.len(),
            comps_view(r@) == comps_view(cs@).take(i as int),
        decreases n - i,
    {
        let c = match &cs[i] {
            Component::RootDir => Component::RootDir,
            Component::CurDir => Component::CurDir,
            Component::ParentDir => Component::ParentDir,
            Component::Normal(x) => Component::Normal(copy_chars(x.as_slice())),
        };
        assert(c@ == cs@[i as int]@);
        let ghost before = r@;
        let ghost cv = c@;
        r.push(c);
        assert(comps_view(r@) =~= comps_view(before).push(cv));
        assert(comps_view(cs@).take(i + 1) =~= comps_view(cs@).take(i as int).push(cs@[i as int]@));
        i = i + 1;
    }
    r
}

/// The state key of an absolute path under a root: the path relative to the
/// root, normalized.
pub open spec fn state_key_spec(abs_path: Seq<char>, root: Seq<char>) -> Seq<char> {
    remove_dots_spec(relative_spec(abs_path, root))
}

/// See `state_key_spec`.
pub fn state_key_for(abs_path: &str, root: &str) -> (r: String)
    ensures
        r@ == state_key_spec(abs_path@, root@),
{
    let rel = relative_chars(chars_of(abs_path).as_slice(), chars_of(root).as_slice());
    let r = remove_dots_chars(rel.as_slice());
    string_of(r.as_slice())
}

/// The state key of a source path.
pub fn source_to_state_key(source_abs: &str, source_dir_abs: &str) -> (r: String)
    ensures
        r@ == state_key_spec(source_abs@, source_dir_abs@),
{
    state_key_for(source_abs, source_dir_abs)
}

/// The target-relative and the absolute target path of a source-relative
/// path.
pub fn source_rel_to_target_abs(source_rel: &str, target_dir_abs: &str, dot_prefix: &str, symlink_postfix: &str, encrypted_postfix: &str) -> (r: (String, String))
    ensures
        r.0@ == target_rel_spec(source_rel@, dot_prefix@, symlink_postfix@, encrypted_postfix@),
        r.1@ == remove_dots_spec(push_spec(target_dir_abs@, r.0@)),
{
    let target_rel = source_rel_to_target_rel(source_rel, dot_prefix, symlink_postfix, encrypted_postfix);
    let mut full = chars_of(target_dir_abs);
    path_push(&mut full, chars_of(target_rel.as_str()).as_slice());
    let abs = remove_dots_chars(full.as_slice());
    (target_rel, string_of(abs.as_slice()))
}

/// The name of the ignore file in the source directory.
pub open spec fn source_ignore_file_name() -> Seq<char> {
    seq!['.', 'd', 'f', 'm', '_', 'i', 'g', 'n', 'o', 'r', 'e', '_', 'f', 'i', 'l', 'e']
}

/// The ignore file of a source directory.
pub fn calc_source_ignore_file(source_dir_abs_path: &str) -> (r: String)
    ensures
        r@ == push_spec(source_dir_abs_path@, source_ignore_file_name()),
{
    let name = ".dfm_ignore_file";
    proof {
        reveal_strlit(".dfm_ignore_file");
    }
    assert(name@ =~= source_ignore_file_name());
    let mut full = chars_of(source_dir_abs_path);
    path_push(&mut full, chars_of(name).as_slice());
    string_of(full.as_slice())
}

/// Whether the components of `base` begin those of `p` (`Path::starts_with`).
pub open spec fn path_starts_with(p: Seq<char>, base: Seq<char>) -> bool {
    let pc = components(p);
    let bc = components(base);
    bc.len() <= pc.len() && pc.take(bc.len() as int) == bc
}

/// See `path_starts_with`.
pub fn path_starts_with_str(p: &str, base: &str) -> (b: bool)
    ensures
        b == path_starts_with(p@, base@),
{
    let pc = components_of(chars_of(p).as_slice());
    let bc = components_of(chars_of(base).as_slice());
    comps_prefix(pc.as_slice(), bc.as_slice())
}

/// A command-line path made absolute against the working directory `cwd`
/// and normalized.
pub open spec fn cli_abs_spec(arg: Seq<char>, cwd: Seq<char>) -> Seq<char> {
    if is_absolute(arg) { remove_dots_spec(arg) } else { remove_dots_spec(push_spec(cwd, arg)) }
}

/// Resolve a command-line path against the working directory `cwd` and
/// require it to lie under the target or the source directory.
pub fn cli_path_in_scope(arg: &str, cwd: &str, target_dir_abs: &str, source_dir_abs: &str) -> (r: Result<String, DfmError>)
    ensures
        r is Ok <==> (path_starts_with(cli_abs_spec(arg@, cwd@), target_dir_abs@)
            || path_starts_with(cli_abs_spec(arg@, cwd@), source_dir_abs@)),
        r matches Ok(p) ==> p@ == cli_abs_spec(arg@, cwd@),
        r matches Err(e) ==> e is InvalidInput,
{
    let a = chars_of(arg);
    let abs = if a.len() > 0 && a[0] == '/' {
        remove_dots_chars(a.as_slice())
    } else {
        let mut full = chars_of(cwd);
        path_push(&mut full, a.as_slice());
        remove_dots_chars(full.as_slice())
    };
    let abs_s = string_of(abs.as_slice());
    if path_starts_with_str(abs_s.as_str(), target_dir_abs) || path_starts_with_str(abs_s.as_str(), source_dir_abs) {
        Ok(abs_s)
    } else {
        let msg = crate::text::concat_str("path resolves outside the target directory: ", abs_s.as_str());
        Err(DfmError::InvalidInput(msg))
    }
}

} // verus!
