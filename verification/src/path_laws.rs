//! Properties of the path model: splitting what was joined, lexical
//! normalization reaching a fixed point, and the source-side names reading
//! back as the target-side names they were written from.

use vstd::prelude::*;
use crate::paths::{resolve_dots, parents, remove_dots_spec, CompV, encode_name, decode_name, encode_rel_spec, decode_rel_spec, comp_text, split_slash, dot, dotdot, pieces_comps, piece_comp, components, starts_with_cur, is_absolute, push_spec, push_all_spec, lemma_split_slash_nonempty};
use crate::paths::{target_rel_spec, strip_suffix_spec, source_path_spec, relative_spec, normal_names, ancestor_floor};
use crate::text::{has_prefix, has_suffix};

verus! {

/// A name that stands for itself as a component: non-empty, without a
/// separator, and neither `.` nor `..`.
pub open spec fn clean_name(n: Seq<char>) -> bool {
    &&& n.len() > 0
    &&& !n.contains('/')
    &&& n != dot()
    &&& n != dotdot()
}

/// A piece of text without a separator, non-empty.
pub open spec fn solid(n: Seq<char>) -> bool {
    n.len() > 0 && !n.contains('/')
}

/// The names joined with separators.
pub open spec fn join(names: Seq<Seq<char>>) -> Seq<char> {
    push_all_spec(Seq::empty(), names)
}

pub proof fn lemma_split_append(s: Seq<char>, x: Seq<char>)
    requires
        !x.contains('/'),
    ensures
        split_slash(s + x) == split_slash(s).update(
            split_slash(s).len() - 1,
            split_slash(s).last() + x,
        ),
    decreases x.len(),
{
    lemma_split_slash_nonempty(s);
    if x.len() == 0 {
        assert(s + x =~= s);
        assert(split_slash(s).last() + x =~= split_slash(s).last());
        assert(split_slash(s).update(split_slash(s).len() - 1, split_slash(s).last()) =~= split_slash(s));
    } else {
        let x0 = x.drop_last();
        assert(!x0.contains('/')) by {
            if x0.contains('/') {
                let i = choose|i: int| 0 <= i < x0.len() && x0[i] == '/';
                assert(x[i] == '/');
            }
        }
        lemma_split_append(s, x0);
        assert((s + x).drop_last() =~= s + x0);
        assert((s + x).last() == x.last());
        assert(x.last() != '/') by {
            assert(x[x.len() - 1] == x.last());
        }
        lemma_split_slash_nonempty(s + x0);
        assert(split_slash(s).last() + x0 + seq![x.last()] =~= split_slash(s).last() + x);
        assert((split_slash(s).last() + x0).push(x.last()) =~= split_slash(s).last() + x);
        let a = split_slash(s);
        let b = split_slash(s + x0);
        assert(b =~= a.update(a.len() - 1, a.last() + x0));
        assert(b.update(b.len() - 1, b.last().push(x.last())) =~= a.update(a.len() - 1, a.last() + x));
    }
}

/// Joining names and splitting the result gives the names back.
pub proof fn lemma_split_join(names: Seq<Seq<char>>)
    requires
        names.len() >= 1,
        forall|i: int| 0 <= i < names.len() ==> solid(#[trigger] names[i]),
    ensures
        split_slash(join(names)) == names,
        join(names).len() > 0,
        join(names).last() != '/',
        join(names).len() >= names[0].len(),
        join(names).take(names[0].len() as int) == names[0],
    decreases names.len(),
{
    let x = names.last();
    assert(solid(names[names.len() - 1]));
    assert(x.last() != '/') by {
        if x.last() == '/' {
            assert(x[x.len() - 1] == '/');
            assert(x.contains('/'));
        }
    }
    if names.len() == 1 {
        assert(names.drop_last() =~= Seq::<Seq<char>>::empty());
        assert(x[0] != '/') by {
            if x[0] == '/' {
                assert(x.contains('/'));
            }
        }
        assert(join(names) == Seq::<char>::empty() + x);
        lemma_split_append(Seq::empty(), x);
        assert(split_slash(Seq::<char>::empty()) =~= seq![Seq::<char>::empty()]);
        assert(Seq::<char>::empty() + x =~= x);
        assert(split_slash(x) =~= names);
        assert(x.take(x.len() as int) =~= x);
    } else {
        let rest = names.drop_last();
        assert forall|i: int| 0 <= i < rest.len() implies solid(#[trigger] rest[i]) by {
            assert(rest[i] == names[i]);
        }
        lemma_split_join(rest);
        let j = join(rest);
        assert(x[0] != '/') by {
            if x[0] == '/' {
                assert(x.contains('/'));
            }
        }
        assert(join(names) == j + seq!['/'] + x);
        lemma_split_append(j + seq!['/'], x);
        assert((j + seq!['/']).drop_last() =~= j);
        assert(split_slash(j + seq!['/']) =~= rest.push(Seq::empty()));
        assert(rest.push(Seq::empty()).update(rest.len() as int, Seq::<char>::empty() + x) =~= names);
        assert(Seq::<char>::empty() + x =~= x);
        assert(rest[0] == names[0]);
        assert((j + seq!['/'] + x).take(names[0].len() as int) =~= j.take(names[0].len() as int));
    }
}

/// Joining names after the root `/`.
pub proof fn lemma_split_join_root(names: Seq<Seq<char>>)
    requires
        names.len() >= 1,
        forall|i: int| 0 <= i < names.len() ==> solid(#[trigger] names[i]),
    ensures
        push_all_spec(seq!['/'], names) == seq!['/'] + join(names),
    decreases names.len(),
{
    let x = names.last();
    assert(solid(names[names.len() - 1]));
    assert(x[0] != '/') by {
        if x[0] == '/' {
            assert(x.contains('/'));
        }
    }
    if names.len() == 1 {
        assert(names.drop_last() =~= Seq::<Seq<char>>::empty());
        assert(push_all_spec(seq!['/'], names.drop_last()) == seq!['/']);
        assert(push_all_spec(Seq::<char>::empty(), names.drop_last()) == Seq::<char>::empty());
        assert(push_all_spec(seq!['/'], names) == push_spec(seq!['/'], x));
        assert(join(names) == push_spec(Seq::empty(), x));
        assert(Seq::<char>::empty() + x =~= x);
    } else {
        let rest = names.drop_last();
        assert forall|i: int| 0 <= i < rest.len() implies solid(#[trigger] rest[i]) by {
            assert(rest[i] == names[i]);
        }
        lemma_split_join_root(rest);
        lemma_split_join(rest);
        assert(seq!['/'] + join(rest) + seq!['/'] + x =~= seq!['/'] + (join(rest) + seq!['/'] + x));
    }
}

/// The components of clean names are those names.
pub proof fn lemma_pieces_clean(names: Seq<Seq<char>>)
    requires
        forall|i: int| 0 <= i < names.len() ==> clean_name(#[trigger] names[i]),
    ensures
        pieces_comps(names) == names.map_values(|n: Seq<char>| CompV::Normal(n)),
    decreases names.len(),
{
    if names.len() > 0 {
        let rest = names.drop_last();
        assert forall|i: int| 0 <= i < rest.len() implies clean_name(#[trigger] rest[i]) by {
            assert(rest[i] == names[i]);
        }
        lemma_pieces_clean(rest);
        assert(clean_name(names[names.len() - 1]));
        assert(names.map_values(|n: Seq<char>| CompV::Normal(n)) =~= rest.map_values(|n: Seq<char>| CompV::Normal(n))
            + seq![CompV::Normal(names.last())]);
    }
}

/// The components of joined clean names are those names.
pub proof fn lemma_components_join(names: Seq<Seq<char>>)
    requires
        forall|i: int| 0 <= i < names.len() ==> clean_name(#[trigger] names[i]),
    ensures
        components(join(names)) == names.map_values(|n: Seq<char>| CompV::Normal(n)),
{
    if names.len() == 0 {
        assert(join(names) == Seq::<char>::empty());
        assert(split_slash(Seq::<char>::empty()) =~= seq![Seq::<char>::empty()]);
        assert(seq![Seq::<char>::empty()].drop_last() =~= Seq::<Seq<char>>::empty());
        assert(names.map_values(|n: Seq<char>| CompV::Normal(n)) =~= Seq::<CompV>::empty());
        let one = seq![Seq::<char>::empty()];
        assert(one.drop_last() =~= Seq::<Seq<char>>::empty());
        assert(one.last() == Seq::<char>::empty());
        assert(piece_comp(Seq::<char>::empty()) =~= Seq::<CompV>::empty());
        assert(pieces_comps(Seq::<Seq<char>>::empty()) =~= Seq::<CompV>::empty());
        assert(pieces_comps(one) == pieces_comps(one.drop_last()) + piece_comp(one.last()));
        assert(pieces_comps(one) =~= Seq::<CompV>::empty());
        assert(!is_absolute(Seq::<char>::empty()));
        assert(!starts_with_cur(Seq::<char>::empty()));
    } else {
        assert forall|i: int| 0 <= i < names.len() implies solid(#[trigger] names[i]) by {
            assert(clean_name(names[i]));
        }
        lemma_split_join(names);
        lemma_pieces_clean(names);
        let j = join(names);
        let n0 = names[0];
        assert(clean_name(names[0]));
        assert(n0[0] != '/') by {
            if n0[0] == '/' {
                assert(n0.contains('/'));
            }
        }
        if starts_with_cur(j) {
            assert(j[0] == n0[0]);
            if n0.len() == 1 {
                assert(n0 =~= dot());
            } else {
                assert(j[1] == n0[1]);
                assert(n0.contains('/'));
            }
        }
        assert(j[0] == n0[0]);
        assert(!is_absolute(j));
        assert(!starts_with_cur(j));
        assert(components(j) == pieces_comps(split_slash(j)));
    }
}


/// A dot prefix the escaping can be undone under: non-empty, without a
/// separator, and starting with neither `.` nor `~`.
pub open spec fn valid_dot_prefix(dp: Seq<char>) -> bool {
    &&& dp.len() > 0
    &&& !dp.contains('/')
    &&& dp[0] != '.'
    &&& dp[0] != '~'
}

proof fn lemma_decode_encode_name(n: Seq<char>, dp: Seq<char>)
    requires
        clean_name(n),
        valid_dot_prefix(dp),
    ensures
        decode_name(encode_name(n, dp), dp, true) == n,
        clean_name(encode_name(n, dp)),
{
    let e = encode_name(n, dp);
    if n[0] == '.' {
        let rest = n.skip(1);
        assert(e == dp + rest);
        assert(e[0] == dp[0]);
        assert(!has_prefix(e, seq!['~', '~'])) by {
            if has_prefix(e, seq!['~', '~']) {
                assert(e.subrange(0, 2)[0] == e[0]);
            }
        }
        assert(e.subrange(0, dp.len() as int) =~= dp);
        assert(e.skip(dp.len() as int) =~= rest);
        assert(dot() + rest =~= n);
        assert(!e.contains('/')) by {
            if e.contains('/') {
                let i = choose|i: int| 0 <= i < e.len() && e[i] == '/';
                if i < dp.len() {
                    assert(dp[i] == '/');
                    assert(dp.contains('/'));
                } else {
                    assert(n[i - dp.len() + 1] == '/');
                    assert(n.contains('/'));
                }
            }
        }
        assert(e != dot()) by {
            if e == dot() {
                assert(e[0] == '.');
            }
        }
        assert(e != dotdot()) by {
            if e == dotdot() {
                assert(e[0] == '.');
            }
        }
    } else if has_prefix(n, dp) || n[0] == '~' {
        assert(e == seq!['~'] + n);
        if n[0] == '~' {
            assert(e.subrange(0, 2) =~= seq!['~', '~']);
            assert(e.skip(2) =~= n.skip(1));
            assert(seq!['~'] + n.skip(1) =~= n);
        } else {
            assert(!has_prefix(e, seq!['~', '~'])) by {
                if has_prefix(e, seq!['~', '~']) {
                    assert(e.subrange(0, 2)[1] == e[1]);
                }
            }
            assert(e.skip(1) =~= n);
        }
        assert(!e.contains('/')) by {
            if e.contains('/') {
                let i = choose|i: int| 0 <= i < e.len() && e[i] == '/';
                assert(i > 0);
                assert(n[i - 1] == '/');
                assert(n.contains('/'));
            }
        }
        assert(e != dot() && e != dotdot()) by {
            assert(e[0] == '~');
        }
    } else {
        assert(e == n);
        assert(!has_prefix(e, seq!['~', '~'])) by {
            if has_prefix(e, seq!['~', '~']) {
                assert(e.subrange(0, 2)[0] == e[0]);
            }
        }
    }
}

/// A name read back after being written on the source side is the name it
/// was written from, for every path of clean names under a dot prefix that
/// starts with neither `.` nor `~` (`.bashrc` is written `dot_bashrc`, a
/// literal `dot_backup` is written `~dot_backup`, a literal `~x` is written
/// `~~x`, and each reads back as itself).
pub proof fn lemma_decode_encode_roundtrip(names: Seq<Seq<char>>, dp: Seq<char>)
    requires
        forall|i: int| 0 <= i < names.len() ==> clean_name(#[trigger] names[i]),
        valid_dot_prefix(dp),
    ensures
        decode_rel_spec(encode_rel_spec(join(names), dp), dp, true) == join(names),
{
    let e = names.map_values(|n: Seq<char>| encode_name(n, dp));
    lemma_components_join(names);
    let f = |c: CompV| match c {
        CompV::Normal(n) => encode_name(n, dp),
        _ => comp_text(c),
    };
    assert(components(join(names)).map_values(f) =~= e);
    assert(encode_rel_spec(join(names), dp) == join(e));
    assert forall|i: int| 0 <= i < e.len() implies clean_name(#[trigger] e[i]) by {
        lemma_decode_encode_name(names[i], dp);
    }
    lemma_components_join(e);
    let g = |c: CompV| match c {
        CompV::Normal(n) => decode_name(n, dp, true),
        _ => comp_text(c),
    };
    assert forall|i: int| 0 <= i < names.len() implies components(join(e)).map_values(g)[i] == names[i] by {
        lemma_decode_encode_name(names[i], dp);
    }
    assert(components(join(e)).map_values(g) =~= names);
}


/// Two different paths of clean names are written to two different source
/// paths: the source-side naming merges no two target paths.
pub proof fn lemma_encode_rel_injective(names1: Seq<Seq<char>>, names2: Seq<Seq<char>>, dp: Seq<char>)
    requires
        forall|i: int| 0 <= i < names1.len() ==> clean_name(#[trigger] names1[i]),
        forall|i: int| 0 <= i < names2.len() ==> clean_name(#[trigger] names2[i]),
        valid_dot_prefix(dp),
    ensures
        join(names1) != join(names2) ==> encode_rel_spec(join(names1), dp) != encode_rel_spec(join(names2), dp),
{
    lemma_decode_encode_roundtrip(names1, dp);
    lemma_decode_encode_roundtrip(names2, dp);
}

/// Text added to the last name extends the joined path by that text.
proof fn lemma_join_extend_last(xs: Seq<Seq<char>>, p: Seq<char>)
    requires
        xs.len() > 0,
        xs.last().len() > 0,
    ensures
        join(xs.update(xs.len() - 1, xs.last() + p)) == join(xs) + p,
{
    let ys = xs.update(xs.len() - 1, xs.last() + p);
    assert(ys.drop_last() =~= xs.drop_last());
    assert(ys.last() == xs.last() + p);
    let b = push_all_spec(Seq::empty(), xs.drop_last());
    assert(join(ys) == push_spec(b, xs.last() + p));
    assert(join(xs) == push_spec(b, xs.last()));
    assert((xs.last() + p)[0] == xs.last()[0]);
    if is_absolute(xs.last()) {
    } else if b.len() > 0 && b.last() != '/' {
        assert(b + seq!['/'] + (xs.last() + p) =~= (b + seq!['/'] + xs.last()) + p);
    } else {
        assert(b + (xs.last() + p) =~= (b + xs.last()) + p);
    }
}

/// A postfix that starts with `.` and has no separator, or nothing.
pub open spec fn name_postfix(p: Seq<char>) -> bool {
    p.len() == 0 || (p[0] == '.' && !p.contains('/'))
}

/// A written name with a postfix reads back as the name with that postfix.
proof fn lemma_decode_encode_postfixed(n: Seq<char>, dp: Seq<char>, p: Seq<char>)
    requires
        clean_name(n),
        valid_dot_prefix(dp),
        !dp.contains('.'),
        name_postfix(p),
    ensures
        decode_name(encode_name(n, dp) + p, dp, true) == n + p,
        clean_name(encode_name(n, dp) + p),
{
    lemma_decode_encode_name(n, dp);
    let x = encode_name(n, dp);
    let y = x + p;
    if p.len() == 0 {
        assert(y =~= x);
        assert(n + p =~= n);
        return;
    }
    assert(y[0] == x[0]);
    assert(!y.contains('/')) by {
        if y.contains('/') {
            let i = choose|i: int| 0 <= i < y.len() && y[i] == '/';
            if i < x.len() {
                assert(x[i] == '/');
                assert(x.contains('/'));
            } else {
                assert(p[i - x.len()] == '/');
                assert(p.contains('/'));
            }
        }
    }
    assert(y != dot()) by {
        assert(y.len() >= 2);
    }
    assert(y != dotdot()) by {
        if y == dotdot() {
            assert(x.len() == 1);
            assert(x[0] == y[0]);
            assert(x =~= dot());
        }
    }
    if n[0] == '.' {
        assert(x == dp + n.skip(1));
        assert(!has_prefix(y, seq!['~', '~'])) by {
            if has_prefix(y, seq!['~', '~']) {
                assert(y.subrange(0, 2)[0] == y[0]);
            }
        }
        assert(y.subrange(0, dp.len() as int) =~= dp);
        assert(y.skip(dp.len() as int) =~= n.skip(1) + p);
        assert(dot() + (n.skip(1) + p) =~= n + p);
    } else if has_prefix(n, dp) || n[0] == '~' {
        assert(x == seq!['~'] + n);
        if n[0] == '~' {
            assert(y.subrange(0, 2) =~= seq!['~', '~']);
            assert(y.skip(2) =~= n.skip(1) + p);
            assert(seq!['~'] + (n.skip(1) + p) =~= n + p);
        } else {
            assert(!has_prefix(y, seq!['~', '~'])) by {
                if has_prefix(y, seq!['~', '~']) {
                    assert(y.subrange(0, 2)[1] == y[1]);
                    assert(n.subrange(0, dp.len() as int)[0] == n[0]);
                }
            }
            assert(y.skip(1) =~= n + p);
        }
    } else {
        assert(x == n);
        assert(!has_prefix(y, seq!['~', '~'])) by {
            if has_prefix(y, seq!['~', '~']) {
                assert(y.subrange(0, 2)[0] == y[0]);
            }
        }
        assert(!has_prefix(y, dp)) by {
            if has_prefix(y, dp) {
                if dp.len() <= n.len() {
                    assert(n.subrange(0, dp.len() as int) =~= y.subrange(0, dp.len() as int));
                } else {
                    assert(y.subrange(0, dp.len() as int)[n.len() as int] == y[n.len() as int]);
                    assert(dp[n.len() as int] == '.');
                    assert(dp.contains('.'));
                }
            }
        }
    }
}

/// The target path that a state key was written from is what the key reads
/// back as: the names of the target path written on the source side, then
/// the symlink or the encrypted postfix (or none, for a path that ends in
/// neither), give the target path again. The postfixes start with `.`,
/// neither ends the other, and the dot prefix holds no `.`.
pub proof fn lemma_state_key_reads_back(names: Seq<Seq<char>>, dp: Seq<char>, symlink_postfix: Seq<char>, encrypted_postfix: Seq<char>, postfix: Seq<char>)
    requires
        names.len() > 0,
        forall|i: int| 0 <= i < names.len() ==> clean_name(#[trigger] names[i]),
        valid_dot_prefix(dp),
        !dp.contains('.'),
        symlink_postfix.len() > 0,
        encrypted_postfix.len() > 0,
        name_postfix(symlink_postfix),
        name_postfix(encrypted_postfix),
        !has_suffix(symlink_postfix, encrypted_postfix),
        !has_suffix(encrypted_postfix, symlink_postfix),
        postfix == symlink_postfix || postfix == encrypted_postfix
            || (postfix.len() == 0 && !has_suffix(join(names), symlink_postfix) && !has_suffix(join(names), encrypted_postfix)),
    ensures
        target_rel_spec(encode_rel_spec(join(names), dp) + postfix, dp, symlink_postfix, encrypted_postfix) == join(names),
{
    let p = postfix;
    let sp = symlink_postfix;
    let ep = encrypted_postfix;
    let last = names.len() - 1;
    let e = names.map_values(|n: Seq<char>| encode_name(n, dp));
    lemma_components_join(names);
    let f = |c: CompV| match c {
        CompV::Normal(n) => encode_name(n, dp),
        _ => comp_text(c),
    };
    assert(components(join(names)).map_values(f) =~= e);
    assert(encode_rel_spec(join(names), dp) == join(e));
    lemma_decode_encode_name(names[last], dp);
    lemma_join_extend_last(e, p);
    let e2 = e.update(last, e.last() + p);
    assert forall|i: int| 0 <= i < e2.len() implies clean_name(#[trigger] e2[i]) by {
        if i == last {
            lemma_decode_encode_postfixed(names[last], dp, p);
        } else {
            lemma_decode_encode_name(names[i], dp);
        }
    }
    lemma_components_join(e2);
    let g = |c: CompV| match c {
        CompV::Normal(n) => decode_name(n, dp, true),
        _ => comp_text(c),
    };
    let d = names.update(last, names.last() + p);
    assert forall|i: int| 0 <= i < names.len() implies components(join(e2)).map_values(g)[i] == d[i] by {
        if i == last {
            lemma_decode_encode_postfixed(names[last], dp, p);
        } else {
            lemma_decode_encode_name(names[i], dp);
        }
    }
    assert(components(join(e2)).map_values(g) =~= d);
    assert(decode_rel_spec(join(e2), dp, true) == join(d));
    lemma_join_extend_last(names, p);
    let j = join(names);
    let t = j + p;
    assert(decode_rel_spec(encode_rel_spec(j, dp) + p, dp, true) == t);
    if p.len() > 0 {
        assert(t.subrange(t.len() - p.len(), t.len() as int) =~= p);
        assert(strip_suffix_spec(t, p) =~= j);
    } else {
        assert(t =~= j);
    }
    if p == ep && p != sp {
        assert(!has_suffix(t, sp)) by {
            if has_suffix(t, sp) {
                if sp.len() <= ep.len() {
                    assert forall|i: int| 0 <= i < sp.len() implies #[trigger] ep.subrange(ep.len() - sp.len(), ep.len() as int)[i] == sp[i] by {
                        assert(t.subrange(t.len() - sp.len(), t.len() as int)[i] == sp[i]);
                        assert(t[t.len() - sp.len() + i] == ep[ep.len() - sp.len() + i]);
                    }
                    assert(ep.subrange(ep.len() - sp.len(), ep.len() as int) =~= sp);
                } else {
                    assert forall|i: int| 0 <= i < ep.len() implies #[trigger] sp.subrange(sp.len() - ep.len(), sp.len() as int)[i] == ep[i] by {
                        assert(t.subrange(t.len() - sp.len(), t.len() as int)[sp.len() - ep.len() + i] == sp[sp.len() - ep.len() + i]);
                        assert(t[t.len() - ep.len() + i] == ep[i]);
                    }
                    assert(sp.subrange(sp.len() - ep.len(), sp.len() as int) =~= ep);
                }
            }
        }
    }
}

proof fn lemma_push_all_concat(buf: Seq<char>, a: Seq<Seq<char>>, b: Seq<Seq<char>>)
    ensures
        push_all_spec(buf, a + b) == push_all_spec(push_all_spec(buf, a), b),
    decreases b.len(),
{
    if b.len() == 0 {
        assert(a + b =~= a);
    } else {
        lemma_push_all_concat(buf, a, b.drop_last());
        assert((a + b).drop_last() =~= a + b.drop_last());
        assert((a + b).last() == b.last());
    }
}

proof fn lemma_pieces_concat(a: Seq<Seq<char>>, b: Seq<Seq<char>>)
    ensures
        pieces_comps(a + b) == pieces_comps(a) + pieces_comps(b),
    decreases b.len(),
{
    if b.len() == 0 {
        assert(a + b =~= a);
        assert(pieces_comps(a) + Seq::<CompV>::empty() =~= pieces_comps(a));
    } else {
        lemma_pieces_concat(a, b.drop_last());
        assert((a + b).drop_last() =~= a + b.drop_last());
        assert((a + b).last() == b.last());
        assert(pieces_comps(a) + pieces_comps(b.drop_last()) + piece_comp(b.last()) =~= pieces_comps(a) + (
        pieces_comps(b.drop_last()) + piece_comp(b.last())));
    }
}

/// `n` parent components.
pub open spec fn parent_comps(n: nat) -> Seq<CompV> {
    Seq::new(n, |i: int| CompV::ParentDir)
}

proof fn lemma_pieces_parents(n: nat)
    ensures
        pieces_comps(parents(n)) == parent_comps(n),
    decreases n,
{
    if n > 0 {
        lemma_pieces_parents((n - 1) as nat);
        assert(parents(n).drop_last() =~= parents((n - 1) as nat));
        assert(parents(n).last() == dotdot());
        assert(parent_comps((n - 1) as nat) + seq![CompV::ParentDir] =~= parent_comps(n));
    } else {
        assert(parents(0) =~= Seq::<Seq<char>>::empty());
        assert(parent_comps(0) =~= Seq::<CompV>::empty());
    }
}

proof fn lemma_resolve_parents(n: nat)
    ensures
        resolve_dots(parent_comps(n)) == (Seq::<Seq<char>>::empty(), n),
    decreases n,
{
    if n > 0 {
        lemma_resolve_parents((n - 1) as nat);
        assert(parent_comps(n).drop_last() =~= parent_comps((n - 1) as nat));
    } else {
        assert(parent_comps(0) =~= Seq::<CompV>::empty());
    }
}

proof fn lemma_resolve_names(prefix: Seq<CompV>, st: Seq<Seq<char>>)
    ensures
        resolve_dots(prefix + st.map_values(|n: Seq<char>| CompV::Normal(n)))
            == (resolve_dots(prefix).0 + st, resolve_dots(prefix).1),
    decreases st.len(),
{
    let m = st.map_values(|n: Seq<char>| CompV::Normal(n));
    if st.len() == 0 {
        assert(prefix + m =~= prefix);
        assert(resolve_dots(prefix).0 + st =~= resolve_dots(prefix).0);
    } else {
        let rest = st.drop_last();
        lemma_resolve_names(prefix, rest);
        assert((prefix + m).drop_last() =~= prefix + rest.map_values(|n: Seq<char>| CompV::Normal(n)));
        assert((prefix + m).last() == CompV::Normal(st.last()));
        assert((resolve_dots(prefix).0 + rest).push(st.last()) =~= resolve_dots(prefix).0 + st);
    }
}

pub proof fn lemma_split_pieces_solid(s: Seq<char>)
    ensures
        forall|i: int| 0 <= i < split_slash(s).len() ==> !(#[trigger] split_slash(s)[i]).contains('/'),
    decreases s.len(),
{
    if s.len() > 0 {
        lemma_split_pieces_solid(s.drop_last());
        lemma_split_slash_nonempty(s.drop_last());
        let r = split_slash(s.drop_last());
        if s.last() != '/' {
            assert forall|i: int| 0 <= i < split_slash(s).len() implies !(#[trigger] split_slash(s)[i]).contains('/') by {
                if i == r.len() - 1 {
                    let x = r.last().push(s.last());
                    assert(split_slash(s)[i] == x);
                    if x.contains('/') {
                        let j = choose|j: int| 0 <= j < x.len() && x[j] == '/';
                        if j < r.last().len() {
                            assert(r[r.len() - 1][j] == '/');
                            assert(r[r.len() - 1].contains('/'));
                        }
                    }
                } else {
                    assert(split_slash(s)[i] == r[i]);
                }
            }
        } else {
            assert forall|i: int| 0 <= i < split_slash(s).len() implies !(#[trigger] split_slash(s)[i]).contains('/') by {
                if i < r.len() {
                    assert(split_slash(s)[i] == r[i]);
                }
            }
        }
    } else {
        assert(split_slash(s) =~= seq![Seq::<char>::empty()]);
    }
}

proof fn lemma_pieces_names_clean(parts: Seq<Seq<char>>)
    requires
        forall|i: int| 0 <= i < parts.len() ==> !(#[trigger] parts[i]).contains('/'),
    ensures
        forall|i: int| 0 <= i < pieces_comps(parts).len() ==> (#[trigger] pieces_comps(parts)[i] matches CompV::Normal(n)
            ==> clean_name(n)),
    decreases parts.len(),
{
    if parts.len() > 0 {
        let rest = parts.drop_last();
        assert forall|i: int| 0 <= i < rest.len() implies !(#[trigger] rest[i]).contains('/') by {
            assert(rest[i] == parts[i]);
        }
        lemma_pieces_names_clean(rest);
        assert(!parts[parts.len() - 1].contains('/'));
        let pc = pieces_comps(parts);
        assert forall|i: int| 0 <= i < pc.len() implies (#[trigger] pc[i] matches CompV::Normal(n) ==> clean_name(n)) by {
            if i < pieces_comps(rest).len() {
                assert(pc[i] == pieces_comps(rest)[i]);
            }
        }
    }
}

/// Every name among the components of a path is clean.
pub proof fn lemma_component_names_clean(s: Seq<char>)
    ensures
        forall|i: int| 0 <= i < components(s).len() ==> (#[trigger] components(s)[i] matches CompV::Normal(n) ==> clean_name(n)),
{
    lemma_split_pieces_solid(s);
    lemma_split_slash_nonempty(s);
    let parts = split_slash(s);
    if is_absolute(s) || starts_with_cur(s) {
        let d = parts.drop_first();
        assert forall|i: int| 0 <= i < d.len() implies !(#[trigger] d[i]).contains('/') by {
            assert(d[i] == parts[i + 1]);
        }
        lemma_pieces_names_clean(d);
        let cs = components(s);
        assert forall|i: int| 0 <= i < cs.len() implies (#[trigger] cs[i] matches CompV::Normal(n) ==> clean_name(n)) by {
            if i > 0 {
                assert(cs[i] == pieces_comps(d)[i - 1]);
            }
        }
    } else {
        lemma_pieces_names_clean(parts);
    }
}

proof fn lemma_resolve_clean(cs: Seq<CompV>)
    requires
        forall|i: int| 0 <= i < cs.len() ==> (#[trigger] cs[i] matches CompV::Normal(n) ==> clean_name(n)),
    ensures
        forall|i: int| 0 <= i < resolve_dots(cs).0.len() ==> clean_name(#[trigger] resolve_dots(cs).0[i]),
    decreases cs.len(),
{
    if cs.len() > 0 {
        let rest = cs.drop_last();
        assert forall|i: int| 0 <= i < rest.len() implies (#[trigger] rest[i] matches CompV::Normal(n) ==> clean_name(n)) by {
            assert(rest[i] == cs[i]);
        }
        lemma_resolve_clean(rest);
        let (st, pops) = resolve_dots(rest);
        assert(cs[cs.len() - 1] == cs.last());
        let r = resolve_dots(cs).0;
        assert forall|i: int| 0 <= i < r.len() implies clean_name(#[trigger] r[i]) by {
            if i < st.len() {
                assert(r[i] == st[i]);
            }
        }
    }
}

proof fn lemma_split_join_after_root(names: Seq<Seq<char>>)
    requires
        names.len() >= 1,
        forall|i: int| 0 <= i < names.len() ==> solid(#[trigger] names[i]),
    ensures
        split_slash(seq!['/'] + join(names)) == seq![Seq::<char>::empty()] + names,
    decreases names.len(),
{
    let x = names.last();
    assert(solid(names[names.len() - 1]));
    let e = Seq::<char>::empty();
    assert(split_slash(seq!['/']) =~= seq![e, e]) by {
        assert(seq!['/'].drop_last() =~= e);
        assert(split_slash(e) =~= seq![e]);
    }
    if names.len() == 1 {
        assert(names.drop_last() =~= Seq::<Seq<char>>::empty());
        assert(join(names) == push_spec(e, x));
        assert(x[0] != '/') by {
            if x[0] == '/' {
                assert(x.contains('/'));
            }
        }
        assert(join(names) =~= x);
        lemma_split_append(seq!['/'], x);
        assert(seq![e, e].update(1, e + x) =~= seq![e] + names);
    } else {
        let rest = names.drop_last();
        assert forall|i: int| 0 <= i < rest.len() implies solid(#[trigger] rest[i]) by {
            assert(rest[i] == names[i]);
        }
        lemma_split_join_after_root(rest);
        lemma_split_join(rest);
        let j = join(rest);
        assert(x[0] != '/') by {
            if x[0] == '/' {
                assert(x.contains('/'));
            }
        }
        assert(join(names) == j + seq!['/'] + x);
        let pre = seq!['/'] + j + seq!['/'];
        lemma_split_append(pre, x);
        assert(pre.drop_last() =~= seq!['/'] + j);
        assert(split_slash(pre) =~= (seq![e] + rest).push(e));
        assert(seq!['/'] + join(names) =~= pre + x);
        assert((seq![e] + rest).push(e).update(rest.len() as int + 1, e + x) =~= seq![e] + names);
    }
}

/// Normalizing a normalized path changes nothing.
pub proof fn lemma_remove_dots_idempotent(p: Seq<char>)
    ensures
        remove_dots_spec(remove_dots_spec(p)) == remove_dots_spec(p),
{
    let (st, pops) = resolve_dots(components(p));
    lemma_component_names_clean(p);
    lemma_resolve_clean(components(p));
    let r = remove_dots_spec(p);
    let e = Seq::<char>::empty();
    assert forall|i: int| 0 <= i < st.len() implies solid(#[trigger] st[i]) by {
        assert(clean_name(st[i]));
    }
    if is_absolute(p) && pops == 0 {
        assert(parents(0) =~= Seq::<Seq<char>>::empty());
        assert(push_all_spec(seq!['/'], parents(0)) == seq!['/']);
        if st.len() == 0 {
            assert(push_all_spec(seq!['/'], st) == seq!['/']);
            assert(r == seq!['/']);
            assert(split_slash(seq!['/']) =~= seq![e, e]) by {
                assert(seq!['/'].drop_last() =~= e);
                assert(split_slash(e) =~= seq![e]);
            }
            assert(seq![e, e].drop_first() =~= seq![e]);
            assert(pieces_comps(Seq::<Seq<char>>::empty()) =~= Seq::<CompV>::empty());
            assert(pieces_comps(seq![e]) == pieces_comps(seq![e].drop_last()) + piece_comp(e));
            assert(seq![e].drop_last() =~= Seq::<Seq<char>>::empty());
            assert(components(r) =~= seq![CompV::RootDir]);
            assert(seq![CompV::RootDir].drop_last() =~= Seq::<CompV>::empty());
            assert(resolve_dots(Seq::<CompV>::empty()) == (Seq::<Seq<char>>::empty(), 0nat));
            assert(resolve_dots(seq![CompV::RootDir]) == (Seq::<Seq<char>>::empty(), 0nat));
        } else {
            lemma_split_join_root(st);
            assert(r == seq!['/'] + join(st));
            lemma_split_join_after_root(st);
            assert((seq![e] + st).drop_first() =~= st);
            lemma_pieces_clean(st);
            assert(components(r) == seq![CompV::RootDir] + st.map_values(|n: Seq<char>| CompV::Normal(n)));
            lemma_resolve_names(seq![CompV::RootDir], st);
            assert(seq![CompV::RootDir].drop_last() =~= Seq::<CompV>::empty());
            assert(resolve_dots(Seq::<CompV>::empty()) == (Seq::<Seq<char>>::empty(), 0nat));
            assert(resolve_dots(seq![CompV::RootDir]) == (Seq::<Seq<char>>::empty(), 0nat));
            assert(Seq::<Seq<char>>::empty() + st =~= st);
        }
    } else {
        let xs = parents(pops) + st;
        lemma_push_all_concat(e, parents(pops), st);
        assert(r == (if join(xs).len() == 0 { dot() } else { join(xs) }));
        if xs.len() == 0 {
            assert(join(xs) == e);
            assert(r == dot());
            assert(starts_with_cur(dot()));
            assert(dot().drop_last() =~= e);
            assert(split_slash(e) =~= seq![e]);
            assert(split_slash(dot()) =~= seq![dot()]);
            assert(seq![dot()].drop_first() =~= Seq::<Seq<char>>::empty());
            assert(components(r) =~= seq![CompV::CurDir]);
            assert(seq![CompV::CurDir].drop_last() =~= Seq::<CompV>::empty());
            assert(resolve_dots(Seq::<CompV>::empty()) == (Seq::<Seq<char>>::empty(), 0nat));
            assert(resolve_dots(seq![CompV::CurDir]) == (Seq::<Seq<char>>::empty(), 0nat));
            assert(st =~= Seq::<Seq<char>>::empty());
            assert(pops == 0);
            assert(parents(0) =~= Seq::<Seq<char>>::empty());
            assert(push_all_spec(e, Seq::<Seq<char>>::empty()) == e);
        } else {
            assert forall|i: int| 0 <= i < xs.len() implies solid(#[trigger] xs[i]) by {
                if i < pops {
                    assert(xs[i] == dotdot());
                    assert(!dotdot().contains('/')) by {
                        if dotdot().contains('/') {
                            let j = choose|j: int| 0 <= j < dotdot().len() && dotdot()[j] == '/';
                        }
                    }
                } else {
                    assert(xs[i] == st[i - pops]);
                }
            }
            lemma_split_join(xs);
            let j = join(xs);
            assert(r == j);
            assert(xs[0][0] != '/') by {
                if xs[0][0] == '/' {
                    assert(solid(xs[0]));
                    assert(xs[0].contains('/'));
                }
            }
            assert(j[0] == xs[0][0]);
            assert(!is_absolute(j));
            if starts_with_cur(j) {
                if pops > 0 {
                    assert(xs[0] == dotdot());
                    assert(j[1] == xs[0][1]);
                } else {
                    assert(xs[0] == st[0]);
                    assert(clean_name(st[0]));
                    if st[0].len() == 1 {
                        assert(st[0] =~= dot());
                    } else {
                        assert(j[1] == st[0][1]);
                        assert(st[0].contains('/'));
                    }
                }
            }
            lemma_pieces_concat(parents(pops), st);
            lemma_pieces_parents(pops);
            lemma_pieces_clean(st);
            assert(components(r) == parent_comps(pops) + st.map_values(|n: Seq<char>| CompV::Normal(n)));
            lemma_resolve_names(parent_comps(pops), st);
            lemma_resolve_parents(pops);
            assert(Seq::<Seq<char>>::empty() + st =~= st);
        }
    }
}

/// Joined solid names start with the first character of the first name and
/// end with the last character of the last name.
proof fn lemma_join_ends(xs: Seq<Seq<char>>)
    requires
        xs.len() >= 1,
        forall|i: int| 0 <= i < xs.len() ==> solid(#[trigger] xs[i]),
    ensures
        join(xs).len() > 0,
        join(xs)[0] == xs[0][0],
        join(xs).last() == xs.last().last(),
    decreases xs.len(),
{
    let xd = xs.drop_last();
    let x = xs.last();
    assert(solid(xs[xs.len() - 1]));
    assert(x[0] != '/') by {
        assert(x.contains(x[0]));
    }
    let b = join(xd);
    assert(join(xs) == push_spec(b, x));
    if xd.len() == 0 {
        assert(b == Seq::<char>::empty());
        assert(join(xs) =~= x);
    } else {
        assert forall|i: int| 0 <= i < xd.len() implies solid(#[trigger] xd[i]) by {
            assert(xd[i] == xs[i]);
        }
        lemma_join_ends(xd);
        assert(xd[0] == xs[0]);
    }
}

/// Solid names pushed after a path that does not end in a separator.
proof fn lemma_push_all_after(x: Seq<char>, b: Seq<Seq<char>>)
    requires
        x.len() > 0,
        x.last() != '/',
        b.len() >= 1,
        forall|i: int| 0 <= i < b.len() ==> solid(#[trigger] b[i]),
    ensures
        push_all_spec(x, b) == x + seq!['/'] + join(b),
    decreases b.len(),
{
    let bd = b.drop_last();
    let y = b.last();
    assert(solid(b[b.len() - 1]));
    assert(y[0] != '/') by {
        assert(y.contains(y[0]));
    }
    if bd.len() == 0 {
        assert(push_all_spec(x, bd) == x);
        assert(join(bd) == Seq::<char>::empty());
        assert(join(b) =~= y);
    } else {
        assert forall|i: int| 0 <= i < bd.len() implies solid(#[trigger] bd[i]) by {
            assert(bd[i] == b[i]);
        }
        lemma_push_all_after(x, bd);
        lemma_join_ends(bd);
        let m = x + seq!['/'] + join(bd);
        assert(m.last() == join(bd).last());
        assert(push_all_spec(x, b) == m + seq!['/'] + y);
        assert(join(b) == join(bd) + seq!['/'] + y);
        assert(m + seq!['/'] + y =~= x + seq!['/'] + (join(bd) + seq!['/'] + y));
    }
}

/// Joining two runs of solid names puts a separator between them.
proof fn lemma_join_concat(a: Seq<Seq<char>>, b: Seq<Seq<char>>)
    requires
        a.len() >= 1,
        b.len() >= 1,
        forall|i: int| 0 <= i < a.len() ==> solid(#[trigger] a[i]),
        forall|i: int| 0 <= i < b.len() ==> solid(#[trigger] b[i]),
    ensures
        join(a + b) == join(a) + seq!['/'] + join(b),
{
    lemma_push_all_concat(Seq::empty(), a, b);
    lemma_join_ends(a);
    assert(solid(a[a.len() - 1]));
    assert(a.last().last() != '/') by {
        assert(a.last().contains(a.last().last()));
    }
    lemma_push_all_after(join(a), b);
}

/// The absolute path of clean names: the root, then the names.
pub open spec fn abs_path(names: Seq<Seq<char>>) -> Seq<char> {
    seq!['/'] + join(names)
}

proof fn lemma_clean_solid(xs: Seq<Seq<char>>)
    requires
        forall|i: int| 0 <= i < xs.len() ==> clean_name(#[trigger] xs[i]),
    ensures
        forall|i: int| 0 <= i < xs.len() ==> solid(#[trigger] xs[i]),
{
    assert forall|i: int| 0 <= i < xs.len() implies solid(#[trigger] xs[i]) by {
        assert(clean_name(xs[i]));
    }
}

proof fn lemma_clean_concat(a: Seq<Seq<char>>, b: Seq<Seq<char>>)
    requires
        forall|i: int| 0 <= i < a.len() ==> clean_name(#[trigger] a[i]),
        forall|i: int| 0 <= i < b.len() ==> clean_name(#[trigger] b[i]),
    ensures
        forall|i: int| 0 <= i < (a + b).len() ==> clean_name(#[trigger] (a + b)[i]),
{
    assert forall|i: int| 0 <= i < (a + b).len() implies clean_name(#[trigger] (a + b)[i]) by {
        if i < a.len() {
            assert((a + b)[i] == a[i]);
        } else {
            assert((a + b)[i] == b[i - a.len()]);
        }
    }
}

/// The components of an absolute path of clean names.
proof fn lemma_components_abs(xs: Seq<Seq<char>>)
    requires
        forall|i: int| 0 <= i < xs.len() ==> clean_name(#[trigger] xs[i]),
    ensures
        components(abs_path(xs)) == seq![CompV::RootDir] + xs.map_values(|n: Seq<char>| CompV::Normal(n)),
{
    let e = Seq::<char>::empty();
    if xs.len() == 0 {
        assert(join(xs) == e);
        assert(abs_path(xs) =~= seq!['/']);
        assert(split_slash(seq!['/']) =~= seq![e, e]) by {
            assert(seq!['/'].drop_last() =~= e);
            assert(split_slash(e) =~= seq![e]);
        }
        assert(seq![e, e].drop_first() =~= seq![e]);
        assert(pieces_comps(Seq::<Seq<char>>::empty()) =~= Seq::<CompV>::empty());
        assert(pieces_comps(seq![e]) == pieces_comps(seq![e].drop_last()) + piece_comp(e));
        assert(seq![e].drop_last() =~= Seq::<Seq<char>>::empty());
        assert(components(abs_path(xs)) =~= seq![CompV::RootDir]);
        assert(seq![CompV::RootDir] + xs.map_values(|n: Seq<char>| CompV::Normal(n)) =~= seq![CompV::RootDir]);
        return;
    }
    lemma_clean_solid(xs);
    lemma_split_join_after_root(xs);
    assert((seq![e] + xs).drop_first() =~= xs);
    lemma_pieces_clean(xs);
}

/// An absolute path of clean names is normalized already.
proof fn lemma_remove_dots_abs(xs: Seq<Seq<char>>)
    requires
        xs.len() >= 1,
        forall|i: int| 0 <= i < xs.len() ==> clean_name(#[trigger] xs[i]),
    ensures
        remove_dots_spec(abs_path(xs)) == abs_path(xs),
{
    lemma_components_abs(xs);
    lemma_clean_solid(xs);
    lemma_resolve_names(seq![CompV::RootDir], xs);
    assert(seq![CompV::RootDir].drop_last() =~= Seq::<CompV>::empty());
    assert(resolve_dots(Seq::<CompV>::empty()) == (Seq::<Seq<char>>::empty(), 0nat));
    assert(resolve_dots(seq![CompV::RootDir]) == (Seq::<Seq<char>>::empty(), 0nat));
    assert(Seq::<Seq<char>>::empty() + xs =~= xs);
    assert(parents(0) =~= Seq::<Seq<char>>::empty());
    assert(push_all_spec(seq!['/'], parents(0)) == seq!['/']);
    lemma_split_join_root(xs);
}

/// The names of components that are all names.
proof fn lemma_normal_names_of(xs: Seq<Seq<char>>)
    ensures
        normal_names(xs.map_values(|n: Seq<char>| CompV::Normal(n))) == xs,
    decreases xs.len(),
{
    if xs.len() > 0 {
        lemma_normal_names_of(xs.drop_last());
        assert(xs.map_values(|n: Seq<char>| CompV::Normal(n)).drop_last() =~= xs.drop_last().map_values(|n: Seq<char>| CompV::Normal(n)));
        assert(xs.drop_last() + seq![xs.last()] =~= xs);
    }
}

/// A path below a directory, relative to that directory, is the names below.
proof fn lemma_relative_below(a: Seq<Seq<char>>, b: Seq<Seq<char>>)
    requires
        b.len() >= 1,
        forall|i: int| 0 <= i < a.len() ==> clean_name(#[trigger] a[i]),
        forall|i: int| 0 <= i < b.len() ==> clean_name(#[trigger] b[i]),
    ensures
        relative_spec(abs_path(a + b), abs_path(a)) == join(b),
{
    lemma_clean_concat(a, b);
    lemma_components_abs(a + b);
    lemma_components_abs(a);
    let fc = components(abs_path(a + b));
    let bc = components(abs_path(a));
    assert(fc[0] is RootDir);
    assert(ancestor_floor(fc) == 1);
    assert(fc.take(bc.len() as int) =~= bc);
    assert(fc.skip(bc.len() as int) =~= b.map_values(|n: Seq<char>| CompV::Normal(n)));
    lemma_normal_names_of(b);
    lemma_clean_solid(b);
    lemma_join_ends(b);
}

/// Where `add` puts a file of the target directory in the source directory,
/// read relative to the source directory: the file's path below the target
/// directory written on the source side, then the postfix.
proof fn lemma_source_path_relative(tn: Seq<Seq<char>>, sn: Seq<Seq<char>>, names: Seq<Seq<char>>, dp: Seq<char>, p: Seq<char>)
    requires
        names.len() >= 1,
        forall|i: int| 0 <= i < tn.len() ==> clean_name(#[trigger] tn[i]),
        forall|i: int| 0 <= i < sn.len() ==> clean_name(#[trigger] sn[i]),
        forall|i: int| 0 <= i < names.len() ==> clean_name(#[trigger] names[i]),
        valid_dot_prefix(dp),
        name_postfix(p),
        p.len() > 0 ==> !dp.contains('.'),
    ensures
        relative_spec(source_path_spec(dp, abs_path(tn), abs_path(sn), abs_path(tn + names), Some(p)), abs_path(sn))
            == encode_rel_spec(join(names), dp) + p,
{
    lemma_relative_below(tn, names);
    let last = names.len() - 1;
    let e = names.map_values(|n: Seq<char>| encode_name(n, dp));
    lemma_components_join(names);
    let f = |c: CompV| match c {
        CompV::Normal(n) => encode_name(n, dp),
        _ => comp_text(c),
    };
    assert(components(join(names)).map_values(f) =~= e);
    assert(encode_rel_spec(join(names), dp) == join(e));
    lemma_decode_encode_name(names[last], dp);
    lemma_join_extend_last(e, p);
    let e2 = e.update(last, e.last() + p);
    assert forall|i: int| 0 <= i < e2.len() implies clean_name(#[trigger] e2[i]) by {
        if i == last {
            if p.len() > 0 {
                lemma_decode_encode_postfixed(names[last], dp, p);
            } else {
                assert(e.last() + p =~= e.last());
            }
        } else {
            lemma_decode_encode_name(names[i], dp);
        }
    }
    lemma_join_below(sn, e2);
    lemma_clean_concat(sn, e2);
    lemma_remove_dots_abs(sn + e2);
    lemma_relative_below(sn, e2);
}

/// A relative path of clean names joined below an absolute directory of
/// clean names (`push_spec`, as `Path::join` does it).
proof fn lemma_join_below(a: Seq<Seq<char>>, b: Seq<Seq<char>>)
    requires
        b.len() >= 1,
        forall|i: int| 0 <= i < a.len() ==> clean_name(#[trigger] a[i]),
        forall|i: int| 0 <= i < b.len() ==> clean_name(#[trigger] b[i]),
    ensures
        push_spec(abs_path(a), join(b)) == abs_path(a + b),
{
    let w = join(b);
    lemma_clean_solid(b);
    lemma_join_ends(b);
    assert(b[0][0] != '/') by {
        assert(b[0].contains(b[0][0]));
    }
    let d = abs_path(a);
    if a.len() == 0 {
        assert(join(a) == Seq::<char>::empty());
        assert(d =~= seq!['/']);
        assert(a + b =~= b);
        assert(d + w =~= abs_path(a + b));
    } else {
        lemma_clean_solid(a);
        lemma_join_ends(a);
        assert(d.last() == join(a).last());
        assert(a.last().last() != '/') by {
            assert(solid(a[a.len() - 1]));
            assert(a.last().contains(a.last().last()));
        }
        lemma_join_concat(a, b);
        assert(d + seq!['/'] + w =~= abs_path(a + b));
    }
}

/// `filepath_in_source_dir` (whose result is `source_path_spec`) gives two
/// different files below the target directory two different places in the
/// source directory: for a target directory `T` and a source directory `S`
/// that are absolute paths of clean names (`/` among them), two different
/// relative paths `r1`, `r2` of clean names joined below `T`, and a dot
/// prefix that starts with neither `.` nor `~` (`dot_backup` is written
/// `~dot_backup`, so it does not meet `.backup`, written `dot_backup`).
pub proof fn lemma_filepath_in_source_dir_injective(tn: Seq<Seq<char>>, sn: Seq<Seq<char>>, r1: Seq<Seq<char>>, r2: Seq<Seq<char>>, dp: Seq<char>)
    requires
        r1.len() >= 1,
        r2.len() >= 1,
        forall|i: int| 0 <= i < tn.len() ==> clean_name(#[trigger] tn[i]),
        forall|i: int| 0 <= i < sn.len() ==> clean_name(#[trigger] sn[i]),
        forall|i: int| 0 <= i < r1.len() ==> clean_name(#[trigger] r1[i]),
        forall|i: int| 0 <= i < r2.len() ==> clean_name(#[trigger] r2[i]),
        valid_dot_prefix(dp),
    ensures
        join(r1) != join(r2) ==>
            source_path_spec(dp, abs_path(tn), abs_path(sn), push_spec(abs_path(tn), join(r1)), None)
                != source_path_spec(dp, abs_path(tn), abs_path(sn), push_spec(abs_path(tn), join(r2)), None),
{
    let e = Seq::<char>::empty();
    lemma_join_below(tn, r1);
    lemma_join_below(tn, r2);
    lemma_source_path_relative(tn, sn, r1, dp, e);
    lemma_source_path_relative(tn, sn, r2, dp, e);
    assert(encode_rel_spec(join(r1), dp) + e =~= encode_rel_spec(join(r1), dp));
    assert(encode_rel_spec(join(r2), dp) + e =~= encode_rel_spec(join(r2), dp));
    assert(source_path_spec(dp, abs_path(tn), abs_path(sn), abs_path(tn + r1), None)
        == source_path_spec(dp, abs_path(tn), abs_path(sn), abs_path(tn + r1), Some(e)));
    assert(source_path_spec(dp, abs_path(tn), abs_path(sn), abs_path(tn + r2), None)
        == source_path_spec(dp, abs_path(tn), abs_path(sn), abs_path(tn + r2), Some(e)));
    lemma_encode_rel_injective(r1, r2, dp);
}

/// What `source_rel_to_target_rel` (`target_rel_spec`) reads from the state
/// key of a file that `add` put in the source directory is the file's path
/// below the target directory. The key is `file_path_relative_to`
/// (`relative_spec`) of `filepath_in_source_dir` (`source_path_spec`) of the
/// file `T` joined with `r`, with the symlink or the encrypted postfix or,
/// for a path that ends in neither, with none; `T` and `S` are absolute paths
/// of clean names (`/` among them), `r` a relative path of clean names, the
/// dot prefix starts with neither `.` nor `~` and holds no `.`, and the
/// postfixes start with `.` and neither ends the other.
pub proof fn lemma_source_rel_to_target_rel_reads_back(tn: Seq<Seq<char>>, sn: Seq<Seq<char>>, r: Seq<Seq<char>>, dp: Seq<char>,
    symlink_postfix: Seq<char>, encrypted_postfix: Seq<char>, postfix: Seq<char>)
    requires
        r.len() >= 1,
        forall|i: int| 0 <= i < tn.len() ==> clean_name(#[trigger] tn[i]),
        forall|i: int| 0 <= i < sn.len() ==> clean_name(#[trigger] sn[i]),
        forall|i: int| 0 <= i < r.len() ==> clean_name(#[trigger] r[i]),
        valid_dot_prefix(dp),
        !dp.contains('.'),
        symlink_postfix.len() > 0,
        encrypted_postfix.len() > 0,
        name_postfix(symlink_postfix),
        name_postfix(encrypted_postfix),
        !has_suffix(symlink_postfix, encrypted_postfix),
        !has_suffix(encrypted_postfix, symlink_postfix),
        postfix == symlink_postfix || postfix == encrypted_postfix
            || (postfix.len() == 0 && !has_suffix(join(r), symlink_postfix) && !has_suffix(join(r), encrypted_postfix)),
    ensures
        target_rel_spec(
            relative_spec(source_path_spec(dp, abs_path(tn), abs_path(sn), push_spec(abs_path(tn), join(r)), Some(postfix)), abs_path(sn)),
            dp, symlink_postfix, encrypted_postfix,
        ) == join(r),
{
    lemma_join_below(tn, r);
    lemma_source_path_relative(tn, sn, r, dp, postfix);
    lemma_state_key_reads_back(r, dp, symlink_postfix, encrypted_postfix, postfix);
}

} // verus!
