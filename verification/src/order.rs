//! The order of the status report: entries by path, then by code, both
//! compared character by character as `String` compares them.

use vstd::prelude::*;
use crate::text::{chars_of, chars_eq};
use crate::commands::{StatusCode, status_code_text};
use crate::status::{entry_view, entries_view, clone_entry};

verus! {

/// `a` equals `b` or comes before it: compared character by character by
/// code, a proper prefix first. UTF-8 keeps this order, so it is the order
/// of `String`.
pub open spec fn text_le(a: Seq<char>, b: Seq<char>) -> bool
    decreases a.len(),
{
    if a.len() == 0 {
        true
    } else if b.len() == 0 {
        false
    } else if a[0] != b[0] {
        (a[0] as int) < (b[0] as int)
    } else {
        text_le(a.drop_first(), b.drop_first())
    }
}

/// Of two texts one comes first.
pub proof fn lemma_text_le_total(a: Seq<char>, b: Seq<char>)
    ensures
        text_le(a, b) || text_le(b, a),
    decreases a.len(),
{
    if a.len() > 0 && b.len() > 0 {
        if a[0] == b[0] {
            lemma_text_le_total(a.drop_first(), b.drop_first());
        } else {
            assert((a[0] as int) != (b[0] as int));
        }
    }
}

/// Two texts that each come no later than the other are equal.
pub proof fn lemma_text_le_antisymmetric(a: Seq<char>, b: Seq<char>)
    requires
        text_le(a, b),
        text_le(b, a),
    ensures
        a == b,
    decreases a.len(),
{
    if a.len() == 0 {
        assert(a =~= b);
    } else {
        lemma_text_le_antisymmetric(a.drop_first(), b.drop_first());
        assert forall|i: int| 0 <= i < a.len() implies a[i] == b[i] by {
            if i > 0 {
                assert(a[i] == a.drop_first()[i - 1]);
                assert(b[i] == b.drop_first()[i - 1]);
            }
        }
        assert(a =~= b);
    }
}

/// The order of texts is transitive.
pub proof fn lemma_text_le_transitive(a: Seq<char>, b: Seq<char>, c: Seq<char>)
    requires
        text_le(a, b),
        text_le(b, c),
    ensures
        text_le(a, c),
    decreases a.len(),
{
    if a.len() > 0 && a[0] == b[0] && b[0] == c[0] {
        lemma_text_le_transitive(a.drop_first(), b.drop_first(), c.drop_first());
    }
}

/// Entry `x` comes no later than `y`: by path, then by code.
pub open spec fn entry_le(x: (StatusCode, Seq<char>, Option<Seq<char>>, bool), y: (StatusCode, Seq<char>, Option<Seq<char>>, bool)) -> bool {
    if x.1 != y.1 {
        text_le(x.1, y.1)
    } else {
        text_le(status_code_text(x.0), status_code_text(y.0))
    }
}

/// The entries in report order.
pub open spec fn entries_sorted(s: Seq<(StatusCode, Seq<char>, Option<Seq<char>>, bool)>) -> bool {
    forall|i: int, j: int| 0 <= i < j < s.len() ==> entry_le(#[trigger] s[i], #[trigger] s[j])
}

proof fn lemma_entry_le_total(x: (StatusCode, Seq<char>, Option<Seq<char>>, bool), y: (StatusCode, Seq<char>, Option<Seq<char>>, bool))
    ensures
        entry_le(x, y) || entry_le(y, x),
{
    lemma_text_le_total(x.1, y.1);
    lemma_text_le_total(status_code_text(x.0), status_code_text(y.0));
}

proof fn lemma_entry_le_transitive(
    x: (StatusCode, Seq<char>, Option<Seq<char>>, bool),
    y: (StatusCode, Seq<char>, Option<Seq<char>>, bool),
    z: (StatusCode, Seq<char>, Option<Seq<char>>, bool),
)
    requires
        entry_le(x, y),
        entry_le(y, z),
    ensures
        entry_le(x, z),
{
    if x.1 == y.1 && y.1 == z.1 {
        lemma_text_le_transitive(status_code_text(x.0), status_code_text(y.0), status_code_text(z.0));
    } else if x.1 != y.1 && y.1 != z.1 {
        lemma_text_le_transitive(x.1, y.1, z.1);
        if x.1 == z.1 {
            lemma_text_le_antisymmetric(x.1, y.1);
        }
    }
}

fn text_le_exec(a: &[char], b: &[char]) -> (r: bool)
    ensures
        r == text_le(a@, b@),
{
    let mut i: usize = 0;
    assert(a@.skip(0) =~= a@ && b@.skip(0) =~= b@);
    while i < a.len() && i < b.len() && a[i] == b[i]
        invariant
            i <= a@.len(),
            i <= b@.len(),
            text_le(a@, b@) == text_le(a@.skip(i as int), b@.skip(i as int)),
        decreases a.len() - i,
    {
        assert(a@.skip(i as int).drop_first() =~= a@.skip(i + 1));
        assert(b@.skip(i as int).drop_first() =~= b@.skip(i + 1));
        assert(a@.skip(i as int)[0] == a@[i as int]);
        assert(b@.skip(i as int)[0] == b@[i as int]);
        i = i + 1;
    }
    if i == a.len() {
        true
    } else if i == b.len() {
        false
    } else {
        assert(a@.skip(i as int)[0] == a@[i as int]);
        assert(b@.skip(i as int)[0] == b@[i as int]);
        a[i] < b[i]
    }
}

fn entry_le_exec(x: &(StatusCode, String, Option<String>, bool), y: &(StatusCode, String, Option<String>, bool)) -> (r: bool)
    ensures
        r == entry_le(entry_view(*x), entry_view(*y)),
{
    let xp = chars_of(x.1.as_str());
    let yp = chars_of(y.1.as_str());
    if !chars_eq(xp.as_slice(), yp.as_slice()) {
        text_le_exec(xp.as_slice(), yp.as_slice())
    } else {
        let xc = chars_of(x.0.code());
        let yc = chars_of(y.0.code());
        text_le_exec(xc.as_slice(), yc.as_slice())
    }
}

/// Two entries with the same path and code.
pub open spec fn same_key(x: (StatusCode, Seq<char>, Option<Seq<char>>, bool), y: (StatusCode, Seq<char>, Option<Seq<char>>, bool)) -> bool {
    x.0 == y.0 && x.1 == y.1
}

/// `r` is `e` rearranged, entry `k` of `r` being entry `idx[k]` of `e`, with
/// entries of the same path and code in their order in `e`.
pub open spec fn stable_arrangement(
    r: Seq<(StatusCode, Seq<char>, Option<Seq<char>>, bool)>,
    e: Seq<(StatusCode, Seq<char>, Option<Seq<char>>, bool)>,
    idx: Seq<int>,
) -> bool {
    &&& idx.len() == r.len()
    &&& forall|k: int| 0 <= k < r.len() ==> 0 <= #[trigger] idx[k] < e.len() && r[k] == e[idx[k]]
    &&& forall|a: int, b: int| 0 <= a < b < r.len() ==> #[trigger] idx[a] != #[trigger] idx[b]
    &&& forall|a: int, b: int| 0 <= a < b < r.len() && same_key(#[trigger] r[a], #[trigger] r[b]) ==> idx[a] < idx[b]
}

proof fn lemma_text_le_reflexive(a: Seq<char>)
    ensures
        text_le(a, a),
    decreases a.len(),
{
    if a.len() > 0 {
        lemma_text_le_reflexive(a.drop_first());
    }
}

/// The entries in report order: by path, then by code; entries equal in
/// both keep their order.
pub fn sort_entries(entries: &Vec<(StatusCode, String, Option<String>, bool)>) -> (r: Vec<(StatusCode, String, Option<String>, bool)>)
    ensures
        entries_view(r@).to_multiset() == entries_view(entries@).to_multiset(),
        entries_sorted(entries_view(r@)),
        exists|idx: Seq<int>| stable_arrangement(entries_view(r@), entries_view(entries@), idx),
{
    let ghost ev = entries_view(entries@);
    let mut out: Vec<(StatusCode, String, Option<String>, bool)> = Vec::new();
    let mut i: usize = 0;
    let ghost mut idx: Seq<int> = Seq::empty();
    assert(entries_view(out@) =~= ev.take(0));
    while i < entries.len()
        invariant
            i <= entries@.len(),
            ev == entries_view(entries@),
            entries_view(out@).to_multiset() == ev.take(i as int).to_multiset(),
            entries_sorted(entries_view(out@)),
            stable_arrangement(entries_view(out@), ev, idx),
            forall|k: int| 0 <= k < idx.len() ==> #[trigger] idx[k] < i,
        decreases entries.len() - i,
    {
        let e = clone_entry(&entries[i]);
        let ghost ov = entries_view(out@);
        let ghost x = entry_view(e);
        let mut lo: usize = 0;
        let mut hi: usize = out.len();
        while lo < hi
            invariant
                lo <= hi <= out@.len(),
                ov == entries_view(out@),
                x == entry_view(e),
                entries_sorted(ov),
                forall|k: int| 0 <= k < lo ==> entry_le(#[trigger] ov[k], x),
                forall|k: int| hi <= k < ov.len() ==> !entry_le(#[trigger] ov[k], x),
            decreases hi - lo,
        {
            let mid = lo + (hi - lo) / 2;
            assert(ov[mid as int] == entry_view(out@[mid as int]));
            if entry_le_exec(&out[mid], &e) {
                proof {
                    assert forall|k: int| 0 <= k < mid + 1 implies entry_le(#[trigger] ov[k], x) by {
                        if k < mid {
                            lemma_entry_le_transitive(ov[k], ov[mid as int], x);
                        }
                    }
                }
                lo = mid + 1;
            } else {
                proof {
                    assert forall|k: int| mid <= k < ov.len() implies !entry_le(#[trigger] ov[k], x) by {
                        if k > mid && entry_le(ov[k], x) {
                            lemma_entry_le_transitive(ov[mid as int], ov[k], x);
                        }
                    }
                }
                hi = mid;
            }
        }
        let p = lo;
        out.insert(p, e);
        proof {
            let nv = entries_view(out@);
            assert(nv =~= ov.insert(p as int, x));
            assert forall|a: int, b: int| 0 <= a < b < nv.len() implies entry_le(#[trigger] nv[a], #[trigger] nv[b]) by {
                if b < p {
                    assert(nv[a] == ov[a] && nv[b] == ov[b]);
                } else if b == p {
                    assert(nv[a] == ov[a]);
                } else if a < p {
                    assert(nv[a] == ov[a] && nv[b] == ov[b - 1]);
                } else if a == p {
                    assert(nv[b] == ov[b - 1]);
                    lemma_entry_le_total(ov[b - 1], x);
                } else {
                    assert(nv[a] == ov[a - 1] && nv[b] == ov[b - 1]);
                }
            }
            vstd::seq_lib::to_multiset_insert(ov, p as int, x);
            assert(ev.take(i + 1) =~= ev.take(i as int).push(ev[i as int]));
            assert(ev[i as int] == entry_view(entries@[i as int]));
            vstd::seq_lib::to_multiset_build(ev.take(i as int), ev[i as int]);
            let nidx = idx.insert(p as int, i as int);
            assert(x == ev[i as int]);
            assert forall|k: int| 0 <= k < nv.len() implies 0 <= #[trigger] nidx[k] < ev.len() && nv[k] == ev[nidx[k]] by {
                if k < p {
                    assert(nidx[k] == idx[k] && nv[k] == ov[k]);
                } else if k > p {
                    assert(nidx[k] == idx[k - 1] && nv[k] == ov[k - 1]);
                }
            }
            assert forall|a: int, b: int| 0 <= a < b < nv.len() implies #[trigger] nidx[a] != #[trigger] nidx[b] by {
                if a < p && b < p {
                } else if a < p && b > p {
                    assert(nidx[a] == idx[a] && nidx[b] == idx[b - 1]);
                } else if a > p {
                    assert(nidx[a] == idx[a - 1] && nidx[b] == idx[b - 1]);
                } else if a == p {
                    assert(nidx[b] == idx[b - 1]);
                } else {
                    assert(nidx[a] == idx[a]);
                }
            }
            assert forall|a: int, b: int| 0 <= a < b < nv.len() && same_key(#[trigger] nv[a], #[trigger] nv[b]) implies nidx[a] < nidx[b] by {
                if b < p {
                    assert(nidx[a] == idx[a] && nidx[b] == idx[b]);
                    assert(nv[a] == ov[a] && nv[b] == ov[b]);
                } else if b == p {
                    assert(nidx[a] == idx[a]);
                } else if a < p {
                    assert(nidx[a] == idx[a] && nidx[b] == idx[b - 1]);
                    assert(nv[a] == ov[a] && nv[b] == ov[b - 1]);
                } else if a == p {
                    assert(nv[b] == ov[b - 1]);
                    lemma_text_le_reflexive(status_code_text(x.0));
                    assert(entry_le(ov[b - 1], x));
                } else {
                    assert(nidx[a] == idx[a - 1] && nidx[b] == idx[b - 1]);
                    assert(nv[a] == ov[a - 1] && nv[b] == ov[b - 1]);
                }
            }
            assert forall|k: int| 0 <= k < nidx.len() implies #[trigger] nidx[k] < i + 1 by {
                if k < p {
                    assert(nidx[k] == idx[k]);
                } else if k > p {
                    assert(nidx[k] == idx[k - 1]);
                }
            }
            idx = nidx;
        }
        i = i + 1;
    }
    assert(ev.take(entries@.len() as int) =~= ev);
    out
}

} // verus!
