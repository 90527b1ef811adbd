//! Conversions between `String` and character vectors, and small verified
//! helpers over character sequences.

use vstd::prelude::*;

verus! {

/// Collect the characters of `s`.
pub fn chars_of(s: &str) -> (v: Vec<char>)
    ensures
        v@ == s@,
{
    let mut v: Vec<char> = Vec::new();
    for c in it: s.chars()
        invariant
            v@ == it.seq().take(it.index() as int),
    {
        v.push(c);
    }
    v
}

/// Build a `String` holding exactly the characters of `v`.
/// Calls `String::from_iter`; the contract claims the result holds the same
/// characters in the same order.
#[verifier::external_body]
pub(crate) fn string_of(v: &[char]) -> (s: String)
    ensures
        s@ == v@,
{
    v.iter().collect()
}

/// `a + b` as a new `String`.
pub fn concat_str(a: &str, b: &str) -> (s: String)
    ensures
        s@ == a@ + b@,
{
    let mut s = a.to_owned();
    s.append(b);
    s
}

/// Whether `s` begins with `prefix`.
pub open spec fn has_prefix(s: Seq<char>, prefix: Seq<char>) -> bool {
    prefix.len() <= s.len() && s.subrange(0, prefix.len() as int) == prefix
}

/// Whether `s` ends with `suffix`.
pub open spec fn has_suffix(s: Seq<char>, suffix: Seq<char>) -> bool {
    suffix.len() <= s.len() && s.subrange(s.len() - suffix.len(), s.len() as int) == suffix
}

/// Whether the slice `s` begins with `prefix`.
pub fn starts_with(s: &[char], prefix: &[char]) -> (b: bool)
    ensures
        b == has_prefix(s@, prefix@),
{
    if prefix.len() > s.len() {
        return false;
    }
    let mut i: usize = 0;
    while i < prefix.len()
        invariant
            prefix.len() <= s.len(),
            i <= prefix.len(),
            forall|j: int| 0 <= j < i ==> s@[j] == prefix@[j],
        decreases prefix.len() - i,
    {
        if s[i] != prefix[i] {
            assert(s@.subrange(0, prefix.len() as int)[i as int] != prefix@[i as int]);
            return false;
        }
        i = i + 1;
    }
    assert(s@.subrange(0, prefix.len() as int) =~= prefix@);
    true
}

/// Whether the slice `s` ends with `suffix`.
pub fn ends_with(s: &[char], suffix: &[char]) -> (b: bool)
    ensures
        b == has_suffix(s@, suffix@),
{
    if suffix.len() > s.len() {
        return false;
    }
    let off: usize = s.len() - suffix.len();
    let mut i: usize = 0;
    while i < suffix.len()
        invariant
            suffix.len() <= s.len(),
            off == s.len() - suffix.len(),
            i <= suffix.len(),
            forall|j: int| 0 <= j < i ==> s@[off + j] == suffix@[j],
        decreases suffix.len() - i,
    {
        if s[off + i] != suffix[i] {
            assert(s@.subrange(off as int, s.len() as int)[i as int] != suffix@[i as int]);
            return false;
        }
        i = i + 1;
    }
    assert(s@.subrange(off as int, s.len() as int) =~= suffix@);
    true
}

/// The characters of `s` in positions `[from, to)`.
pub fn slice_to_vec(s: &[char], from: usize, to: usize) -> (v: Vec<char>)
    requires
        from <= to <= s.len(),
    ensures
        v@ == s@.subrange(from as int, to as int),
{
    let mut v: Vec<char> = Vec::new();
    let mut i: usize = from;
    while i < to
        invariant
            from <= i <= to <= s.len(),
            v@ == s@.subrange(from as int, i as int),
        decreases to - i,
    {
        v.push(s[i]);
        i = i + 1;
        assert(v@ =~= s@.subrange(from as int, i as int));
    }
    v
}

/// Append every character of `b` to `a`.
pub fn push_all(a: &mut Vec<char>, b: &[char])
    ensures
        final(a)@ == old(a)@ + b@,
{
    let mut i: usize = 0;
    while i < b.len()
        invariant
            i <= b.len(),
            a@ == old(a)@ + b@.subrange(0, i as int),
        decreases b.len() - i,
    {
        a.push(b[i]);
        i = i + 1;
        assert(a@ =~= old(a)@ + b@.subrange(0, i as int));
    }
    assert(b@.subrange(0, b.len() as int) =~= b@);
}

/// Equality of two character slices.
pub fn chars_eq(a: &[char], b: &[char]) -> (r: bool)
    ensures
        r == (a@ == b@),
{
    if a.len() != b.len() {
        return false;
    }
    let mut i: usize = 0;
    while i < a.len()
        invariant
            a.len() == b.len(),
            i <= a.len(),
            forall|j: int| 0 <= j < i ==> a@[j] == b@[j],
        decreases a.len() - i,
    {
        if a[i] != b[i] {
            return false;
        }
        i = i + 1;
    }
    assert(a@ =~= b@);
    true
}


/// Calls `std::str::from_utf8` and copies the result into a `String`. The
/// contract claims the call succeeds exactly on valid UTF-8 and then holds the
/// decoded characters.
#[verifier::external_body]
pub(crate) fn utf8_decode(bytes: &[u8]) -> (r: Option<String>)
    ensures
        r is Some == vstd::utf8::valid_utf8(bytes@),
        r matches Some(s) ==> s@ == vstd::utf8::decode_utf8(bytes@),
{
    std::str::from_utf8(bytes).ok().map(|s| s.to_owned())
}

/// The bytes of `s` in positions `[from, to)`.
pub fn slice_bytes(s: &[u8], from: usize, to: usize) -> (v: Vec<u8>)
    requires
        from <= to <= s.len(),
    ensures
        v@ == s@.subrange(from as int, to as int),
{
    let mut v: Vec<u8> = Vec::new();
    let mut i: usize = from;
    while i < to
        invariant
            from <= i <= to <= s.len(),
            v@ == s@.subrange(from as int, i as int),
        decreases to - i,
    {
        v.push(s[i]);
        i = i + 1;
        assert(v@ =~= s@.subrange(from as int, i as int));
    }
    v
}


// Decimal numbers

/// The character of a decimal digit.
pub open spec fn digit_char(d: nat) -> char {
    if d == 0 { '0' } else if d == 1 { '1' } else if d == 2 { '2' } else if d == 3 { '3' } else if d == 4 { '4' }
    else if d == 5 { '5' } else if d == 6 { '6' } else if d == 7 { '7' } else if d == 8 { '8' } else { '9' }
}

/// Whether `c` is a decimal digit.
pub open spec fn is_digit(c: char) -> bool {
    '0' <= c <= '9'
}

/// The value of a decimal digit.
pub open spec fn digit_value(c: char) -> nat {
    (c as int - '0' as int) as nat
}

/// The decimal text of `n`, without leading zeros.
pub open spec fn dec_spec(n: nat) -> Seq<char>
    decreases n,
{
    if n < 10 {
        seq![digit_char(n)]
    } else {
        dec_spec(n / 10) + seq![digit_char(n % 10)]
    }
}

/// The value of a string of decimal digits.
pub open spec fn dec_value(s: Seq<char>) -> nat
    decreases s.len(),
{
    if s.len() == 0 {
        0
    } else {
        dec_value(s.drop_last()) * 10 + digit_value(s.last())
    }
}

/// The digits of an unsigned integer's text: without a leading `+`.
pub open spec fn unsigned_digits(s: Seq<char>) -> Seq<char> {
    if s.len() > 0 && s[0] == '+' { s.drop_first() } else { s }
}

/// The value `str::parse` gives an unsigned integer type whose largest value
/// is `max`: the digits after an optional `+`, when there is at least one,
/// all are decimal digits and the value fits.
pub open spec fn parse_unsigned_spec(s: Seq<char>, max: nat) -> Option<nat> {
    let d = unsigned_digits(s);
    if d.len() > 0 && (forall|i: int| 0 <= i < d.len() ==> is_digit(#[trigger] d[i])) && dec_value(d) <= max {
        Some(dec_value(d))
    } else {
        None
    }
}

proof fn lemma_digit_char(d: nat)
    requires
        d < 10,
    ensures
        is_digit(digit_char(d)),
        digit_value(digit_char(d)) == d,
{
}

/// The decimal text of a number reads back as that number.
pub proof fn lemma_dec_roundtrip(n: nat)
    ensures
        dec_value(dec_spec(n)) == n,
        dec_spec(n).len() > 0,
        forall|i: int| 0 <= i < dec_spec(n).len() ==> is_digit(#[trigger] dec_spec(n)[i]),
    decreases n,
{
    if n < 10 {
        lemma_digit_char(n);
        assert(seq![digit_char(n)].drop_last() =~= Seq::<char>::empty());
        assert(dec_value(Seq::<char>::empty()) == 0);
        assert(dec_spec(n).last() == digit_char(n));
    } else {
        lemma_dec_roundtrip(n / 10);
        lemma_digit_char(n % 10);
        let s = dec_spec(n);
        assert(s.drop_last() =~= dec_spec(n / 10));
        assert(s.last() == digit_char(n % 10));
        assert(n == (n / 10) * 10 + n % 10);
        assert forall|i: int| 0 <= i < s.len() implies is_digit(#[trigger] s[i]) by {
            if i < s.len() - 1 {
                assert(s[i] == dec_spec(n / 10)[i]);
            }
        }
    }
}

/// The character of digit `d`.
fn digit_char_exec(d: u64) -> (c: char)
    requires
        d < 10,
    ensures
        c == digit_char(d as nat),
{
    if d == 0 { '0' } else if d == 1 { '1' } else if d == 2 { '2' } else if d == 3 { '3' } else if d == 4 { '4' }
    else if d == 5 { '5' } else if d == 6 { '6' } else if d == 7 { '7' } else if d == 8 { '8' } else { '9' }
}

/// The decimal text of `n`.
pub fn decimal(n: u64) -> (s: String)
    ensures
        s@ == dec_spec(n as nat),
{
    let mut rev: Vec<char> = Vec::new();
    let mut m: u64 = n;
    let ghost mut tail: Seq<char> = Seq::empty();
    assert(dec_spec(n as nat) + tail =~= dec_spec(n as nat));
    while m >= 10
        invariant
            dec_spec(n as nat) == dec_spec(m as nat) + tail,
            rev@ == tail.reverse(),
        decreases m,
    {
        let c = digit_char_exec(m % 10);
        rev.push(c);
        proof {
            assert(rev@ =~= (seq![c] + tail).reverse());
            assert(dec_spec(m as nat) == dec_spec((m / 10) as nat) + seq![c]);
            assert(dec_spec((m / 10) as nat) + seq![c] + tail =~= dec_spec((m / 10) as nat) + (seq![c] + tail));
            tail = seq![c] + tail;
        }
        m = m / 10;
    }
    let c = digit_char_exec(m);
    rev.push(c);
    proof {
        assert(rev@ =~= (seq![c] + tail).reverse());
        assert(dec_spec(m as nat) == seq![c]);
        tail = seq![c] + tail;
    }
    let mut out: Vec<char> = Vec::new();
    let mut i: usize = rev.len();
    while i > 0
        invariant
            i <= rev@.len(),
            rev@ == tail.reverse(),
            out@ == rev@.subrange(i as int, rev@.len() as int).reverse(),
        decreases i,
    {
        out.push(rev[i - 1]);
        i = i - 1;
        assert(out@ =~= rev@.subrange(i as int, rev@.len() as int).reverse());
    }
    assert(rev@.subrange(0, rev@.len() as int) =~= rev@);
    assert(tail.reverse().reverse() =~= tail);
    string_of(out.as_slice())
}

/// The unsigned integer of at most `max` that `s` holds, as `str::parse`
/// reads it (see `parse_unsigned_spec`).
pub fn parse_unsigned(s: &[char], max: u64) -> (r: Option<u64>)
    requires
        max >= 9,
    ensures
        match r {
            Some(v) => parse_unsigned_spec(s@, max as nat) == Some(v as nat),
            None => parse_unsigned_spec(s@, max as nat) is None,
        },
{
    let start: usize = if s.len() > 0 && s[0] == '+' { 1 } else { 0 };
    let ghost d = unsigned_digits(s@);
    assert(d =~= s@.skip(start as int));
    if start == s.len() {
        return None;
    }
    let mut v: u64 = 0;
    let mut i: usize = start;
    assert(d.take(0) =~= Seq::<char>::empty());
    while i < s.len()
        invariant
            start <= i <= s@.len(),
            max >= 9,
            d == s@.skip(start as int),
            d == unsigned_digits(s@),
            d.len() > 0,
            v as nat == dec_value(d.take(i - start)),
            v <= max,
            forall|j: int| 0 <= j < i - start ==> is_digit(#[trigger] d[j]),
        decreases s.len() - i,
    {
        let c = s[i];
        if c < '0' || c > '9' {
            assert(!is_digit(d[i - start]));
            return None;
        }
        let dv: u64 = (c as u32 - '0' as u32) as u64;
        proof {
            assert(d.take(i + 1 - start).drop_last() =~= d.take(i - start));
            assert(d.take(i + 1 - start).last() == c);
            assert(dv as nat == digit_value(c));
        }
        if v > (max - dv) / 10 {
            proof {
                assert(v * 10 + dv > max) by (nonlinear_arith)
                    requires
                        v > (max - dv) / 10,
                        dv <= max,
                {
                }
                if forall|j: int| 0 <= j < d.len() ==> is_digit(#[trigger] d[j]) {
                    lemma_dec_prefix_mono(d, (i + 1 - start) as nat);
                }
            }
            return None;
        }
        assert(v * 10 + dv <= max) by (nonlinear_arith)
            requires
                v <= (max - dv) / 10,
                dv <= max,
        {
        }
        v = v * 10 + dv;
        i = i + 1;
    }
    assert(d.take(s.len() - start) =~= d);
    Some(v)
}

/// A longer digit string never has a smaller value than its prefixes.
proof fn lemma_dec_prefix_mono(d: Seq<char>, k: nat)
    requires
        k <= d.len(),
        forall|j: int| 0 <= j < d.len() ==> is_digit(#[trigger] d[j]),
    ensures
        dec_value(d.take(k as int)) <= dec_value(d),
    decreases d.len(),
{
    if k < d.len() {
        lemma_dec_prefix_mono(d.drop_last(), k);
        assert(d.drop_last().take(k as int) =~= d.take(k as int));
        assert forall|j: int| 0 <= j < d.drop_last().len() implies is_digit(#[trigger] d.drop_last()[j]) by {
            assert(d.drop_last()[j] == d[j]);
        }
        assert(dec_value(d) == dec_value(d.drop_last()) * 10 + digit_value(d.last()));
    } else {
        assert(d.take(k as int) =~= d);
    }
}

// Lines and white space

/// The pieces of `s` between the `sep` characters (`a\n\nb` gives `a`, ``,
/// `b`; `a\n` gives `a`, ``).
pub open spec fn split_on(s: Seq<char>, sep: char) -> Seq<Seq<char>>
    decreases s.len(),
{
    if s.len() == 0 {
        seq![Seq::empty()]
    } else {
        let r = split_on(s.drop_last(), sep);
        if s.last() == sep {
            r.push(Seq::empty())
        } else {
            r.update(r.len() - 1, r.last().push(s.last()))
        }
    }
}

pub proof fn lemma_split_on_nonempty(s: Seq<char>, sep: char)
    ensures
        split_on(s, sep).len() >= 1,
    decreases s.len(),
{
    if s.len() > 0 {
        lemma_split_on_nonempty(s.drop_last(), sep);
    }
}

/// `l` without one `\r` at its end.
pub open spec fn strip_cr(l: Seq<char>) -> Seq<char> {
    if l.len() > 0 && l.last() == '\r' { l.drop_last() } else { l }
}

/// The lines of `s`, as `str::lines` gives them: the pieces between
/// newlines, a piece that a newline ends without one `\r` before it, and no
/// empty piece after a final newline (so an empty text has no line).
pub open spec fn lines_spec(s: Seq<char>) -> Seq<Seq<char>> {
    let p = split_on(s, '\n');
    let n = if p.last().len() == 0 { p.len() - 1 } else { p.len() as int };
    Seq::new(n as nat, |i: int| if i < p.len() - 1 { strip_cr(p[i]) } else { p[i] })
}

/// The lines of `s`, see `lines_spec`.
pub fn lines_of(s: &str) -> (r: Vec<String>)
    ensures
        r@.map_values(|l: String| l@) == lines_spec(s@),
{
    let cs = chars_of(s);
    let mut out: Vec<String> = Vec::new();
    let mut cur: Vec<char> = Vec::new();
    let mut i: usize = 0;
    assert(cs@.take(0) =~= Seq::<char>::empty());
    while i < cs.len()
        invariant
            i <= cs@.len(),
            cs@ == s@,
            split_on(cs@.take(i as int), '\n').len() == out@.len() + 1,
            forall|k: int| 0 <= k < out@.len() ==> (#[trigger] out@[k])@ == strip_cr(split_on(cs@.take(i as int), '\n')[k]),
            cur@ == split_on(cs@.take(i as int), '\n').last(),
        decreases cs.len() - i,
    {
        let ghost p = split_on(cs@.take(i as int), '\n');
        proof {
            lemma_split_on_nonempty(cs@.take(i as int), '\n');
            assert(cs@.take(i + 1).drop_last() =~= cs@.take(i as int));
            assert(cs@.take(i + 1).last() == cs@[i as int]);
        }
        let c = cs[i];
        if c == '\n' {
            let n = cur.len();
            let line = if n > 0 && cur[n - 1] == '\r' {
                let v = slice_to_vec(cur.as_slice(), 0, n - 1);
                assert(v@ =~= cur@.drop_last());
                string_of(v.as_slice())
            } else {
                string_of(cur.as_slice())
            };
            let ghost old_out = out@;
            out.push(line);
            cur = Vec::new();
            proof {
                let p2 = split_on(cs@.take(i + 1), '\n');
                assert(p2 == p.push(Seq::empty()));
                assert forall|k: int| 0 <= k < out@.len() implies (#[trigger] out@[k])@ == strip_cr(p2[k]) by {
                    if k < old_out.len() {
                        assert(out@[k] == old_out[k]);
                    }
                }
                assert(cur@ =~= p2.last());
            }
        } else {
            cur.push(c);
            proof {
                let p2 = split_on(cs@.take(i + 1), '\n');
                assert(p2 == p.update(p.len() - 1, p.last().push(c)));
                assert forall|k: int| 0 <= k < out@.len() implies (#[trigger] out@[k])@ == strip_cr(p2[k]) by {
                    assert(p2[k] == p[k]);
                }
            }
        }
        i = i + 1;
    }
    assert(cs@.take(cs@.len() as int) =~= cs@);
    let ghost p = split_on(s@, '\n');
    proof {
        lemma_split_on_nonempty(s@, '\n');
    }
    let ghost before = out@;
    if cur.len() > 0 {
        out.push(string_of(cur.as_slice()));
    }
    proof {
        let l = lines_spec(s@);
        let m = out@.map_values(|x: String| x@);
        assert(m.len() == l.len());
        assert forall|k: int| 0 <= k < l.len() implies #[trigger] m[k] == l[k] by {
            if k < before.len() {
                assert(out@[k] == before[k]);
            }
        }
        assert(m =~= l);
    }
    out
}

/// `s` without white space at its start.
pub open spec fn trim_start_spec(s: Seq<char>) -> Seq<char>
    decreases s.len(),
{
    if s.len() > 0 && crate::settings::is_white(s[0]) { trim_start_spec(s.drop_first()) } else { s }
}

/// `s` without white space at its end.
pub open spec fn trim_end_spec(s: Seq<char>) -> Seq<char>
    decreases s.len(),
{
    if s.len() > 0 && crate::settings::is_white(s.last()) { trim_end_spec(s.drop_last()) } else { s }
}

/// `s` without white space at either end (`str::trim`).
pub open spec fn trim_spec(s: Seq<char>) -> Seq<char> {
    trim_end_spec(trim_start_spec(s))
}

/// `s` without white space at either end, see `trim_spec`.
pub fn trim(s: &str) -> (r: String)
    ensures
        r@ == trim_spec(s@),
{
    let cs = chars_of(s);
    let n = cs.len();
    let mut i: usize = 0;
    assert(cs@.skip(0) =~= cs@);
    while i < n && crate::settings::is_white_exec(cs[i])
        invariant
            i <= n,
            n == cs@.len(),
            trim_start_spec(cs@) == trim_start_spec(cs@.skip(i as int)),
        decreases n - i,
    {
        assert(cs@.skip(i as int).drop_first() =~= cs@.skip(i + 1));
        i = i + 1;
    }
    assert(trim_start_spec(cs@) == cs@.skip(i as int));
    let ghost t = cs@.skip(i as int);
    let mut j: usize = n;
    assert(t.take(n - i) =~= t);
    while j > i && crate::settings::is_white_exec(cs[j - 1])
        invariant
            i <= j <= n,
            n == cs@.len(),
            t == cs@.skip(i as int),
            trim_end_spec(t) == trim_end_spec(t.take(j - i)),
        decreases j - i,
    {
        assert(t.take(j - i).drop_last() =~= t.take(j - 1 - i));
        j = j - 1;
    }
    assert(trim_end_spec(t) == t.take(j - i));
    let v = slice_to_vec(cs.as_slice(), i, j);
    assert(v@ =~= t.take(j - i));
    assert(cs@ == s@);
    string_of(v.as_slice())
}

/// The pieces of `s` between the `sep` characters, see `split_on`.
pub fn split_on_exec(s: &[char], sep: char) -> (parts: Vec<Vec<char>>)
    ensures
        parts@.map_values(|p: Vec<char>| p@) == split_on(s@, sep),
{
    let mut parts: Vec<Vec<char>> = Vec::new();
    let mut cur: Vec<char> = Vec::new();
    let mut i: usize = 0;
    assert(s@.take(0) =~= Seq::<char>::empty());
    while i < s.len()
        invariant
            i <= s.len(),
            parts@.map_values(|p: Vec<char>| p@).push(cur@) == split_on(s@.take(i as int), sep),
        decreases s.len() - i,
    {
        let c = s[i];
        let ghost before = parts@.map_values(|p: Vec<char>| p@).push(cur@);
        proof {
            assert(s@.take(i + 1).drop_last() =~= s@.take(i as int));
            assert(s@.take(i + 1).last() == c);
        }
        if c == sep {
            parts.push(cur);
            cur = Vec::new();
            assert(parts@.map_values(|p: Vec<char>| p@).push(cur@) =~= before.push(Seq::empty()));
        } else {
            cur.push(c);
            assert(parts@.map_values(|p: Vec<char>| p@).push(cur@) =~= before.update(
                before.len() - 1,
                before.last().push(c),
            ));
        }
        i = i + 1;
    }
    parts.push(cur);
    assert(s@.take(s.len() as int) =~= s@);
    parts
}

} // verus!
