//! Little-endian integer encoding over byte sequences.

use vstd::prelude::*;

verus! {

/// `256` raised to `n`.
pub open spec fn pow256(n: nat) -> nat
    decreases n,
{
    if n == 0 {
        1
    } else {
        256 * pow256((n - 1) as nat)
    }
}

/// The `n` low bytes of `v`, least significant first.
pub open spec fn le_bytes(v: nat, n: nat) -> Seq<u8>
    decreases n,
{
    if n == 0 {
        Seq::empty()
    } else {
        seq![(v % 256) as u8] + le_bytes(v / 256, (n - 1) as nat)
    }
}

/// The number whose little-endian bytes are `s`.
pub open spec fn le_value(s: Seq<u8>) -> nat
    decreases s.len(),
{
    if s.len() == 0 {
        0
    } else {
        s[0] as nat + 256 * le_value(s.drop_first())
    }
}

pub proof fn lemma_le_bytes_len(v: nat, n: nat)
    ensures
        le_bytes(v, n).len() == n,
    decreases n,
{
    if n > 0 {
        lemma_le_bytes_len(v / 256, (n - 1) as nat);
    }
}

pub proof fn lemma_pow256_pos(n: nat)
    ensures
        pow256(n) >= 1,
    decreases n,
{
    if n > 0 {
        lemma_pow256_pos((n - 1) as nat);
    }
}

/// Encoding a number that fits into `n` bytes and decoding it gives it back.
pub proof fn lemma_le_roundtrip(v: nat, n: nat)
    requires
        v < pow256(n),
    ensures
        le_value(le_bytes(v, n)) == v,
        le_bytes(v, n).len() == n,
    decreases n,
{
    lemma_le_bytes_len(v, n);
    if n > 0 {
        let m = (n - 1) as nat;
        lemma_pow256_pos(m);
        assert(v / 256 < pow256(m)) by (nonlinear_arith)
            requires
                v < 256 * pow256(m),
                pow256(m) >= 1,
        ;
        lemma_le_roundtrip(v / 256, m);
        let s = le_bytes(v, n);
        assert(s.drop_first() =~= le_bytes(v / 256, m));
        assert((v % 256) as u8 as nat == v % 256);
    }
}

/// A decoded number fits into as many bytes as it was decoded from.
pub proof fn lemma_le_value_bound(s: Seq<u8>)
    ensures
        le_value(s) < pow256(s.len()),
    decreases s.len(),
{
    if s.len() > 0 {
        lemma_le_value_bound(s.drop_first());
        let r = le_value(s.drop_first());
        let p = pow256((s.len() - 1) as nat);
        assert(s[0] as nat + 256 * r < 256 * p) by (nonlinear_arith)
            requires
                r < p,
                s[0] < 256,
        ;
    }
}

/// Decoding bytes and encoding the number again gives the bytes back.
pub proof fn lemma_le_value_roundtrip(s: Seq<u8>)
    ensures
        le_bytes(le_value(s), s.len()) == s,
    decreases s.len(),
{
    if s.len() > 0 {
        lemma_le_value_roundtrip(s.drop_first());
        let v = le_value(s);
        let r = le_value(s.drop_first());
        assert(v % 256 == s[0] as nat);
        assert(v / 256 == r);
        assert(le_bytes(v, s.len()) =~= seq![s[0]] + s.drop_first());
        assert(seq![s[0]] + s.drop_first() =~= s);
    }
}

/// Append the `n` low bytes of `v`, least significant first.
pub fn put_le(buf: &mut Vec<u8>, v: u64, n: usize)
    ensures
        final(buf)@ == old(buf)@ + le_bytes(v as nat, n as nat),
{
    let mut x: u64 = v;
    let mut i: usize = 0;
    let ghost done: Seq<u8> = Seq::empty();
    while i < n
        invariant
            i <= n,
            buf@ == old(buf)@ + done,
            done + le_bytes(x as nat, (n - i) as nat) == le_bytes(v as nat, n as nat),
        decreases n - i,
    {
        let b: u8 = (x % 256) as u8;
        proof {
            let k = (n - i) as nat;
            assert(le_bytes(x as nat, k) == seq![(x as nat % 256) as u8] + le_bytes(
                x as nat / 256,
                (k - 1) as nat,
            ));
            assert(done + seq![b] + le_bytes((x / 256) as nat, (k - 1) as nat) =~= done
                + le_bytes(x as nat, k));
            done = done + seq![b];
        }
        buf.push(b);
        x = x / 256;
        i = i + 1;
    }
    assert(done =~= le_bytes(v as nat, n as nat));
}

/// Append a `u16`, little-endian.
pub fn put_u16(buf: &mut Vec<u8>, v: u16)
    ensures
        final(buf)@ == old(buf)@ + le_bytes(v as nat, 2),
{
    put_le(buf, v as u64, 2);
}

/// Append a `u32`, little-endian.
pub fn put_u32(buf: &mut Vec<u8>, v: u32)
    ensures
        final(buf)@ == old(buf)@ + le_bytes(v as nat, 4),
{
    put_le(buf, v as u64, 4);
}

/// Append a `u64`, little-endian.
pub fn put_u64(buf: &mut Vec<u8>, v: u64)
    ensures
        final(buf)@ == old(buf)@ + le_bytes(v as nat, 8),
{
    put_le(buf, v, 8);
}

/// Read `n` bytes at `pos` as a little-endian number.
pub fn read_le(data: &[u8], pos: usize, n: usize) -> (v: u64)
    requires
        n <= 8,
        pos + n <= data.len(),
    ensures
        v as nat == le_value(data@.subrange(pos as int, pos + n)),
{
    let ghost s = data@.subrange(pos as int, pos + n);
    let mut k: usize = n;
    let mut val: u64 = 0;
    proof {
        assert(s.subrange(n as int, n as int) =~= Seq::<u8>::empty());
    }
    while k > 0
        invariant
            k <= n <= 8,
            pos + n <= data.len(),
            s == data@.subrange(pos as int, pos + n),
            val as nat == le_value(s.subrange(k as int, n as int)),
        decreases k,
    {
        let ghost tail = s.subrange(k as int, n as int);
        proof {
            lemma_le_value_bound(tail);
            lemma_pow256_le8((n - k) as nat);
        }
        let b: u8 = data[pos + k - 1];
        proof {
            let t2 = s.subrange(k - 1, n as int);
            assert(t2.drop_first() =~= tail);
            assert(t2[0] == b);
            assert(256 * (val as nat) + b < 256 * pow256((n - k) as nat));
        }
        val = val * 256 + b as u64;
        k = k - 1;
    }
    assert(s.subrange(0, n as int) =~= s);
    val
}

pub proof fn lemma_pow256_le8(n: nat)
    requires
        n < 8,
    ensures
        256 * pow256(n) <= 0x1_0000_0000_0000_0000,
{
    reveal_with_fuel(pow256, 9);
}

} // verus!
