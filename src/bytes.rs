use vstd::arithmetic::div_mod::{
    lemma_fundamental_div_mod, lemma_mod_breakdown, lemma_mod_multiples_vanish, lemma_small_mod,
};
use vstd::arithmetic::power::pow;
use vstd::prelude::*;

verus! {

/// The `n` lowest bytes of `v`, least significant first.
pub open spec fn le_bytes(v: nat, n: nat) -> Seq<u8>
    decreases n,
{
    if n == 0 {
        Seq::empty()
    } else {
        seq![(v % 256) as u8] + le_bytes(v / 256, (n - 1) as nat)
    }
}

/// The number that a little-endian byte sequence encodes.
pub open spec fn le_value(b: Seq<u8>) -> nat
    decreases b.len(),
{
    if b.len() == 0 {
        0
    } else {
        b[0] as nat + 256 * le_value(b.drop_first())
    }
}

/// `r` written `n` times in a row.
pub open spec fn repeat(r: Seq<u8>, n: nat) -> Seq<u8>
    decreases n,
{
    if n == 0 {
        Seq::empty()
    } else {
        repeat(r, (n - 1) as nat) + r
    }
}

/// The number of zero bytes that bring a length of `len` to a multiple of `w`.
pub open spec fn pad_len(len: nat, w: nat) -> nat
    recommends
        w > 0,
{
    ((w - len % w) as int % (w as int)) as nat
}

/// `n` zero bytes.
pub open spec fn zeros(n: nat) -> Seq<u8> {
    Seq::new(n, |i: int| 0u8)
}

/// An integer field of `n` bytes holds the value modulo `256^n`, least
/// significant byte first: `le_bytes` is that truncated encoding.
pub proof fn lemma_le_bytes_truncates(v: nat, n: nat)
    ensures
        le_bytes(v, n).len() == n,
        le_value(le_bytes(v, n)) == v % (pow(256, n) as nat),
        forall|i: int| 0 <= i < n ==> #[trigger] le_bytes(v, n)[i] == (v / (pow(256, i as nat) as nat)) % 256,
    decreases n,
{
    reveal(pow);
    if n == 0 {
        assert(v % 1 == 0) by (nonlinear_arith);
    } else {
        let m = (n - 1) as nat;
        lemma_le_bytes_truncates(v / 256, m);
        let b = le_bytes(v, n);
        assert(b.drop_first() =~= le_bytes(v / 256, m));
        vstd::arithmetic::power::lemma_pow_positive(256, m);
        lemma_mod_breakdown(v as int, 256, pow(256, m));
        assert(pow(256, n) == 256 * pow(256, m));
        assert forall|i: int| 0 <= i < n implies #[trigger] b[i] == (v / (pow(256, i as nat) as nat)) % 256 by {
            if i == 0 {
                assert(pow(256, 0) == 1);
                assert(v / 1 == v) by (nonlinear_arith);
                assert(b[0] == (v % 256) as u8);
            } else {
                let j = (i - 1) as nat;
                assert(b[i] == le_bytes(v / 256, m)[j as int]);
                vstd::arithmetic::power::lemma_pow_positive(256, j);
                assert(pow(256, i as nat) == 256 * pow(256, j));
                vstd::arithmetic::div_mod::lemma_div_denominator(v as int, 256, pow(256, j));
                assert(v / (pow(256, i as nat) as nat) == (v / 256) / (pow(256, j) as nat));
            }
        }
    }
}

/// Padding to a width `w` ends on a multiple of `w`, is shorter than `w`, and
/// no shorter padding ends on a multiple of `w`.
pub proof fn lemma_pad_len_minimal(len: nat, w: nat)
    requires
        w > 0,
    ensures
        (len + pad_len(len, w)) % w == 0,
        pad_len(len, w) < w,
        forall|p: nat| p < pad_len(len, w) ==> #[trigger] ((len + p) % w) != 0,
{
    let r = len % w;
    lemma_fundamental_div_mod(len as int, w as int);
    let q = len as int / w as int;
    if r == 0 {
        lemma_small_mod(0, w);
        assert(w as int % w as int == 0) by {
            lemma_mod_multiples_vanish(1, 0, w as int);
        }
        assert(pad_len(len, w) == 0);
    } else {
        lemma_small_mod((w - r) as nat, w);
        assert(pad_len(len, w) == w - r);
        assert(len + pad_len(len, w) == w * (q + 1) + 0) by (nonlinear_arith)
            requires
                len == w * q + r,
                pad_len(len, w) == w - r,
        ;
        lemma_mod_multiples_vanish(q + 1, 0, w as int);
        lemma_small_mod(0, w);
        assert forall|p: nat| p < pad_len(len, w) implies #[trigger] ((len + p) % w) != 0 by {
            assert(len + p == w * q + (r + p));
            lemma_mod_multiples_vanish(q, (r + p) as int, w as int);
            lemma_small_mod((r + p) as nat, w);
        }
    }
}

/// `repeat(r, n)` is `n` copies of `r`: byte `k * |r| + j` is `r[j]`.
pub proof fn lemma_repeat_copies(r: Seq<u8>, n: nat)
    ensures
        repeat(r, n).len() == n * r.len(),
        forall|k: int, j: int|
            0 <= k < n && 0 <= j < r.len() ==> #[trigger] repeat(r, n)[k * r.len() + j] == r[j],
    decreases n,
{
    if n == 0 {
        assert(0 * r.len() == 0) by (nonlinear_arith);
    } else {
        let m = (n - 1) as nat;
        lemma_repeat_copies(r, m);
        assert(repeat(r, n) == repeat(r, m) + r);
        assert(n * r.len() == m * r.len() + r.len()) by (nonlinear_arith)
            requires
                n == m + 1,
        ;
        assert forall|k: int, j: int| 0 <= k < n && 0 <= j < r.len() implies #[trigger] repeat(r, n)[k * r.len() + j] == r[j] by {
            if k < m {
                assert(k * r.len() + j < m * r.len()) by (nonlinear_arith)
                    requires
                        k < m,
                        0 <= j < r.len(),
                ;
            } else {
                assert(k * r.len() == m * r.len());
            }
        }
    }
}

/// Appends the `n` lowest bytes of `v` to `out`, least significant first.
pub fn push_le_bytes(out: &mut Vec<u8>, v: u64, n: usize)
    ensures
        final(out)@ == old(out)@ + le_bytes(v as nat, n as nat),
{
    let mut x: u64 = v;
    let mut i: usize = 0;
    while i < n
        invariant
            i <= n,
            out@ + le_bytes(x as nat, (n - i) as nat) == old(out)@ + le_bytes(v as nat, n as nat),
        decreases n - i,
    {
        let ghost before = out@;
        out.push((x % 256) as u8);
        proof {
            assert(le_bytes(x as nat, (n - i) as nat) == seq![(x % 256) as u8] + le_bytes(
                (x / 256) as nat,
                (n - i - 1) as nat,
            ));
            assert(out@ + le_bytes((x / 256) as nat, (n - i - 1) as nat) =~= before + le_bytes(
                x as nat,
                (n - i) as nat,
            ));
        }
        x = x / 256;
        i = i + 1;
    }
    assert(out@ =~= out@ + le_bytes(x as nat, 0));
}

/// Appends `n` zero bytes to `out`.
pub fn push_zeros(out: &mut Vec<u8>, n: usize)
    ensures
        final(out)@ == old(out)@ + zeros(n as nat),
{
    let mut i: usize = 0;
    while i < n
        invariant
            i <= n,
            out@ =~= old(out)@ + zeros(i as nat),
        decreases n - i,
    {
        out.push(0);
        i = i + 1;
        assert(out@ =~= old(out)@ + zeros(i as nat));
    }
}

/// Appends the bytes of `src` to `dst`.
pub fn append_bytes(dst: &mut Vec<u8>, src: &Vec<u8>)
    ensures
        final(dst)@ == old(dst)@ + src@,
{
    let mut i: usize = 0;
    while i < src.len()
        invariant
            i <= src@.len(),
            dst@ =~= old(dst)@ + src@.take(i as int),
        decreases src@.len() - i,
    {
        dst.push(src[i]);
        i = i + 1;
        assert(dst@ =~= old(dst)@ + src@.take(i as int));
    }
    assert(src@.take(i as int) =~= src@);
}

} // verus!
