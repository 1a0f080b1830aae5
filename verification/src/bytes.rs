//! Little-endian integers in byte sequences.
use vstd::arithmetic::div_mod::*;
use vstd::arithmetic::mul::*;
use vstd::prelude::*;

verus! {

/// `256^n`.
pub open spec fn byte_range(n: nat) -> nat
    decreases n,
{
    if n == 0 {
        1
    } else {
        256 * byte_range((n - 1) as nat)
    }
}

/// The `n` low-order bytes of `v`, the lowest first.
pub open spec fn le(v: nat, n: nat) -> Seq<u8>
    decreases n,
{
    if n == 0 {
        seq![]
    } else {
        seq![(v % 256) as u8] + le(v / 256, (n - 1) as nat)
    }
}

/// The number that bytes denote, the lowest first.
pub open spec fn le_value(b: Seq<u8>) -> nat
    decreases b.len(),
{
    if b.len() == 0 {
        0
    } else {
        b[0] as nat + 256 * le_value(b.skip(1))
    }
}

pub proof fn lemma_le_len(v: nat, n: nat)
    ensures
        le(v, n).len() == n,
    decreases n,
{
    if n > 0 {
        lemma_le_len(v / 256, (n - 1) as nat);
    }
}

/// Reading back the low-order bytes of a number gives the number, where it fits in them.
pub proof fn law_le_reads_back(v: nat, n: nat)
    requires
        v < byte_range(n),
    ensures
        le(v, n).len() == n,
        le_value(le(v, n)) == v,
    decreases n,
{
    lemma_le_len(v, n);
    if n > 0 {
        let r = byte_range((n - 1) as nat);
        assert(v / 256 < r) by (nonlinear_arith)
            requires
                v < 256 * r,
        ;
        law_le_reads_back(v / 256, (n - 1) as nat);
        assert(le(v, n).skip(1) =~= le(v / 256, (n - 1) as nat));
    }
}

/// Byte `i` of a number is its digit `i` to the base 256, the lowest digit first.
pub proof fn law_le_is_base_256(v: nat, n: nat, i: nat)
    requires
        i < n,
    ensures
        le(v, n).len() == n,
        byte_range(i) >= 1,
        le(v, n)[i as int] == (v / byte_range(i)) % 256,
    decreases n,
{
    lemma_le_len(v, n);
    if i == 0 {
        assert(v / 1 == v);
    } else {
        let j = (i - 1) as nat;
        law_le_is_base_256(v / 256, (n - 1) as nat, j);
        assert(le(v, n)[i as int] == le(v / 256, (n - 1) as nat)[j as int]);
        lemma_div_denominator(v as int, 256, byte_range(j) as int);
    }
}

/// Bytes are the low-order bytes of the number they denote.
pub proof fn law_le_writes_back(b: Seq<u8>)
    ensures
        le_value(b) < byte_range(b.len()),
        le(le_value(b), b.len()) == b,
    decreases b.len(),
{
    if b.len() > 0 {
        let t = le_value(b.skip(1));
        law_le_writes_back(b.skip(1));
        let v = le_value(b);
        assert(v % 256 == b[0] && v / 256 == t);
        assert(seq![b[0]] + b.skip(1) =~= b);
    } else {
        assert(le(le_value(b), 0) =~= b);
    }
}

/// Only the low-order part of a number shows in its low-order bytes.
pub proof fn lemma_le_truncates(v: nat, n: nat)
    ensures
        le(v % byte_range(n), n) == le(v, n),
        byte_range(n) >= 1,
    decreases n,
{
    if n > 0 {
        let r = byte_range((n - 1) as nat);
        lemma_le_truncates(v / 256, (n - 1) as nat);
        let w = v % (256 * r);
        lemma_mod_breakdown(v as int, 256, r as int);
        let q = (v / 256) % r;
        assert(w == 256 * q + v % 256);
        assert(w % 256 == v % 256 && w / 256 == q);
    } else {
        assert(le(v % 1, 0) =~= le(v, 0));
    }
}

/// Appends the `n` low-order bytes of `v`.
pub fn push_le(out: &mut Vec<u8>, v: u64, n: usize)
    ensures
        final(out)@ == old(out)@ + le(v as nat, n as nat),
{
    let mut w: u64 = v;
    let mut k: usize = n;
    while k > 0
        invariant
            k <= n,
            out@ + le(w as nat, k as nat) == old(out)@ + le(v as nat, n as nat),
        decreases k,
    {
        let ghost before = out@;
        let ghost rest = le((w / 256) as nat, (k - 1) as nat);
        out.push((w % 256) as u8);
        assert(out@ + rest =~= before + (seq![(w % 256) as u8] + rest));
        w = w / 256;
        k -= 1;
    }
    assert(out@ + le(w as nat, 0) =~= out@);
}

/// The number in the `n` bytes from `i` on, for `n` up to 8.
pub fn read_le(b: &[u8], i: usize, n: usize) -> (v: u64)
    requires
        i + n <= b.len(),
        n <= 8,
    ensures
        v == le_value(b@.subrange(i as int, i + n)),
        v < byte_range(n as nat),
    decreases n,
{
    let ghost s = b@.subrange(i as int, i + n);
    proof {
        law_le_writes_back(s);
        reveal_with_fuel(byte_range, 9);
    }
    if n == 0 {
        0
    } else {
        let hi: u64 = read_le(b, i + 1, n - 1);
        assert(s.skip(1) =~= b@.subrange(i + 1, i + n));
        b[i] as u64 + 256 * hi
    }
}

} // verus!
