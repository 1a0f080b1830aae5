//! Causal multi-head self-attention, forward and backward.
//!
//! Queries, keys and values of a position lie side by side in one row of `qkv`, each as
//! wide as the model and divided among the heads. Position `i` attends to the positions
//! `j <= i` of its own sequence.
use crate::ops;
use crate::ops::{dot_product, softmax_span};
use crate::scalar;
use crate::scalar::{Num, Scalar, Term, Unary};
use vstd::arithmetic::div_mod::*;
use vstd::prelude::*;

verus! {

/// The sizes that attention works with: `b` sequences of `t` positions, `nh` heads of
/// `hs` numbers each, `c` numbers for all heads together.
#[derive(Clone, Copy)]
pub struct Dims {
    pub b: usize,
    pub t: usize,
    pub c: usize,
    pub nh: usize,
    pub hs: usize,
}

impl Dims {
    /// The heads share the width evenly, and every buffer's length can be written.
    pub open spec fn ok(self) -> bool {
        &&& self.c == self.nh * self.hs
        &&& self.b * self.t <= usize::MAX
        &&& self.b * self.t * (3 * self.c) <= usize::MAX
        &&& self.b * self.nh * self.t * self.t <= usize::MAX
    }

    /// Where head `h` of sequence `bb`, position `i` starts in a row of `qkv`; `part` is
    /// 0 for the query, 1 for the key, 2 for the value.
    pub open spec fn at(self, bb: int, i: int, part: int, h: int) -> int {
        (bb * self.t + i) * (3 * self.c) + part * self.c + h * self.hs
    }

    /// Where head `h` of sequence `bb`, position `i` starts in a row of width `c`.
    pub open spec fn out(self, bb: int, i: int, h: int) -> int {
        (bb * self.t + i) * self.c + h * self.hs
    }

    /// Where the weights start with which position `i` attends, head `h`, sequence `bb`.
    pub open spec fn weight_row(self, bb: int, i: int, h: int) -> int {
        ((bb * self.nh + h) * self.t + i) * self.t
    }
}

pub proof fn lemma_div_below(x: int, n: int, d: int)
    requires
        0 <= x < n * d,
        d >= 0,
    ensures
        d > 0,
        0 <= x / d < n,
        0 <= x % d < d,
        x == (x / d) * d + x % d,
{
    assert(d > 0) by (nonlinear_arith)
        requires
            0 <= x < n * d,
            d >= 0,
    ;
    lemma_fundamental_div_mod(x, d);
    lemma_mod_bound(x, d);
    let q = x / d;
    assert(d * q == q * d) by (nonlinear_arith);
    assert(q >= 0) by {
        lemma_div_pos_is_pos(x, d);
    }
    assert(q < n) by (nonlinear_arith)
        requires
            q * d <= x,
            x < n * d,
            d > 0,
    ;
}

/// A row and a place within it stay inside a matrix.
proof fn lemma_inside(row: int, rows: int, width: int, col: int, len: int)
    requires
        0 <= row < rows,
        0 <= col,
        col + len <= width,
        0 <= len,
    ensures
        0 <= row * width + col,
        row * width + col + len <= rows * width,
{
    assert(row * width + width <= rows * width) by (nonlinear_arith)
        requires
            row + 1 <= rows,
            width >= 0,
    ;
    assert(0 <= row * width) by (nonlinear_arith)
        requires
            0 <= row,
            width >= 0,
    ;
}

/// The bounds that a valid sequence, position, part and head keep.
pub proof fn lemma_at(d: Dims, bb: int, i: int, part: int, h: int)
    requires
        d.ok(),
        0 <= bb < d.b,
        0 <= i < d.t,
        0 <= part < 3,
        0 <= h < d.nh,
    ensures
        0 <= bb * d.t + i < d.b * d.t,
        0 <= part * d.c,
        0 <= h * d.hs,
        h * d.hs + d.hs <= d.c,
        part * d.c + h * d.hs + d.hs <= 3 * d.c,
        0 <= d.at(bb, i, part, h),
        d.at(bb, i, part, h) + d.hs <= d.b * d.t * (3 * d.c),
        0 <= d.out(bb, i, h),
        d.out(bb, i, h) + d.hs <= d.b * d.t * d.c,
{
    lemma_inside(bb, d.b as int, d.t as int, i, 1);
    lemma_inside(h, d.nh as int, d.hs as int, 0, d.hs as int);
    let row = bb * d.t + i;
    lemma_inside(part, 3, d.c as int, h * d.hs, d.hs as int);
    lemma_inside(row, d.b * d.t, 3 * d.c, part * d.c + h * d.hs, d.hs as int);
    lemma_inside(row, d.b * d.t, d.c as int, h * d.hs, d.hs as int);
}

/// The bounds that a row of weights keeps.
pub proof fn lemma_weight_row(d: Dims, bb: int, i: int, h: int)
    requires
        d.ok(),
        0 <= bb < d.b,
        0 <= i < d.t,
        0 <= h < d.nh,
    ensures
        0 <= bb * d.nh + h < d.b * d.nh,
        0 <= (bb * d.nh + h) * d.t + i < d.b * d.nh * d.t,
        0 <= d.weight_row(bb, i, h),
        d.weight_row(bb, i, h) + d.t <= d.b * d.nh * d.t * d.t,
{
    lemma_inside(bb, d.b as int, d.nh as int, h, 1);
    lemma_inside(bb * d.nh + h, d.b * d.nh, d.t as int, i, 1);
    lemma_inside((bb * d.nh + h) * d.t + i, d.b * d.nh * d.t, d.t as int, 0, d.t as int);
}

/// The scores with which position `i` attends to the positions up to itself: the products
/// of its query with their keys, over the root of the head size.
pub open spec fn scores<T>(qkv: Seq<Term<T>>, d: Dims, bb: int, i: int, h: int) -> Seq<Term<T>> {
    Seq::new(
        (i + 1) as nat,
        |j: int|
            scalar::product(
                ops::dot(qkv, qkv, d.at(bb, i, 0, h), d.at(bb, j, 1, h), d.hs as nat),
                inverse_root(d.hs),
            ),
    )
}

/// One over the root of a count.
pub open spec fn inverse_root<T>(n: usize) -> Term<T> {
    scalar::quotient(scalar::one(), scalar::apply1(Unary::Sqrt, Term::Count(n)))
}

/// Place `x` holds the weight of a position up to the one that attends.
pub open spec fn attends(d: Dims, x: int) -> bool {
    x % d.t as int <= (x / d.t as int) % d.t as int
}

/// The weight at place `x`: from the softmax of the scores of the position that attends.
pub open spec fn weight<T>(qkv: Seq<Term<T>>, d: Dims, x: int) -> Term<T> {
    let r = x / d.t as int;
    let job = r / d.t as int;
    ops::softmax(
        scores(qkv, d, job / d.nh as int, r % d.t as int, job % d.nh as int),
    )[x % d.t as int]
}

/// What stands at place `x`: a weight, or what was there where nothing attends.
pub open spec fn weight_at<T>(att: Seq<Term<T>>, qkv: Seq<Term<T>>, d: Dims, x: int) -> Term<T> {
    if attends(d, x) {
        weight(qkv, d, x)
    } else {
        att[x]
    }
}

/// The attention weights.
pub open spec fn attended<T>(att: Seq<Term<T>>, qkv: Seq<Term<T>>, d: Dims) -> Seq<Term<T>> {
    Seq::new(att.len(), |x: int| weight_at(att, qkv, d, x))
}

fn root_inverse<T: Scalar>(n: usize) -> (r: Num<T>)
    ensures
        r@ == inverse_root::<T>(n),
{
    Num::bits(0x3f80_0000).over(Num::count(n).sqrt())
}

/// The weights of one position: fills the first `i + 1` places of its row.
fn attend_row<T: Scalar>(
    qkv: &[Num<T>],
    att: &mut [Num<T>],
    base: usize,
    d: Dims,
    bb: usize,
    i: usize,
    h: usize,
)
    requires
        d.ok(),
        bb < d.b,
        i < d.t,
        h < d.nh,
        qkv@.len() == d.b * d.t * (3 * d.c),
        base + d.t <= old(att)@.len(),
    ensures
        final(att)@.len() == old(att)@.len(),
        forall|x: int|
            0 <= x < old(att)@.len() ==> (#[trigger] final(att)@[x])@ == if base <= x <= base + i {
                ops::softmax(scores(scalar::terms(qkv@), d, bb as int, i as int, h as int))[x - base]
            } else {
                old(att)@[x]@
            },
{
    let ghost qt = scalar::terms(qkv@);
    let ghost a0 = scalar::terms(att@);
    let ghost sc = scores(qt, d, bb as int, i as int, h as int);
    let n: usize = att.len();
    let inv: Num<T> = root_inverse(d.hs);
    proof {
        lemma_at(d, bb as int, i as int, 0, h as int);
        lemma_sizes(d);
    }
    let qi: usize = (bb * d.t + i) * (3 * d.c) + h * d.hs;
    let mut j: usize = 0;
    while j <= i
        invariant
            j <= i + 1,
            d.ok(),
            bb < d.b,
            i < d.t,
            h < d.nh,
            qkv@.len() == d.b * d.t * (3 * d.c),
            base + d.t <= n,
            n == att@.len(),
            n == a0.len(),
            qt == scalar::terms(qkv@),
            sc == scores(qt, d, bb as int, i as int, h as int),
            inv@ == inverse_root::<T>(d.hs),
            qi == d.at(bb as int, i as int, 0, h as int),
            qi + d.hs <= qkv@.len(),
            forall|x: int|
                0 <= x < n ==> (#[trigger] att@[x])@ == if base <= x < base + j {
                    sc[x - base]
                } else {
                    a0[x]
                },
        decreases i + 1 - j,
    {
        proof {
            lemma_at(d, bb as int, j as int, 1, h as int);
            lemma_sizes(d);
        }
        let kj: usize = (bb * d.t + j) * (3 * d.c) + d.c + h * d.hs;
        att[base + j] = dot_product(qkv, qkv, qi, kj, d.hs).times(inv);
        j += 1;
    }
    let ghost a1 = scalar::terms(att@);
    assert(a1.subrange(base as int, base + i + 1) =~= sc);
    softmax_span(att, base, base + i + 1);
    assert forall|x: int| 0 <= x < n implies (#[trigger] att@[x])@ == if base <= x <= base + i {
        ops::softmax(sc)[x - base]
    } else {
        a0[x]
    } by {
        assert(scalar::terms(att@)[x] == att@[x]@);
        assert(a1.len() == n);
        if x < base {
            assert(a1[x] == a0[x]);
        } else if x > base + i {
            assert(ops::softmax_in(a1, base as int, base + i + 1)[x] == a1[x]);
            assert(a1[x] == a0[x]);
        }
    }
}

/// Products of sizes that intermediate results come to.
proof fn lemma_sizes(d: Dims)
    requires
        d.ok(),
        d.b >= 1,
        d.t >= 1,
    ensures
        3 * d.c <= usize::MAX,
        d.b * d.t * (3 * d.c) == 3 * (d.b * d.t * d.c),
{
    let m = d.b * d.t;
    assert(m >= 1) by (nonlinear_arith)
        requires
            d.b >= 1,
            d.t >= 1,
            m == d.b * d.t,
    ;
    assert(3 * d.c <= m * (3 * d.c)) by (nonlinear_arith)
        requires
            m >= 1,
    ;
    assert(m * (3 * d.c) == 3 * (m * d.c)) by (nonlinear_arith);
}

/// A row of weights belongs to one sequence, head and position.
proof fn lemma_row_of(d: Dims, r: int)
    requires
        d.ok(),
        0 <= r < d.b * d.nh * d.t,
    ensures
        d.t > 0,
        d.nh > 0,
        0 <= r % d.t as int,
        r % (d.t as int) < d.t,
        0 <= r / d.t as int,
        r / (d.t as int) < d.b * d.nh,
        0 <= (r / d.t as int) / d.nh as int,
        (r / d.t as int) / (d.nh as int) < d.b,
        0 <= (r / d.t as int) % d.nh as int,
        (r / d.t as int) % (d.nh as int) < d.nh,
        r * d.t == d.weight_row(
            (r / d.t as int) / d.nh as int,
            r % d.t as int,
            (r / d.t as int) % d.nh as int,
        ),
{
    lemma_div_below(r, d.b * d.nh, d.t as int);
    lemma_div_below(r / d.t as int, d.b as int, d.nh as int);
}

/// Fills `att` with the attention weights: for each sequence, head and position the
/// softmax of its scores.
pub fn attention_forward<T: Scalar>(qkv: &[Num<T>], att: &mut [Num<T>], d: Dims)
    requires
        d.ok(),
        qkv@.len() == d.b * d.t * (3 * d.c),
        old(att)@.len() == d.b * d.nh * d.t * d.t,
    ensures
        final(att)@.len() == old(att)@.len(),
        scalar::terms(final(att)@) == attended(
            scalar::terms(old(att)@),
            scalar::terms(qkv@),
            d,
        ),
{
    let ghost a0 = scalar::terms(att@);
    let ghost qt = scalar::terms(qkv@);
    let n: usize = att.len();
    let mut base: usize = 0;
    let ghost mut r: int = 0;
    assert(d.t == 0 ==> n == 0) by (nonlinear_arith)
        requires
            n == d.b * d.nh * d.t * d.t,
    ;
    while base < n
        invariant
            d.ok(),
            qkv@.len() == d.b * d.t * (3 * d.c),
            n == d.b * d.nh * d.t * d.t,
            n == att@.len(),
            n == a0.len(),
            qt == scalar::terms(qkv@),
            0 <= r,
            base == r * d.t,
            d.t == 0 ==> n == 0,
            forall|x: int|
                0 <= x < n ==> (#[trigger] att@[x])@ == if x < base {
                    weight_at(a0, qt, d, x)
                } else {
                    a0[x]
                },
        decreases n - base,
    {
        proof {
            assert(r < d.b * d.nh * d.t) by (nonlinear_arith)
                requires
                    r * d.t < (d.b * d.nh * d.t) * d.t,
                    d.t > 0,
            ;
            lemma_row_of(d, r);
            lemma_inside(r, d.b * d.nh * d.t, d.t as int, 0, d.t as int);
            lemma_div_multiples_vanish(r, d.t as int);
            assert(d.t * r == r * d.t) by (nonlinear_arith);
            assert((r + 1) * d.t == r * d.t + d.t) by (nonlinear_arith);
        }
        let row: usize = base / d.t;
        assert(row == r);
        let job: usize = row / d.t;
        let i: usize = row % d.t;
        let bb: usize = job / d.nh;
        let h: usize = job % d.nh;
        attend_row(qkv, att, base, d, bb, i, h);
        assert forall|x: int| 0 <= x < n implies (#[trigger] att@[x])@ == if x < base + d.t {
            weight_at(a0, qt, d, x)
        } else {
            a0[x]
        } by {
            if base <= x < base + d.t {
                ops::lemma_cell(r, d.t as int, x - base);
            }
        }
        base += d.t;
        proof {
            r = r + 1;
        }
    }
    assert(scalar::terms(att@) =~= attended(a0, qt, d));
}

/// `s` with the first `n` weighted numbers added, those left out whose weight is zero; the
/// numbers stand in `src` at `at` and every `stride` further on.
pub open spec fn weighted<T>(
    s: Term<T>,
    w: Seq<Term<T>>,
    src: Seq<Term<T>>,
    at: int,
    stride: int,
    n: nat,
) -> Term<T>
    decreases n,
{
    if n == 0 {
        s
    } else {
        scalar::add_unless_zero(
            weighted(s, w, src, at, stride, (n - 1) as nat),
            w[n - 1],
            src[at + (n - 1) * stride],
        )
    }
}

/// Adds weighted rows of `len` numbers to the stretch of `out` that starts at `base`. The
/// rows stand in `src` at `start` and every `stride` further on.
fn add_weighted_rows<T: Scalar>(
    out: &mut [Num<T>],
    base: usize,
    len: usize,
    w: &[Num<T>],
    src: &[Num<T>],
    start: usize,
    stride: usize,
)
    requires
        base + len <= old(out)@.len(),
        w.len() >= 1,
        start + (w.len() - 1) * stride + len <= src.len(),
    ensures
        final(out)@.len() == old(out)@.len(),
        forall|x: int|
            0 <= x < old(out)@.len() ==> (#[trigger] final(out)@[x])@ == if base <= x < base + len {
                weighted(
                    old(out)@[x]@,
                    scalar::terms(w@),
                    scalar::terms(src@),
                    start + (x - base),
                    stride as int,
                    w@.len(),
                )
            } else {
                old(out)@[x]@
            },
{
    let ghost o0 = scalar::terms(out@);
    let ghost wt = scalar::terms(w@);
    let ghost st = scalar::terms(src@);
    let n: usize = out.len();
    let mut k: usize = 0;
    let mut row: usize = start;
    while k < w.len()
        invariant
            k <= w.len(),
            base + len <= n,
            n == out@.len(),
            n == o0.len(),
            wt == scalar::terms(w@),
            st == scalar::terms(src@),
            start + (w.len() - 1) * stride + len <= src.len(),
            k < w.len() ==> row == start + k * stride,
            forall|x: int|
                0 <= x < n ==> (#[trigger] out@[x])@ == if base <= x < base + len {
                    weighted(o0[x], wt, st, start + (x - base), stride as int, k as nat)
                } else {
                    o0[x]
                },
        decreases w.len() - k,
    {
        let wk: Num<T> = w[k];
        proof {
            assert(k * stride <= (w.len() - 1) * stride) by (nonlinear_arith)
                requires
                    k <= w.len() - 1,
            ;
        }
        let mut e: usize = 0;
        while e < len
            invariant
                e <= len,
                k < w.len(),
                base + len <= n,
                n == out@.len(),
                n == o0.len(),
                st == scalar::terms(src@),
                wk@ == wt[k as int],
                row == start + k * stride,
                row + len <= src.len(),
                forall|x: int|
                    0 <= x < n ==> (#[trigger] out@[x])@ == if base <= x < base + e {
                        weighted(o0[x], wt, st, start + (x - base), stride as int, (k + 1) as nat)
                    } else if base <= x < base + len {
                        weighted(o0[x], wt, st, start + (x - base), stride as int, k as nat)
                    } else {
                        o0[x]
                    },
            decreases len - e,
        {
            assert(start + (base + e - base) + k * stride == row + e);
            out[base + e] = out[base + e].add_unless_zero(wk, src[row + e]);
            e += 1;
        }
        k += 1;
        if k < w.len() {
            proof {
                assert((k - 1) * stride + stride == k * stride) by (nonlinear_arith);
                assert(k * stride <= (w.len() - 1) * stride) by (nonlinear_arith)
                    requires
                        k <= w.len() - 1,
                ;
            }
            row += stride;
        }
    }
}

/// The weight at place `x` as it is applied: with dropout, times its mask and the scale.
pub open spec fn applied_weight<T>(
    att: Seq<Term<T>>,
    mask: Seq<u8>,
    scale: Term<T>,
    x: int,
) -> Term<T> {
    if mask.len() == 0 {
        att[x]
    } else {
        scalar::product(att[x], scalar::product(Term::Count(mask[x] as usize), scale))
    }
}

/// The applied weights of position `i`.
pub open spec fn applied_weights<T>(
    att: Seq<Term<T>>,
    mask: Seq<u8>,
    scale: Term<T>,
    d: Dims,
    bb: int,
    i: int,
    h: int,
) -> Seq<Term<T>> {
    Seq::new(
        (i + 1) as nat,
        |j: int| applied_weight(att, mask, scale, d.weight_row(bb, i, h) + j),
    )
}

/// The output at place `x`: the values of its head, weighted over the positions.
pub open spec fn output_at<T>(
    att: Seq<Term<T>>,
    mask: Seq<u8>,
    scale: Term<T>,
    qkv: Seq<Term<T>>,
    d: Dims,
    x: int,
) -> Term<T> {
    let row = x / d.c as int;
    let col = x % d.c as int;
    let bb = row / d.t as int;
    let i = row % d.t as int;
    let h = col / d.hs as int;
    weighted(
        scalar::zero(),
        applied_weights(att, mask, scale, d, bb, i, h),
        qkv,
        d.at(bb, 0, 2, h) + col % d.hs as int,
        3 * d.c,
        (i + 1) as nat,
    )
}

/// The output of attention.
pub open spec fn outputs<T>(
    att: Seq<Term<T>>,
    mask: Seq<u8>,
    scale: Term<T>,
    qkv: Seq<Term<T>>,
    d: Dims,
) -> Seq<Term<T>> {
    Seq::new((d.b * d.t * d.c) as nat, |x: int| output_at(att, mask, scale, qkv, d, x))
}

/// The applied weights of one position.
fn row_weights<T: Scalar>(
    att: &[Num<T>],
    mask: &[u8],
    scale: Num<T>,
    d: Dims,
    bb: usize,
    i: usize,
    h: usize,
) -> (w: Vec<Num<T>>)
    requires
        d.ok(),
        bb < d.b,
        i < d.t,
        h < d.nh,
        att@.len() == d.b * d.nh * d.t * d.t,
        mask@.len() == 0 || mask@.len() == att@.len(),
    ensures
        scalar::terms(w@) == applied_weights(
            scalar::terms(att@),
            mask@,
            scale@,
            d,
            bb as int,
            i as int,
            h as int,
        ),
        w@.len() == i + 1,
{
    proof {
        lemma_weight_row(d, bb as int, i as int, h as int);
        lemma_att_sizes(d);
    }
    let n: usize = att.len();
    let base: usize = ((bb * d.nh + h) * d.t + i) * d.t;
    let masked: bool = mask.len() != 0;
    let mut w: Vec<Num<T>> = Vec::new();
    let mut j: usize = 0;
    while j <= i
        invariant
            j <= i + 1,
            i < d.t,
            n == att@.len(),
            base + d.t <= n,
            base == d.weight_row(bb as int, i as int, h as int),
            masked == (mask@.len() != 0),
            mask@.len() == 0 || mask@.len() == n,
            w@.len() == j,
            forall|k: int|
                0 <= k < j ==> (#[trigger] w@[k])@ == applied_weight(
                    scalar::terms(att@),
                    mask@,
                    scale@,
                    base + k,
                ),
        decreases i + 1 - j,
    {
        let mut a: Num<T> = att[base + j];
        if masked {
            a = a.times(Num::count(mask[base + j] as usize).times(scale));
        }
        w.push(a);
        j += 1;
    }
    assert(scalar::terms(w@) =~= applied_weights(
        scalar::terms(att@),
        mask@,
        scale@,
        d,
        bb as int,
        i as int,
        h as int,
    ));
    w
}

/// Products of sizes that the places of weights come to.
proof fn lemma_att_sizes(d: Dims)
    requires
        d.ok(),
        d.t >= 1,
    ensures
        d.b * d.nh <= d.b * d.nh * d.t,
        d.b * d.nh * d.t <= d.b * d.nh * d.t * d.t,
{
    let m = d.b * d.nh;
    assert(m >= 0) by (nonlinear_arith)
        requires
            m == d.b * d.nh,
    ;
    assert(m <= m * d.t) by (nonlinear_arith)
        requires
            m >= 0,
            d.t >= 1,
    ;
    let k = m * d.t;
    assert(k <= k * d.t) by (nonlinear_arith)
        requires
            k >= 0,
            d.t >= 1,
    ;
}

/// The output of one head at one position.
fn apply_head<T: Scalar>(
    att: &[Num<T>],
    mask: &[u8],
    scale: Num<T>,
    qkv: &[Num<T>],
    y: &mut [Num<T>],
    base: usize,
    d: Dims,
    bb: usize,
    i: usize,
    h: usize,
)
    requires
        d.ok(),
        bb < d.b,
        i < d.t,
        h < d.nh,
        att@.len() == d.b * d.nh * d.t * d.t,
        mask@.len() == 0 || mask@.len() == att@.len(),
        qkv@.len() == d.b * d.t * (3 * d.c),
        base + d.hs <= old(y)@.len(),
    ensures
        final(y)@.len() == old(y)@.len(),
        forall|x: int|
            0 <= x < old(y)@.len() ==> (#[trigger] final(y)@[x])@ == if base <= x < base + d.hs {
                weighted(
                    scalar::zero(),
                    applied_weights(
                        scalar::terms(att@),
                        mask@,
                        scale@,
                        d,
                        bb as int,
                        i as int,
                        h as int,
                    ),
                    scalar::terms(qkv@),
                    d.at(bb as int, 0, 2, h as int) + (x - base),
                    3 * d.c,
                    (i + 1) as nat,
                )
            } else {
                old(y)@[x]@
            },
{
    let ghost y0 = scalar::terms(y@);
    let n: usize = y.len();
    let w: Vec<Num<T>> = row_weights(att, mask, scale, d, bb, i, h);
    let mut e: usize = 0;
    while e < d.hs
        invariant
            e <= d.hs,
            base + d.hs <= n,
            n == y@.len(),
            n == y0.len(),
            forall|x: int|
                0 <= x < n ==> (#[trigger] y@[x])@ == if base <= x < base + e {
                    scalar::zero()
                } else {
                    y0[x]
                },
        decreases d.hs - e,
    {
        y[base + e] = Num::bits(0);
        e += 1;
    }
    proof {
        lemma_at(d, bb as int, 0, 2, h as int);
        lemma_at(d, bb as int, i as int, 2, h as int);
        lemma_sizes(d);
        lemma_stride(d, bb as int, i as int, 2, h as int);
    }
    let start: usize = (bb * d.t) * (3 * d.c) + 2 * d.c + h * d.hs;
    add_weighted_rows(y, base, d.hs, w.as_slice(), qkv, start, 3 * d.c);
}

/// The rows of consecutive positions lie one row width apart.
pub proof fn lemma_stride(d: Dims, bb: int, i: int, part: int, h: int)
    ensures
        d.at(bb, 0, part, h) + i * (3 * d.c) == d.at(bb, i, part, h),
        d.out(bb, 0, h) + i * d.c == d.out(bb, i, h),
{
    let w = 3 * d.c;
    let s = bb * d.t;
    assert((s + 0) * w + i * w == (s + i) * w) by (nonlinear_arith);
    let c = d.c as int;
    assert((s + 0) * c + i * c == (s + i) * c) by (nonlinear_arith);
}

/// Fills `y` with the output of attention: the values, weighted by `att` and, where there
/// is a mask, by mask and scale.
pub fn attention_apply<T: Scalar>(
    att: &[Num<T>],
    mask: &[u8],
    scale: Num<T>,
    qkv: &[Num<T>],
    y: &mut [Num<T>],
    d: Dims,
)
    requires
        d.ok(),
        att@.len() == d.b * d.nh * d.t * d.t,
        mask@.len() == 0 || mask@.len() == att@.len(),
        qkv@.len() == d.b * d.t * (3 * d.c),
        old(y)@.len() == d.b * d.t * d.c,
    ensures
        final(y)@.len() == old(y)@.len(),
        scalar::terms(final(y)@) == outputs(
            scalar::terms(att@),
            mask@,
            scale@,
            scalar::terms(qkv@),
            d,
        ),
{
    let ghost at = scalar::terms(att@);
    let ghost qt = scalar::terms(qkv@);
    let n: usize = y.len();
    let m: usize = d.b * d.t;
    let mut row: usize = 0;
    while row < m
        invariant
            d.ok(),
            att@.len() == d.b * d.nh * d.t * d.t,
            mask@.len() == 0 || mask@.len() == att@.len(),
            qkv@.len() == d.b * d.t * (3 * d.c),
            n == d.b * d.t * d.c,
            n == y@.len(),
            m == d.b * d.t,
            row <= m,
            at == scalar::terms(att@),
            qt == scalar::terms(qkv@),
            forall|x: int|
                0 <= x < row * d.c ==> (#[trigger] y@[x])@ == output_at(at, mask@, scale@, qt, d, x),
        decreases m - row,
    {
        proof {
            lemma_div_below(row as int, d.b as int, d.t as int);
            lemma_inside(row as int, m as int, d.c as int, 0, d.c as int);
            assert((row + 1) * d.c == row * d.c + d.c) by (nonlinear_arith);
        }
        let bb: usize = row / d.t;
        let i: usize = row % d.t;
        let base: usize = row * d.c;
        let mut h: usize = 0;
        while h < d.nh
            invariant
                d.ok(),
                att@.len() == d.b * d.nh * d.t * d.t,
                mask@.len() == 0 || mask@.len() == att@.len(),
                qkv@.len() == d.b * d.t * (3 * d.c),
                n == y@.len(),
                d.t > 0,
                bb == row / d.t,
                i == row % d.t,
                bb < d.b,
                i < d.t,
                base == row * d.c,
                base + d.c <= n,
                h <= d.nh,
                at == scalar::terms(att@),
                qt == scalar::terms(qkv@),
                forall|x: int|
                    0 <= x < base + h * d.hs ==> (#[trigger] y@[x])@ == output_at(
                        at,
                        mask@,
                        scale@,
                        qt,
                        d,
                        x,
                    ),
            decreases d.nh - h,
        {
            proof {
                lemma_inside(h as int, d.nh as int, d.hs as int, 0, d.hs as int);
                assert((h + 1) * d.hs == h * d.hs + d.hs) by (nonlinear_arith);
            }
            let from: usize = base + h * d.hs;
            apply_head(att, mask, scale, qkv, y, from, d, bb, i, h);
            assert forall|x: int| 0 <= x < from + d.hs implies (#[trigger] y@[x])@ == output_at(
                at,
                mask@,
                scale@,
                qt,
                d,
                x,
            ) by {
                if from <= x {
                    ops::lemma_cell(row as int, d.c as int, x - base);
                    ops::lemma_cell(h as int, d.hs as int, x - from);
                }
            }
            h += 1;
        }
        row += 1;
    }
    assert(scalar::terms(y@) =~= outputs(at, mask@, scale@, qt, d));
}

/// What the way back through attention starts from: the gradient of the output, the
/// queries, keys and values, the weights, and the mask and scale of their dropout.
pub struct Back<T> {
    pub dy: Seq<Term<T>>,
    pub qkv: Seq<Term<T>>,
    pub att: Seq<Term<T>>,
    pub mask: Seq<u8>,
    pub scale: Term<T>,
}

/// The gradient of the weight with which position `i` attends to position `j`.
pub open spec fn weight_grad<T>(k: Back<T>, d: Dims, bb: int, i: int, j: int, h: int) -> Term<T> {
    let s = ops::dot(k.dy, k.qkv, d.out(bb, i, h), d.at(bb, j, 2, h), d.hs as nat);
    if k.mask.len() == 0 {
        s
    } else {
        scalar::product(
            s,
            scalar::product(Term::Count(k.mask[d.weight_row(bb, i, h) + j] as usize), k.scale),
        )
    }
}

/// The weights of position `i` times their gradients, added over the first `n` positions.
pub open spec fn row_dot<T>(k: Back<T>, d: Dims, bb: int, i: int, h: int, n: nat) -> Term<T>
    decreases n,
{
    if n == 0 {
        scalar::zero()
    } else {
        scalar::sum(
            row_dot(k, d, bb, i, h, (n - 1) as nat),
            scalar::product(
                k.att[d.weight_row(bb, i, h) + (n - 1)],
                weight_grad(k, d, bb, i, n - 1, h),
            ),
        )
    }
}

/// The gradient of the product of the query of position `i` and the key of position `j`.
pub open spec fn score_grad<T>(k: Back<T>, d: Dims, bb: int, i: int, j: int, h: int) -> Term<T> {
    scalar::product(
        scalar::product(
            k.att[d.weight_row(bb, i, h) + j],
            scalar::difference(
                weight_grad(k, d, bb, i, j, h),
                row_dot(k, d, bb, i, h, (i + 1) as nat),
            ),
        ),
        inverse_root(d.hs),
    )
}

/// The weight with which position `i` attends to position `j`, with dropout times its mask
/// and then the scale.
pub open spec fn kept_weight<T>(k: Back<T>, d: Dims, bb: int, i: int, j: int, h: int) -> Term<T> {
    let x = d.weight_row(bb, i, h) + j;
    if k.mask.len() == 0 {
        k.att[x]
    } else {
        scalar::product(scalar::product(k.att[x], Term::Count(k.mask[x] as usize)), k.scale)
    }
}

/// The gradient of `qkv` at one place, added to `s`. A query collects the keys of the
/// positions up to its own, a key the queries of the positions from its own on, a value the
/// output gradients of the positions from its own on.
pub open spec fn qkv_grad<T>(
    s: Term<T>,
    k: Back<T>,
    d: Dims,
    bb: int,
    pos: int,
    part: int,
    h: int,
    e: int,
) -> Term<T> {
    if part == 0 {
        weighted(
            s,
            Seq::new((pos + 1) as nat, |j: int| score_grad(k, d, bb, pos, j, h)),
            k.qkv,
            d.at(bb, 0, 1, h) + e,
            3 * d.c,
            (pos + 1) as nat,
        )
    } else if part == 1 {
        weighted(
            s,
            Seq::new((d.t - pos) as nat, |n: int| score_grad(k, d, bb, pos + n, pos, h)),
            k.qkv,
            d.at(bb, pos, 0, h) + e,
            3 * d.c,
            (d.t - pos) as nat,
        )
    } else {
        weighted(
            s,
            Seq::new((d.t - pos) as nat, |n: int| kept_weight(k, d, bb, pos + n, pos, h)),
            k.dy,
            d.out(bb, pos, h) + e,
            d.c as int,
            (d.t - pos) as nat,
        )
    }
}

/// The gradient of `qkv` at place `x`, added to what stands there.
pub open spec fn qkv_grad_at<T>(d0: Seq<Term<T>>, k: Back<T>, d: Dims, x: int) -> Term<T> {
    let row = x / (3 * d.c);
    let col = x % (3 * d.c);
    let cc = col % d.c as int;
    qkv_grad(
        d0[x],
        k,
        d,
        row / d.t as int,
        row % d.t as int,
        col / d.c as int,
        cc / d.hs as int,
        cc % d.hs as int,
    )
}

/// The gradients of queries, keys and values, added to `d0`.
pub open spec fn qkv_grads<T>(d0: Seq<Term<T>>, k: Back<T>, d: Dims) -> Seq<Term<T>> {
    Seq::new(d0.len(), |x: int| qkv_grad_at(d0, k, d, x))
}

/// When place `x` of `qkv` has its turn: by sequence, head and position.
spec fn turn(d: Dims, x: int) -> int {
    let row = x / (3 * d.c);
    let h = ((x % (3 * d.c)) % d.c as int) / d.hs as int;
    ((row / d.t as int) * d.nh + h) * d.t + row % d.t as int
}

/// A place within the stretch of a position, part and head belongs to them.
proof fn lemma_place(d: Dims, bb: int, pos: int, part: int, h: int, x: int)
    requires
        d.ok(),
        0 <= bb < d.b,
        0 <= pos < d.t,
        0 <= part < 3,
        0 <= h < d.nh,
        d.at(bb, pos, part, h) <= x < d.at(bb, pos, part, h) + d.hs,
    ensures
        x / (3 * d.c) == bb * d.t + pos,
        (x / (3 * d.c)) / d.t as int == bb,
        (x / (3 * d.c)) % d.t as int == pos,
        (x % (3 * d.c)) / d.c as int == part,
        ((x % (3 * d.c)) % d.c as int) / d.hs as int == h,
        ((x % (3 * d.c)) % d.c as int) % d.hs as int == x - d.at(bb, pos, part, h),
        turn(d, x) == (bb * d.nh + h) * d.t + pos,
{
    lemma_at(d, bb, pos, part, h);
    let e = x - d.at(bb, pos, part, h);
    let row = bb * d.t + pos;
    ops::lemma_cell(row, 3 * d.c, part * d.c + h * d.hs + e);
    ops::lemma_cell(part, d.c as int, h * d.hs + e);
    ops::lemma_cell(h, d.hs as int, e);
    ops::lemma_cell(bb, d.t as int, pos);
}

/// Every place belongs to a position, part and head.
proof fn lemma_place_of(d: Dims, x: int)
    requires
        d.ok(),
        0 <= x < d.b * d.t * (3 * d.c),
    ensures
        ({
            let row = x / (3 * d.c);
            let col = x % (3 * d.c);
            let bb = row / d.t as int;
            let pos = row % d.t as int;
            let part = col / d.c as int;
            let h = (col % d.c as int) / d.hs as int;
            &&& 0 <= bb < d.b
            &&& 0 <= pos < d.t
            &&& 0 <= part < 3
            &&& 0 <= h < d.nh
            &&& d.at(bb, pos, part, h) <= x < d.at(bb, pos, part, h) + d.hs
        }),
{
    lemma_div_below(x, d.b * d.t, 3 * d.c);
    let row = x / (3 * d.c);
    let col = x % (3 * d.c);
    lemma_div_below(row, d.b as int, d.t as int);
    lemma_div_below(col, 3, d.c as int);
    lemma_div_below(col % d.c as int, d.nh as int, d.hs as int);
}

/// Two turns are the same only for the same sequence, head and position.
proof fn lemma_turn_unique(d: Dims, bb: int, h: int, pos: int, bb2: int, h2: int, pos2: int)
    requires
        0 <= h < d.nh,
        0 <= h2 < d.nh,
        0 <= pos < d.t,
        0 <= pos2 < d.t,
        (bb * d.nh + h) * d.t + pos == (bb2 * d.nh + h2) * d.t + pos2,
    ensures
        bb == bb2,
        h == h2,
        pos == pos2,
{
    ops::lemma_cell(bb * d.nh + h, d.t as int, pos);
    ops::lemma_cell(bb2 * d.nh + h2, d.t as int, pos2);
    ops::lemma_cell(bb, d.nh as int, h);
    ops::lemma_cell(bb2, d.nh as int, h2);
}

/// The score gradients and kept weights of one position, for the positions up to its own;
/// zero for those behind it.
fn push_grad_row<T: Scalar>(
    slopes: &mut Vec<Num<T>>,
    kept: &mut Vec<Num<T>>,
    dy: &[Num<T>],
    qkv: &[Num<T>],
    att: &[Num<T>],
    mask: &[u8],
    scale: Num<T>,
    d: Dims,
    bb: usize,
    i: usize,
    h: usize,
    Ghost(k): Ghost<Back<T>>,
)
    requires
        d.ok(),
        bb < d.b,
        i < d.t,
        h < d.nh,
        dy@.len() == d.b * d.t * d.c,
        qkv@.len() == d.b * d.t * (3 * d.c),
        att@.len() == d.b * d.nh * d.t * d.t,
        mask@.len() == 0 || mask@.len() == att@.len(),
        k == (Back {
            dy: scalar::terms(dy@),
            qkv: scalar::terms(qkv@),
            att: scalar::terms(att@),
            mask: mask@,
            scale: scale@,
        }),
    ensures
        final(slopes)@.len() == old(slopes)@.len() + d.t,
        final(kept)@.len() == old(kept)@.len() + d.t,
        forall|x: int| 0 <= x < old(slopes)@.len() ==> final(slopes)@[x] == old(slopes)@[x],
        forall|x: int| 0 <= x < old(kept)@.len() ==> final(kept)@[x] == old(kept)@[x],
        forall|j: int|
            0 <= j <= i ==> (#[trigger] final(slopes)@[old(slopes)@.len() + j])@ == score_grad(
                k,
                d,
                bb as int,
                i as int,
                j,
                h as int,
            ),
        forall|j: int|
            0 <= j <= i ==> (#[trigger] final(kept)@[old(kept)@.len() + j])@ == kept_weight(
                k,
                d,
                bb as int,
                i as int,
                j,
                h as int,
            ),
{
    proof {
        lemma_weight_row(d, bb as int, i as int, h as int);
        lemma_att_sizes(d);
        lemma_at(d, bb as int, i as int, 2, h as int);
        lemma_sizes(d);
    }
    let n: usize = att.len();
    let base: usize = ((bb * d.nh + h) * d.t + i) * d.t;
    let dy_i: usize = (bb * d.t + i) * d.c + h * d.hs;
    let masked: bool = mask.len() != 0;
    let inv: Num<T> = root_inverse(d.hs);
    let mut u: Vec<Num<T>> = Vec::new();
    let mut dotted: Num<T> = Num::bits(0);
    let mut j: usize = 0;
    while j <= i
        invariant
            j <= i + 1,
            d.ok(),
            bb < d.b,
            i < d.t,
            h < d.nh,
            dy@.len() == d.b * d.t * d.c,
            qkv@.len() == d.b * d.t * (3 * d.c),
            n == att@.len(),
            base + d.t <= n,
            base == d.weight_row(bb as int, i as int, h as int),
            dy_i == d.out(bb as int, i as int, h as int),
            dy_i + d.hs <= dy@.len(),
            masked == (mask@.len() != 0),
            mask@.len() == 0 || mask@.len() == n,
            k == (Back {
                dy: scalar::terms(dy@),
                qkv: scalar::terms(qkv@),
                att: scalar::terms(att@),
                mask: mask@,
                scale: scale@,
            }),
            u@.len() == j,
            forall|x: int|
                0 <= x < j ==> (#[trigger] u@[x])@ == weight_grad(
                    k,
                    d,
                    bb as int,
                    i as int,
                    x,
                    h as int,
                ),
            dotted@ == row_dot(k, d, bb as int, i as int, h as int, j as nat),
        decreases i + 1 - j,
    {
        proof {
            lemma_at(d, bb as int, j as int, 2, h as int);
            lemma_sizes(d);
        }
        let vj: usize = (bb * d.t + j) * (3 * d.c) + 2 * d.c + h * d.hs;
        let mut s: Num<T> = dot_product(dy, qkv, dy_i, vj, d.hs);
        if masked {
            s = s.times(Num::count(mask[base + j] as usize).times(scale));
        }
        u.push(s);
        dotted = dotted.plus(att[base + j].times(s));
        j += 1;
    }
    let ghost s0 = slopes@;
    let ghost k0 = kept@;
    let mut j: usize = 0;
    while j < d.t
        invariant
            j <= d.t,
            i < d.t,
            n == att@.len(),
            base + d.t <= n,
            base == d.weight_row(bb as int, i as int, h as int),
            masked == (mask@.len() != 0),
            mask@.len() == 0 || mask@.len() == n,
            k == (Back {
                dy: scalar::terms(dy@),
                qkv: scalar::terms(qkv@),
                att: scalar::terms(att@),
                mask: mask@,
                scale: scale@,
            }),
            u@.len() == i + 1,
            forall|x: int|
                0 <= x <= i ==> (#[trigger] u@[x])@ == weight_grad(
                    k,
                    d,
                    bb as int,
                    i as int,
                    x,
                    h as int,
                ),
            dotted@ == row_dot(k, d, bb as int, i as int, h as int, (i + 1) as nat),
            inv@ == inverse_root::<T>(d.hs),
            slopes@.len() == s0.len() + j,
            kept@.len() == k0.len() + j,
            forall|x: int| 0 <= x < s0.len() ==> slopes@[x] == s0[x],
            forall|x: int| 0 <= x < k0.len() ==> kept@[x] == k0[x],
            forall|x: int|
                0 <= x <= i && x < j ==> (#[trigger] slopes@[s0.len() + x])@ == score_grad(
                    k,
                    d,
                    bb as int,
                    i as int,
                    x,
                    h as int,
                ),
            forall|x: int|
                0 <= x <= i && x < j ==> (#[trigger] kept@[k0.len() + x])@ == kept_weight(
                    k,
                    d,
                    bb as int,
                    i as int,
                    x,
                    h as int,
                ),
        decreases d.t - j,
    {
        if j <= i {
            let a: Num<T> = att[base + j];
            slopes.push(a.times(u[j].minus(dotted)).times(inv));
            kept.push(
                if masked {
                    a.times(Num::count(mask[base + j] as usize)).times(scale)
                } else {
                    a
                },
            );
        } else {
            slopes.push(Num::bits(0));
            kept.push(Num::bits(0));
        }
        j += 1;
    }
}

/// The entries of a column from row `from` on, of a square table of width `t`.
fn column_from<T: Scalar>(table: &[Num<T>], t: usize, from: usize) -> (w: Vec<Num<T>>)
    requires
        from < t,
        table@.len() == t * t,
    ensures
        w@.len() == t - from,
        forall|n: int| 0 <= n < t - from ==> #[trigger] w@[n] == table@[(from + n) * t + from],
{
    let size: usize = table.len();
    let mut w: Vec<Num<T>> = Vec::new();
    let mut i: usize = from;
    while i < t
        invariant
            from <= i <= t,
            from < t,
            size == table@.len(),
            size == t * t,
            w@.len() == i - from,
            forall|n: int| 0 <= n < i - from ==> #[trigger] w@[n] == table@[(from + n) * t + from],
        decreases t - i,
    {
        proof {
            lemma_inside(i as int, t as int, t as int, from as int, 1);
        }
        w.push(table[i * t + from]);
        i += 1;
    }
    w
}

/// The query and the output of the last position, as seen from position `pos`.
proof fn lemma_last(d: Dims, bb: int, pos: int, h: int)
    requires
        d.ok(),
        0 <= bb < d.b,
        0 <= pos < d.t,
        0 <= h < d.nh,
    ensures
        d.at(bb, pos, 0, h) + (d.t - pos - 1) * (3 * d.c) + d.hs <= d.b * d.t * (3 * d.c),
        d.out(bb, pos, h) + (d.t - pos - 1) * d.c + d.hs <= d.b * d.t * d.c,
{
    lemma_at(d, bb, d.t - 1, 0, h);
    lemma_stride(d, bb, pos, 0, h);
    lemma_stride(d, bb, d.t - 1, 0, h);
    let (w, c) = (3 * d.c, d.c as int);
    let n = d.t - pos - 1;
    assert(n * w + pos * w == (n + pos) * w) by (nonlinear_arith);
    assert(n * c + pos * c == (n + pos) * c) by (nonlinear_arith);
}

/// Adds the gradients of query, key and value of one position and head.
#[verifier::rlimit(40)]
fn add_head_grads<T: Scalar>(
    dqkv: &mut [Num<T>],
    slopes: &[Num<T>],
    kept: &[Num<T>],
    dy: &[Num<T>],
    qkv: &[Num<T>],
    d: Dims,
    bb: usize,
    pos: usize,
    h: usize,
    Ghost(k): Ghost<Back<T>>,
)
    requires
        d.ok(),
        bb < d.b,
        pos < d.t,
        h < d.nh,
        dy@.len() == d.b * d.t * d.c,
        qkv@.len() == d.b * d.t * (3 * d.c),
        old(dqkv)@.len() == d.b * d.t * (3 * d.c),
        k.dy == scalar::terms(dy@),
        k.qkv == scalar::terms(qkv@),
        slopes.len() == d.t * d.t,
        kept.len() == d.t * d.t,
        forall|i: int, j: int|
            0 <= j <= i < d.t ==> (#[trigger] slopes@[i * d.t + j])@ == score_grad(
                k,
                d,
                bb as int,
                i,
                j,
                h as int,
            ),
        forall|i: int, j: int|
            0 <= j <= i < d.t ==> (#[trigger] kept@[i * d.t + j])@ == kept_weight(
                k,
                d,
                bb as int,
                i,
                j,
                h as int,
            ),
    ensures
        final(dqkv)@.len() == old(dqkv)@.len(),
        forall|x: int|
            0 <= x < old(dqkv)@.len() ==> (#[trigger] final(dqkv)@[x])@ == if turn(d, x) == (bb
                * d.nh + h) * d.t + pos {
                qkv_grad_at(scalar::terms(old(dqkv)@), k, d, x)
            } else {
                old(dqkv)@[x]@
            },
{
    let ghost d0 = scalar::terms(dqkv@);
    let n: usize = dqkv.len();
    proof {
        lemma_at(d, bb as int, pos as int, 0, h as int);
        lemma_at(d, bb as int, pos as int, 1, h as int);
        lemma_at(d, bb as int, pos as int, 2, h as int);
        lemma_at(d, bb as int, 0, 1, h as int);
        lemma_sizes(d);
        lemma_inside(pos as int, d.t as int, d.t as int, 0, d.t as int);
        lemma_stride(d, bb as int, pos as int, 1, h as int);
        lemma_stride(d, bb as int, pos as int, 2, h as int);
        lemma_last(d, bb as int, pos as int, h as int);
    }
    let row: usize = bb * d.t + pos;
    let q_at: usize = row * (3 * d.c) + h * d.hs;
    let k_at: usize = q_at + d.c;
    let v_at: usize = k_at + d.c;
    let wq = vstd::slice::slice_subrange(slopes, pos * d.t, pos * d.t + pos + 1);
    let ghost tq = Seq::new(
        (pos + 1) as nat,
        |j: int| score_grad(k, d, bb as int, pos as int, j, h as int),
    );
    assert(scalar::terms(wq@) =~= tq) by {
        assert forall|j: int| 0 <= j < pos + 1 implies wq@[j]@ == tq[j] by {
            assert(wq@[j] == slopes@[pos * d.t + j]);
        }
    }
    add_weighted_rows(
        dqkv,
        q_at,
        d.hs,
        wq,
        qkv,
        (bb * d.t) * (3 * d.c) + d.c + h * d.hs,
        3 * d.c,
    );
    let ghost d1 = scalar::terms(dqkv@);
    let wk: Vec<Num<T>> = column_from(slopes, d.t, pos);
    let ghost tk = Seq::new(
        (d.t - pos) as nat,
        |j: int| score_grad(k, d, bb as int, pos + j, pos as int, h as int),
    );
    assert(scalar::terms(wk@) =~= tk) by {
        assert forall|j: int| 0 <= j < d.t - pos implies wk@[j]@ == tk[j] by {
            assert(wk@[j] == slopes@[(pos + j) * d.t + pos]);
        }
    }
    add_weighted_rows(dqkv, k_at, d.hs, wk.as_slice(), qkv, q_at, 3 * d.c);
    let ghost d2 = scalar::terms(dqkv@);
    let wv: Vec<Num<T>> = column_from(kept, d.t, pos);
    let ghost tv = Seq::new(
        (d.t - pos) as nat,
        |j: int| kept_weight(k, d, bb as int, pos + j, pos as int, h as int),
    );
    assert(scalar::terms(wv@) =~= tv) by {
        assert forall|j: int| 0 <= j < d.t - pos implies wv@[j]@ == tv[j] by {
            assert(wv@[j] == kept@[(pos + j) * d.t + pos]);
        }
    }
    add_weighted_rows(dqkv, v_at, d.hs, wv.as_slice(), dy, row * d.c + h * d.hs, d.c);
    assert forall|x: int| 0 <= x < n implies (#[trigger] dqkv@[x])@ == if turn(d, x) == (bb * d.nh
        + h) * d.t + pos {
        qkv_grad_at(d0, k, d, x)
    } else {
        d0[x]
    } by {
        lemma_place_of(d, x);
        let row2 = x / (3 * d.c);
        let col2 = x % (3 * d.c);
        let bb2 = row2 / d.t as int;
        let pos2 = row2 % d.t as int;
        let part2 = col2 / d.c as int;
        let h2 = (col2 % d.c as int) / d.hs as int;
        lemma_place(d, bb2, pos2, part2, h2, x);
        assert(d1[x] == if q_at <= x < q_at + d.hs {
            weighted(d0[x], tq, k.qkv, d.at(bb as int, 0, 1, h as int) + (x - q_at), 3 * d.c, (pos
                + 1) as nat)
        } else {
            d0[x]
        });
        assert(d2[x] == if k_at <= x < k_at + d.hs {
            weighted(d1[x], tk, k.qkv, q_at + (x - k_at), 3 * d.c, (d.t - pos) as nat)
        } else {
            d1[x]
        });
        if turn(d, x) == (bb * d.nh + h) * d.t + pos {
            lemma_turn_unique(d, bb as int, h as int, pos as int, bb2, h2, pos2);
        } else {
            if q_at <= x < q_at + d.hs {
                lemma_place(d, bb as int, pos as int, 0, h as int, x);
            }
            if k_at <= x < k_at + d.hs {
                lemma_place(d, bb as int, pos as int, 1, h as int, x);
            }
            if v_at <= x < v_at + d.hs {
                lemma_place(d, bb as int, pos as int, 2, h as int, x);
            }
        }
    }
}

/// The score gradients and kept weights of one sequence and head.
fn grad_tables<T: Scalar>(
    dy: &[Num<T>],
    qkv: &[Num<T>],
    att: &[Num<T>],
    mask: &[u8],
    scale: Num<T>,
    d: Dims,
    bb: usize,
    h: usize,
    Ghost(k): Ghost<Back<T>>,
) -> (r: (Vec<Num<T>>, Vec<Num<T>>))
    requires
        d.ok(),
        bb < d.b,
        h < d.nh,
        dy@.len() == d.b * d.t * d.c,
        qkv@.len() == d.b * d.t * (3 * d.c),
        att@.len() == d.b * d.nh * d.t * d.t,
        mask@.len() == 0 || mask@.len() == att@.len(),
        k == (Back {
            dy: scalar::terms(dy@),
            qkv: scalar::terms(qkv@),
            att: scalar::terms(att@),
            mask: mask@,
            scale: scale@,
        }),
    ensures
        r.0@.len() == d.t * d.t,
        r.1@.len() == d.t * d.t,
        forall|i: int, j: int|
            0 <= j <= i < d.t ==> (#[trigger] r.0@[i * d.t + j])@ == score_grad(
                k,
                d,
                bb as int,
                i,
                j,
                h as int,
            ),
        forall|i: int, j: int|
            0 <= j <= i < d.t ==> (#[trigger] r.1@[i * d.t + j])@ == kept_weight(
                k,
                d,
                bb as int,
                i,
                j,
                h as int,
            ),
{
    let mut slopes: Vec<Num<T>> = Vec::new();
    let mut kept: Vec<Num<T>> = Vec::new();
    let mut i: usize = 0;
    while i < d.t
        invariant
            i <= d.t,
            d.ok(),
            bb < d.b,
            h < d.nh,
            dy@.len() == d.b * d.t * d.c,
            qkv@.len() == d.b * d.t * (3 * d.c),
            att@.len() == d.b * d.nh * d.t * d.t,
            mask@.len() == 0 || mask@.len() == att@.len(),
            k == (Back {
                dy: scalar::terms(dy@),
                qkv: scalar::terms(qkv@),
                att: scalar::terms(att@),
                mask: mask@,
                scale: scale@,
            }),
            slopes@.len() == i * d.t,
            kept@.len() == i * d.t,
            forall|y: int, j: int|
                0 <= j <= y < i ==> (#[trigger] slopes@[y * d.t + j])@ == score_grad(
                    k,
                    d,
                    bb as int,
                    y,
                    j,
                    h as int,
                ),
            forall|y: int, j: int|
                0 <= j <= y < i ==> (#[trigger] kept@[y * d.t + j])@ == kept_weight(
                    k,
                    d,
                    bb as int,
                    y,
                    j,
                    h as int,
                ),
        decreases d.t - i,
    {
        let ghost s0 = slopes@;
        let ghost k0 = kept@;
        push_grad_row(&mut slopes, &mut kept, dy, qkv, att, mask, scale, d, bb, i, h, Ghost(k));
        assert((i + 1) * d.t == i * d.t + d.t) by (nonlinear_arith);
        assert forall|y: int, j: int| 0 <= j <= y < i + 1 implies (#[trigger] slopes@[y * d.t + j])@
            == score_grad(k, d, bb as int, y, j, h as int) by {
            if y < i {
                lemma_inside(y, i as int, d.t as int, j, 1);
                assert(slopes@[y * d.t + j] == s0[y * d.t + j]);
            } else {
                assert(slopes@[s0.len() + j]@ == score_grad(
                    k,
                    d,
                    bb as int,
                    i as int,
                    j,
                    h as int,
                ));
            }
        }
        assert forall|y: int, j: int| 0 <= j <= y < i + 1 implies (#[trigger] kept@[y * d.t + j])@
            == kept_weight(k, d, bb as int, y, j, h as int) by {
            if y < i {
                lemma_inside(y, i as int, d.t as int, j, 1);
                assert(kept@[y * d.t + j] == k0[y * d.t + j]);
            } else {
                assert(kept@[k0.len() + j]@ == kept_weight(
                    k,
                    d,
                    bb as int,
                    i as int,
                    j,
                    h as int,
                ));
            }
        }
        i += 1;
    }
    (slopes, kept)
}

/// Adds the gradients of queries, keys and values to `dqkv`, from the gradient `dy` of the
/// attention output.
pub fn attention_backward<T: Scalar>(
    dy: &[Num<T>],
    qkv: &[Num<T>],
    att: &[Num<T>],
    mask: &[u8],
    scale: Num<T>,
    dqkv: &mut [Num<T>],
    d: Dims,
)
    requires
        d.ok(),
        dy@.len() == d.b * d.t * d.c,
        qkv@.len() == d.b * d.t * (3 * d.c),
        att@.len() == d.b * d.nh * d.t * d.t,
        mask@.len() == 0 || mask@.len() == att@.len(),
        old(dqkv)@.len() == d.b * d.t * (3 * d.c),
    ensures
        final(dqkv)@.len() == old(dqkv)@.len(),
        scalar::terms(final(dqkv)@) == qkv_grads(
            scalar::terms(old(dqkv)@),
            (Back {
                dy: scalar::terms(dy@),
                qkv: scalar::terms(qkv@),
                att: scalar::terms(att@),
                mask: mask@,
                scale: scale@,
            }),
            d,
        ),
{
    let ghost k = Back {
        dy: scalar::terms(dy@),
        qkv: scalar::terms(qkv@),
        att: scalar::terms(att@),
        mask: mask@,
        scale: scale@,
    };
    let ghost d0 = scalar::terms(dqkv@);
    let n: usize = dqkv.len();
    let mut bb: usize = 0;
    assert forall|x: int| 0 <= x < n implies #[trigger] turn(d, x) >= 0 by {
        lemma_turn_range(d, x);
    }
    while bb < d.b
        invariant
            bb <= d.b,
            d.ok(),
            dy@.len() == d.b * d.t * d.c,
            qkv@.len() == d.b * d.t * (3 * d.c),
            att@.len() == d.b * d.nh * d.t * d.t,
            mask@.len() == 0 || mask@.len() == att@.len(),
            n == dqkv@.len(),
            n == d0.len(),
            n == d.b * d.t * (3 * d.c),
            k == (Back {
                dy: scalar::terms(dy@),
                qkv: scalar::terms(qkv@),
                att: scalar::terms(att@),
                mask: mask@,
                scale: scale@,
            }),
            forall|x: int|
                0 <= x < n ==> (#[trigger] dqkv@[x])@ == if turn(d, x) < (bb * d.nh) * d.t {
                    qkv_grad_at(d0, k, d, x)
                } else {
                    d0[x]
                },
        decreases d.b - bb,
    {
        let mut h: usize = 0;
        while h < d.nh
            invariant
                bb < d.b,
                h <= d.nh,
                d.ok(),
                dy@.len() == d.b * d.t * d.c,
                qkv@.len() == d.b * d.t * (3 * d.c),
                att@.len() == d.b * d.nh * d.t * d.t,
                mask@.len() == 0 || mask@.len() == att@.len(),
                n == dqkv@.len(),
                n == d0.len(),
                n == d.b * d.t * (3 * d.c),
                k == (Back {
                    dy: scalar::terms(dy@),
                    qkv: scalar::terms(qkv@),
                    att: scalar::terms(att@),
                    mask: mask@,
                    scale: scale@,
                }),
                forall|x: int|
                    0 <= x < n ==> (#[trigger] dqkv@[x])@ == if turn(d, x) < (bb * d.nh + h) * d.t {
                        qkv_grad_at(d0, k, d, x)
                    } else {
                        d0[x]
                    },
            decreases d.nh - h,
        {
            let (slopes, kept) = grad_tables(dy, qkv, att, mask, scale, d, bb, h, Ghost(k));
            let ghost job = bb * d.nh + h;
            let mut pos: usize = 0;
            while pos < d.t
                invariant
                    bb < d.b,
                    h < d.nh,
                    pos <= d.t,
                    d.ok(),
                    job == bb * d.nh + h,
                    dy@.len() == d.b * d.t * d.c,
                    qkv@.len() == d.b * d.t * (3 * d.c),
                    n == dqkv@.len(),
                    n == d0.len(),
                    n == d.b * d.t * (3 * d.c),
                    k.dy == scalar::terms(dy@),
                    k.qkv == scalar::terms(qkv@),
                    slopes@.len() == d.t * d.t,
                    kept@.len() == d.t * d.t,
                    forall|i: int, j: int|
                        0 <= j <= i < d.t ==> (#[trigger] slopes@[i * d.t + j])@ == score_grad(
                            k,
                            d,
                            bb as int,
                            i,
                            j,
                            h as int,
                        ),
                    forall|i: int, j: int|
                        0 <= j <= i < d.t ==> (#[trigger] kept@[i * d.t + j])@ == kept_weight(
                            k,
                            d,
                            bb as int,
                            i,
                            j,
                            h as int,
                        ),
                    forall|x: int|
                        0 <= x < n ==> (#[trigger] dqkv@[x])@ == if turn(d, x) < job * d.t + pos {
                            qkv_grad_at(d0, k, d, x)
                        } else {
                            d0[x]
                        },
                decreases d.t - pos,
            {
                let ghost before = scalar::terms(dqkv@);
                add_head_grads(
                    dqkv,
                    slopes.as_slice(),
                    kept.as_slice(),
                    dy,
                    qkv,
                    d,
                    bb,
                    pos,
                    h,
                    Ghost(k),
                );
                assert forall|x: int| 0 <= x < n implies (#[trigger] dqkv@[x])@ == if turn(d, x)
                    < job * d.t + pos + 1 {
                    qkv_grad_at(d0, k, d, x)
                } else {
                    d0[x]
                } by {
                    assert(before[x] == if turn(d, x) < job * d.t + pos {
                        qkv_grad_at(d0, k, d, x)
                    } else {
                        d0[x]
                    });
                }
                pos += 1;
            }
            assert((job + 1) * d.t == job * d.t + d.t) by (nonlinear_arith);
            h += 1;
        }
        assert((bb + 1) * d.nh == bb * d.nh + d.nh) by (nonlinear_arith);
        bb += 1;
    }
    assert forall|x: int| 0 <= x < n implies (#[trigger] dqkv@[x])@ == qkv_grad_at(d0, k, d, x) by {
        lemma_turn_range(d, x);
    }
    assert(scalar::terms(dqkv@) =~= qkv_grads(d0, k, d));
}

proof fn lemma_turn_range(d: Dims, x: int)
    requires
        d.ok(),
        0 <= x < d.b * d.t * (3 * d.c),
    ensures
        0 <= turn(d, x) < (d.b * d.nh) * d.t,
{
    lemma_place_of(d, x);
    let row = x / (3 * d.c);
    let bb = row / d.t as int;
    let h = ((x % (3 * d.c)) % d.c as int) / d.hs as int;
    lemma_inside(bb, d.b as int, d.nh as int, h, 1);
    lemma_inside(bb * d.nh + h, d.b * d.nh, d.t as int, row % d.t as int, 1);
}

} // verus!
