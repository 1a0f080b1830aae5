//! The layers that work number by number or row by row: dropout, layer normalisation,
//! GELU and the gradients of biases.
use crate::ops;
use crate::rng;
use crate::rng::Rng;
use crate::scalar;
use crate::scalar::{Num, Scalar, Term, Unary};
use vstd::prelude::*;

verus! {

/// The mask tells which uniform draws from the state `s` on were at least `p`.
pub open spec fn is_mask<T: Scalar>(mask: Seq<u8>, p: Term<T>, s: rng::State) -> bool {
    forall|i: int|
        0 <= i < mask.len() ==> (#[trigger] mask[i] == 0 || mask[i] == 1) && scalar::may_be_at_least(
            Term::<T>::Bits(rng::uniform_single(rng::advance_by(s, i as nat))),
            p,
            mask[i] == 1,
        )
}

/// The numbers that the mask keeps, scaled; zero for the others.
pub open spec fn masked<T>(x: Seq<Term<T>>, mask: Seq<u8>, scale: Term<T>) -> Seq<Term<T>> {
    Seq::new(
        x.len(),
        |i: int|
            if mask[i] == 1 {
                scalar::product(x[i], scale)
            } else {
                scalar::zero()
            },
    )
}

/// Draws a mask for `n` numbers, each kept with probability `1 - p`.
pub fn draw_mask<T: Scalar>(n: usize, mask: &mut Vec<u8>, p: Num<T>, rng: &mut Rng)
    ensures
        final(mask)@.len() == n,
        is_mask(final(mask)@, p@, old(rng)@),
        final(rng)@ == rng::advance_by(old(rng)@, n as nat),
{
    let ghost s = rng@;
    mask.clear();
    let mut i: usize = 0;
    while i < n
        invariant
            i <= n,
            mask@.len() == i,
            s == old(rng)@,
            is_mask(mask@, p@, s),
            rng@ == rng::advance_by(s, i as nat),
        decreases n - i,
    {
        let ghost before = mask@;
        let u: Num<T> = Num::bits(rng.uniform_f32());
        let keep: bool = u.at_least(p);
        mask.push(
            if keep {
                1
            } else {
                0
            },
        );
        assert forall|j: int| 0 <= j < mask@.len() implies (#[trigger] mask@[j] == 0 || mask@[j] == 1)
            && scalar::may_be_at_least(
            Term::<T>::Bits(rng::uniform_single(rng::advance_by(s, j as nat))),
            p@,
            mask@[j] == 1,
        ) by {
            if j < i {
                assert(before[j] == mask@[j]);
            }
        }
        i += 1;
    }
}

/// Keeps each number with probability `1 - p`, scaled, and sets the others to zero; the
/// mask remembers which were kept.
pub fn dropout_forward<T: Scalar>(
    x: &mut [Num<T>],
    mask: &mut Vec<u8>,
    p: Num<T>,
    scale: Num<T>,
    rng: &mut Rng,
)
    ensures
        final(x)@.len() == old(x)@.len(),
        final(mask)@.len() == old(x)@.len(),
        is_mask(final(mask)@, p@, old(rng)@),
        scalar::terms(final(x)@) == masked(scalar::terms(old(x)@), final(mask)@, scale@),
        final(rng)@ == rng::advance_by(old(rng)@, old(x)@.len()),
{
    let ghost x0 = scalar::terms(x@);
    let n: usize = x.len();
    draw_mask(n, mask, p, rng);
    let mut i: usize = 0;
    while i < n
        invariant
            i <= n,
            x@.len() == n,
            x0.len() == n,
            mask@.len() == n,
            forall|j: int|
                0 <= j < n ==> (#[trigger] x@[j])@ == if j < i {
                    masked(x0, mask@, scale@)[j]
                } else {
                    x0[j]
                },
        decreases n - i,
    {
        x[i] = if mask[i] == 1 {
            x[i].times(scale)
        } else {
            Num::bits(0)
        };
        i += 1;
    }
    assert(scalar::terms(x@) =~= masked(x0, mask@, scale@));
}

/// The mean of a row.
pub open spec fn mean<T>(x: Seq<Term<T>>) -> Term<T> {
    scalar::quotient(ops::total(x, x.len()), Term::Count(x.len() as usize))
}

/// The sum of the squared distances of the first `n` numbers from `mu`.
pub open spec fn deviations<T>(x: Seq<Term<T>>, mu: Term<T>, n: nat) -> Term<T>
    decreases n,
{
    if n == 0 {
        scalar::zero()
    } else {
        let d = scalar::difference(x[n - 1], mu);
        scalar::sum(deviations(x, mu, (n - 1) as nat), scalar::product(d, d))
    }
}

/// The variance of a row.
pub open spec fn variance<T>(x: Seq<Term<T>>) -> Term<T> {
    scalar::quotient(deviations(x, mean(x), x.len()), Term::Count(x.len() as usize))
}

/// One over the standard deviation of a row, kept away from zero by 1e-5 under the root.
pub open spec fn rstd<T>(x: Seq<Term<T>>) -> Term<T> {
    scalar::quotient(
        scalar::one(),
        scalar::apply1(Unary::Sqrt, scalar::sum(variance(x), Term::Bits(0x3727_c5ac))),
    )
}

/// Row `r` of a matrix with `c` columns.
pub open spec fn row<A>(x: Seq<A>, r: int, c: int) -> Seq<A> {
    x.subrange(r * c, r * c + c)
}

/// The number at place `i` of `x` normalised over its row, scaled and shifted.
pub open spec fn ln_at<T>(
    x: Seq<Term<T>>,
    g: Seq<Term<T>>,
    bias: Option<Seq<Term<T>>>,
    c: int,
    i: int,
) -> Term<T> {
    let xr = row(x, i / c, c);
    let v = scalar::product(
        scalar::product(scalar::difference(x[i], mean(xr)), rstd(xr)),
        g[i % c],
    );
    match bias {
        Some(b) => scalar::sum(v, b[i % c]),
        None => v,
    }
}

/// Layer normalisation of the rows of `x[rows, c]`.
pub open spec fn normalised<T>(
    x: Seq<Term<T>>,
    g: Seq<Term<T>>,
    bias: Option<Seq<Term<T>>>,
    rows: int,
    c: int,
) -> Seq<Term<T>> {
    Seq::new((rows * c) as nat, |i: int| ln_at(x, g, bias, c, i))
}

/// The means of the rows of `x[rows, c]`.
pub open spec fn means<T>(x: Seq<Term<T>>, rows: int, c: int) -> Seq<Term<T>> {
    Seq::new(rows as nat, |r: int| mean(row(x, r, c)))
}

/// One over the standard deviation, for each row of `x[rows, c]`.
pub open spec fn rstds<T>(x: Seq<Term<T>>, rows: int, c: int) -> Seq<Term<T>> {
    Seq::new(rows as nat, |r: int| rstd(row(x, r, c)))
}

/// The formulas of numbers that may be absent.
pub open spec fn opt_terms<T: Scalar>(b: Option<&[Num<T>]>) -> Option<Seq<Term<T>>> {
    match b {
        Some(s) => Some(scalar::terms(s@)),
        None => None,
    }
}

/// The mean of a row, and one over its standard deviation.
fn row_moments<T: Scalar>(x: &[Num<T>], from: usize, c: usize) -> (r: (Num<T>, Num<T>))
    requires
        from + c <= x.len(),
    ensures
        ({
            let xr = scalar::terms(x@).subrange(from as int, from + c);
            r.0@ == mean(xr) && r.1@ == rstd(xr)
        }),
{
    let ghost xr = scalar::terms(x@).subrange(from as int, from + c);
    let mut mu: Num<T> = Num::bits(0);
    let mut d: usize = 0;
    while d < c
        invariant
            d <= c,
            from + c <= x.len(),
            xr == scalar::terms(x@).subrange(from as int, from + c),
            mu@ == ops::total(xr, d as nat),
        decreases c - d,
    {
        assert(xr[d as int] == x@[from + d]@);
        mu = mu.plus(x[from + d]);
        d += 1;
    }
    mu = mu.over(Num::count(c));
    let mut var: Num<T> = Num::bits(0);
    let mut d: usize = 0;
    while d < c
        invariant
            d <= c,
            from + c <= x.len(),
            xr == scalar::terms(x@).subrange(from as int, from + c),
            mu@ == mean(xr),
            var@ == deviations(xr, mean(xr), d as nat),
        decreases c - d,
    {
        assert(xr[d as int] == x@[from + d]@);
        let e: Num<T> = x[from + d].minus(mu);
        var = var.plus(e.times(e));
        d += 1;
    }
    var = var.over(Num::count(c));
    let rs: Num<T> = Num::bits(0x3f80_0000).over(var.plus(Num::bits(0x3727_c5ac)).sqrt());
    (mu, rs)
}

/// Normalises each row of `x[rows, c]`, scales it by `g` and adds `bias`; means and
/// inverse standard deviations are kept for the way back.
pub fn ln_forward<T: Scalar>(
    x: &[Num<T>],
    g: &[Num<T>],
    bias: Option<&[Num<T>]>,
    mean: &mut [Num<T>],
    rstd: &mut [Num<T>],
    y: &mut [Num<T>],
    rows: usize,
    c: usize,
)
    requires
        rows * c <= x.len(),
        c <= g.len(),
        bias matches Some(b) ==> c <= b.len(),
        old(mean)@.len() == rows,
        old(rstd)@.len() == rows,
        old(y)@.len() == rows * c,
    ensures
        final(mean)@.len() == rows,
        final(rstd)@.len() == rows,
        final(y)@.len() == rows * c,
        scalar::terms(final(mean)@) == means(scalar::terms(x@), rows as int, c as int),
        scalar::terms(final(rstd)@) == rstds(scalar::terms(x@), rows as int, c as int),
        scalar::terms(final(y)@) == normalised(
            scalar::terms(x@),
            scalar::terms(g@),
            opt_terms(bias),
            rows as int,
            c as int,
        ),
{
    let ghost xt = scalar::terms(x@);
    let ghost gt = scalar::terms(g@);
    let ghost bt = opt_terms(bias);
    let n: usize = y.len();
    let mut r: usize = 0;
    while r < rows
        invariant
            r <= rows,
            n == rows * c,
            n <= x.len(),
            c <= g.len(),
            bias matches Some(b) ==> c <= b.len(),
            mean@.len() == rows,
            rstd@.len() == rows,
            y@.len() == n,
            xt == scalar::terms(x@),
            gt == scalar::terms(g@),
            bt == opt_terms(bias),
            forall|j: int|
                0 <= j < r ==> (#[trigger] mean@[j])@ == means(xt, rows as int, c as int)[j],
            forall|j: int|
                0 <= j < r ==> (#[trigger] rstd@[j])@ == rstds(xt, rows as int, c as int)[j],
            forall|i: int|
                0 <= i < r * c ==> (#[trigger] y@[i])@ == ln_at(xt, gt, bt, c as int, i),
        decreases rows - r,
    {
        proof {
            ops::lemma_row_end(r as int, rows as int, c as int);
        }
        let base: usize = r * c;
        let (mu, rs) = row_moments(x, base, c);
        mean[r] = mu;
        rstd[r] = rs;
        let mut d: usize = 0;
        while d < c
            invariant
                d <= c,
                base == r * c,
                base + c <= n,
                n <= x.len(),
                c <= g.len(),
                bias matches Some(b) ==> c <= b.len(),
                y@.len() == n,
                xt == scalar::terms(x@),
                gt == scalar::terms(g@),
                bt == opt_terms(bias),
                mu@ == self::mean(row(xt, r as int, c as int)),
                rs@ == self::rstd(row(xt, r as int, c as int)),
                forall|i: int|
                    0 <= i < base + d ==> (#[trigger] y@[i])@ == ln_at(xt, gt, bt, c as int, i),
            decreases c - d,
        {
            proof {
                ops::lemma_cell(r as int, c as int, d as int);
            }
            let v: Num<T> = x[base + d].minus(mu).times(rs).times(g[d]);
            y[base + d] = match bias {
                Some(b) => v.plus(b[d]),
                None => v,
            };
            d += 1;
        }
        r += 1;
    }
    assert(scalar::terms(mean@) =~= means(xt, rows as int, c as int));
    assert(scalar::terms(rstd@) =~= rstds(xt, rows as int, c as int));
    assert(scalar::terms(y@) =~= normalised(xt, gt, bt, rows as int, c as int));
}

/// The normalised number at place `i`, from the means and inverse deviations of the rows.
pub open spec fn xhat<T>(
    x: Seq<Term<T>>,
    mean: Seq<Term<T>>,
    rstd: Seq<Term<T>>,
    c: int,
    i: int,
) -> Term<T> {
    scalar::product(scalar::difference(x[i], mean[i / c]), rstd[i / c])
}

/// The gradient at place `i` behind the scaling by `g`.
pub open spec fn dxh<T>(dy: Seq<Term<T>>, g: Seq<Term<T>>, c: int, i: int) -> Term<T> {
    scalar::product(dy[i], g[i % c])
}

/// The sum of the scaled gradients over the first `n` places of row `r`.
pub open spec fn ln_sum1<T>(dy: Seq<Term<T>>, g: Seq<Term<T>>, c: int, r: int, n: nat) -> Term<T>
    decreases n,
{
    if n == 0 {
        scalar::zero()
    } else {
        scalar::sum(ln_sum1(dy, g, c, r, (n - 1) as nat), dxh(dy, g, c, r * c + (n - 1)))
    }
}

/// What a layer normalisation keeps for the way back: its input, scale, means and inverse
/// standard deviations.
pub struct Norm<T> {
    pub x: Seq<Term<T>>,
    pub g: Seq<Term<T>>,
    pub mean: Seq<Term<T>>,
    pub rstd: Seq<Term<T>>,
}

/// The sum of the scaled gradients times the normalised numbers over the first `n` places
/// of row `r`.
pub open spec fn ln_sum2<T>(dy: Seq<Term<T>>, k: Norm<T>, c: int, r: int, n: nat) -> Term<T>
    decreases n,
{
    if n == 0 {
        scalar::zero()
    } else {
        let i = r * c + (n - 1);
        scalar::sum(
            ln_sum2(dy, k, c, r, (n - 1) as nat),
            scalar::product(dxh(dy, k.g, c, i), xhat(k.x, k.mean, k.rstd, c, i)),
        )
    }
}

/// The gradient with respect to the input of a layer normalisation, at place `i`.
pub open spec fn ln_dx_at<T>(dy: Seq<Term<T>>, k: Norm<T>, c: int, i: int) -> Term<T> {
    let r = i / c;
    let count = Term::Count(c as usize);
    let m1 = scalar::quotient(ln_sum1(dy, k.g, c, r, c as nat), count);
    let m2 = scalar::quotient(ln_sum2(dy, k, c, r, c as nat), count);
    scalar::product(
        k.rstd[r],
        scalar::difference(
            scalar::difference(dxh(dy, k.g, c, i), m1),
            scalar::product(xhat(k.x, k.mean, k.rstd, c, i), m2),
        ),
    )
}

/// The gradient with respect to the input of a layer normalisation.
pub open spec fn ln_dx<T>(dy: Seq<Term<T>>, k: Norm<T>, rows: int, c: int) -> Seq<Term<T>> {
    Seq::new(
        dy.len(),
        |i: int|
            if i < rows * c {
                ln_dx_at(dy, k, c, i)
            } else {
                dy[i]
            },
    )
}

/// The sum over the first `n` rows of column `d` of `dy` times the normalised numbers.
pub open spec fn scale_sum<T>(dy: Seq<Term<T>>, k: Norm<T>, c: int, d: int, n: nat) -> Term<T>
    decreases n,
{
    if n == 0 {
        scalar::zero()
    } else {
        let i = (n - 1) * c + d;
        scalar::sum(
            scale_sum(dy, k, c, d, (n - 1) as nat),
            scalar::product(dy[i], xhat(k.x, k.mean, k.rstd, c, i)),
        )
    }
}

/// The sum over the first `n` rows of column `d` of a matrix with `c` columns.
pub open spec fn column_sum<T>(x: Seq<Term<T>>, c: int, d: int, n: nat) -> Term<T>
    decreases n,
{
    if n == 0 {
        scalar::zero()
    } else {
        scalar::sum(column_sum(x, c, d, (n - 1) as nat), x[(n - 1) * c + d])
    }
}

/// The gradients with those of scale and bias added: scale at `[off, off + c)`, the bias,
/// where there is one, right behind it. `dy` is the gradient of the output.
pub open spec fn ln_grads<T>(
    grads: Seq<Term<T>>,
    dy: Seq<Term<T>>,
    k: Norm<T>,
    off: int,
    bias: bool,
    rows: int,
    c: int,
) -> Seq<Term<T>> {
    Seq::new(
        grads.len(),
        |i: int|
            if off <= i < off + c {
                scalar::sum(grads[i], scale_sum(dy, k, c, i - off, rows as nat))
            } else if bias && off + c <= i < off + 2 * c {
                scalar::sum(grads[i], column_sum(dy, c, i - off - c, rows as nat))
            } else {
                grads[i]
            },
    )
}

/// One row of the gradient with respect to the input.
fn ln_backward_row<T: Scalar>(
    dy: &mut [Num<T>],
    x: &[Num<T>],
    g: &[Num<T>],
    mean: &[Num<T>],
    rstd: &[Num<T>],
    r: usize,
    c: usize,
)
    requires
        r < mean.len(),
        r < rstd.len(),
        r * c + c <= old(dy)@.len(),
        r * c + c <= x.len(),
        c <= g.len(),
    ensures
        final(dy)@.len() == old(dy)@.len(),
        ({
            let k = Norm {
                x: scalar::terms(x@),
                g: scalar::terms(g@),
                mean: scalar::terms(mean@),
                rstd: scalar::terms(rstd@),
            };
            let dy0 = scalar::terms(old(dy)@);
            forall|i: int|
                0 <= i < dy0.len() ==> (#[trigger] final(dy)@[i])@ == if r * c <= i < r * c + c {
                    ln_dx_at(dy0, k, c as int, i)
                } else {
                    dy0[i]
                }
        }),
{
    let ghost dy0 = scalar::terms(dy@);
    let ghost k = Norm {
        x: scalar::terms(x@),
        g: scalar::terms(g@),
        mean: scalar::terms(mean@),
        rstd: scalar::terms(rstd@),
    };
    let n: usize = dy.len();
    let base: usize = r * c;
    let rs: Num<T> = rstd[r];
    let mu: Num<T> = mean[r];
    let mut s1: Num<T> = Num::bits(0);
    let mut s2: Num<T> = Num::bits(0);
    let mut d: usize = 0;
    while d < c
        invariant
            d <= c,
            n == dy@.len(),
            base == r * c,
            base + c <= n,
            base + c <= x.len(),
            c <= g.len(),
            scalar::terms(dy@) == dy0,
            k.x == scalar::terms(x@),
            k.g == scalar::terms(g@),
            mu@ == k.mean[r as int],
            rs@ == k.rstd[r as int],
            s1@ == ln_sum1(dy0, k.g, c as int, r as int, d as nat),
            s2@ == ln_sum2(dy0, k, c as int, r as int, d as nat),
        decreases c - d,
    {
        proof {
            ops::lemma_cell(r as int, c as int, d as int);
        }
        assert(dy@[base + d]@ == dy0[base + d]);
        let e: Num<T> = dy[base + d].times(g[d]);
        let h: Num<T> = x[base + d].minus(mu).times(rs);
        s1 = s1.plus(e);
        s2 = s2.plus(e.times(h));
        d += 1;
    }
    let m1: Num<T> = s1.over(Num::count(c));
    let m2: Num<T> = s2.over(Num::count(c));
    let mut d: usize = 0;
    while d < c
        invariant
            d <= c,
            n == dy@.len(),
            n == dy0.len(),
            base == r * c,
            base + c <= n,
            base + c <= x.len(),
            c <= g.len(),
            k.x == scalar::terms(x@),
            k.g == scalar::terms(g@),
            mu@ == k.mean[r as int],
            rs@ == k.rstd[r as int],
            m1@ == scalar::quotient(
                ln_sum1(dy0, k.g, c as int, r as int, c as nat),
                Term::Count(c),
            ),
            m2@ == scalar::quotient(ln_sum2(dy0, k, c as int, r as int, c as nat), Term::Count(c)),
            forall|i: int|
                0 <= i < n ==> (#[trigger] dy@[i])@ == if base <= i < base + d {
                    ln_dx_at(dy0, k, c as int, i)
                } else {
                    dy0[i]
                },
        decreases c - d,
    {
        proof {
            ops::lemma_cell(r as int, c as int, d as int);
        }
        let e: Num<T> = dy[base + d].times(g[d]);
        let h: Num<T> = x[base + d].minus(mu).times(rs);
        dy[base + d] = rs.times(e.minus(m1).minus(h.times(m2)));
        d += 1;
    }
}

/// The way back through a layer normalisation: `dy` is replaced by the gradient with
/// respect to the input, and the gradients of scale and bias are added to `grads`.
pub fn ln_backward<T: Scalar>(
    dy: &mut [Num<T>],
    x: &[Num<T>],
    g: &[Num<T>],
    mean: &[Num<T>],
    rstd: &[Num<T>],
    grads: &mut [Num<T>],
    off: usize,
    bias: bool,
    rows: usize,
    c: usize,
)
    requires
        rows * c <= old(dy)@.len(),
        rows * c <= x.len(),
        c <= g.len(),
        mean.len() == rows,
        rstd.len() == rows,
        off + c + (if bias {
            c as int
        } else {
            0
        }) <= old(grads)@.len(),
    ensures
        final(dy)@.len() == old(dy)@.len(),
        final(grads)@.len() == old(grads)@.len(),
        ({
            let k = Norm {
                x: scalar::terms(x@),
                g: scalar::terms(g@),
                mean: scalar::terms(mean@),
                rstd: scalar::terms(rstd@),
            };
            let dy0 = scalar::terms(old(dy)@);
            &&& scalar::terms(final(dy)@) == ln_dx(dy0, k, rows as int, c as int)
            &&& scalar::terms(final(grads)@) == ln_grads(
                scalar::terms(old(grads)@),
                dy0,
                k,
                off as int,
                bias,
                rows as int,
                c as int,
            )
        }),
{
    let ghost dy0 = scalar::terms(dy@);
    let ghost k = Norm {
        x: scalar::terms(x@),
        g: scalar::terms(g@),
        mean: scalar::terms(mean@),
        rstd: scalar::terms(rstd@),
    };
    let n: usize = dy.len();
    let ghost g0 = scalar::terms(grads@);
    let len: usize = grads.len();
    let mut d: usize = 0;
    while d < c
        invariant
            d <= c,
            n == dy@.len(),
            len == grads@.len(),
            len == g0.len(),
            rows * c <= n,
            rows * c <= x.len(),
            mean.len() == rows,
            rstd.len() == rows,
            off + c + (if bias {
                c as int
            } else {
                0
            }) <= len,
            k == (Norm {
                x: scalar::terms(x@),
                g: scalar::terms(g@),
                mean: scalar::terms(mean@),
                rstd: scalar::terms(rstd@),
            }),
            scalar::terms(dy@) == dy0,
            forall|i: int|
                0 <= i < len ==> (#[trigger] grads@[i])@ == if off <= i < off + d || (bias && off
                    + c <= i < off + c + d) {
                    ln_grads(g0, dy0, k, off as int, bias, rows as int, c as int)[i]
                } else {
                    g0[i]
                },
        decreases c - d,
    {
        let mut sg: Num<T> = Num::bits(0);
        let mut sb: Num<T> = Num::bits(0);
        let mut r: usize = 0;
        while r < rows
            invariant
                r <= rows,
                d < c,
                n == dy@.len(),
                rows * c <= n,
                rows * c <= x.len(),
                mean.len() == rows,
                rstd.len() == rows,
                k == (Norm {
                    x: scalar::terms(x@),
                    g: scalar::terms(g@),
                    mean: scalar::terms(mean@),
                    rstd: scalar::terms(rstd@),
                }),
                scalar::terms(dy@) == dy0,
                sg@ == scale_sum(dy0, k, c as int, d as int, r as nat),
                sb@ == column_sum(dy0, c as int, d as int, r as nat),
            decreases rows - r,
        {
            proof {
                ops::lemma_row_end(r as int, rows as int, c as int);
                ops::lemma_cell(r as int, c as int, d as int);
            }
            let i: usize = r * c + d;
            assert(dy@[i as int]@ == dy0[i as int]);
            let v: Num<T> = dy[i];
            sg = sg.plus(v.times(x[i].minus(mean[r]).times(rstd[r])));
            sb = sb.plus(v);
            r += 1;
        }
        grads[off + d] = grads[off + d].plus(sg);
        if bias {
            grads[off + c + d] = grads[off + c + d].plus(sb);
        }
        d += 1;
    }
    assert(scalar::terms(grads@) =~= ln_grads(
        g0,
        dy0,
        k,
        off as int,
        bias,
        rows as int,
        c as int,
    ));
    let mut r: usize = 0;
    while r < rows
        invariant
            r <= rows,
            n == dy@.len(),
            n == dy0.len(),
            rows * c <= n,
            rows * c <= x.len(),
            c <= g.len(),
            mean.len() == rows,
            rstd.len() == rows,
            k == (Norm {
                x: scalar::terms(x@),
                g: scalar::terms(g@),
                mean: scalar::terms(mean@),
                rstd: scalar::terms(rstd@),
            }),
            forall|i: int|
                0 <= i < n ==> (#[trigger] dy@[i])@ == if i < r * c {
                    ln_dx_at(dy0, k, c as int, i)
                } else {
                    dy0[i]
                },
        decreases rows - r,
    {
        proof {
            ops::lemma_row_end(r as int, rows as int, c as int);
        }
        let ghost before = scalar::terms(dy@);
        ln_backward_row(dy, x, g, mean, rstd, r, c);
        assert forall|i: int| 0 <= i < n implies (#[trigger] dy@[i])@ == if i < (r + 1) * c {
            ln_dx_at(dy0, k, c as int, i)
        } else {
            dy0[i]
        } by {
            if r * c <= i < r * c + c {
                lemma_ln_row_only(dy0, before, k, r as int, c as int, i);
            }
        }
        r += 1;
    }
    assert(scalar::terms(dy@) =~= ln_dx(dy0, k, rows as int, c as int));
}

/// The gradient at a place depends on the row of that place alone.
proof fn lemma_ln_row_only<T>(a: Seq<Term<T>>, b: Seq<Term<T>>, k: Norm<T>, r: int, c: int, i: int)
    requires
        0 <= r,
        r * c <= i < r * c + c,
        forall|j: int| r * c <= j < r * c + c ==> a[j] == b[j],
    ensures
        ln_dx_at(b, k, c, i) == ln_dx_at(a, k, c, i),
{
    ops::lemma_cell(r, c, i - r * c);
    lemma_ln_sums(a, b, k, r, c, c as nat);
}

proof fn lemma_ln_sums<T>(a: Seq<Term<T>>, b: Seq<Term<T>>, k: Norm<T>, r: int, c: int, n: nat)
    requires
        n <= c,
        forall|j: int| r * c <= j < r * c + c ==> a[j] == b[j],
    ensures
        ln_sum1(a, k.g, c, r, n) == ln_sum1(b, k.g, c, r, n),
        ln_sum2(a, k, c, r, n) == ln_sum2(b, k, c, r, n),
    decreases n,
{
    if n > 0 {
        lemma_ln_sums(a, b, k, r, c, (n - 1) as nat);
    }
}

/// What stands under the hyperbolic tangent of GELU.
pub open spec fn gelu_inner<T>(x: Term<T>) -> Term<T> {
    scalar::product(
        Term::Bits(0x3f4c_422a),
        scalar::sum(
            x,
            scalar::product(
                scalar::product(scalar::product(Term::Bits(0x3d37_2713), x), x),
                x,
            ),
        ),
    )
}

/// GELU by its approximation with the hyperbolic tangent.
pub open spec fn gelu<T>(x: Term<T>) -> Term<T> {
    scalar::product(
        scalar::product(Term::Bits(0x3f00_0000), x),
        scalar::sum(scalar::one(), scalar::apply1(Unary::Tanh, gelu_inner(x))),
    )
}

/// The slope of GELU.
pub open spec fn gelu_slope<T>(x: Term<T>) -> Term<T> {
    let half = Term::Bits(0x3f00_0000);
    let th = scalar::apply1(Unary::Tanh, gelu_inner(x));
    let flat = scalar::difference(scalar::one(), scalar::product(th, th));
    let rise = scalar::sum(
        scalar::one(),
        scalar::product(
            scalar::product(
                scalar::product(Term::Bits(0x4040_0000), Term::Bits(0x3d37_2713)),
                x,
            ),
            x,
        ),
    );
    scalar::sum(
        scalar::product(half, scalar::sum(scalar::one(), th)),
        scalar::product(
            scalar::product(
                scalar::product(scalar::product(half, x), flat),
                Term::Bits(0x3f4c_422a),
            ),
            rise,
        ),
    )
}

fn gelu_tanh<T: Scalar>(x: Num<T>) -> (r: Num<T>)
    ensures
        r@ == scalar::apply1(Unary::Tanh, gelu_inner(x@)),
{
    let cube: Num<T> = Num::bits(0x3d37_2713).times(x).times(x).times(x);
    Num::bits(0x3f4c_422a).times(x.plus(cube)).tanh()
}

/// GELU of every number.
pub open spec fn gelus<T>(x: Seq<Term<T>>) -> Seq<Term<T>> {
    Seq::new(x.len(), |i: int| gelu(x[i]))
}

/// The gradients times the slopes of GELU.
pub open spec fn sloped<T>(dy: Seq<Term<T>>, x: Seq<Term<T>>) -> Seq<Term<T>> {
    Seq::new(x.len(), |i: int| scalar::product(dy[i], gelu_slope(x[i])))
}

/// Fills `y` with GELU of every number.
pub fn gelu_forward<T: Scalar>(x: &[Num<T>], y: &mut [Num<T>])
    requires
        x@.len() == old(y)@.len(),
    ensures
        final(y)@.len() == old(y)@.len(),
        scalar::terms(final(y)@) == gelus(scalar::terms(x@)),
{
    let n: usize = x.len();
    let mut i: usize = 0;
    while i < n
        invariant
            i <= n,
            n == x@.len(),
            n == y@.len(),
            forall|j: int| 0 <= j < i ==> (#[trigger] y@[j])@ == gelu(x@[j]@),
        decreases n - i,
    {
        let xv: Num<T> = x[i];
        let th: Num<T> = gelu_tanh(xv);
        y[i] = Num::bits(0x3f00_0000).times(xv).times(Num::bits(0x3f80_0000).plus(th));
        i += 1;
    }
    assert(scalar::terms(y@) =~= gelus(scalar::terms(x@)));
}

/// The way back through GELU: each gradient is multiplied by the slope at `x`.
pub fn gelu_backward<T: Scalar>(dy: &mut [Num<T>], x: &[Num<T>])
    requires
        x@.len() == old(dy)@.len(),
    ensures
        final(dy)@.len() == old(dy)@.len(),
        scalar::terms(final(dy)@) == sloped(scalar::terms(old(dy)@), scalar::terms(x@)),
{
    let ghost dy0 = dy@;
    let n: usize = x.len();
    let mut i: usize = 0;
    while i < n
        invariant
            i <= n,
            n == x@.len(),
            n == dy@.len(),
            n == dy0.len(),
            forall|j: int|
                0 <= j < n ==> (#[trigger] dy@[j])@ == if j < i {
                    scalar::product(dy0[j]@, gelu_slope(x@[j]@))
                } else {
                    dy0[j]@
                },
        decreases n - i,
    {
        let xv: Num<T> = x[i];
        let th: Num<T> = gelu_tanh(xv);
        let half: Num<T> = Num::bits(0x3f00_0000);
        let one: Num<T> = Num::bits(0x3f80_0000);
        let flat: Num<T> = one.minus(th.times(th));
        let rise: Num<T> = one.plus(
            Num::bits(0x4040_0000).times(Num::bits(0x3d37_2713)).times(xv).times(xv),
        );
        let slope: Num<T> = half.times(one.plus(th)).plus(
            half.times(xv).times(flat).times(Num::bits(0x3f4c_422a)).times(rise),
        );
        dy[i] = dy[i].times(slope);
        i += 1;
    }
    assert(scalar::terms(dy@) =~= sloped(scalar::terms(dy0), scalar::terms(x@)));
}

/// The gradients with the column sums of `dy[rows, cols]` added at `[off, off + cols)`.
pub open spec fn bias_grads<T>(
    grads: Seq<Term<T>>,
    dy: Seq<Term<T>>,
    off: int,
    rows: int,
    cols: int,
) -> Seq<Term<T>> {
    Seq::new(
        grads.len(),
        |i: int|
            if off <= i < off + cols {
                scalar::sum(grads[i], column_sum(dy, cols, i - off, rows as nat))
            } else {
                grads[i]
            },
    )
}

/// Adds the gradient of a bias: the sums of the columns of `dy[rows, cols]`.
pub fn bias_grad<T: Scalar>(
    grads: &mut [Num<T>],
    off: usize,
    dy: &[Num<T>],
    rows: usize,
    cols: usize,
)
    requires
        off + cols <= old(grads)@.len(),
        rows * cols <= dy.len(),
    ensures
        final(grads)@.len() == old(grads)@.len(),
        scalar::terms(final(grads)@) == bias_grads(
            scalar::terms(old(grads)@),
            scalar::terms(dy@),
            off as int,
            rows as int,
            cols as int,
        ),
{
    let ghost g0 = scalar::terms(grads@);
    let ghost dt = scalar::terms(dy@);
    let len: usize = grads.len();
    let mut o: usize = 0;
    while o < cols
        invariant
            o <= cols,
            len == grads@.len(),
            len == g0.len(),
            off + cols <= len,
            rows * cols <= dy.len(),
            dt == scalar::terms(dy@),
            forall|i: int|
                0 <= i < len ==> (#[trigger] grads@[i])@ == if off <= i < off + o {
                    bias_grads(g0, dt, off as int, rows as int, cols as int)[i]
                } else {
                    g0[i]
                },
        decreases cols - o,
    {
        let mut s: Num<T> = Num::bits(0);
        let mut m: usize = 0;
        while m < rows
            invariant
                m <= rows,
                o < cols,
                rows * cols <= dy.len(),
                dt == scalar::terms(dy@),
                s@ == column_sum(dt, cols as int, o as int, m as nat),
            decreases rows - m,
        {
            proof {
                ops::lemma_row_end(m as int, rows as int, cols as int);
            }
            s = s.plus(dy[m * cols + o]);
            m += 1;
        }
        grads[off + o] = grads[off + o].plus(s);
        o += 1;
    }
    assert(scalar::terms(grads@) =~= bias_grads(g0, dt, off as int, rows as int, cols as int));
}

} // verus!
