//! Matrix products and softmax on row-major matrices.
//!
//! The products add to what their output holds already; where a fresh result is wanted,
//! the caller sets the output to zero first.
use crate::scalar;
use crate::scalar::{Num, Scalar, Term};
use vstd::arithmetic::div_mod::*;
use vstd::prelude::*;

verus! {

/// A place in a matrix with `cols` columns lies in one row and one column.
pub proof fn lemma_cell(row: int, cols: int, col: int)
    requires
        0 <= col < cols,
    ensures
        (row * cols + col) / cols == row,
        (row * cols + col) % cols == col,
{
    lemma_fundamental_div_mod_converse(row * cols + col, cols, row, col);
}

/// A place before the end of row `row` of a matrix with at least `row + 1` rows.
pub proof fn lemma_row_end(row: int, rows: int, cols: int)
    requires
        0 <= row < rows,
        0 <= cols,
    ensures
        0 <= row * cols,
        (row + 1) * cols == row * cols + cols,
        row * cols + cols <= rows * cols,
{
    assert((row + 1) * cols == row * cols + cols) by (nonlinear_arith);
    assert((row + 1) * cols <= rows * cols) by (nonlinear_arith)
        requires
            row + 1 <= rows,
            0 <= cols,
    ;
    assert(0 <= row * cols) by (nonlinear_arith)
        requires
            0 <= row,
            0 <= cols,
    ;
}

/// `s` with the first `n` products of row `m` of `a` and column `o` of `b` added, those
/// left out whose factor from `a` is zero.
pub open spec fn nn_entry<T>(
    s: Term<T>,
    a: Seq<Term<T>>,
    b: Seq<Term<T>>,
    m: int,
    o: int,
    k: int,
    cols: int,
    n: nat,
) -> Term<T>
    decreases n,
{
    if n == 0 {
        s
    } else {
        scalar::add_unless_zero(
            nn_entry(s, a, b, m, o, k, cols, (n - 1) as nat),
            a[m * k + (n - 1)],
            b[(n - 1) * cols + o],
        )
    }
}

/// The entry at place `x` of `c + a * b`.
pub open spec fn nn_at<T>(
    c: Seq<Term<T>>,
    a: Seq<Term<T>>,
    b: Seq<Term<T>>,
    k: int,
    cols: int,
    x: int,
) -> Term<T> {
    nn_entry(c[x], a, b, x / cols, x % cols, k, cols, k as nat)
}

/// `c[rows, cols] + a[rows, k] * b[k, cols]`.
pub open spec fn nn<T>(
    c: Seq<Term<T>>,
    a: Seq<Term<T>>,
    b: Seq<Term<T>>,
    rows: int,
    k: int,
    cols: int,
) -> Seq<Term<T>> {
    Seq::new(
        c.len(),
        |x: int|
            if x < rows * cols {
                nn_at(c, a, b, k, cols, x)
            } else {
                c[x]
            },
    )
}

/// Adds `a[rows, k] * b[k, cols]` to `c[rows, cols]`.
pub fn mm_nn<T: Scalar>(
    c: &mut [Num<T>],
    a: &[Num<T>],
    b: &[Num<T>],
    rows: usize,
    k: usize,
    cols: usize,
)
    requires
        rows * cols <= old(c)@.len(),
        rows * k <= a.len(),
        k * cols <= b.len(),
    ensures
        final(c)@.len() == old(c)@.len(),
        scalar::terms(final(c)@) == nn(
            scalar::terms(old(c)@),
            scalar::terms(a@),
            scalar::terms(b@),
            rows as int,
            k as int,
            cols as int,
        ),
{
    let ghost c0 = scalar::terms(c@);
    let ghost at = scalar::terms(a@);
    let ghost bt = scalar::terms(b@);
    let n: usize = c.len();
    let mut m: usize = 0;
    while m < rows
        invariant
            m <= rows,
            n == c@.len(),
            c0.len() == n,
            rows * cols <= n,
            rows * k <= a.len(),
            k * cols <= b.len(),
            at == scalar::terms(a@),
            bt == scalar::terms(b@),
            forall|x: int|
                0 <= x < n ==> (#[trigger] c@[x])@ == if x < m * cols {
                    nn_at(c0, at, bt, k as int, cols as int, x)
                } else {
                    c0[x]
                },
        decreases rows - m,
    {
        proof {
            lemma_row_end(m as int, rows as int, cols as int);
            lemma_row_end(m as int, rows as int, k as int);
        }
        let base: usize = m * cols;
        let mut i: usize = 0;
        while i < k
            invariant
                m < rows,
                i <= k,
                n == c@.len(),
                c0.len() == n,
                base == m * cols,
                base + cols <= n,
                m * k + k <= a.len(),
                k * cols <= b.len(),
                at == scalar::terms(a@),
                bt == scalar::terms(b@),
                forall|x: int|
                    0 <= x < n ==> (#[trigger] c@[x])@ == if x < base {
                        nn_at(c0, at, bt, k as int, cols as int, x)
                    } else if x < base + cols {
                        nn_entry(
                            c0[x],
                            at,
                            bt,
                            m as int,
                            x - base,
                            k as int,
                            cols as int,
                            i as nat,
                        )
                    } else {
                        c0[x]
                    },
            decreases k - i,
        {
            proof {
                lemma_row_end(i as int, k as int, cols as int);
            }
            let av: Num<T> = a[m * k + i];
            let row: usize = i * cols;
            let mut o: usize = 0;
            while o < cols
                invariant
                    i < k,
                    o <= cols,
                    n == c@.len(),
                    c0.len() == n,
                    base == m * cols,
                    base + cols <= n,
                    row == i * cols,
                    row + cols <= b.len(),
                    av@ == at[m * k + i],
                    bt == scalar::terms(b@),
                    forall|x: int|
                        0 <= x < n ==> (#[trigger] c@[x])@ == if x < base {
                            nn_at(c0, at, bt, k as int, cols as int, x)
                        } else if x < base + cols {
                            nn_entry(
                                c0[x],
                                at,
                                bt,
                                m as int,
                                x - base,
                                k as int,
                                cols as int,
                                if x < base + o {
                                    (i + 1) as nat
                                } else {
                                    i as nat
                                },
                            )
                        } else {
                            c0[x]
                        },
                decreases cols - o,
            {
                c[base + o] = c[base + o].add_unless_zero(av, b[row + o]);
                o += 1;
            }
            i += 1;
        }
        proof {
            assert forall|x: int| 0 <= x < n implies (#[trigger] c@[x])@ == if x < (m + 1) * cols {
                nn_at(c0, at, bt, k as int, cols as int, x)
            } else {
                c0[x]
            } by {
                if base <= x < base + cols {
                    lemma_cell(m as int, cols as int, x - base);
                }
            }
        }
        m += 1;
    }
    assert(scalar::terms(c@) =~= nn(c0, at, bt, rows as int, k as int, cols as int));
}

/// The sum of the products of the first `n` numbers of `a` from `ai` on and of `b` from
/// `bi` on, added one by one to zero.
pub open spec fn dot<T>(a: Seq<Term<T>>, b: Seq<Term<T>>, ai: int, bi: int, n: nat) -> Term<T>
    decreases n,
{
    if n == 0 {
        scalar::zero()
    } else {
        scalar::sum(
            dot(a, b, ai, bi, (n - 1) as nat),
            scalar::product(a[ai + n - 1], b[bi + n - 1]),
        )
    }
}

/// The sum of the products of `n` numbers of `a` from `ai` on and of `b` from `bi` on.
pub fn dot_product<T: Scalar>(a: &[Num<T>], b: &[Num<T>], ai: usize, bi: usize, n: usize) -> (r:
    Num<T>)
    requires
        ai + n <= a.len(),
        bi + n <= b.len(),
    ensures
        r@ == dot(scalar::terms(a@), scalar::terms(b@), ai as int, bi as int, n as nat),
{
    let mut s: Num<T> = Num::bits(0);
    let mut i: usize = 0;
    while i < n
        invariant
            i <= n,
            ai + n <= a.len(),
            bi + n <= b.len(),
            s@ == dot(scalar::terms(a@), scalar::terms(b@), ai as int, bi as int, i as nat),
        decreases n - i,
    {
        s = s.plus(a[ai + i].times(b[bi + i]));
        i += 1;
    }
    s
}

/// The entry at place `x` of `c + a * b^T`.
pub open spec fn nt_at<T>(
    c: Seq<Term<T>>,
    a: Seq<Term<T>>,
    b: Seq<Term<T>>,
    k: int,
    cols: int,
    x: int,
) -> Term<T> {
    scalar::sum(c[x], dot(a, b, (x / cols) * k, (x % cols) * k, k as nat))
}

/// `c[rows, cols] + a[rows, k] * b[cols, k]^T`.
pub open spec fn nt<T>(
    c: Seq<Term<T>>,
    a: Seq<Term<T>>,
    b: Seq<Term<T>>,
    rows: int,
    k: int,
    cols: int,
) -> Seq<Term<T>> {
    Seq::new(
        c.len(),
        |x: int|
            if x < rows * cols {
                nt_at(c, a, b, k, cols, x)
            } else {
                c[x]
            },
    )
}

/// Adds `a[rows, k] * b[cols, k]^T` to `c[rows, cols]`.
pub fn mm_nt<T: Scalar>(
    c: &mut [Num<T>],
    a: &[Num<T>],
    b: &[Num<T>],
    rows: usize,
    k: usize,
    cols: usize,
)
    requires
        rows * cols <= old(c)@.len(),
        rows * k <= a.len(),
        cols * k <= b.len(),
    ensures
        final(c)@.len() == old(c)@.len(),
        scalar::terms(final(c)@) == nt(
            scalar::terms(old(c)@),
            scalar::terms(a@),
            scalar::terms(b@),
            rows as int,
            k as int,
            cols as int,
        ),
{
    let ghost c0 = scalar::terms(c@);
    let ghost at = scalar::terms(a@);
    let ghost bt = scalar::terms(b@);
    let n: usize = c.len();
    let mut m: usize = 0;
    while m < rows
        invariant
            m <= rows,
            n == c@.len(),
            c0.len() == n,
            rows * cols <= n,
            rows * k <= a.len(),
            cols * k <= b.len(),
            at == scalar::terms(a@),
            bt == scalar::terms(b@),
            forall|x: int|
                0 <= x < n ==> (#[trigger] c@[x])@ == if x < m * cols {
                    nt_at(c0, at, bt, k as int, cols as int, x)
                } else {
                    c0[x]
                },
        decreases rows - m,
    {
        proof {
            lemma_row_end(m as int, rows as int, cols as int);
            lemma_row_end(m as int, rows as int, k as int);
        }
        let base: usize = m * cols;
        let ai: usize = m * k;
        let mut o: usize = 0;
        while o < cols
            invariant
                m < rows,
                o <= cols,
                n == c@.len(),
                c0.len() == n,
                base == m * cols,
                base + cols <= n,
                ai == m * k,
                ai + k <= a.len(),
                cols * k <= b.len(),
                at == scalar::terms(a@),
                bt == scalar::terms(b@),
                forall|x: int|
                    0 <= x < n ==> (#[trigger] c@[x])@ == if x < base + o {
                        nt_at(c0, at, bt, k as int, cols as int, x)
                    } else {
                        c0[x]
                    },
            decreases cols - o,
        {
            proof {
                lemma_row_end(o as int, cols as int, k as int);
                lemma_cell(m as int, cols as int, o as int);
            }
            let s: Num<T> = dot_product(a, b, ai, o * k, k);
            c[base + o] = c[base + o].plus(s);
            o += 1;
        }
        m += 1;
    }
    assert(scalar::terms(c@) =~= nt(c0, at, bt, rows as int, k as int, cols as int));
}

/// `s` with the first `n` products of column `i` of `a` and column `o` of `b` added, those
/// left out whose factor from `b` is zero.
pub open spec fn tn_entry<T>(
    s: Term<T>,
    a: Seq<Term<T>>,
    b: Seq<Term<T>>,
    i: int,
    o: int,
    k: int,
    cols: int,
    n: nat,
) -> Term<T>
    decreases n,
{
    if n == 0 {
        s
    } else {
        scalar::add_unless_zero(
            tn_entry(s, a, b, i, o, k, cols, (n - 1) as nat),
            b[(n - 1) * cols + o],
            a[(n - 1) * k + i],
        )
    }
}

/// The entry at place `x` of `c + a^T * b`, after `n` rows of `a` and `b`.
pub open spec fn tn_at<T>(
    c: Seq<Term<T>>,
    a: Seq<Term<T>>,
    b: Seq<Term<T>>,
    k: int,
    cols: int,
    n: int,
    x: int,
) -> Term<T> {
    tn_entry(c[x], a, b, x / cols, x % cols, k, cols, n as nat)
}

/// `c[k, cols] + a[rows, k]^T * b[rows, cols]`.
pub open spec fn tn<T>(
    c: Seq<Term<T>>,
    a: Seq<Term<T>>,
    b: Seq<Term<T>>,
    rows: int,
    k: int,
    cols: int,
) -> Seq<Term<T>> {
    Seq::new(
        c.len(),
        |x: int|
            if x < k * cols {
                tn_at(c, a, b, k, cols, rows, x)
            } else {
                c[x]
            },
    )
}

/// Adds `a[rows, k]^T * b[rows, cols]` to `c[k, cols]`.
pub fn mm_tn<T: Scalar>(
    c: &mut [Num<T>],
    a: &[Num<T>],
    b: &[Num<T>],
    rows: usize,
    k: usize,
    cols: usize,
)
    requires
        k * cols <= old(c)@.len(),
        rows * k <= a.len(),
        rows * cols <= b.len(),
    ensures
        final(c)@.len() == old(c)@.len(),
        scalar::terms(final(c)@) == tn(
            scalar::terms(old(c)@),
            scalar::terms(a@),
            scalar::terms(b@),
            rows as int,
            k as int,
            cols as int,
        ),
{
    let ghost c0 = scalar::terms(c@);
    let ghost at = scalar::terms(a@);
    let ghost bt = scalar::terms(b@);
    let n: usize = c.len();
    let mut m: usize = 0;
    while m < rows
        invariant
            m <= rows,
            n == c@.len(),
            c0.len() == n,
            k * cols <= n,
            rows * k <= a.len(),
            rows * cols <= b.len(),
            at == scalar::terms(a@),
            bt == scalar::terms(b@),
            forall|x: int|
                0 <= x < n ==> (#[trigger] c@[x])@ == if x < k * cols {
                    tn_at(c0, at, bt, k as int, cols as int, m as int, x)
                } else {
                    c0[x]
                },
        decreases rows - m,
    {
        proof {
            lemma_row_end(m as int, rows as int, cols as int);
            lemma_row_end(m as int, rows as int, k as int);
        }
        let brow: usize = m * cols;
        let arow: usize = m * k;
        let mut i: usize = 0;
        while i < k
            invariant
                m < rows,
                i <= k,
                n == c@.len(),
                c0.len() == n,
                k * cols <= n,
                brow == m * cols,
                brow + cols <= b.len(),
                arow == m * k,
                arow + k <= a.len(),
                at == scalar::terms(a@),
                bt == scalar::terms(b@),
                forall|x: int|
                    0 <= x < n ==> (#[trigger] c@[x])@ == if x < i * cols {
                        tn_at(c0, at, bt, k as int, cols as int, m + 1, x)
                    } else if x < k * cols {
                        tn_at(c0, at, bt, k as int, cols as int, m as int, x)
                    } else {
                        c0[x]
                    },
            decreases k - i,
        {
            proof {
                lemma_row_end(i as int, k as int, cols as int);
            }
            let av: Num<T> = a[arow + i];
            let base: usize = i * cols;
            let mut o: usize = 0;
            while o < cols
                invariant
                    i < k,
                    o <= cols,
                    n == c@.len(),
                    c0.len() == n,
                    base == i * cols,
                    base + cols <= k * cols,
                    k * cols <= n,
                    brow == m * cols,
                    brow + cols <= b.len(),
                    av@ == at[m * k + i],
                    bt == scalar::terms(b@),
                    forall|x: int|
                        0 <= x < n ==> (#[trigger] c@[x])@ == if x < base + o {
                            tn_at(c0, at, bt, k as int, cols as int, m + 1, x)
                        } else if x < k * cols {
                            tn_at(c0, at, bt, k as int, cols as int, m as int, x)
                        } else {
                            c0[x]
                        },
                decreases cols - o,
            {
                proof {
                    lemma_cell(i as int, cols as int, o as int);
                }
                c[base + o] = c[base + o].add_unless_zero(b[brow + o], av);
                o += 1;
            }
            i += 1;
        }
        m += 1;
    }
    assert(scalar::terms(c@) =~= tn(c0, at, bt, rows as int, k as int, cols as int));
}

/// `x[rows, cols]` with `bias` added to each row.
pub open spec fn biased<T>(x: Seq<Term<T>>, bias: Seq<Term<T>>, rows: int, cols: int) -> Seq<
    Term<T>,
> {
    Seq::new(
        x.len(),
        |i: int|
            if i < rows * cols {
                scalar::sum(x[i], bias[i % cols])
            } else {
                x[i]
            },
    )
}

/// Adds `bias` to each row of `x[rows, cols]`.
pub fn add_bias_rows<T: Scalar>(x: &mut [Num<T>], bias: &[Num<T>], rows: usize, cols: usize)
    requires
        rows * cols <= old(x)@.len(),
        cols <= bias.len(),
    ensures
        final(x)@.len() == old(x)@.len(),
        scalar::terms(final(x)@) == biased(
            scalar::terms(old(x)@),
            scalar::terms(bias@),
            rows as int,
            cols as int,
        ),
{
    let ghost x0 = scalar::terms(x@);
    let ghost bt = scalar::terms(bias@);
    let n: usize = x.len();
    let mut m: usize = 0;
    while m < rows
        invariant
            m <= rows,
            n == x@.len(),
            x0.len() == n,
            rows * cols <= n,
            cols <= bias.len(),
            bt == scalar::terms(bias@),
            forall|i: int|
                0 <= i < n ==> (#[trigger] x@[i])@ == if i < m * cols {
                    scalar::sum(x0[i], bt[i % cols as int])
                } else {
                    x0[i]
                },
        decreases rows - m,
    {
        proof {
            lemma_row_end(m as int, rows as int, cols as int);
        }
        let base: usize = m * cols;
        let mut o: usize = 0;
        while o < cols
            invariant
                o <= cols,
                n == x@.len(),
                x0.len() == n,
                base == m * cols,
                base + cols <= n,
                cols <= bias.len(),
                bt == scalar::terms(bias@),
                forall|i: int|
                    0 <= i < n ==> (#[trigger] x@[i])@ == if i < base + o {
                        scalar::sum(x0[i], bt[i % cols as int])
                    } else {
                        x0[i]
                    },
            decreases cols - o,
        {
            proof {
                lemma_cell(m as int, cols as int, o as int);
            }
            x[base + o] = x[base + o].plus(bias[o]);
            o += 1;
        }
        m += 1;
    }
    assert(scalar::terms(x@) =~= biased(x0, bt, rows as int, cols as int));
}

/// The largest of the first `n` numbers, starting from minus infinity.
pub open spec fn largest<T>(x: Seq<Term<T>>, n: nat) -> Term<T>
    decreases n,
{
    if n == 0 {
        Term::Bits(0xff80_0000)
    } else {
        scalar::larger(largest(x, (n - 1) as nat), x[n - 1])
    }
}

/// The sum of the first `n` numbers, added one by one to zero.
pub open spec fn total<T>(x: Seq<Term<T>>, n: nat) -> Term<T>
    decreases n,
{
    if n == 0 {
        scalar::zero()
    } else {
        scalar::sum(total(x, (n - 1) as nat), x[n - 1])
    }
}

/// The exponentials of the numbers, each less the largest.
pub open spec fn exponentials<T>(x: Seq<Term<T>>) -> Seq<Term<T>> {
    Seq::new(
        x.len(),
        |i: int|
            scalar::apply1(
                scalar::Unary::Exp,
                scalar::difference(x[i], largest(x, x.len())),
            ),
    )
}

/// Exponentials scaled to add up to one.
pub open spec fn softmax<T>(x: Seq<Term<T>>) -> Seq<Term<T>> {
    let e = exponentials(x);
    Seq::new(
        x.len(),
        |i: int|
            scalar::product(e[i], scalar::quotient(scalar::one(), total(e, e.len()))),
    )
}

/// `x` with the stretch `[from, to)` replaced by its softmax.
pub open spec fn softmax_in<T>(x: Seq<Term<T>>, from: int, to: int) -> Seq<Term<T>> {
    x.take(from) + softmax(x.subrange(from, to)) + x.skip(to)
}

/// Replaces the stretch `[from, to)` by its softmax.
pub fn softmax_span<T: Scalar>(x: &mut [Num<T>], from: usize, to: usize)
    requires
        from <= to <= old(x)@.len(),
    ensures
        final(x)@.len() == old(x)@.len(),
        scalar::terms(final(x)@) == softmax_in(
            scalar::terms(old(x)@),
            from as int,
            to as int,
        ),
{
    let ghost x0 = scalar::terms(x@);
    let ghost s = x0.subrange(from as int, to as int);
    let ghost e = exponentials(s);
    let n: usize = x.len();
    let mut max: Num<T> = Num::bits(0xff80_0000);
    let mut i: usize = from;
    while i < to
        invariant
            from <= i <= to <= n,
            x@.len() == n,
            scalar::terms(x@) == x0,
            s == x0.subrange(from as int, to as int),
            max@ == largest(s, (i - from) as nat),
        decreases to - i,
    {
        assert(x@[i as int]@ == x0[i as int]);
        assert(s[i - from] == x0[i as int]);
        max = max.larger(x[i]);
        i += 1;
    }
    let mut sum: Num<T> = Num::bits(0);
    let mut i: usize = from;
    while i < to
        invariant
            from <= i <= to <= n,
            x@.len() == n,
            x0.len() == n,
            s == x0.subrange(from as int, to as int),
            e == exponentials(s),
            max@ == largest(s, s.len()),
            sum@ == total(e, (i - from) as nat),
            forall|j: int|
                0 <= j < n ==> (#[trigger] x@[j])@ == if from <= j < i {
                    e[j - from]
                } else {
                    x0[j]
                },
        decreases to - i,
    {
        assert(s[i - from] == x0[i as int]);
        let v: Num<T> = x[i].minus(max).exp();
        x[i] = v;
        assert(e[i - from] == v@);
        sum = sum.plus(v);
        i += 1;
    }
    let inv: Num<T> = Num::bits(0x3f80_0000).over(sum);
    let mut i: usize = from;
    while i < to
        invariant
            from <= i <= to <= n,
            x@.len() == n,
            x0.len() == n,
            s == x0.subrange(from as int, to as int),
            e == exponentials(s),
            inv@ == scalar::quotient(scalar::one(), total(e, e.len())),
            forall|j: int|
                0 <= j < n ==> (#[trigger] x@[j])@ == if from <= j < i {
                    softmax(s)[j - from]
                } else if i <= j < to {
                    e[j - from]
                } else {
                    x0[j]
                },
        decreases to - i,
    {
        x[i] = x[i].times(inv);
        i += 1;
    }
    assert(scalar::terms(x@) =~= softmax_in(x0, from as int, to as int));
}

/// Replaces a row by its softmax.
pub fn softmax_row<T: Scalar>(x: &mut [Num<T>])
    ensures
        final(x)@.len() == old(x)@.len(),
        scalar::terms(final(x)@) == softmax(scalar::terms(old(x)@)),
{
    let ghost x0 = scalar::terms(x@);
    let n: usize = x.len();
    softmax_span(x, 0, n);
    assert(x0.subrange(0, n as int) =~= x0);
    assert(softmax_in(x0, 0, n as int) =~= softmax(x0));
}

} // verus!
