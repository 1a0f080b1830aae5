//! The gradient of one head of attention over one sequence, in exact arithmetic.
use crate::adjoint;
use crate::exact;
use vstd::prelude::*;

verus! {

/// One head over one sequence: the gradients `dy` of its output, queries, keys and values with
/// their rates, the weights `a`, the factors `mu` of their dropout, and the factor `c0` of the
/// scores.
pub struct Head {
    pub t: int,
    pub hs: int,
    pub dy: spec_fn(int, int) -> real,
    pub q: spec_fn(int, int) -> real,
    pub rq: spec_fn(int, int) -> real,
    pub k: spec_fn(int, int) -> real,
    pub rk: spec_fn(int, int) -> real,
    pub v: spec_fn(int, int) -> real,
    pub rv: spec_fn(int, int) -> real,
    pub a: spec_fn(int, int) -> real,
    pub mu: spec_fn(int, int) -> real,
    pub c0: real,
}

impl Head {
    /// The gradient of a weight as it is applied.
    pub open spec fn s(self, i: int, j: int) -> real {
        exact::sum(self.hs, |e: int| exact::times((self.dy)(i, e), (self.v)(j, e)))
    }

    /// The gradient of a weight.
    pub open spec fn u(self, i: int, j: int) -> real {
        exact::times(self.s(i, j), (self.mu)(i, j))
    }

    /// The weights of a position times their gradients.
    pub open spec fn dots(self, i: int) -> real {
        exact::sum(i + 1, |j: int| exact::times((self.a)(i, j), self.u(i, j)))
    }

    /// The gradient of the product of a query and a key.
    pub open spec fn g(self, i: int, j: int) -> real {
        exact::times(exact::times((self.a)(i, j), self.u(i, j) - self.dots(i)), self.c0)
    }

    /// The rate of the product of a query and a key.
    pub open spec fn product_rate(self, i: int, j: int) -> real {
        exact::sum(
            self.hs,
            |e: int|
                exact::times((self.rq)(i, e), (self.k)(j, e)) + exact::times(
                    (self.q)(i, e),
                    (self.rk)(j, e),
                ),
        )
    }

    /// The rate of a score.
    pub open spec fn score_rate(self, i: int, j: int) -> real {
        exact::times(self.product_rate(i, j), self.c0)
    }

    /// How fast the scores of a position grow, on the average of its weights.
    pub open spec fn mean(self, i: int) -> real {
        exact::sum(i + 1, |l: int| exact::times((self.a)(i, l), self.score_rate(i, l)))
    }

    /// The rate of a weight.
    pub open spec fn weight_rate(self, i: int, j: int) -> real {
        exact::times((self.a)(i, j), self.score_rate(i, j) - self.mean(i))
    }

    /// The weight as it is applied; none to a later position.
    pub open spec fn w(self, i: int, j: int) -> real {
        if j <= i {
            exact::times((self.a)(i, j), (self.mu)(i, j))
        } else {
            0real
        }
    }

    /// The rate of the weight as it is applied.
    pub open spec fn rw(self, i: int, j: int) -> real {
        if j <= i {
            exact::times(self.weight_rate(i, j), (self.mu)(i, j))
        } else {
            0real
        }
    }

    /// The gradient of the product of a query and a key; none of a later position.
    pub open spec fn gg(self, i: int, j: int) -> real {
        if j <= i {
            self.g(i, j)
        } else {
            0real
        }
    }

    /// The rate of the output against its gradient.
    pub open spec fn output(self) -> real {
        exact::sum2(
            self.t,
            self.hs,
            |i: int, e: int|
                exact::times(
                    (self.dy)(i, e),
                    exact::sum(
                        self.t,
                        |j: int|
                            exact::times(self.rw(i, j), (self.v)(j, e)) + exact::times(
                                self.w(i, j),
                                (self.rv)(j, e),
                            ),
                    ),
                ),
        )
    }

    /// The rates of the queries against their gradients.
    pub open spec fn queries(self) -> real {
        exact::sum2(
            self.t,
            self.hs,
            |i: int, e: int|
                exact::times(
                    exact::sum(self.t, |j: int| exact::times(self.gg(i, j), (self.k)(j, e))),
                    (self.rq)(i, e),
                ),
        )
    }

    /// The rates of the keys against their gradients.
    pub open spec fn keys(self) -> real {
        exact::sum2(
            self.t,
            self.hs,
            |j: int, e: int|
                exact::times(
                    exact::sum(self.t, |i: int| exact::times(self.gg(i, j), (self.q)(i, e))),
                    (self.rk)(j, e),
                ),
        )
    }

    /// The rates of the values against their gradients.
    pub open spec fn values(self) -> real {
        exact::sum2(
            self.t,
            self.hs,
            |j: int, e: int|
                exact::times(
                    exact::sum(self.t, |i: int| exact::times(self.w(i, j), (self.dy)(i, e))),
                    (self.rv)(j, e),
                ),
        )
    }
}

/// One term of a row of weights, seen from the weights and from the scores.
proof fn lemma_term(s: real, mu: real, a: real, rs: real, mean: real)
    ensures
        exact::times(s, exact::times(exact::times(a, rs - mean), mu)) == exact::times(
            exact::times(a, exact::times(s, mu)),
            rs,
        ) + exact::times(-mean, exact::times(a, exact::times(s, mu))),
{
    let u = exact::times(s, mu);
    let ra = exact::times(a, rs - mean);
    exact::lemma_commutes(ra, mu);
    exact::lemma_associates(s, mu, ra);
    // u * (a * (rs - mean)) is (a * u) * (rs - mean).
    exact::lemma_commutes(u, ra);
    exact::lemma_swaps(a, rs - mean, u);
    let au = exact::times(a, u);
    exact::lemma_distributes(au, rs, mean);
    exact::lemma_negates(mean, au);
    exact::lemma_commutes(mean, au);
}

/// One row of weights: their rates against their gradients are the rates of the products of
/// query and keys against theirs.
proof fn lemma_weights(hd: Head, i: int)
    requires
        0 <= i < hd.t,
    ensures
        exact::sum(hd.t, |j: int| exact::times(hd.s(i, j), hd.rw(i, j))) == exact::sum(
            hd.t,
            |j: int| exact::times(hd.gg(i, j), hd.product_rate(i, j)),
        ),
{
    let n = i + 1;
    let (dots, mean, c0) = (hd.dots(i), hd.mean(i), hd.c0);
    let au = |j: int| exact::times((hd.a)(i, j), hd.u(i, j));
    let ar = |j: int| exact::times((hd.a)(i, j), hd.score_rate(i, j));
    let x = |j: int| exact::times(au(j), hd.score_rate(i, j));
    // From the weights.
    let f = |j: int| exact::times(hd.s(i, j), hd.rw(i, j));
    exact::lemma_up_to(
        hd.t,
        n,
        f,
        |j: int|
            if j < n {
                f(j)
            } else {
                0real
            },
    );
    assert forall|j: int| 0 <= j < hd.t implies #[trigger] f(j) == if j < n {
        f(j)
    } else {
        0real
    } by {
        exact::lemma_units(hd.s(i, j));
    }
    exact::lemma_same(
        hd.t,
        f,
        |j: int|
            if j < n {
                f(j)
            } else {
                0real
            },
    );
    let f2 = |j: int| exact::times(-mean, au(j));
    assert forall|j: int| 0 <= j < n implies #[trigger] f(j) == x(j) + f2(j) by {
        lemma_term(hd.s(i, j), (hd.mu)(i, j), (hd.a)(i, j), hd.score_rate(i, j), mean);
    }
    exact::lemma_plus(n, x, f2, f);
    exact::lemma_scaled(n, -mean, au, f2);
    exact::lemma_negates(mean, dots);
    // From the scores.
    let g = |j: int| exact::times(hd.gg(i, j), hd.product_rate(i, j));
    exact::lemma_up_to(
        hd.t,
        n,
        g,
        |j: int|
            if j < n {
                g(j)
            } else {
                0real
            },
    );
    assert forall|j: int| 0 <= j < hd.t implies #[trigger] g(j) == if j < n {
        g(j)
    } else {
        0real
    } by {
        exact::lemma_units(hd.product_rate(i, j));
    }
    exact::lemma_same(
        hd.t,
        g,
        |j: int|
            if j < n {
                g(j)
            } else {
                0real
            },
    );
    let g2 = |j: int| exact::times(-dots, ar(j));
    assert forall|j: int| 0 <= j < n implies #[trigger] g(j) == x(j) + g2(j) by {
        let (a, u, pr, rs) = ((hd.a)(i, j), hd.u(i, j), hd.product_rate(i, j), hd.score_rate(i, j));
        let aud = exact::times(a, u - dots);
        exact::lemma_associates(aud, c0, pr);
        exact::lemma_commutes(c0, pr);
        exact::lemma_distributes(a, u, dots);
        exact::lemma_distributes(rs, exact::times(a, u), exact::times(a, dots));
        exact::lemma_commutes(a, dots);
        exact::lemma_associates(dots, a, rs);
        exact::lemma_negates(dots, exact::times(a, rs));
    }
    exact::lemma_plus(n, x, g2, g);
    exact::lemma_scaled(n, -dots, ar, g2);
    exact::lemma_negates(dots, mean);
    exact::lemma_commutes(dots, mean);
}

/// One head over one sequence: the rate of its output falls to queries, keys and values.
pub proof fn lemma_one_head(hd: Head)
    ensures
        hd.output() == hd.queries() + hd.keys() + hd.values(),
{
    let (t, hs) = (hd.t, hd.hs);
    let w = |i: int, j: int| hd.w(i, j);
    let rw = |i: int, j: int| hd.rw(i, j);
    adjoint::lemma_product_rule(t, t, hs, hd.dy, w, rw, hd.v, hd.rv);
    // The output.
    let o1 = |i: int, e: int|
        exact::times(
            (hd.dy)(i, e),
            exact::sum(
                t,
                |j: int|
                    exact::times(rw(i, j), (hd.v)(j, e)) + exact::times(w(i, j), (hd.rv)(j, e)),
            ),
        );
    let o2 = |i: int, e: int|
        exact::times(
            (hd.dy)(i, e),
            exact::sum(
                hd.t,
                |j: int|
                    exact::times(hd.rw(i, j), (hd.v)(j, e)) + exact::times(
                        hd.w(i, j),
                        (hd.rv)(j, e),
                    ),
            ),
        );
    assert forall|i: int, e: int| 0 <= i < t && 0 <= e < hs implies #[trigger] o1(i, e) == o2(
        i,
        e,
    ) by {
        exact::lemma_same(
            t,
            |j: int| exact::times(rw(i, j), (hd.v)(j, e)) + exact::times(w(i, j), (hd.rv)(j, e)),
            |j: int|
                exact::times(hd.rw(i, j), (hd.v)(j, e)) + exact::times(hd.w(i, j), (hd.rv)(j, e)),
        );
    }
    exact::lemma_same2(t, hs, o1, o2);
    // The values.
    let v1 = |j: int, e: int|
        exact::times(
            exact::sum(t, |i: int| exact::times((hd.dy)(i, e), w(i, j))),
            (hd.rv)(j, e),
        );
    let v2 = |j: int, e: int|
        exact::times(
            exact::sum(hd.t, |i: int| exact::times(hd.w(i, j), (hd.dy)(i, e))),
            (hd.rv)(j, e),
        );
    assert forall|j: int, e: int| 0 <= j < t && 0 <= e < hs implies #[trigger] v1(j, e) == v2(
        j,
        e,
    ) by {
        let x = |i: int| exact::times((hd.dy)(i, e), w(i, j));
        let y = |i: int| exact::times(hd.w(i, j), (hd.dy)(i, e));
        assert forall|i: int| 0 <= i < t implies #[trigger] x(i) == y(i) by {
            exact::lemma_commutes((hd.dy)(i, e), hd.w(i, j));
        }
        exact::lemma_same(t, x, y);
    }
    exact::lemma_same2(t, hs, v1, v2);
    // The weights.
    let a1 = |i: int, j: int|
        exact::times(
            exact::sum(hs, |e: int| exact::times((hd.dy)(i, e), (hd.v)(j, e))),
            rw(i, j),
        );
    let gg = |i: int, j: int| hd.gg(i, j);
    let kt = |e: int, j: int| (hd.k)(j, e);
    let rkt = |e: int, j: int| (hd.rk)(j, e);
    let a2 = |i: int, j: int|
        exact::times(
            gg(i, j),
            exact::sum(
                hs,
                |e: int|
                    exact::times((hd.rq)(i, e), kt(e, j)) + exact::times((hd.q)(i, e), rkt(e, j)),
            ),
        );
    let r1 = |i: int| exact::sum(t, |j: int| a1(i, j));
    let r2 = |i: int| exact::sum(t, |j: int| a2(i, j));
    assert forall|i: int| 0 <= i < t implies #[trigger] r1(i) == r2(i) by {
        lemma_weights(hd, i);
        exact::lemma_same(
            t,
            |j: int| a1(i, j),
            |j: int| exact::times(hd.s(i, j), hd.rw(i, j)),
        );
        let x = |j: int| a2(i, j);
        let y = |j: int| exact::times(hd.gg(i, j), hd.product_rate(i, j));
        assert forall|j: int| 0 <= j < t implies #[trigger] x(j) == y(j) by {
            exact::lemma_same(
                hs,
                |e: int|
                    exact::times((hd.rq)(i, e), kt(e, j)) + exact::times((hd.q)(i, e), rkt(e, j)),
                |e: int|
                    exact::times((hd.rq)(i, e), (hd.k)(j, e)) + exact::times(
                        (hd.q)(i, e),
                        (hd.rk)(j, e),
                    ),
            );
        }
        exact::lemma_same(t, x, y);
    }
    exact::lemma_same(t, r1, r2);
    // The queries and keys.
    adjoint::lemma_product_rule(t, hs, t, gg, hd.q, hd.rq, kt, rkt);
    let q1 = |i: int, e: int|
        exact::times(exact::sum(t, |j: int| exact::times(gg(i, j), kt(e, j))), (hd.rq)(i, e));
    let q2 = |i: int, e: int|
        exact::times(
            exact::sum(hd.t, |j: int| exact::times(hd.gg(i, j), (hd.k)(j, e))),
            (hd.rq)(i, e),
        );
    assert forall|i: int, e: int| 0 <= i < t && 0 <= e < hs implies #[trigger] q1(i, e) == q2(
        i,
        e,
    ) by {
        exact::lemma_same(
            t,
            |j: int| exact::times(gg(i, j), kt(e, j)),
            |j: int| exact::times(hd.gg(i, j), (hd.k)(j, e)),
        );
    }
    exact::lemma_same2(t, hs, q1, q2);
    let k1 = |e: int, j: int|
        exact::times(exact::sum(t, |i: int| exact::times(gg(i, j), (hd.q)(i, e))), rkt(e, j));
    let k2 = |j: int, e: int|
        exact::times(
            exact::sum(hd.t, |i: int| exact::times(hd.gg(i, j), (hd.q)(i, e))),
            (hd.rk)(j, e),
        );
    assert forall|e: int, j: int| 0 <= e < hs && 0 <= j < t implies #[trigger] k1(e, j) == k2(
        j,
        e,
    ) by {
        exact::lemma_same(
            t,
            |i: int| exact::times(gg(i, j), (hd.q)(i, e)),
            |i: int| exact::times(hd.gg(i, j), (hd.q)(i, e)),
        );
    }
    exact::lemma_swapped(hs, t, k1, k2);
}

/// A sum over rows of width `w` and, in each, over the places from `o` on that the heads
/// share, by sequences and heads.
pub proof fn lemma_by_heads(
    b: int,
    t: int,
    nh: int,
    hs: int,
    w: int,
    o: int,
    f: spec_fn(int) -> real,
    g: spec_fn(int, int) -> real,
)
    requires
        0 <= b,
        0 <= t,
        0 <= nh,
        0 <= hs,
        forall|bb: int, h: int|
            0 <= bb < b && 0 <= h < nh ==> #[trigger] g(bb, h) == exact::sum2(
                t,
                hs,
                |i: int, e: int| f((bb * t + i) * w + o + h * hs + e),
            ),
    ensures
        exact::sum(b * t, |row: int| exact::sum(nh * hs, |x: int| f(row * w + o + x)))
            == exact::sum2(b, nh, g),
{
    let rows = |row: int| exact::sum(nh * hs, |x: int| f(row * w + o + x));
    let r2 = |bb: int, i: int| rows(bb * t + i);
    exact::lemma_by_rows(b, t, rows, r2);
    let left = |bb: int| exact::sum(t, |i: int| r2(bb, i));
    let right = |bb: int| exact::sum(nh, |h: int| g(bb, h));
    assert forall|bb: int| 0 <= bb < b implies #[trigger] left(bb) == right(bb) by {
        let part = |i: int, h: int|
            exact::sum(hs, |e: int| f((bb * t + i) * w + o + h * hs + e));
        let x = |i: int| r2(bb, i);
        let y = |i: int| exact::sum(nh, |h: int| part(i, h));
        assert forall|i: int| 0 <= i < t implies #[trigger] x(i) == y(i) by {
            let row = bb * t + i;
            let flat = |x: int| f(row * w + o + x);
            let cells = |h: int, e: int| f(row * w + o + h * hs + e);
            assert forall|h: int, e: int| 0 <= h < nh && 0 <= e < hs implies #[trigger] cells(
                h,
                e,
            ) == flat(h * hs + e) by {
                assert(row * w + o + (h * hs + e) == row * w + o + h * hs + e);
            }
            exact::lemma_by_rows(nh, hs, flat, cells);
            let u = |h: int| exact::sum(hs, |e: int| cells(h, e));
            let v = |h: int| part(i, h);
            assert forall|h: int| 0 <= h < nh implies #[trigger] u(h) == v(h) by {
                exact::lemma_same(
                    hs,
                    |e: int| cells(h, e),
                    |e: int| f((bb * t + i) * w + o + h * hs + e),
                );
            }
            exact::lemma_same(nh, u, v);
        }
        exact::lemma_same(t, x, y);
        let turned = |h: int, i: int| part(i, h);
        exact::lemma_swapped(t, nh, part, turned);
        let p = |h: int| exact::sum(t, |i: int| turned(h, i));
        let q = |h: int| g(bb, h);
        assert forall|h: int| 0 <= h < nh implies #[trigger] p(h) == q(h) by {
            let c = |i: int, e: int| f((bb * t + i) * w + o + h * hs + e);
            let u = |i: int| turned(h, i);
            let v = |i: int| exact::sum(hs, |e: int| c(i, e));
            assert forall|i: int| 0 <= i < t implies #[trigger] u(i) == v(i) by {
                exact::lemma_same(
                    hs,
                    |e: int| f((bb * t + i) * w + o + h * hs + e),
                    |e: int| c(i, e),
                );
            }
            exact::lemma_same(t, u, v);
            assert(g(bb, h) == exact::sum2(t, hs, c));
        }
        exact::lemma_same(nh, p, q);
    }
    exact::lemma_same(b, left, right);
}

} // verus!
