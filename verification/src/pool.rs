//! How work on many items is shared out.
use crate::scalar;
use crate::scalar::{Num, Scalar};
use vstd::arithmetic::div_mod::*;
use vstd::arithmetic::mul::*;
use vstd::prelude::*;

verus! {

/// Work below this total is not worth sharing out.
pub const MIN_WORK: usize = 0x10_0000;

/// How many workers take part in work on `n` items.
pub open spec fn workers(threads: nat, n: nat, work_per_item: nat) -> nat {
    if n * work_per_item < MIN_WORK || threads == 0 || n == 0 {
        1
    } else if threads < n {
        threads
    } else {
        n
    }
}

/// How many items a worker takes: an even share, rounded up.
pub open spec fn share(threads: nat, n: nat, work_per_item: nat) -> nat {
    let w = workers(threads, n, work_per_item);
    if n % w == 0 {
        n / w
    } else {
        n / w + 1
    }
}

/// How many stretches of `chunk` items hold `n` items.
pub open spec fn chunk_count(n: nat, chunk: nat) -> nat {
    if n == 0 {
        0
    } else if n % chunk == 0 {
        n / chunk
    } else {
        n / chunk + 1
    }
}

/// Stretch `k` of `chunk` items among `n`: its first item and the one behind its last.
pub open spec fn stretch(n: nat, chunk: nat, k: int) -> (usize, usize) {
    (
        (k * chunk) as usize,
        if (k + 1) * chunk < n {
            ((k + 1) * chunk) as usize
        } else {
            n as usize
        },
    )
}

/// The jobs that make up work on `n` items.
pub open spec fn all_jobs(threads: nat, n: nat, work_per_item: nat) -> Seq<(usize, usize)> {
    let chunk = share(threads, n, work_per_item);
    Seq::new(chunk_count(n, chunk), |k: int| stretch(n, chunk, k))
}

proof fn lemma_share(threads: nat, n: nat, work_per_item: nat)
    requires
        n > 0,
    ensures
        1 <= workers(threads, n, work_per_item) <= n,
        1 <= share(threads, n, work_per_item) <= n,
        n <= share(threads, n, work_per_item) * workers(threads, n, work_per_item),
{
    let w = workers(threads, n, work_per_item) as int;
    let c = share(threads, n, work_per_item) as int;
    lemma_fundamental_div_mod(n as int, w);
    assert(n as int / w >= 1) by {
        lemma_div_non_zero(n as int, w);
    }
    assert(n as int / w <= n) by {
        lemma_div_is_ordered_by_denominator(n as int, 1, w);
        assert(n as int / 1 == n);
    }
    assert(c * w >= n) by (nonlinear_arith)
        requires
            n == w * (n as int / w) + n as int % w,
            0 <= n as int % w < w,
            c == (if n as int % w == 0 {
                n as int / w
            } else {
                n as int / w + 1
            }),
    ;
    assert(c <= n) by {
        if n as int % w != 0 {
            assert(w >= 2) by {
                if w == 1 {
                    assert(n as int % 1 == 0);
                }
            }
            assert(n as int / w + 1 <= n) by (nonlinear_arith)
                requires
                    n == w * (n as int / w) + n as int % w,
                    n as int % w >= 1,
                    n as int / w >= 1,
                    w >= 2,
            ;
        }
    }
}

/// Every item is in exactly one job.
pub proof fn law_jobs_cover_once(threads: nat, n: nat, work_per_item: nat, i: nat, k: int)
    requires
        i < n <= usize::MAX,
    ensures
        ({
            let jobs = all_jobs(threads, n, work_per_item);
            let chunk = share(threads, n, work_per_item);
            &&& chunk >= 1
            &&& i / chunk < jobs.len()
            &&& 0 <= k < jobs.len() ==> (jobs[k].0 <= i < jobs[k].1 <==> k == i / chunk)
        }),
{
    lemma_share(threads, n, work_per_item);
    let chunk = share(threads, n, work_per_item) as int;
    let q = i as int / chunk;
    lemma_fundamental_div_mod(i as int, chunk);
    lemma_fundamental_div_mod(n as int, chunk);
    assert(q < chunk_count(n, chunk as nat)) by (nonlinear_arith)
        requires
            i < n,
            chunk >= 1,
            i == chunk * q + i as int % chunk,
            0 <= i as int % chunk < chunk,
            n == chunk * (n as int / chunk) + n as int % chunk,
            0 <= n as int % chunk < chunk,
            chunk_count(n, chunk as nat) == (if n as int % chunk == 0 {
                n as int / chunk
            } else {
                n as int / chunk + 1
            }),
    ;
    if 0 <= k < chunk_count(n, chunk as nat) {
        lemma_stretch(n, chunk as nat, k);
        assert((k * chunk <= i < (k + 1) * chunk) <==> k == q) by (nonlinear_arith)
            requires
                chunk >= 1,
                i == chunk * q + i as int % chunk,
                0 <= i as int % chunk < chunk,
        ;
    }
}

/// Stretches start within the items, and only the last may be cut short.
proof fn lemma_stretch(n: nat, chunk: nat, k: int)
    requires
        1 <= chunk,
        n <= usize::MAX,
        0 <= k < chunk_count(n, chunk),
    ensures
        0 <= k * chunk < n,
        stretch(n, chunk, k).0 == k * chunk,
        stretch(n, chunk, k).1 == if (k + 1) * chunk < n {
            (k + 1) * chunk
        } else {
            n as int
        },
        (k + 1) * chunk == k * chunk + chunk,
{
    lemma_fundamental_div_mod(n as int, chunk as int);
    assert((k + 1) * chunk == k * chunk + chunk) by (nonlinear_arith);
    assert(0 <= k * chunk < n) by (nonlinear_arith)
        requires
            n == chunk * (n as int / chunk as int) + n as int % chunk as int,
            0 <= n as int % chunk as int,
            0 <= k,
            1 <= chunk,
            k < n as int / chunk as int || (k == n as int / chunk as int && n as int % chunk as int
                != 0),
    ;
}

/// There are no more jobs than threads, and none is empty.
pub proof fn law_jobs_are_few(threads: nat, n: nat, work_per_item: nat)
    requires
        n <= usize::MAX,
    ensures
        all_jobs(threads, n, work_per_item).len() <= if threads >= 1 {
            threads
        } else {
            1
        },
        forall|k: int|
            0 <= k < all_jobs(threads, n, work_per_item).len() ==> (#[trigger] all_jobs(
                threads,
                n,
                work_per_item,
            )[k]).0 < all_jobs(threads, n, work_per_item)[k].1,
{
    if n > 0 {
        lemma_share(threads, n, work_per_item);
        let c = share(threads, n, work_per_item);
        let w = workers(threads, n, work_per_item);
        let m = chunk_count(n, c);
        lemma_div_non_zero(n as int, c as int);
        lemma_stretch(n, c, m - 1);
        assert(m <= w) by (nonlinear_arith)
            requires
                (m - 1) * c < n,
                n <= c * w,
        ;
        assert forall|k: int| 0 <= k < m implies (#[trigger] all_jobs(
            threads,
            n,
            work_per_item,
        )[k]).0 < all_jobs(threads, n, work_per_item)[k].1 by {
            lemma_stretch(n, c, k);
        }
    }
}

/// Little work is a single job. More than that is shared out evenly among the threads, or
/// among as many as there are items: with one item less, a job would have less than its share.
pub proof fn law_work_is_shared_evenly(threads: nat, n: nat, work_per_item: nat, k: int)
    requires
        1 <= n <= usize::MAX,
        0 <= k < all_jobs(threads, n, work_per_item).len(),
    ensures
        n * work_per_item < 0x10_0000 ==> all_jobs(threads, n, work_per_item).len() == 1,
        n * work_per_item >= 0x10_0000 && threads >= 1 ==> {
            let job = all_jobs(threads, n, work_per_item)[k];
            (job.1 - job.0 - 1) * (if threads < n {
                threads as int
            } else {
                n as int
            }) < n
        },
{
    lemma_share(threads, n, work_per_item);
    let c = share(threads, n, work_per_item) as int;
    let w = workers(threads, n, work_per_item) as int;
    lemma_stretch(n, c as nat, k);
    if n * work_per_item < 0x10_0000 {
        assert(w == 1);
        assert(n as int % 1 == 0 && n as int / 1 == n);
        assert(c == n);
        lemma_div_by_self(n as int);
        lemma_mod_self_0(n as int);
    } else if threads >= 1 {
        let job = all_jobs(threads, n, work_per_item)[k];
        let size = job.1 - job.0;
        lemma_fundamental_div_mod(n as int, w);
        assert((c - 1) * w < n) by (nonlinear_arith)
            requires
                n == w * (n as int / w) + n as int % w,
                0 <= n as int % w < w,
                w >= 1,
                c == (if n as int % w == 0 {
                    n as int / w
                } else {
                    n as int / w + 1
                }),
        ;
        assert(size <= c);
        assert((size - 1) * w <= (c - 1) * w) by (nonlinear_arith)
            requires
                size <= c,
                w >= 1,
        ;
    }
}

/// The product, or the largest number where that is not enough.
fn total_work(n: usize, work_per_item: usize) -> (t: usize)
    ensures
        t < MIN_WORK <==> n * work_per_item < MIN_WORK,
{
    match n.checked_mul(work_per_item) {
        Some(t) => t,
        None => usize::MAX,
    }
}

/// Shares `n` items out among at most `threads` jobs. Each job is a stretch of items, given
/// by its first and the one behind its last. Little work becomes a single job.
pub fn jobs(threads: usize, n: usize, work_per_item: usize) -> (v: Vec<(usize, usize)>)
    ensures
        v@ == all_jobs(threads as nat, n as nat, work_per_item as nat),
{
    let mut v: Vec<(usize, usize)> = Vec::new();
    if n == 0 {
        assert(v@ =~= all_jobs(threads as nat, n as nat, work_per_item as nat));
        return v;
    }
    let w: usize = if total_work(n, work_per_item) < MIN_WORK || threads == 0 {
        1
    } else if threads < n {
        threads
    } else {
        n
    };
    let ghost chunk = share(threads as nat, n as nat, work_per_item as nat);
    proof {
        lemma_share(threads as nat, n as nat, work_per_item as nat);
    }
    assert(w == workers(threads as nat, n as nat, work_per_item as nat));
    let mut size: usize = n / w;
    if n % w != 0 {
        assert(n as int / w as int + 1 == chunk);
        size += 1;
    }
    let mut start: usize = 0;
    assert(0 * chunk == 0) by (nonlinear_arith);
    proof {
        lemma_div_non_zero(n as int, chunk as int);
    }
    while start < n
        invariant
            size == chunk,
            1 <= chunk,
            start <= n,
            v@.len() <= chunk_count(n as nat, chunk),
            start < n ==> start == v@.len() * chunk && v@.len() < chunk_count(n as nat, chunk),
            start == n ==> v@.len() == chunk_count(n as nat, chunk),
            forall|k: int| 0 <= k < v@.len() ==> #[trigger] v@[k] == stretch(n as nat, chunk, k),
        decreases n - start,
    {
        let ghost k = v@.len() as int;
        proof {
            lemma_stretch(n as nat, chunk, k);
        }
        let end: usize = if n - start <= size {
            n
        } else {
            start + size
        };
        v.push((start, end));
        proof {
            lemma_fundamental_div_mod(n as int, chunk as int);
            let m = chunk_count(n as nat, chunk) as int;
            assert(if (k + 1) * chunk < n {
                k + 1 < m
            } else {
                k + 1 == m
            }) by (nonlinear_arith)
                requires
                    n == chunk * (n as int / chunk as int) + n as int % chunk as int,
                    0 <= n as int % chunk as int,
                    (n as int % chunk as int) < chunk,
                    1 <= chunk,
                    0 <= k < m,
                    m == (if n as int % chunk as int == 0 {
                        n as int / chunk as int
                    } else {
                        n as int / chunk as int + 1
                    }),
            ;
        }
        start = end;
    }
    assert(v@ =~= all_jobs(threads as nat, n as nat, work_per_item as nat));
    v
}

/// Calls `f` on each of `n` items, job by job.
pub fn par_for_work<F: Fn(usize)>(threads: usize, n: usize, work_per_item: usize, f: F)
    requires
        forall|i: usize| i < n ==> #[trigger] call_requires(f, (i,)),
    ensures
        forall|i: usize| i < n ==> #[trigger] call_ensures(f, (i,), ()),
{
    let v = jobs(threads, n, work_per_item);
    let ghost js = v@;
    let mut k: usize = 0;
    while k < v.len()
        invariant
            k <= v@.len(),
            js == v@,
            js == all_jobs(threads as nat, n as nat, work_per_item as nat),
            forall|i: usize| i < n ==> #[trigger] call_requires(f, (i,)),
            forall|j: int, i: usize|
                #![trigger js[j], call_ensures(f, (i,), ())]
                0 <= j < k && js[j].0 <= i < js[j].1 ==> call_ensures(f, (i,), ()),
        decreases v@.len() - k,
    {
        let (from, to) = v[k];
        let mut i: usize = from;
        proof {
            if n > 0 {
                lemma_share(threads as nat, n as nat, work_per_item as nat);
                lemma_stretch(
                    n as nat,
                    share(threads as nat, n as nat, work_per_item as nat),
                    k as int,
                );
            }
        }
        while i < to
            invariant
                from <= i <= to <= n,
                forall|i: usize| i < n ==> #[trigger] call_requires(f, (i,)),
                forall|m: usize| from <= m < i ==> #[trigger] call_ensures(f, (m,), ()),
            decreases to - i,
        {
            f(i);
            i += 1;
        }
        k += 1;
    }
    assert forall|i: usize| i < n implies #[trigger] call_ensures(f, (i,), ()) by {
        let chunk = share(threads as nat, n as nat, work_per_item as nat);
        let j = (i as nat / chunk) as int;
        law_jobs_cover_once(threads as nat, n as nat, work_per_item as nat, i as nat, j);
        assert(js[j].0 <= i < js[j].1);
    }
}

/// Calls `f` on each of `n` items, each of them taken for a heavy one.
pub fn par_for<F: Fn(usize)>(threads: usize, n: usize, f: F)
    requires
        forall|i: usize| i < n ==> #[trigger] call_requires(f, (i,)),
    ensures
        forall|i: usize| i < n ==> #[trigger] call_ensures(f, (i,), ()),
{
    par_for_work(threads, n, usize::MAX / 2, f);
}

/// A view of a slice that is written item by item.
pub struct ParMut<'a, T> {
    pub s: &'a mut [T],
}

impl<'a, T> ParMut<'a, T> {
    /// What the slice holds.
    pub open spec fn items(&self) -> Seq<T> {
        self.s@
    }

    /// A view of a slice.
    pub fn new(s: &'a mut [T]) -> (r: Self)
        ensures
            r.items() == old(s)@,
            final(s)@ == final(r.s)@,
    {
        ParMut { s }
    }

    /// How many items there are.
    pub fn len(&self) -> (n: usize)
        ensures
            n == self.items().len(),
    {
        self.s.len()
    }

    /// The items from `start` up to `end`.
    pub fn slice(&mut self, start: usize, end: usize) -> (r: &mut [T])
        requires
            start <= end <= old(self).items().len(),
        ensures
            r@ == old(self).items().subrange(start as int, end as int),
            final(self).items() == old(self).items().take(start as int) + final(r)@
                + old(self).items().skip(end as int),
            final(final(self).s)@ == final(old(self).s)@,
    {
        let (_, tail) = self.s.split_at_mut(start);
        let (mid, _) = tail.split_at_mut(end - start);
        mid
    }

    /// Item `i`.
    pub fn get(&self, i: usize) -> (v: T)
        where T: Copy,
        requires
            i < self.items().len(),
        ensures
            v == self.items()[i as int],
    {
        self.s[i]
    }

    /// Replaces item `i`.
    pub fn set(&mut self, i: usize, v: T)
        requires
            i < old(self).items().len(),
        ensures
            final(self).items() == old(self).items().update(i as int, v),
            final(final(self).s)@ == final(old(self).s)@,
    {
        self.s[i] = v;
    }
}

impl<'a, T: Scalar> ParMut<'a, Num<T>> {
    /// Adds to item `i`.
    pub fn add_assign(&mut self, i: usize, v: Num<T>)
        requires
            i < old(self).items().len(),
        ensures
            scalar::terms(final(self).items()) == scalar::terms(old(self).items()).update(
                i as int,
                scalar::sum(old(self).items()[i as int]@, v@),
            ),
            final(final(self).s)@ == final(old(self).s)@,
    {
        let w: Num<T> = self.s[i].plus(v);
        self.s[i] = w;
        assert(scalar::terms(self.items()) =~= scalar::terms(old(self).items()).update(
            i as int,
            w@,
        ));
    }
}

} // verus!
