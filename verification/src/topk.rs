//! Which numbers are among the largest.
use crate::ieee;
use crate::ieee::{is_nan_single, rank_of_single};
use vstd::prelude::*;

verus! {

/// How many of the numbers are above `r`.
pub open spec fn count_above(s: Seq<i64>, r: int) -> nat
    decreases s.len(),
{
    if s.len() == 0 {
        0
    } else {
        count_above(s.drop_last(), r) + if s.last() > r {
            1nat
        } else {
            0nat
        }
    }
}

/// No number is above one to its left.
pub open spec fn descending(s: Seq<i64>) -> bool {
    forall|i: int, j: int| 0 <= i <= j < s.len() ==> #[trigger] s[i] >= #[trigger] s[j]
}

proof fn lemma_count_push(s: Seq<i64>, x: i64, r: int)
    ensures
        count_above(s.push(x), r) == count_above(s, r) + if x > r {
            1nat
        } else {
            0nat
        },
{
    assert(s.push(x).drop_last() =~= s);
}

proof fn lemma_count_concat(a: Seq<i64>, b: Seq<i64>, r: int)
    ensures
        count_above(a + b, r) == count_above(a, r) + count_above(b, r),
    decreases b.len(),
{
    if b.len() == 0 {
        assert(a + b =~= a);
    } else {
        assert((a + b).drop_last() =~= a + b.drop_last());
        lemma_count_concat(a, b.drop_last(), r);
    }
}

proof fn lemma_count_at_least(s: Seq<i64>, r: int, k: int)
    requires
        0 <= k <= s.len(),
        forall|i: int| 0 <= i < k ==> #[trigger] s[i] > r,
    ensures
        count_above(s, r) >= k,
    decreases s.len(),
{
    if s.len() > 0 {
        let t = s.drop_last();
        assert forall|i: int| 0 <= i < k && i < t.len() implies #[trigger] t[i] > r by {
            assert(s[i] > r);
        }
        lemma_count_at_least(
            t,
            r,
            if k < s.len() {
                k
            } else {
                k - 1
            },
        );
    }
}

proof fn lemma_count_at_most(s: Seq<i64>, r: int, k: int)
    requires
        0 <= k <= s.len(),
        forall|i: int| k <= i < s.len() ==> #[trigger] s[i] <= r,
    ensures
        count_above(s, r) <= k,
    decreases s.len(),
{
    if s.len() > 0 {
        let t = s.drop_last();
        assert forall|i: int| k <= i < t.len() implies #[trigger] t[i] <= r by {
            assert(s[i] <= r);
        }
        if k < s.len() {
            assert(s[s.len() - 1] <= r);
            lemma_count_at_most(t, r, k);
        } else {
            lemma_count_at_most(t, r, k - 1);
        }
    }
}

fn merge(a: &[i64], b: &[i64]) -> (out: Vec<i64>)
    requires
        descending(a@),
        descending(b@),
        a.len() + b.len() <= usize::MAX,
    ensures
        descending(out@),
        out@.len() == a@.len() + b@.len(),
        forall|r: int| #[trigger] count_above(out@, r) == count_above(a@, r) + count_above(b@, r),
{
    let mut out: Vec<i64> = Vec::new();
    let mut i: usize = 0;
    let mut j: usize = 0;
    while i < a.len() || j < b.len()
        invariant
            i <= a.len(),
            j <= b.len(),
            a.len() + b.len() <= usize::MAX,
            descending(a@),
            descending(b@),
            descending(out@),
            out@.len() == i + j,
            forall|x: int, y: int| 0 <= x < out@.len() && i <= y < a@.len() ==> out@[x] >= a@[y],
            forall|x: int, y: int| 0 <= x < out@.len() && j <= y < b@.len() ==> out@[x] >= b@[y],
            forall|r: int| #[trigger]
                count_above(out@, r) == count_above(a@.take(i as int), r) + count_above(
                    b@.take(j as int),
                    r,
                ),
        decreases a.len() - i + b.len() - j,
    {
        let ghost before = out@;
        if j == b.len() || (i < a.len() && a[i] >= b[j]) {
            let x: i64 = a[i];
            out.push(x);
            assert(a@.take(i + 1) =~= a@.take(i as int).push(x));
            assert forall|r: int| #[trigger] count_above(out@, r) == count_above(
                a@.take(i + 1),
                r,
            ) + count_above(b@.take(j as int), r) by {
                lemma_count_push(before, x, r);
                lemma_count_push(a@.take(i as int), x, r);
                assert(count_above(before, r) == count_above(a@.take(i as int), r) + count_above(
                    b@.take(j as int),
                    r,
                ));
            }
            i += 1;
        } else {
            let x: i64 = b[j];
            out.push(x);
            assert(b@.take(j + 1) =~= b@.take(j as int).push(x));
            assert forall|r: int| #[trigger] count_above(out@, r) == count_above(
                a@.take(i as int),
                r,
            ) + count_above(b@.take(j + 1), r) by {
                lemma_count_push(before, x, r);
                lemma_count_push(b@.take(j as int), x, r);
                assert(count_above(before, r) == count_above(a@.take(i as int), r) + count_above(
                    b@.take(j as int),
                    r,
                ));
            }
            j += 1;
        }
    }
    assert(a@.take(i as int) =~= a@);
    assert(b@.take(j as int) =~= b@);
    out
}

/// The numbers from the largest down.
pub fn sort_descending(v: &[i64]) -> (out: Vec<i64>)
    ensures
        descending(out@),
        out@.len() == v@.len(),
        forall|r: int| #[trigger] count_above(out@, r) == count_above(v@, r),
    decreases v@.len(),
{
    let n: usize = v.len();
    if n <= 1 {
        let mut out: Vec<i64> = Vec::new();
        if n == 1 {
            out.push(v[0]);
        }
        assert(out@ =~= v@);
        return out;
    }
    let h: usize = n / 2;
    let left = vstd::slice::slice_subrange(v, 0, h);
    let right = vstd::slice::slice_subrange(v, h, n);
    assert(left@ + right@ =~= v@);
    let a = sort_descending(left);
    let b = sort_descending(right);
    let out = merge(a.as_slice(), b.as_slice());
    assert forall|r: int| #[trigger] count_above(out@, r) == count_above(v@, r) by {
        lemma_count_concat(left@, right@, r);
        assert(count_above(a@, r) == count_above(left@, r));
        assert(count_above(b@, r) == count_above(right@, r));
    }
    out
}

/// How many of the first `n` singles are greater than `x`.
pub open spec fn beaten_by(bits: Seq<u32>, x: u32, n: nat) -> nat
    decreases n,
{
    if n == 0 {
        0
    } else {
        beaten_by(bits, x, (n - 1) as nat) + if ieee::single_less(x, bits[n - 1]) {
            1nat
        } else {
            0nat
        }
    }
}

/// None of the singles is a NaN.
pub open spec fn no_nan(bits: Seq<u32>) -> bool {
    forall|i: int| 0 <= i < bits.len() ==> !ieee::single_nan(#[trigger] bits[i])
}

/// Which of the singles are among the `k` largest: those that fewer than `k` exceed.
pub open spec fn among_largest(bits: Seq<u32>, k: nat) -> Seq<bool> {
    Seq::new(bits.len(), |i: int| beaten_by(bits, bits[i], bits.len()) < k)
}

proof fn lemma_ranks_count(bits: Seq<u32>, ranks: Seq<i64>, x: u32, n: nat)
    requires
        n <= bits.len(),
        ranks.len() == bits.len(),
        no_nan(bits),
        !ieee::single_nan(x),
        forall|i: int| 0 <= i < bits.len() ==> #[trigger] ranks[i] == ieee::single_rank(bits[i]),
    ensures
        beaten_by(bits, x, n) == count_above(ranks.take(n as int), ieee::single_rank(x)),
    decreases n,
{
    if n > 0 {
        lemma_ranks_count(bits, ranks, x, (n - 1) as nat);
        assert(ranks.take(n as int).drop_last() =~= ranks.take(n - 1));
        assert(ranks.take(n as int).last() == ranks[n - 1]);
        assert(!ieee::single_nan(bits[n - 1]));
        ieee::lemma_single_rank(x, bits[n - 1]);
    }
}

/// A place of the first `n` whose single none of them exceeds.
proof fn lemma_largest_place(bits: Seq<u32>, n: nat) -> (m: int)
    requires
        1 <= n <= bits.len(),
        no_nan(bits),
    ensures
        0 <= m < n,
        beaten_by(bits, bits[m], n) == 0,
        forall|j: int|
            0 <= j < n ==> #[trigger] ieee::single_rank(bits[j]) <= ieee::single_rank(bits[m]),
    decreases n,
{
    if n == 1 {
        assert(beaten_by(bits, bits[0], 0) == 0);
        0
    } else {
        let p = lemma_largest_place(bits, (n - 1) as nat);
        let m = if ieee::single_rank(bits[n - 1]) > ieee::single_rank(bits[p]) {
            n - 1
        } else {
            p
        };
        lemma_none_above(bits, bits[m], n);
        m
    }
}

proof fn lemma_none_above(bits: Seq<u32>, x: u32, n: nat)
    requires
        n <= bits.len(),
        forall|j: int|
            0 <= j < n ==> #[trigger] ieee::single_rank(bits[j]) <= ieee::single_rank(x),
    ensures
        beaten_by(bits, x, n) == 0,
    decreases n,
{
    if n > 0 {
        lemma_none_above(bits, x, (n - 1) as nat);
        ieee::lemma_single_rank(x, bits[n - 1]);
        assert(ieee::single_rank(bits[n - 1]) <= ieee::single_rank(x));
    }
}

/// The largest single is among the largest, however few these are.
pub proof fn lemma_largest_stays(bits: Seq<u32>, k: nat)
    requires
        bits.len() >= 1,
        k >= 1,
        no_nan(bits),
    ensures
        among_largest(bits, k).contains(true),
{
    let m = lemma_largest_place(bits, bits.len());
    assert(among_largest(bits, k)[m]);
}

/// Marks the singles that are among the `k` largest; those equal to the last of them
/// included. `None` where singles cannot be ordered because one is a NaN.
pub fn top_k_mask(bits: &[u32], k: usize) -> (r: Option<Vec<bool>>)
    requires
        k >= 1,
        bits.len() >= 1,
    ensures
        match r {
            Some(mask) => (no_nan(bits@) && mask@ == among_largest(bits@, k as nat)) || (bits.len()
                == 1 && mask@ == seq![true]),
            None => bits.len() >= 2 && !no_nan(bits@),
        },
        no_nan(bits@) ==> r is Some,
{
    let n: usize = bits.len();
    let mut ranks: Vec<i64> = Vec::new();
    let mut i: usize = 0;
    while i < n
        invariant
            i <= n,
            n == bits.len(),
            n >= 1,
            ranks@.len() == i,
            forall|j: int|
                0 <= j < i ==> !ieee::single_nan(#[trigger] bits@[j]) && ranks@[j]
                    == ieee::single_rank(bits@[j]),
        decreases n - i,
    {
        if is_nan_single(bits[i]) {
            assert(ieee::single_nan(bits@[i as int]));
            if n == 1 {
                let mut one: Vec<bool> = Vec::new();
                one.push(true);
                assert(one@ =~= seq![true]);
                return Some(one);
            }
            return None;
        }
        ranks.push(rank_of_single(bits[i]));
        i += 1;
    }
    assert(no_nan(bits@));
    let sorted = sort_descending(ranks.as_slice());
    let place: usize = if k < n {
        k
    } else {
        n
    };
    let least: i64 = sorted[place - 1];
    let mut mask: Vec<bool> = Vec::new();
    let mut i: usize = 0;
    while i < n
        invariant
            i <= n,
            n == bits.len(),
            1 <= place <= n,
            place == if k < n {
                k
            } else {
                n
            },
            k >= 1,
            no_nan(bits@),
            ranks@.len() == n,
            forall|j: int|
                0 <= j < n ==> #[trigger] ranks@[j] == ieee::single_rank(bits@[j]),
            sorted@.len() == n,
            descending(sorted@),
            forall|r: int| #[trigger] count_above(sorted@, r) == count_above(ranks@, r),
            least == sorted@[place - 1],
            mask@ == among_largest(bits@, k as nat).take(i as int),
        decreases n - i,
    {
        let keep: bool = ranks[i] >= least;
        proof {
            let x = bits@[i as int];
            let r = ieee::single_rank(x);
            assert(!ieee::single_nan(x));
            lemma_ranks_count(bits@, ranks@, x, n as nat);
            assert(ranks@.take(n as int) =~= ranks@);
            assert(count_above(sorted@, r) == count_above(ranks@, r));
            if keep {
                assert forall|j: int| place - 1 <= j < sorted@.len() implies #[trigger] sorted@[j]
                    <= r by {
                    assert(sorted@[place - 1] >= sorted@[j]);
                }
                lemma_count_at_most(sorted@, r, place - 1);
            } else {
                assert forall|j: int| 0 <= j < place implies #[trigger] sorted@[j] > r by {
                    assert(sorted@[j] >= sorted@[place - 1]);
                }
                lemma_count_at_least(sorted@, r, place as int);
                if k >= n {
                    lemma_not_above_self(ranks@, i as int);
                }
            }
        }
        mask.push(keep);
        i += 1;
        assert(mask@ =~= among_largest(bits@, k as nat).take(i as int));
    }
    assert(mask@ =~= among_largest(bits@, k as nat));
    Some(mask)
}

/// A number is not above itself, so not all are above it.
proof fn lemma_not_above_self(s: Seq<i64>, i: int)
    requires
        0 <= i < s.len(),
    ensures
        count_above(s, s[i] as int) < s.len(),
    decreases s.len(),
{
    let r = s[i] as int;
    if i == s.len() - 1 {
        lemma_count_len(s.drop_last(), r);
    } else {
        assert(s.drop_last()[i] == s[i]);
        lemma_not_above_self(s.drop_last(), i);
    }
}

proof fn lemma_count_len(s: Seq<i64>, r: int)
    ensures
        count_above(s, r) <= s.len(),
    decreases s.len(),
{
    if s.len() > 0 {
        lemma_count_len(s.drop_last(), r);
    }
}

proof fn lemma_larger_is_beaten_less(bits: Seq<u32>, x: u32, y: u32, n: nat)
    requires
        n <= bits.len(),
        no_nan(bits),
        !ieee::single_nan(x),
        !ieee::single_nan(y),
        !ieee::single_less(y, x),
    ensures
        beaten_by(bits, y, n) <= beaten_by(bits, x, n),
    decreases n,
{
    if n > 0 {
        lemma_larger_is_beaten_less(bits, x, y, (n - 1) as nat);
        assert(!ieee::single_nan(bits[n - 1]));
    }
}

/// What is kept is larger than what is not: whatever is at least as large as a number that is
/// kept is kept too. The largest is always kept, and all are where there are no more than `k`.
pub proof fn law_larger_ones_are_kept(bits: Seq<u32>, k: nat, i: int, j: int)
    requires
        no_nan(bits),
        k >= 1,
        0 <= i < bits.len(),
        0 <= j < bits.len(),
    ensures
        among_largest(bits, k)[i] && !among_largest(bits, k)[j] ==> ieee::single_less(
            bits[j],
            bits[i],
        ),
        (forall|l: int|
            0 <= l < bits.len() ==> !ieee::single_less(bits[i], #[trigger] bits[l]))
            ==> among_largest(bits, k)[i],
        bits.len() <= k ==> among_largest(bits, k)[i],
{
    let n = bits.len();
    assert(!ieee::single_nan(bits[i]) && !ieee::single_nan(bits[j]));
    if !ieee::single_less(bits[j], bits[i]) {
        lemma_larger_is_beaten_less(bits, bits[i], bits[j], n);
    }
    if forall|l: int| 0 <= l < n ==> !ieee::single_less(bits[i], #[trigger] bits[l]) {
        lemma_unbeaten(bits, bits[i], n);
    }
    lemma_not_beaten_by_itself(bits, i, n);
}

proof fn lemma_unbeaten(bits: Seq<u32>, x: u32, n: nat)
    requires
        n <= bits.len(),
        forall|l: int| 0 <= l < n ==> !ieee::single_less(x, #[trigger] bits[l]),
    ensures
        beaten_by(bits, x, n) == 0,
    decreases n,
{
    if n > 0 {
        lemma_unbeaten(bits, x, (n - 1) as nat);
    }
}

proof fn lemma_not_beaten_by_itself(bits: Seq<u32>, i: int, n: nat)
    requires
        n <= bits.len(),
        0 <= i < bits.len(),
    ensures
        beaten_by(bits, bits[i], n) <= n,
        i < n ==> beaten_by(bits, bits[i], n) < n,
    decreases n,
{
    if n > 0 {
        lemma_not_beaten_by_itself(bits, i, (n - 1) as nat);
    }
}

/// The places among the first `n` whose singles are larger than `x`.
pub open spec fn exceeding(bits: Seq<u32>, x: u32, n: nat) -> Set<int> {
    Set::new(|l: int| 0 <= l < n && ieee::single_less(x, bits[l]))
}

proof fn lemma_exceeding(bits: Seq<u32>, x: u32, n: nat)
    requires
        n <= bits.len(),
    ensures
        exceeding(bits, x, n).finite(),
        exceeding(bits, x, n).len() == beaten_by(bits, x, n),
    decreases n,
{
    let s = exceeding(bits, x, n);
    if n == 0 {
        assert(s =~= Set::<int>::empty());
    } else {
        let t = exceeding(bits, x, (n - 1) as nat);
        lemma_exceeding(bits, x, (n - 1) as nat);
        if ieee::single_less(x, bits[n - 1]) {
            assert(s =~= t.insert(n - 1));
        } else {
            assert(s =~= t);
        }
    }
}

/// A single is kept exactly where the places with larger ones are fewer than `k`.
pub proof fn law_kept_are_exceeded_by_few(bits: Seq<u32>, k: nat, i: int)
    requires
        0 <= i < bits.len(),
    ensures
        among_largest(bits, k).len() == bits.len(),
        exceeding(bits, bits[i], bits.len()).finite(),
        among_largest(bits, k)[i] <==> exceeding(bits, bits[i], bits.len()).len() < k,
{
    lemma_exceeding(bits, bits[i], bits.len());
}

} // verus!
