//! Stretches of a sequence.
use vstd::prelude::*;

verus! {

/// `t` stands in `s` at `i`.
pub open spec fn stands<A>(s: Seq<A>, i: int, t: Seq<A>) -> bool {
    &&& 0 <= i
    &&& i + t.len() <= s.len()
    &&& forall|k: int| i <= k < i + t.len() ==> #[trigger] s[k] == t[k - i]
}

/// What stands at `i` is the stretch of that length from `i` on.
pub proof fn lemma_stands_subrange<A>(s: Seq<A>, i: int, t: Seq<A>)
    requires
        stands(s, i, t),
    ensures
        s.subrange(i, i + t.len()) == t,
{
    let u = s.subrange(i, i + t.len());
    assert forall|k: int| 0 <= k < t.len() implies u[k] == #[trigger] t[k] by {
        assert(s[i + k] == t[i + k - i]);
    }
    assert(u =~= t);
}

/// Two sequences that stand one behind the other stand there each by itself.
pub proof fn lemma_stands_split<A>(s: Seq<A>, i: int, a: Seq<A>, b: Seq<A>)
    requires
        stands(s, i, a + b),
    ensures
        stands(s, i, a),
        stands(s, i + a.len(), b),
{
    assert forall|k: int| i <= k < i + a.len() implies #[trigger] s[k] == a[k - i] by {
        assert((a + b)[k - i] == a[k - i]);
    }
    assert forall|k: int| i + a.len() <= k < i + a.len() + b.len() implies #[trigger] s[k] == b[k - (
    i + a.len())] by {
        assert((a + b)[k - i] == b[k - i - a.len()]);
    }
}

} // verus!
