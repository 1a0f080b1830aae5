//! The alphabet of a text: its distinct characters in order, and the codes they give.
use vstd::prelude::*;

verus! {

/// Each character comes before the ones to its right.
pub open spec fn increasing(cs: Seq<char>) -> bool {
    forall|i: int, j: int| 0 <= i < j < cs.len() ==> #[trigger] cs[i] < #[trigger] cs[j]
}

/// `cs` holds the characters of `text`, each once and in order.
pub open spec fn is_alphabet(cs: Seq<char>, text: Seq<char>) -> bool {
    &&& increasing(cs)
    &&& forall|c: char| #[trigger] cs.contains(c) <==> text.contains(c)
}

/// The codes of the characters of `text`: their places in `cs`, kept to 16 bits.
pub open spec fn encoded(cs: Seq<char>, text: Seq<char>) -> Seq<u16> {
    Seq::new(text.len(), |i: int| (cs.index_of(text[i]) % 0x1_0000) as u16)
}

/// The characters that codes stand for.
pub open spec fn decoded(cs: Seq<char>, ids: Seq<u16>) -> Seq<char> {
    Seq::new(ids.len(), |i: int| cs[ids[i] as int])
}

proof fn lemma_next_letter(a: Seq<char>, b: Seq<char>, i: int)
    requires
        increasing(a),
        increasing(b),
        0 <= i < a.len(),
        b.contains(a[i]),
        a.take(i) == b.take(i),
        i <= b.len(),
    ensures
        i < b.len(),
        b[i] <= a[i],
{
    let j = choose|j: int| 0 <= j < b.len() && b[j] == a[i];
    if j < i {
        assert(b[j] == b.take(i)[j]);
        assert(a[j] == a.take(i)[j]);
        assert(a[j] < a[i]);
    }
}

proof fn lemma_same_letters(a: Seq<char>, b: Seq<char>, i: int)
    requires
        increasing(a),
        increasing(b),
        forall|c: char| #[trigger] a.contains(c) <==> b.contains(c),
        0 <= i <= a.len(),
    ensures
        i <= b.len(),
        a.take(i) == b.take(i),
    decreases i,
{
    if i > 0 {
        lemma_same_letters(a, b, i - 1);
        assert(a.contains(a[i - 1]));
        lemma_next_letter(a, b, i - 1);
        assert(b.contains(b[i - 1]));
        assert(a.contains(b[i - 1]));
        lemma_next_letter(b, a, i - 1);
        assert(a.take(i) =~= a.take(i - 1).push(a[i - 1]));
        assert(b.take(i) =~= b.take(i - 1).push(b[i - 1]));
    } else {
        assert(a.take(0) =~= b.take(0));
    }
}

/// A text has one alphabet.
pub proof fn law_alphabet_is_unique(a: Seq<char>, b: Seq<char>, text: Seq<char>)
    requires
        is_alphabet(a, text),
        is_alphabet(b, text),
    ensures
        a == b,
{
    assert forall|c: char| #[trigger] a.contains(c) <==> b.contains(c) by {
        assert(a.contains(c) <==> text.contains(c));
        assert(b.contains(c) <==> text.contains(c));
    }
    lemma_same_letters(a, b, a.len() as int);
    assert forall|c: char| #[trigger] b.contains(c) <==> a.contains(c) by {
        assert(a.contains(c) <==> b.contains(c));
    }
    lemma_same_letters(b, a, b.len() as int);
    assert(a.take(a.len() as int) =~= a);
    assert(b.take(b.len() as int) =~= b);
}

proof fn lemma_char_range(c: char)
    ensures
        0 <= c as int <= 0x10_ffff,
{
}

proof fn lemma_letter_at_least(cs: Seq<char>, i: int)
    requires
        increasing(cs),
        0 <= i < cs.len(),
    ensures
        cs[i] as int >= i,
    decreases i,
{
    lemma_char_range(cs[i]);
    if i > 0 {
        lemma_char_range(cs[i - 1]);
        lemma_letter_at_least(cs, i - 1);
        assert(cs[i - 1] < cs[i]);
    }
}

/// An alphabet is no larger than the range of character codes.
pub proof fn law_alphabet_size(cs: Seq<char>)
    requires
        increasing(cs),
    ensures
        cs.len() <= 0x11_0000,
{
    if cs.len() > 0 {
        lemma_letter_at_least(cs, cs.len() - 1);
        lemma_char_range(cs[cs.len() - 1]);
    }
}

/// The code of a character is its place in the alphabet.
pub proof fn lemma_place(cs: Seq<char>, i: int)
    requires
        increasing(cs),
        0 <= i < cs.len(),
    ensures
        cs.index_of(cs[i]) == i,
{
    let c = cs[i];
    let j = cs.index_of(c);
    assert(exists|k: int| 0 <= k < cs.len() && cs[k] == c);
    if j < i {
        assert(cs[j] < cs[i]);
    } else if i < j {
        assert(cs[i] < cs[j]);
    }
}

/// Decoding the codes of a text gives the text back, as long as the codes fit in 16 bits.
pub proof fn law_decode_undoes_encode(cs: Seq<char>, text: Seq<char>)
    requires
        is_alphabet(cs, text),
        cs.len() <= 0x1_0000,
    ensures
        decoded(cs, encoded(cs, text)) == text,
{
    let ids = encoded(cs, text);
    let back = decoded(cs, ids);
    assert forall|i: int| 0 <= i < text.len() implies #[trigger] back[i] == text[i] by {
        let c = text[i];
        assert(text.contains(c));
        assert(cs.contains(c));
        let j = choose|j: int| 0 <= j < cs.len() && cs[j] == c;
        lemma_place(cs, j);
    }
    assert(back =~= text);
}

/// The place where `c` stands in an increasing sequence or would have to be put.
pub fn search(cs: &[char], c: char) -> (r: usize)
    requires
        increasing(cs@),
    ensures
        r <= cs@.len(),
        forall|i: int| 0 <= i < r ==> #[trigger] cs@[i] < c,
        forall|i: int| r <= i < cs@.len() ==> #[trigger] cs@[i] >= c,
{
    let mut lo: usize = 0;
    let mut hi: usize = cs.len();
    while lo < hi
        invariant
            lo <= hi <= cs.len(),
            increasing(cs@),
            forall|i: int| 0 <= i < lo ==> #[trigger] cs@[i] < c,
            forall|i: int| hi <= i < cs@.len() ==> #[trigger] cs@[i] >= c,
        decreases hi - lo,
    {
        let mid: usize = lo + (hi - lo) / 2;
        if cs[mid] < c {
            assert forall|i: int| 0 <= i < mid + 1 implies #[trigger] cs@[i] < c by {
                if i < mid {
                    assert(cs@[i] < cs@[mid as int]);
                }
            }
            lo = mid + 1;
        } else {
            assert forall|i: int| mid <= i < cs@.len() implies #[trigger] cs@[i] >= c by {
                if mid < i {
                    assert(cs@[mid as int] < cs@[i]);
                }
            }
            hi = mid;
        }
    }
    lo
}

/// The alphabet of a text.
pub fn alphabet_of(text: &[char]) -> (cs: Vec<char>)
    ensures
        is_alphabet(cs@, text@),
{
    let mut cs: Vec<char> = Vec::new();
    let mut n: usize = 0;
    assert forall|c: char| #[trigger] cs@.contains(c) <==> text@.take(0).contains(c) by {}
    while n < text.len()
        invariant
            n <= text.len(),
            is_alphabet(cs@, text@.take(n as int)),
        decreases text.len() - n,
    {
        let c: char = text[n];
        let ghost old_cs = cs@;
        let ghost before = text@.take(n as int);
        let ghost after = text@.take(n + 1);
        let p: usize = search(cs.as_slice(), c);
        assert(after =~= before.push(c));
        if p == cs.len() || cs[p] != c {
            cs.insert(p, c);
            proof {
                lemma_inserted(old_cs, p as int, c, cs@);
            }
        } else {
            assert(old_cs[p as int] == c);
        }
        assert forall|d: char| #[trigger] cs@.contains(d) <==> after.contains(d) by {
            assert(old_cs.contains(d) <==> before.contains(d));
            if before.contains(d) {
                let k = choose|k: int| 0 <= k < before.len() && before[k] == d;
                assert(after[k] == d);
            }
            assert(after[n as int] == c);
            if after.contains(d) && d != c {
                let k = choose|k: int| 0 <= k < after.len() && after[k] == d;
                assert(before[k] == d);
            }
            assert(cs@.contains(c));
        }
        n += 1;
    }
    assert(text@.take(n as int) =~= text@);
    cs
}

proof fn lemma_inserted(a: Seq<char>, p: int, c: char, b: Seq<char>)
    requires
        increasing(a),
        0 <= p <= a.len(),
        forall|i: int| 0 <= i < p ==> #[trigger] a[i] < c,
        forall|i: int| p <= i < a.len() ==> #[trigger] a[i] > c,
        b == a.insert(p, c),
    ensures
        increasing(b),
        forall|d: char| #[trigger] b.contains(d) <==> a.contains(d) || d == c,
{
    assert forall|i: int, j: int| 0 <= i < j < b.len() implies #[trigger] b[i] < #[trigger] b[j] by {
        if j < p {
            assert(a[i] < a[j]);
        } else if j == p {
            assert(a[i] < c);
        } else if i < p {
            assert(a[i] < c && a[j - 1] > c);
        } else if i == p {
            assert(a[j - 1] > c);
        } else {
            assert(a[i - 1] < a[j - 1]);
        }
    }
    assert forall|d: char| #[trigger] b.contains(d) <==> a.contains(d) || d == c by {
        if b.contains(d) {
            let k = choose|k: int| 0 <= k < b.len() && b[k] == d;
            if k < p {
                assert(a[k] == d);
            } else if k > p {
                assert(a[k - 1] == d);
            }
        }
        if a.contains(d) {
            let k = choose|k: int| 0 <= k < a.len() && a[k] == d;
            if k < p {
                assert(b[k] == d);
            } else {
                assert(b[k + 1] == d);
            }
        }
        assert(b[p] == c);
    }
}

/// The codes of `text` in its alphabet.
pub fn encode(cs: &[char], text: &[char]) -> (ids: Vec<u16>)
    requires
        is_alphabet(cs@, text@),
    ensures
        ids@ == encoded(cs@, text@),
{
    let mut ids: Vec<u16> = Vec::new();
    let mut i: usize = 0;
    while i < text.len()
        invariant
            i <= text.len(),
            is_alphabet(cs@, text@),
            ids@ == encoded(cs@, text@).take(i as int),
        decreases text.len() - i,
    {
        let c: char = text[i];
        let p: usize = search(cs, c);
        proof {
            assert(text@.contains(text@[i as int]));
            assert(cs@.contains(c));
            let j = choose|j: int| 0 <= j < cs@.len() && cs@[j] == c;
            if p < j {
                assert(cs@[p as int] >= c);
                assert(cs@[p as int] < cs@[j]);
            } else if j < p {
                assert(cs@[j] < c);
            }
            lemma_place(cs@, j);
        }
        ids.push((p % 0x1_0000) as u16);
        i += 1;
        assert(ids@ =~= encoded(cs@, text@).take(i as int));
    }
    assert(ids@ =~= encoded(cs@, text@));
    ids
}

} // verus!
