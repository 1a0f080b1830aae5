//! Which parameters weight decay applies to.
use crate::layout;
use crate::layout::{GptConfig, R};
use crate::model;
use crate::model::Gpt;
use crate::scalar::Scalar;
use vstd::prelude::*;

verus! {

/// How many flags are set.
pub open spec fn set_count(d: Seq<bool>) -> nat
    decreases d.len(),
{
    if d.len() == 0 {
        0
    } else if d.last() {
        set_count(d.drop_last()) + 1
    } else {
        set_count(d.drop_last())
    }
}

proof fn lemma_count_append(d: Seq<bool>, v: bool, n: nat)
    ensures
        set_count(d + layout::flags(v, n)) == set_count(d) + if v {
            n
        } else {
            0
        },
    decreases n,
{
    let e = d + layout::flags(v, n);
    if n > 0 {
        lemma_count_append(d, v, (n - 1) as nat);
        assert(e.drop_last() =~= d + layout::flags(v, (n - 1) as nat));
        assert(e.last() == v);
    } else {
        assert(e =~= d);
    }
}

proof fn lemma_count_half(d: Seq<bool>, c: nat, bias: bool, w1: nat, b1: nat, w2: nat)
    ensures
        set_count(layout::with_half_flags(d, c, bias, w1, b1, w2)) == set_count(d) + w1 + w2,
{
    let d1 = d + layout::flags(false, c);
    let d2 = d1 + layout::flags(false, layout::room(bias, c));
    let d3 = d2 + layout::flags(true, w1);
    let d4 = d3 + layout::flags(false, layout::room(bias, b1));
    let d5 = d4 + layout::flags(true, w2);
    lemma_count_append(d, false, c);
    lemma_count_append(d1, false, layout::room(bias, c));
    lemma_count_append(d2, true, w1);
    lemma_count_append(d3, false, layout::room(bias, b1));
    lemma_count_append(d4, true, w2);
    lemma_count_append(d5, false, layout::room(bias, c));
}

proof fn lemma_count_blocks(d: Seq<bool>, cfg: GptConfig, n: nat)
    ensures
        set_count(layout::with_blocks_flags(d, cfg, n)) == set_count(d) + n * (12 * (
        cfg.n_embd as nat * cfg.n_embd as nat)),
    decreases n,
{
    let c = cfg.n_embd as nat;
    let q = 12 * (c * c);
    if n > 0 {
        lemma_count_blocks(d, cfg, (n - 1) as nat);
        let e = layout::with_blocks_flags(d, cfg, (n - 1) as nat);
        reveal(layout::with_block_flags);
        lemma_count_half(e, c, cfg.bias, 3 * (c * c), 3 * c, c * c);
        lemma_count_half(
            layout::with_half_flags(e, c, cfg.bias, 3 * (c * c), 3 * c, c * c),
            c,
            cfg.bias,
            4 * (c * c),
            4 * c,
            4 * (c * c),
        );
        assert((n - 1) * q + q == n * q) by (nonlinear_arith);
    } else {
        assert(0 * q == 0) by (nonlinear_arith);
    }
}

/// Weight decay applies to as many parameters as the embeddings and the weight matrices have.
pub proof fn law_decayed_count(cfg: GptConfig)
    ensures
        set_count(layout::decay_flags(cfg)) == layout::embedding_len(cfg) + cfg.n_layer as nat * (
        12 * (cfg.n_embd as nat * cfg.n_embd as nat)),
{
    let c = cfg.n_embd as nat;
    let vc = cfg.vocab_size as nat * c;
    let tc = cfg.block_size as nat * c;
    let none = Seq::<bool>::empty();
    let d0 = layout::flags(true, vc);
    let d1 = d0 + layout::flags(true, tc);
    let d2 = layout::with_blocks_flags(d1, cfg, cfg.n_layer as nat);
    let d3 = d2 + layout::flags(false, c);
    lemma_count_append(none, true, vc);
    assert(none + d0 =~= d0);
    lemma_count_append(d0, true, tc);
    lemma_count_blocks(d1, cfg, cfg.n_layer as nat);
    lemma_count_append(d2, false, c);
    lemma_count_append(d3, false, layout::room(cfg.bias, c));
}

/// `i` lies in a stretch of the parameters.
pub open spec fn within(r: R, i: int) -> bool {
    r.off <= i < r.off + r.len
}

/// `i` lies in a stretch that may not be there.
pub open spec fn within_some(r: Option<R>, i: int) -> bool {
    r matches Some(r) && within(r, i)
}

proof fn lemma_flags_extend(d: Seq<bool>, cfg: GptConfig, l: nat, n: nat)
    requires
        l <= n,
    ensures
        layout::with_blocks_flags(d, cfg, n).len() == d.len() + n * layout::block_len(
            cfg.n_embd as nat,
            cfg.bias,
        ),
        layout::with_blocks_flags(d, cfg, l).len() <= layout::with_blocks_flags(d, cfg, n).len(),
        layout::with_blocks_flags(d, cfg, n).take(
            layout::with_blocks_flags(d, cfg, l).len() as int,
        ) == layout::with_blocks_flags(d, cfg, l),
    decreases n,
{
    let a = layout::with_blocks_flags(d, cfg, l);
    let b = layout::with_blocks_flags(d, cfg, n);
    let bl = layout::block_len(cfg.n_embd as nat, cfg.bias);
    if n == 0 {
        assert(0 * bl == 0) by (nonlinear_arith);
        assert(b.take(a.len() as int) =~= a);
    } else {
        let m = (n - 1) as nat;
        let e = layout::with_blocks_flags(d, cfg, m);
        reveal(layout::with_block_flags);
        assert(m * bl + bl == n * bl) by (nonlinear_arith)
            requires
                m == n - 1,
        ;
        lemma_flags_extend(d, cfg, m, m);
        if l == n {
            assert(b.take(a.len() as int) =~= a);
        } else {
            lemma_flags_extend(d, cfg, l, m);
            assert(b.take(e.len() as int) =~= e);
            assert(b.take(a.len() as int) =~= b.take(e.len() as int).take(a.len() as int));
        }
    }
}

/// Place `j` of a block is in one of its weight matrices.
pub open spec fn in_matrix(c: nat, bias: bool, j: int) -> bool {
    let q = c * c;
    let attn_w = c + layout::room(bias, c);
    let proj_w = attn_w + 3 * q + layout::room(bias, 3 * c);
    let fc_w = proj_w + q + layout::room(bias, c) + c + layout::room(bias, c);
    let mlp_w = fc_w + 4 * q + layout::room(bias, 4 * c);
    ||| attn_w <= j < attn_w + 3 * q
    ||| proj_w <= j < proj_w + q
    ||| fc_w <= j < fc_w + 4 * q
    ||| mlp_w <= j < mlp_w + 4 * q
}

proof fn lemma_half_flag(d: Seq<bool>, c: nat, bias: bool, w1: nat, b1: nat, w2: nat, i: int)
    ensures
        ({
            let e = layout::with_half_flags(d, c, bias, w1, b1, w2);
            let m1 = d.len() + c + layout::room(bias, c);
            let m2 = m1 + w1 + layout::room(bias, b1);
            &&& e.len() == m2 + w2 + layout::room(bias, c)
            &&& 0 <= i < d.len() ==> e[i] == d[i]
            &&& d.len() <= i < e.len() ==> e[i] == (m1 <= i < m1 + w1 || m2 <= i < m2 + w2)
        }),
{
}

proof fn lemma_block_flag(d: Seq<bool>, c: nat, bias: bool, i: int)
    ensures
        ({
            let e = layout::with_block_flags(d, c, bias);
            &&& e.len() == d.len() + layout::block_len(c, bias)
            &&& d.len() <= i < e.len() ==> e[i] == in_matrix(c, bias, i - d.len())
        }),
{
    reveal(layout::with_block_flags);
    let q = c * c;
    lemma_half_flag(d, c, bias, 3 * q, 3 * c, q, i);
    let h = layout::with_half_flags(d, c, bias, 3 * q, 3 * c, q);
    lemma_half_flag(h, c, bias, 4 * q, 4 * c, 4 * q, i);
    assert(q >= 0) by (nonlinear_arith)
        requires
            q == c * c,
    ;
}

/// Where the weight matrices and the other parts of a block lie.
proof fn lemma_block_places(off: nat, c: nat, bias: bool, i: int)
    requires
        off + layout::block_len(c, bias) <= usize::MAX,
    ensures
        ({
            let bo = layout::block_r(off, c, bias);
            let m = in_matrix(c, bias, i - off);
            &&& within(bo.attn_w, i) || within(bo.proj_w, i) || within(bo.fc_w, i) || within(
                bo.mlp_w,
                i,
            ) <==> m
            &&& within(bo.ln1.g, i) || within(bo.ln2.g, i) || within_some(bo.ln1.b, i)
                || within_some(bo.ln2.b, i) || within_some(bo.attn_b, i) || within_some(
                bo.proj_b,
                i,
            ) || within_some(bo.fc_b, i) || within_some(bo.mlp_b, i) <==> off <= i < off
                + layout::block_len(c, bias) && !m
        }),
{
    assert(c * c >= 0) by (nonlinear_arith);
}

/// The flags of a block stand among those of all blocks.
proof fn lemma_flag_of_block(d0: Seq<bool>, cfg: GptConfig, l: nat, n: nat, i: int)
    requires
        l < n,
    ensures
        ({
            let c = cfg.n_embd as nat;
            let bl = layout::block_len(c, cfg.bias);
            let off = d0.len() + l * bl;
            let all = layout::with_blocks_flags(d0, cfg, n);
            &&& off + bl <= all.len()
            &&& all.len() == d0.len() + n * bl
            &&& 0 <= i < d0.len() ==> all[i] == d0[i]
            &&& off <= i < off + bl ==> all[i] == in_matrix(c, cfg.bias, i - off)
        }),
{
    let c = cfg.n_embd as nat;
    let bl = layout::block_len(c, cfg.bias);
    let m = (l + 1) as nat;
    let before = layout::with_blocks_flags(d0, cfg, l);
    let after = layout::with_blocks_flags(d0, cfg, m);
    let all = layout::with_blocks_flags(d0, cfg, n);
    lemma_flags_extend(d0, cfg, 0, n);
    lemma_flags_extend(d0, cfg, m, n);
    lemma_flags_extend(d0, cfg, l, l);
    lemma_block_flag(before, c, cfg.bias, i);
    assert(after == layout::with_block_flags(before, c, cfg.bias));
    if 0 <= i < d0.len() {
        assert(all.take(d0.len() as int)[i] == all[i]);
    }
    if 0 <= i < after.len() {
        assert(all.take(after.len() as int)[i] == all[i]);
    }
}

/// Weight decay applies to the embeddings, and in each block to the four weight matrices; it
/// applies to no gain and no bias.
pub proof fn law_matrices_decay(cfg: GptConfig, l: nat, i: int)
    requires
        model::buildable(cfg),
        l < cfg.n_layer,
    ensures
        ({
            let c = cfg.n_embd as nat;
            let d = layout::decay_flags(cfg);
            let bo = layout::block_r(layout::block_off(cfg, l), c, cfg.bias);
            let end = layout::block_off(cfg, cfg.n_layer as nat);
            &&& d.len() == layout::total_len(cfg)
            &&& 0 <= i < layout::embedding_len(cfg) ==> d[i]
            &&& within(bo.attn_w, i) || within(bo.proj_w, i) || within(bo.fc_w, i) || within(
                bo.mlp_w,
                i,
            ) ==> d[i]
            &&& within(bo.ln1.g, i) || within(bo.ln2.g, i) || within_some(bo.ln1.b, i)
                || within_some(bo.ln2.b, i) || within_some(bo.attn_b, i) || within_some(
                bo.proj_b,
                i,
            ) || within_some(bo.fc_b, i) || within_some(bo.mlp_b, i) ==> !d[i]
            &&& end <= i < d.len() ==> !d[i]
        }),
{
    let c = cfg.n_embd as nat;
    let n = cfg.n_layer as nat;
    let d0 = layout::flags(true, cfg.vocab_size as nat * c) + layout::flags(
        true,
        cfg.block_size as nat * c,
    );
    let all = layout::with_blocks_flags(d0, cfg, n);
    lemma_flag_of_block(d0, cfg, l, n, i);
    model::lemma_ends_fit(cfg);
    lemma_block_places(layout::block_off(cfg, l), c, cfg.bias, i);
    let d = layout::decay_flags(cfg);
    assert(0 <= i < all.len() ==> d[i] == all[i]);
    assert(c * c >= 0) by (nonlinear_arith);
}

impl<T: Scalar> Gpt<T> {
    /// How many parameters weight decay applies to.
    pub fn num_decayed(&self) -> (n: usize)
        ensures
            n == set_count(self.decay@),
    {
        let mut n: usize = 0;
        let mut i: usize = 0;
        assert(self.decay@.take(0).len() == 0);
        while i < self.decay.len()
            invariant
                i <= self.decay.len(),
                n <= i,
                n == set_count(self.decay@.take(i as int)),
            decreases self.decay.len() - i,
        {
            let ghost next = self.decay@.take(i + 1);
            assert(next.drop_last() =~= self.decay@.take(i as int));
            if self.decay[i] {
                n += 1;
            }
            i += 1;
        }
        assert(self.decay@.take(i as int) =~= self.decay@);
        n
    }
}

} // verus!
