//! Where the parameters of a model lie, and what they start as.
//!
//! All parameters lie in one row: token embeddings, position embeddings, the blocks one
//! behind the other, the last normalisation.
use crate::rng;
use crate::rng::Rng;
use crate::scalar;
use crate::scalar::{Num, Scalar, Term, Unary};
use vstd::prelude::*;

verus! {

/// The shape of a model.
#[derive(Clone, Copy, Debug, PartialEq, Eq, Structural)]
pub struct GptConfig {
    pub block_size: usize,
    pub vocab_size: usize,
    pub n_layer: usize,
    pub n_head: usize,
    pub n_embd: usize,
    /// The bit pattern of the dropout rate, a single.
    pub dropout: u32,
    pub bias: bool,
}

/// A stretch of the parameters: where it starts and how long it is.
#[derive(Clone, Copy, Debug, PartialEq, Eq, Structural)]
pub struct R {
    pub off: usize,
    pub len: usize,
}

/// The parameters of a layer normalisation: scale and, where there is one, bias.
#[derive(Clone, Copy, Debug, PartialEq, Eq, Structural)]
pub struct LayerR {
    pub g: R,
    pub b: Option<R>,
}

/// The parameters of a transformer block.
#[derive(Clone, Copy, Debug, PartialEq, Eq, Structural)]
pub struct BlockR {
    pub ln1: LayerR,
    pub attn_w: R,
    pub attn_b: Option<R>,
    pub proj_w: R,
    pub proj_b: Option<R>,
    pub ln2: LayerR,
    pub fc_w: R,
    pub fc_b: Option<R>,
    pub mlp_w: R,
    pub mlp_b: Option<R>,
}

/// A stretch given by numbers without bounds.
pub open spec fn r(off: nat, len: nat) -> R {
    R { off: off as usize, len: len as usize }
}

/// A stretch that is there only with biases.
pub open spec fn opt_r(bias: bool, off: nat, len: nat) -> Option<R> {
    if bias {
        Some(r(off, len))
    } else {
        None
    }
}

/// How much room `n` bias numbers take.
pub open spec fn room(bias: bool, n: nat) -> nat {
    if bias {
        n
    } else {
        0
    }
}

/// How many parameters a block of width `c` has.
pub open spec fn block_len(c: nat, bias: bool) -> nat {
    12 * (c * c) + 2 * c + room(bias, 11 * c)
}

/// The parameters of a block of width `c` that starts at `off`.
pub open spec fn block_r(off: nat, c: nat, bias: bool) -> BlockR {
    let ln1b = off + c;
    let attn_w = ln1b + room(bias, c);
    let attn_b = attn_w + 3 * (c * c);
    let proj_w = attn_b + room(bias, 3 * c);
    let proj_b = proj_w + c * c;
    let ln2g = proj_b + room(bias, c);
    let ln2b = ln2g + c;
    let fc_w = ln2b + room(bias, c);
    let fc_b = fc_w + 4 * (c * c);
    let mlp_w = fc_b + room(bias, 4 * c);
    let mlp_b = mlp_w + 4 * (c * c);
    BlockR {
        ln1: LayerR { g: r(off, c), b: opt_r(bias, ln1b, c) },
        attn_w: r(attn_w, 3 * (c * c)),
        attn_b: opt_r(bias, attn_b, 3 * c),
        proj_w: r(proj_w, c * c),
        proj_b: opt_r(bias, proj_b, c),
        ln2: LayerR { g: r(ln2g, c), b: opt_r(bias, ln2b, c) },
        fc_w: r(fc_w, 4 * (c * c)),
        fc_b: opt_r(bias, fc_b, 4 * c),
        mlp_w: r(mlp_w, 4 * (c * c)),
        mlp_b: opt_r(bias, mlp_b, c),
    }
}

/// Where block `l` starts.
pub open spec fn block_off(cfg: GptConfig, l: nat) -> nat {
    let c = cfg.n_embd as nat;
    cfg.vocab_size as nat * c + cfg.block_size as nat * c + l * block_len(c, cfg.bias)
}

/// How many parameters a model has.
pub open spec fn total_len(cfg: GptConfig) -> nat {
    let c = cfg.n_embd as nat;
    block_off(cfg, cfg.n_layer as nat) + c + room(cfg.bias, c)
}

/// What a stretch of parameters starts as.
pub enum Fill<T: Scalar> {
    /// Normal samples with this standard deviation.
    Normal(Num<T>),
    Ones,
    Zeros,
}

/// `len` normal samples from the state `s` on.
pub open spec fn normals<T>(std: Term<T>, len: nat, s: rng::State) -> Seq<Term<T>> {
    Seq::new(
        len,
        |i: int| rng::normal_term(scalar::zero(), std, rng::advance_by(s, (2 * i) as nat)),
    )
}

pub open spec fn ones<T>(len: nat) -> Seq<Term<T>> {
    Seq::new(len, |i: int| scalar::one())
}

pub open spec fn zeros<T>(len: nat) -> Seq<Term<T>> {
    Seq::new(len, |i: int| scalar::zero())
}

/// The numbers that a fill stands for.
pub open spec fn filled<T: Scalar>(fill: Fill<T>, len: nat, s: rng::State) -> Seq<Term<T>> {
    match fill {
        Fill::Normal(std) => normals(std@, len, s),
        Fill::Ones => ones(len),
        Fill::Zeros => zeros(len),
    }
}

/// How many words a fill draws.
pub open spec fn drawn<T: Scalar>(fill: Fill<T>, len: nat) -> nat {
    match fill {
        Fill::Normal(_) => 2 * len,
        _ => 0,
    }
}

/// Flags that are all alike.
pub open spec fn flags(v: bool, len: nat) -> Seq<bool> {
    Seq::new(len, |i: int| v)
}

/// Drawing twice in a row is drawing once.
pub proof fn lemma_advance_adds(s: rng::State, a: nat, b: nat)
    ensures
        rng::advance_by(rng::advance_by(s, a), b) == rng::advance_by(s, a + b),
{
    rng::law_draws_add_up(s, a, b);
}

/// Parameters and their decay flags under construction.
pub struct ParamBuilder<T: Scalar> {
    pub params: Vec<Num<T>>,
    pub decay: Vec<bool>,
}

impl<T: Scalar> ParamBuilder<T> {
    /// Appends a stretch of parameters.
    pub fn add(&mut self, len: usize, weight_decay: bool, fill: Fill<T>, rng: &mut Rng) -> (at: R)
        requires
            old(self).params@.len() + len <= usize::MAX,
        ensures
            at.off == old(self).params@.len(),
            at.len == len,
            scalar::terms(final(self).params@) == scalar::terms(old(self).params@) + filled(
                fill,
                len as nat,
                old(rng)@,
            ),
            final(self).params@.len() == old(self).params@.len() + len,
            final(self).decay@ == old(self).decay@ + flags(weight_decay, len as nat),
            final(rng)@ == rng::advance_by(old(rng)@, drawn(fill, len as nat)),
    {
        let off: usize = self.params.len();
        let ghost p0 = scalar::terms(self.params@);
        let ghost d0 = self.decay@;
        let ghost s = rng@;
        let mut i: usize = 0;
        while i < len
            invariant
                i <= len,
                s == old(rng)@,
                p0 == scalar::terms(old(self).params@),
                d0 == old(self).decay@,
                self.params@.len() == p0.len() + i,
                scalar::terms(self.params@) == p0 + filled(fill, i as nat, s),
                self.decay@ == d0 + flags(weight_decay, i as nat),
                rng@ == rng::advance_by(s, drawn(fill, i as nat)),
            decreases len - i,
        {
            let ghost before = scalar::terms(self.params@);
            let v: Num<T> = match &fill {
                Fill::Normal(std) => {
                    proof {
                        lemma_advance_adds(s, (2 * i) as nat, 2);
                    }
                    rng.normal_f32(Num::bits(0), *std)
                },
                Fill::Ones => Num::bits(0x3f80_0000),
                Fill::Zeros => Num::bits(0),
            };
            self.params.push(v);
            self.decay.push(weight_decay);
            i += 1;
            assert(filled(fill, i as nat, s) =~= filled(fill, (i - 1) as nat, s).push(v@));
            assert(scalar::terms(self.params@) =~= before.push(v@));
        }
        R { off, len }
    }

    /// Appends a stretch of zeros that do not decay, where there are biases.
    pub(crate) fn add_bias(&mut self, bias: bool, len: usize, rng: &mut Rng) -> (at: Option<R>)
        requires
            old(self).params@.len() + room(bias, len as nat) <= usize::MAX,
        ensures
            at == opt_r(bias, old(self).params@.len(), len as nat),
            scalar::terms(final(self).params@) == scalar::terms(old(self).params@) + zeros(
                room(bias, len as nat),
            ),
            final(self).params@.len() == old(self).params@.len() + room(bias, len as nat),
            final(self).decay@ == old(self).decay@ + flags(false, room(bias, len as nat)),
            final(rng)@ == old(rng)@,
    {
        if bias {
            Some(self.add(len, false, Fill::Zeros, rng))
        } else {
            assert(scalar::terms(self.params@) + zeros::<T>(0) =~= scalar::terms(self.params@));
            assert(self.decay@ + flags(false, 0) =~= self.decay@);
            None
        }
    }
}

/// The standard deviation of most weights, 0.02.
pub open spec fn base_std<T>() -> Term<T> {
    Term::Bits(0x3ca3_d70a)
}

/// The standard deviation of the projections onto the residual path, 0.02 over the root of
/// twice the number of layers.
pub open spec fn resid_std<T>(n_layer: usize) -> Term<T> {
    scalar::quotient(
        base_std(),
        scalar::apply1(
            Unary::Sqrt,
            scalar::product(Term::Bits(0x4000_0000), Term::Count(n_layer)),
        ),
    )
}

/// `p` with the parameters of attention and its normalisation appended, as they are before
/// training.
pub open spec fn with_attention<T>(
    p: Seq<Term<T>>,
    c: nat,
    bias: bool,
    n_layer: usize,
    s: rng::State,
) -> Seq<Term<T>> {
    p + ones(c) + zeros(room(bias, c)) + normals(base_std(), 3 * (c * c), s) + zeros(
        room(bias, 3 * c),
    ) + normals(resid_std(n_layer), c * c, rng::advance_by(s, 6 * (c * c))) + zeros(room(bias, c))
}

/// `p` with the parameters of the feed-forward part and its normalisation appended, as they
/// are before training.
pub open spec fn with_feed_forward<T>(
    p: Seq<Term<T>>,
    c: nat,
    bias: bool,
    n_layer: usize,
    s: rng::State,
) -> Seq<Term<T>> {
    p + ones(c) + zeros(room(bias, c)) + normals(base_std(), 4 * (c * c), s) + zeros(
        room(bias, 4 * c),
    ) + normals(resid_std(n_layer), 4 * (c * c), rng::advance_by(s, 8 * (c * c))) + zeros(
        room(bias, c),
    )
}

/// `p` with the parameters of a block appended, as they are before training.
#[verifier::opaque]
pub open spec fn with_block<T>(
    p: Seq<Term<T>>,
    c: nat,
    bias: bool,
    n_layer: usize,
    s: rng::State,
) -> Seq<Term<T>> {
    with_feed_forward(
        with_attention(p, c, bias, n_layer, s),
        c,
        bias,
        n_layer,
        rng::advance_by(s, 8 * (c * c)),
    )
}

/// `d` with the decay flags of one half of a block appended: a gain and its bias, a matrix
/// of `w1` numbers and its bias of `b1`, a matrix of `w2` numbers and its bias.
pub open spec fn with_half_flags(d: Seq<bool>, c: nat, bias: bool, w1: nat, b1: nat, w2: nat) -> Seq<
    bool,
> {
    d + flags(false, c) + flags(false, room(bias, c)) + flags(true, w1) + flags(
        false,
        room(bias, b1),
    ) + flags(true, w2) + flags(false, room(bias, c))
}

/// `d` with the decay flags of a block appended: the weight matrices decay, gains and
/// biases do not.
#[verifier::opaque]
pub open spec fn with_block_flags(d: Seq<bool>, c: nat, bias: bool) -> Seq<bool> {
    with_half_flags(
        with_half_flags(d, c, bias, 3 * (c * c), 3 * c, c * c),
        c,
        bias,
        4 * (c * c),
        4 * c,
        4 * (c * c),
    )
}

/// `p` with the parameters of `n` blocks appended.
pub open spec fn with_blocks<T>(p: Seq<Term<T>>, cfg: GptConfig, n: nat, s: rng::State) -> Seq<
    Term<T>,
>
    decreases n,
{
    if n == 0 {
        p
    } else {
        let c = cfg.n_embd as nat;
        with_block(
            with_blocks(p, cfg, (n - 1) as nat, s),
            c,
            cfg.bias,
            cfg.n_layer,
            rng::advance_by(s, ((n - 1) as nat) * (24 * (c * c))),
        )
    }
}

/// `d` with the decay flags of `n` blocks appended.
pub open spec fn with_blocks_flags(d: Seq<bool>, cfg: GptConfig, n: nat) -> Seq<bool>
    decreases n,
{
    if n == 0 {
        d
    } else {
        with_block_flags(
            with_blocks_flags(d, cfg, (n - 1) as nat),
            cfg.n_embd as nat,
            cfg.bias,
        )
    }
}

/// How many of the parameters before the blocks there are.
pub open spec fn embedding_len(cfg: GptConfig) -> nat {
    let c = cfg.n_embd as nat;
    cfg.vocab_size as nat * c + cfg.block_size as nat * c
}

/// The parameters of a model before training, drawn from the state `s`.
pub open spec fn initial<T>(cfg: GptConfig, s: rng::State) -> Seq<Term<T>> {
    let c = cfg.n_embd as nat;
    let vc = cfg.vocab_size as nat * c;
    let tc = cfg.block_size as nat * c;
    with_blocks(
        normals(base_std(), vc, s) + normals(base_std(), tc, rng::advance_by(s, 2 * vc)),
        cfg,
        cfg.n_layer as nat,
        rng::advance_by(s, 2 * (vc + tc)),
    ) + ones(c) + zeros(room(cfg.bias, c))
}

/// How many words the parameters of a model are drawn from.
pub open spec fn initial_draws(cfg: GptConfig) -> nat {
    let c = cfg.n_embd as nat;
    2 * embedding_len(cfg) + cfg.n_layer as nat * (24 * (c * c))
}

/// The decay flags of a model: embeddings and weight matrices decay.
pub open spec fn decay_flags(cfg: GptConfig) -> Seq<bool> {
    let c = cfg.n_embd as nat;
    let vc = cfg.vocab_size as nat * c;
    let tc = cfg.block_size as nat * c;
    with_blocks_flags(flags(true, vc) + flags(true, tc), cfg, cfg.n_layer as nat) + flags(false, c)
        + flags(false, room(cfg.bias, c))
}

/// The parameters of one half of a block.
struct HalfR {
    ln: LayerR,
    w1: R,
    b1: Option<R>,
    w2: R,
    b2: Option<R>,
}

impl<T: Scalar> ParamBuilder<T> {
    /// Appends a normalisation of width `c` and two matrices with their biases.
    fn add_half(
        &mut self,
        c: usize,
        bias: bool,
        w1: usize,
        b1: usize,
        w2: usize,
        std: Num<T>,
        resid: Num<T>,
        rng: &mut Rng,
    ) -> (at: HalfR)
        requires
            old(self).params@.len() + c + w1 + w2 + room(bias, (2 * c + b1) as nat) <= usize::MAX,
        ensures
            ({
                let o = old(self).params@.len();
                let m1 = o + c as nat + room(bias, c as nat);
                let m2 = m1 + w1 as nat + room(bias, b1 as nat);
                &&& at.ln == (LayerR { g: r(o, c as nat), b: opt_r(bias, o + c as nat, c as nat) })
                &&& at.w1 == r(m1, w1 as nat)
                &&& at.b1 == opt_r(bias, m1 + w1 as nat, b1 as nat)
                &&& at.w2 == r(m2, w2 as nat)
                &&& at.b2 == opt_r(bias, m2 + w2 as nat, c as nat)
                &&& final(self).params@.len() == m2 + w2 + room(bias, c as nat)
            }),
            scalar::terms(final(self).params@) == scalar::terms(old(self).params@) + ones(c as nat)
                + zeros(room(bias, c as nat)) + normals(std@, w1 as nat, old(rng)@) + zeros(
                room(bias, b1 as nat),
            ) + normals(resid@, w2 as nat, rng::advance_by(old(rng)@, (2 * w1) as nat)) + zeros(
                room(bias, c as nat),
            ),
            final(self).decay@ == with_half_flags(
                old(self).decay@,
                c as nat,
                bias,
                w1 as nat,
                b1 as nat,
                w2 as nat,
            ),
            final(rng)@ == rng::advance_by(old(rng)@, (2 * w1 + 2 * w2) as nat),
    {
        proof {
            lemma_advance_adds(rng@, (2 * w1) as nat, (2 * w2) as nat);
        }
        let g = self.add(c, false, Fill::Ones, rng);
        let b = self.add_bias(bias, c, rng);
        let w1_at = self.add(w1, true, Fill::Normal(std), rng);
        let b1_at = self.add_bias(bias, b1, rng);
        let w2_at = self.add(w2, true, Fill::Normal(resid), rng);
        let b2_at = self.add_bias(bias, c, rng);
        HalfR { ln: LayerR { g, b }, w1: w1_at, b1: b1_at, w2: w2_at, b2: b2_at }
    }

    /// Appends the parameters of a block.
    #[verifier::rlimit(40)]
    pub(crate) fn add_block(
        &mut self,
        c: usize,
        bias: bool,
        Ghost(n_layer): Ghost<usize>,
        std: Num<T>,
        resid: Num<T>,
        rng: &mut Rng,
    ) -> (at: BlockR)
        requires
            old(self).params@.len() + block_len(c as nat, bias) <= usize::MAX,
            std@ == base_std::<T>(),
            resid@ == resid_std::<T>(n_layer),
        ensures
            at == block_r(old(self).params@.len(), c as nat, bias),
            scalar::terms(final(self).params@) == with_block(
                scalar::terms(old(self).params@),
                c as nat,
                bias,
                n_layer,
                old(rng)@,
            ),
            final(self).params@.len() == old(self).params@.len() + block_len(c as nat, bias),
            final(self).decay@ == with_block_flags(old(self).decay@, c as nat, bias),
            final(rng)@ == rng::advance_by(old(rng)@, 24 * (c as nat * c as nat)),
    {
        let ghost q = c as nat * c as nat;
        proof {
            reveal(with_block);
            reveal(with_block_flags);
            lemma_advance_adds(rng@, 8 * q, 16 * q);
            assert(c <= q) by (nonlinear_arith)
                requires
                    q == c as nat * c as nat,
            ;
        }
        let sq: usize = c * c;
        let ghost p0 = scalar::terms(self.params@);
        let ghost s0 = rng@;
        let a = self.add_half(c, bias, 3 * sq, 3 * c, sq, std, resid, rng);
        let ghost p1 = scalar::terms(self.params@);
        assert(p1 == with_attention(p0, c as nat, bias, n_layer, s0));
        let f = self.add_half(c, bias, 4 * sq, 4 * c, 4 * sq, std, resid, rng);
        assert(scalar::terms(self.params@) == with_feed_forward(
            p1,
            c as nat,
            bias,
            n_layer,
            rng::advance_by(s0, 8 * q),
        ));
        BlockR {
            ln1: a.ln,
            attn_w: a.w1,
            attn_b: a.b1,
            proj_w: a.w2,
            proj_b: a.b2,
            ln2: f.ln,
            fc_w: f.w1,
            fc_b: f.b1,
            mlp_w: f.w2,
            mlp_b: f.b2,
        }
    }
}

} // verus!
