//! The forward pass.
use crate::attention::Dims;
use crate::block;
use crate::block::{block_forward, clear, copy, drop_into, norm_into, Drop, DropTerms};
use crate::cache;
use crate::cache::{BlockTerms, Cache};
use crate::ieee;
use crate::ieee::single_lt;
use crate::layers;
use crate::layout;
use crate::layout::{BlockR, GptConfig};
use crate::model;
use crate::model::Gpt;
use crate::ops;
use crate::ops::{mm_nt, softmax_span};
use crate::rng;
use crate::rng::Rng;
use crate::scalar;
use crate::scalar::{Binary, Num, Scalar, Term, Unary};
use vstd::prelude::*;

verus! {

/// The embedding of the token at place `i / c`: that of the token and that of its position.
pub open spec fn embedding_at<T>(
    params: Seq<Term<T>>,
    cfg: GptConfig,
    tokens: Seq<u32>,
    t: int,
    i: int,
) -> Term<T> {
    let c = cfg.n_embd as int;
    let row = i / c;
    scalar::sum(
        params[tokens[row] * c + i % c],
        params[cfg.vocab_size * c + (row % t) * c + i % c],
    )
}

/// The embeddings of the tokens.
pub open spec fn embedded<T>(params: Seq<Term<T>>, cfg: GptConfig, tokens: Seq<u32>, t: int) -> Seq<
    Term<T>,
> {
    Seq::new(
        (tokens.len() * cfg.n_embd) as nat,
        |i: int| embedding_at(params, cfg, tokens, t, i),
    )
}

/// The output of a block, from what it keeps.
pub open spec fn block_out<T>(k: BlockTerms<T>) -> Seq<Term<T>> {
    block::added(k.x2, k.mlp_out)
}

/// Dropout is on: in training, where its rate is more than zero.
pub open spec fn drops(cfg: GptConfig, training: bool) -> bool {
    training && ieee::single_less(0, cfg.dropout)
}

/// The factor that makes up for what is dropped.
pub open spec fn drop_scale<T>(cfg: GptConfig, training: bool) -> Term<T> {
    if drops(cfg, training) {
        scalar::quotient(
            scalar::one(),
            scalar::difference(scalar::one(), Term::Bits(cfg.dropout)),
        )
    } else {
        scalar::one()
    }
}

/// Dropout of the embeddings.
pub open spec fn emb_drop<T>(cfg: GptConfig, training: bool) -> DropTerms<T> {
    DropTerms {
        on: drops(cfg, training),
        p: Term::Bits(cfg.dropout),
        scale: drop_scale(cfg, training),
    }
}

/// Dropout within the blocks: its rate is worked out from the scale.
pub open spec fn block_drop<T>(cfg: GptConfig, training: bool) -> DropTerms<T> {
    DropTerms {
        on: drops(cfg, training),
        p: if drops(cfg, training) {
            scalar::difference(
                scalar::one(),
                scalar::quotient(scalar::one(), drop_scale(cfg, training)),
            )
        } else {
            scalar::zero()
        },
        scale: drop_scale(cfg, training),
    }
}

/// The generator after the embeddings and the first `l` blocks.
pub open spec fn state_at<T>(s: rng::State, d: Dims, drop: DropTerms<T>, l: nat) -> rng::State
    decreases l,
{
    if l == 0 {
        block::after_drop(s, (d.b * d.t * d.c) as nat, drop)
    } else {
        block::after_block(state_at(s, d, drop, (l - 1) as nat), d, drop)
    }
}

/// A pass that is not for training draws nothing from the generator.
pub proof fn law_evaluation_draws_nothing<T>(cfg: GptConfig, s: rng::State, d: Dims, l: nat)
    ensures
        state_at(s, d, block_drop::<T>(cfg, false), l) == s,
    decreases l,
{
    if l > 0 {
        law_evaluation_draws_nothing::<T>(cfg, s, d, (l - 1) as nat);
    }
}

/// What goes into block `l`, and out of the last one: the embeddings or the output of the
/// block before.
pub open spec fn activation<T: Scalar>(k: Cache<T>, l: int) -> Seq<Term<T>> {
    if l <= 0 {
        scalar::terms(k.emb@)
    } else {
        block_out(k.blocks@[l - 1]@)
    }
}

/// Each row of `x[rows, v]` by its softmax.
pub open spec fn softmax_rows<T>(x: Seq<Term<T>>, rows: int, v: int) -> Seq<Term<T>> {
    Seq::new((rows * v) as nat, |i: int| ops::softmax(layers::row(x, i / v, v))[i % v])
}

/// The logits: the last activations against the token embeddings.
pub open spec fn logits_of<T>(
    params: Seq<Term<T>>,
    cfg: GptConfig,
    lnf_out: Seq<Term<T>>,
    m: int,
) -> Seq<Term<T>> {
    let c = cfg.n_embd as int;
    let v = cfg.vocab_size as int;
    ops::nt(layout::zeros((m * v) as nat), lnf_out, params.subrange(0, v * c), m, c, v)
}

/// Minus the logarithms of the probabilities of the first `n` targets, added up.
pub open spec fn loss_sum<T>(probs: Seq<Term<T>>, targets: Seq<u32>, v: int, n: nat) -> Term<T>
    decreases n,
{
    if n == 0 {
        scalar::zero()
    } else {
        scalar::difference(
            loss_sum(probs, targets, v, (n - 1) as nat),
            scalar::apply1(
                Unary::Ln,
                scalar::apply2(
                    Binary::Maximum,
                    probs[(n - 1) * v + targets[n - 1]],
                    Term::Bits(0x2b8c_bccc),
                ),
            ),
        )
    }
}

/// The mean loss over `m` targets.
pub open spec fn loss_of<T>(probs: Seq<Term<T>>, targets: Seq<u32>, v: int, m: nat) -> Term<T> {
    scalar::product(
        loss_sum(probs, targets, v, m),
        scalar::quotient(scalar::one(), Term::Count(m as usize)),
    )
}

/// What a forward pass up to the logits leaves behind.
pub open spec fn activations_done<T: Scalar>(
    params: Seq<Term<T>>,
    cfg: GptConfig,
    tokens: Seq<u32>,
    training: bool,
    s: rng::State,
    k: Cache<T>,
) -> bool {
    let d = cache::dims_of(cfg, tokens.len());
    let m = tokens.len() as int;
    let c = cfg.n_embd as nat;
    let end = layout::block_off(cfg, cfg.n_layer as nat);
    &&& k.sized(d, cfg.vocab_size, cfg.n_layer)
    &&& k.tokens@ == tokens
    &&& k.drop_scale@ == drop_scale::<T>(cfg, training)
    &&& block::mask_for(k.emb_mask@, (m * c) as nat, emb_drop::<T>(cfg, training), s)
    &&& scalar::terms(k.emb@) == block::dropped(
        embedded(params, cfg, tokens, d.t as int),
        k.emb_mask@,
        emb_drop(cfg, training),
    )
    &&& forall|l: int|
        #![trigger k.blocks@[l]]
        0 <= l < cfg.n_layer ==> block::block_done(
            params,
            layout::block_r(layout::block_off(cfg, l as nat), c, cfg.bias),
            activation(k, l),
            k.blocks@[l]@,
            activation(k, l + 1),
            d,
            block_drop(cfg, training),
            state_at(s, d, block_drop::<T>(cfg, training), l as nat),
        )
    &&& scalar::terms(k.lnf_x@) == activation(k, cfg.n_layer as int)
    &&& scalar::terms(k.lnf_mean@) == layers::means(scalar::terms(k.lnf_x@), m, c as int)
    &&& scalar::terms(k.lnf_rstd@) == layers::rstds(scalar::terms(k.lnf_x@), m, c as int)
    &&& scalar::terms(k.lnf_out@) == layers::normalised(
        scalar::terms(k.lnf_x@),
        block::region(params, layout::r(end, c)),
        block::opt_region(params, layout::opt_r(cfg.bias, end + c, c)),
        m,
        c as int,
    )
}

/// Which buffer holds the activations that go into block `l`.
#[derive(Clone, Copy, Debug, PartialEq, Eq, Structural)]
pub enum BufId {
    Emb,
    Ping,
    Pong,
}

/// The embeddings feed the first block; from then on two buffers take turns.
pub open spec fn buffer(l: nat) -> BufId {
    if l == 0 {
        BufId::Emb
    } else if l % 2 == 1 {
        BufId::Ping
    } else {
        BufId::Pong
    }
}

/// A block never writes to the buffer it reads from.
pub proof fn law_buffers_differ(l: nat)
    ensures
        buffer(l) != buffer(l + 1),
        buffer(l + 1) != BufId::Emb,
{
}

/// The buffer that holds the activations that go into block `l`.
fn buffer_of(l: usize) -> (b: BufId)
    ensures
        b == buffer(l as nat),
{
    if l == 0 {
        BufId::Emb
    } else if l % 2 == 1 {
        BufId::Ping
    } else {
        BufId::Pong
    }
}

/// What a buffer holds.
spec fn held<T: Scalar>(k: Cache<T>, b: BufId) -> Seq<Term<T>> {
    match b {
        BufId::Emb => scalar::terms(k.emb@),
        BufId::Ping => scalar::terms(k.ping@),
        BufId::Pong => scalar::terms(k.pong@),
    }
}

/// The first `n` blocks have run.
spec fn blocks_done<T: Scalar>(
    params: Seq<Term<T>>,
    cfg: GptConfig,
    d: Dims,
    drop: DropTerms<T>,
    s: rng::State,
    k: Cache<T>,
    n: int,
) -> bool {
    forall|l: int|
        #![trigger k.blocks@[l]]
        0 <= l < n ==> block::block_done(
            params,
            layout::block_r(layout::block_off(cfg, l as nat), cfg.n_embd as nat, cfg.bias),
            activation(k, l),
            k.blocks@[l]@,
            activation(k, l + 1),
            d,
            drop,
            state_at(s, d, drop, l as nat),
        )
}

/// Fills `emb` with the embeddings of the tokens.
fn embed<T: Scalar>(
    params: &[Num<T>],
    cfg: &GptConfig,
    tokens: &[u32],
    emb: &mut [Num<T>],
    t: usize,
)
    requires
        model::buildable(*cfg),
        params@.len() == layout::total_len(*cfg),
        0 < t <= cfg.block_size,
        old(emb)@.len() == tokens@.len() * cfg.n_embd,
        forall|i: int| 0 <= i < tokens@.len() ==> #[trigger] tokens@[i] < cfg.vocab_size,
    ensures
        final(emb)@.len() == old(emb)@.len(),
        scalar::terms(final(emb)@) == embedded(
            scalar::terms(params@),
            *cfg,
            tokens@,
            t as int,
        ),
{
    let ghost pt = scalar::terms(params@);
    let c: usize = cfg.n_embd;
    let n: usize = emb.len();
    let m: usize = tokens.len();
    let total: usize = params.len();
    proof {
        model::lemma_ends_fit(*cfg);
    }
    let vc: usize = cfg.vocab_size * c;
    let mut i: usize = 0;
    while i < m
        invariant
            i <= m,
            model::buildable(*cfg),
            c == cfg.n_embd,
            vc == cfg.vocab_size * c,
            vc + cfg.block_size * c <= total,
            total == params@.len(),
            pt == scalar::terms(params@),
            0 < t <= cfg.block_size,
            m == tokens@.len(),
            n == emb@.len(),
            n == m * c,
            forall|k: int| 0 <= k < m ==> #[trigger] tokens@[k] < cfg.vocab_size,
            forall|x: int|
                0 <= x < i * c ==> (#[trigger] emb@[x])@ == embedding_at(
                    pt,
                    *cfg,
                    tokens@,
                    t as int,
                    x,
                ),
        decreases m - i,
    {
        let tok: usize = tokens[i] as usize;
        let pos: usize = i % t;
        proof {
            ops::lemma_row_end(i as int, m as int, c as int);
            ops::lemma_row_end(tok as int, cfg.vocab_size as int, c as int);
            ops::lemma_row_end(pos as int, cfg.block_size as int, c as int);
        }
        let base: usize = i * c;
        let te: usize = tok * c;
        let pe: usize = vc + pos * c;
        let mut d: usize = 0;
        while d < c
            invariant
                d <= c,
                c == cfg.n_embd,
                total == params@.len(),
                pt == scalar::terms(params@),
                n == emb@.len(),
                base == i * c,
                base + c <= n,
                tok == tokens@[i as int],
                pos == i as int % t as int,
                te == tok * c,
                te + c <= total,
                pe == cfg.vocab_size * c + pos * c,
                pe + c <= total,
                forall|x: int|
                    0 <= x < base + d ==> (#[trigger] emb@[x])@ == embedding_at(
                        pt,
                        *cfg,
                        tokens@,
                        t as int,
                        x,
                    ),
            decreases c - d,
        {
            proof {
                ops::lemma_cell(i as int, c as int, d as int);
            }
            emb[base + d] = params[te + d].plus(params[pe + d]);
            d += 1;
        }
        i += 1;
    }
    assert(scalar::terms(emb@) =~= embedded(pt, *cfg, tokens@, t as int));
}

impl<T: Scalar> Gpt<T> {
    /// Runs the blocks on the embeddings.
    fn run_blocks(&self, cache: &mut Cache<T>, d: Dims, drop: Drop<T>, rng: &mut Rng, Ghost(s):
        Ghost<rng::State>)
        requires
            self.ok(),
            cache::fits(d),
            d.c == self.cfg.n_embd,
            old(cache).sized(d, self.cfg.vocab_size, self.cfg.n_layer),
            old(rng)@ == state_at(s, d, drop@, 0),
        ensures
            final(cache).sized(d, self.cfg.vocab_size, self.cfg.n_layer),
            final(cache).tokens == old(cache).tokens,
            final(cache).drop_scale == old(cache).drop_scale,
            final(cache).emb == old(cache).emb,
            final(cache).emb_mask == old(cache).emb_mask,
            final(cache).probs == old(cache).probs,
            blocks_done(
                scalar::terms(self.params@),
                self.cfg,
                d,
                drop@,
                s,
                *final(cache),
                self.cfg.n_layer as int,
            ),
            held(*final(cache), buffer(self.cfg.n_layer as nat)) == activation(
                *final(cache),
                self.cfg.n_layer as int,
            ),
            final(rng)@ == state_at(s, d, drop@, self.cfg.n_layer as nat),
    {
        let params = self.params.as_slice();
        let ghost pt = scalar::terms(params@);
        let mut l: usize = 0;
        while l < self.cfg.n_layer
            invariant
                l <= self.cfg.n_layer,
                self.ok(),
                params@ == self.params@,
                pt == scalar::terms(params@),
                cache::fits(d),
                d.c == self.cfg.n_embd,
                cache.sized(d, self.cfg.vocab_size, self.cfg.n_layer),
                cache.tokens == old(cache).tokens,
                cache.drop_scale == old(cache).drop_scale,
                cache.emb == old(cache).emb,
                cache.emb_mask == old(cache).emb_mask,
                cache.probs == old(cache).probs,
                blocks_done(pt, self.cfg, d, drop@, s, *cache, l as int),
                held(*cache, buffer(l as nat)) == activation(*cache, l as int),
                rng@ == state_at(s, d, drop@, l as nat),
            decreases self.cfg.n_layer - l,
        {
            proof {
                model::lemma_block_fits(self.cfg, l as nat);
                law_buffers_differ(l as nat);
            }
            let ghost before = *cache;
            let bo: BlockR = self.blocks[l];
            match (buffer_of(l), buffer_of(l + 1)) {
                (BufId::Emb, _) => {
                    block_forward(
                        params,
                        &bo,
                        cache.emb.as_slice(),
                        &mut cache.blocks[l],
                        cache.ping.as_mut_slice(),
                        d,
                        drop,
                        rng,
                    );
                },
                (BufId::Ping, _) => {
                    block_forward(
                        params,
                        &bo,
                        cache.ping.as_slice(),
                        &mut cache.blocks[l],
                        cache.pong.as_mut_slice(),
                        d,
                        drop,
                        rng,
                    );
                },
                (BufId::Pong, _) => {
                    block_forward(
                        params,
                        &bo,
                        cache.pong.as_slice(),
                        &mut cache.blocks[l],
                        cache.ping.as_mut_slice(),
                        d,
                        drop,
                        rng,
                    );
                },
            }
            proof {
                assert forall|k: int| #![trigger cache.blocks@[k]] 0 <= k < l + 1 implies block::block_done(
                    pt,
                    layout::block_r(
                        layout::block_off(self.cfg, k as nat),
                        self.cfg.n_embd as nat,
                        self.cfg.bias,
                    ),
                    activation(*cache, k),
                    cache.blocks@[k]@,
                    activation(*cache, k + 1),
                    d,
                    drop@,
                    state_at(s, d, drop@, k as nat),
                ) by {
                    if k < l {
                        assert(cache.blocks@[k] == before.blocks@[k]);
                        assert(activation(*cache, k + 1) == activation(before, k + 1));
                        assert(activation(*cache, k) == activation(before, k));
                    } else {
                        assert(activation(*cache, k) == activation(before, k));
                    }
                }
            }
            l += 1;
        }
    }
}

/// Tokens that a pass can run on: whole sequences of known tokens.
pub open spec fn runnable(cfg: GptConfig, tokens: Seq<u32>) -> bool {
    &&& tokens.len() >= 1
    &&& cfg.block_size >= 1
    &&& tokens.len() % cache::dims_of(cfg, tokens.len()).t as nat == 0
    &&& cache::pass_fits(cfg, tokens.len())
    &&& forall|i: int| 0 <= i < tokens.len() ==> #[trigger] tokens[i] < cfg.vocab_size
}

/// Targets for a pass: one known token for each.
pub open spec fn are_targets(cfg: GptConfig, tokens: Seq<u32>, targets: Seq<u32>) -> bool {
    &&& targets.len() == tokens.len()
    &&& forall|i: int| 0 <= i < targets.len() ==> #[trigger] targets[i] < cfg.vocab_size
}

/// Targets that may be absent.
pub open spec fn opt_view(targets: Option<&[u32]>) -> Option<Seq<u32>> {
    match targets {
        Some(tg) => Some(tg@),
        None => None,
    }
}

/// What a forward pass leaves behind. With targets there are probabilities too, the softmax
/// of each row of logits, and the loss is the mean of minus their logarithms at the targets.
pub open spec fn forward_done<T: Scalar>(
    params: Seq<Term<T>>,
    cfg: GptConfig,
    tokens: Seq<u32>,
    targets: Option<Seq<u32>>,
    training: bool,
    s: rng::State,
    k: Cache<T>,
    loss: Term<T>,
) -> bool {
    let m = tokens.len();
    let v = cfg.vocab_size as int;
    let logits = logits_of(params, cfg, scalar::terms(k.lnf_out@), m as int);
    &&& activations_done(params, cfg, tokens, training, s, k)
    &&& scalar::terms(k.logits@) == logits
    &&& match targets {
        Some(tg) => {
            &&& scalar::terms(k.probs@) == softmax_rows(logits, m as int, v)
            &&& loss == loss_of(scalar::terms(k.probs@), tg, v, m)
        },
        None => loss == scalar::zero::<T>(),
    }
}

/// Replaces each row of `x[rows, v]` by its softmax.
fn soften_rows<T: Scalar>(x: &mut [Num<T>], rows: usize, v: usize)
    requires
        old(x)@.len() == rows * v,
    ensures
        final(x)@.len() == old(x)@.len(),
        scalar::terms(final(x)@) == softmax_rows(
            scalar::terms(old(x)@),
            rows as int,
            v as int,
        ),
{
    let ghost x0 = scalar::terms(x@);
    let n: usize = x.len();
    let mut i: usize = 0;
    while i < rows
        invariant
            i <= rows,
            n == x@.len(),
            n == x0.len(),
            n == rows * v,
            forall|j: int|
                0 <= j < n ==> (#[trigger] x@[j])@ == if j < i * v {
                    softmax_rows(x0, rows as int, v as int)[j]
                } else {
                    x0[j]
                },
        decreases rows - i,
    {
        proof {
            ops::lemma_row_end(i as int, rows as int, v as int);
        }
        let ghost x1 = scalar::terms(x@);
        let from: usize = i * v;
        assert(x1.subrange(from as int, from + v) =~= layers::row(x0, i as int, v as int));
        softmax_span(x, from, from + v);
        assert forall|j: int| 0 <= j < n implies (#[trigger] x@[j])@ == if j < from + v {
            softmax_rows(x0, rows as int, v as int)[j]
        } else {
            x0[j]
        } by {
            assert(scalar::terms(x@)[j] == x@[j]@);
            if from <= j < from + v {
                ops::lemma_cell(i as int, v as int, j - from);
            } else {
                assert(ops::softmax_in(x1, from as int, from + v)[j] == x1[j]);
                assert(x1[j] == if j < i * v {
                    softmax_rows(x0, rows as int, v as int)[j]
                } else {
                    x0[j]
                });
            }
        }
        i += 1;
    }
    assert(scalar::terms(x@) =~= softmax_rows(x0, rows as int, v as int));
}

/// The mean loss at the targets.
fn mean_loss<T: Scalar>(probs: &[Num<T>], targets: &[u32], v: usize) -> (loss: Num<T>)
    requires
        probs@.len() == targets@.len() * v,
        forall|i: int| 0 <= i < targets@.len() ==> #[trigger] targets@[i] < v,
    ensures
        loss@ == loss_of(scalar::terms(probs@), targets@, v as int, targets@.len()),
{
    let n: usize = probs.len();
    let m: usize = targets.len();
    let inv: Num<T> = Num::bits(0x3f80_0000).over(Num::count(m));
    let mut loss: Num<T> = Num::bits(0);
    let mut i: usize = 0;
    while i < m
        invariant
            i <= m,
            m == targets@.len(),
            n == probs@.len(),
            n == m * v,
            forall|j: int| 0 <= j < m ==> #[trigger] targets@[j] < v,
            loss@ == loss_sum(scalar::terms(probs@), targets@, v as int, i as nat),
        decreases m - i,
    {
        proof {
            ops::lemma_row_end(i as int, m as int, v as int);
        }
        let p: Num<T> = probs[i * v + targets[i] as usize].maximum(Num::bits(0x2b8c_bccc));
        loss = loss.minus(p.ln());
        i += 1;
    }
    loss.times(inv)
}

/// The product of the number of sequences and their length.
pub proof fn lemma_dims(cfg: GptConfig, n: nat)
    requires
        n >= 1,
        cfg.block_size >= 1,
        n <= usize::MAX,
        n % cache::dims_of(cfg, n).t as nat == 0,
    ensures
        cache::dims_of(cfg, n).b * cache::dims_of(cfg, n).t == n,
        1 <= cache::dims_of(cfg, n).t <= cfg.block_size,
{
    let t = cache::dims_of(cfg, n).t as nat;
    vstd::arithmetic::div_mod::lemma_fundamental_div_mod(n as int, t as int);
    assert(n / t <= n) by {
        vstd::arithmetic::div_mod::lemma_div_is_ordered_by_denominator(n as int, 1, t as int);
        assert(n as int / 1 == n);
    }
    assert(t * (n / t) == (n / t) * t) by (nonlinear_arith);
}

impl<T: Scalar> Gpt<T> {
    /// The forward pass up to the logits.
    fn activate(&self, tokens: &[u32], training: bool, rng: &mut Rng, cache: &mut Cache<T>)
        requires
            self.ok(),
            runnable(self.cfg, tokens@),
        ensures
            activations_done(
                scalar::terms(self.params@),
                self.cfg,
                tokens@,
                training,
                old(rng)@,
                *final(cache),
            ),
            scalar::terms(final(cache).logits@) == logits_of(
                scalar::terms(self.params@),
                self.cfg,
                scalar::terms(final(cache).lnf_out@),
                tokens@.len() as int,
            ),
            final(cache).probs == old(cache).probs,
            final(rng)@ == state_at(
                old(rng)@,
                cache::dims_of(self.cfg, tokens@.len()),
                block_drop::<T>(self.cfg, training),
                self.cfg.n_layer as nat,
            ),
    {
        let cfg: GptConfig = self.cfg;
        let m: usize = tokens.len();
        let t: usize = if cfg.block_size <= m {
            cfg.block_size
        } else {
            m
        };
        let c: usize = cfg.n_embd;
        let v: usize = cfg.vocab_size;
        let d = Dims { b: m / t, t, c, nh: cfg.n_head, hs: c / cfg.n_head };
        assert(d == cache::dims_of(cfg, m as nat));
        proof {
            lemma_dims(cfg, m as nat);
            model::lemma_ends_fit(cfg);
            cache::lemma_fits(d);
        }
        let on: bool = training && single_lt(0, cfg.dropout);
        let one: Num<T> = Num::bits(0x3f80_0000);
        let scale: Num<T> = if on {
            one.over(one.minus(Num::bits(cfg.dropout)))
        } else {
            one
        };
        let p: Num<T> = if on {
            one.minus(one.over(scale))
        } else {
            Num::bits(0)
        };
        let ghost s = rng@;
        cache.setup(m, t, &cfg);
        cache.drop_scale = scale;
        copy_tokens(&mut cache.tokens, tokens);
        let params = self.params.as_slice();
        let ghost pt = scalar::terms(params@);
        embed(params, &cfg, tokens, cache.emb.as_mut_slice(), t);
        let outer = Drop { on, p: Num::bits(cfg.dropout), scale };
        drop_into(cache.emb.as_mut_slice(), &mut cache.emb_mask, outer, rng);
        let drop = Drop { on, p, scale };
        assert(outer@ == emb_drop::<T>(cfg, training));
        assert(drop@ == block_drop::<T>(cfg, training));
        self.run_blocks(cache, d, drop, rng, Ghost(s));
        let ghost ran = *cache;
        match buffer_of(cfg.n_layer) {
            BufId::Emb => copy(cache.lnf_x.as_mut_slice(), cache.emb.as_slice()),
            BufId::Ping => copy(cache.lnf_x.as_mut_slice(), cache.ping.as_slice()),
            BufId::Pong => copy(cache.lnf_x.as_mut_slice(), cache.pong.as_slice()),
        }
        norm_into(
            cache.lnf_x.as_slice(),
            params,
            self.lnf,
            cache.lnf_mean.as_mut_slice(),
            cache.lnf_rstd.as_mut_slice(),
            cache.lnf_out.as_mut_slice(),
            m,
            c,
        );
        clear(cache.logits.as_mut_slice());
        let wte = vstd::slice::slice_subrange(params, 0, v * c);
        assert(scalar::terms(wte@) =~= pt.subrange(0, v * c));
        mm_nt(cache.logits.as_mut_slice(), cache.lnf_out.as_slice(), wte, m, c, v);
        proof {
            assert(cache.blocks == ran.blocks);
            assert forall|l: int| #![trigger cache.blocks@[l]] 0 <= l < cfg.n_layer implies block::block_done(
                pt,
                layout::block_r(layout::block_off(cfg, l as nat), c as nat, cfg.bias),
                activation(*cache, l),
                cache.blocks@[l]@,
                activation(*cache, l + 1),
                d,
                block_drop(cfg, training),
                state_at(s, d, block_drop::<T>(cfg, training), l as nat),
            ) by {
                assert(ran.blocks@[l] == cache.blocks@[l]);
                assert(activation(*cache, l) == activation(ran, l));
                assert(activation(*cache, l + 1) == activation(ran, l + 1));
            }
        }
    }

    /// The forward pass: the logits of every token's successor. With `targets` the
    /// probabilities are worked out too and the mean loss is returned, else zero.
    pub fn forward(
        &self,
        tokens: &[u32],
        targets: Option<&[u32]>,
        training: bool,
        rng: &mut Rng,
        cache: &mut Cache<T>,
    ) -> (loss: Num<T>)
        requires
            self.ok(),
            runnable(self.cfg, tokens@),
            targets matches Some(tg) ==> are_targets(self.cfg, tokens@, tg@),
        ensures
            forward_done(
                scalar::terms(self.params@),
                self.cfg,
                tokens@,
                opt_view(targets),
                training,
                old(rng)@,
                *final(cache),
                loss@,
            ),
            targets is None ==> final(cache).probs == old(cache).probs,
            final(rng)@ == state_at(
                old(rng)@,
                cache::dims_of(self.cfg, tokens@.len()),
                block_drop::<T>(self.cfg, training),
                self.cfg.n_layer as nat,
            ),
    {
        self.activate(tokens, training, rng, cache);
        proof {
            lemma_dims(self.cfg, tokens@.len());
        }
        let ghost before = *cache;
        let loss: Num<T> = match targets {
            Some(tg) => {
                let m: usize = tokens.len();
                let v: usize = self.cfg.vocab_size;
                let n: usize = cache.logits.len();
                cache.probs.resize(n, Num::bits(0));
                copy(cache.probs.as_mut_slice(), cache.logits.as_slice());
                soften_rows(cache.probs.as_mut_slice(), m, v);
                mean_loss(cache.probs.as_slice(), tg, v)
            },
            None => Num::bits(0),
        };
        proof {
            lemma_same_activations(
                scalar::terms(self.params@),
                self.cfg,
                tokens@,
                training,
                old(rng)@,
                before,
                *cache,
            );
        }
        loss
    }
}

/// Logits and probabilities are no part of the activations.
proof fn lemma_same_activations<T: Scalar>(
    params: Seq<Term<T>>,
    cfg: GptConfig,
    tokens: Seq<u32>,
    training: bool,
    s: rng::State,
    a: Cache<T>,
    b: Cache<T>,
)
    requires
        activations_done(params, cfg, tokens, training, s, a),
        b == (Cache { logits: b.logits, probs: b.probs, ..a }),
        b.logits@.len() == a.logits@.len(),
    ensures
        activations_done(params, cfg, tokens, training, s, b),
{
    assert forall|l: int| #![trigger b.blocks@[l]] 0 <= l < cfg.n_layer implies block::block_done(
        params,
        layout::block_r(layout::block_off(cfg, l as nat), cfg.n_embd as nat, cfg.bias),
        activation(b, l),
        b.blocks@[l]@,
        activation(b, l + 1),
        cache::dims_of(cfg, tokens.len()),
        block_drop(cfg, training),
        state_at(s, cache::dims_of(cfg, tokens.len()), block_drop::<T>(cfg, training), l as nat),
    ) by {
        assert(a.blocks@[l] == b.blocks@[l]);
        assert(activation(a, l) == activation(b, l));
        assert(activation(a, l + 1) == activation(b, l + 1));
    }
}

/// Copies tokens.
fn copy_tokens(dst: &mut Vec<u32>, src: &[u32])
    ensures
        final(dst)@ == src@,
{
    dst.clear();
    dst.extend_from_slice(src);
    assert(dst@ =~= src@);
}

} // verus!
