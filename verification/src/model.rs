//! The model: its shape, its parameters and their gradients.
use crate::block;
use crate::layout;
use crate::layout::{BlockR, Fill, LayerR, ParamBuilder, R};
use crate::rng;
use crate::rng::Rng;
use crate::scalar;
use crate::scalar::{Num, Scalar};
use crate::sizes;
use vstd::prelude::*;

pub use crate::layout::GptConfig;

verus! {

/// A model: its shape, its parameters and their gradients, and where each part lies.
pub struct Gpt<T: Scalar> {
    pub cfg: GptConfig,
    pub params: Vec<Num<T>>,
    pub grads: Vec<Num<T>>,
    /// For each parameter, whether weight decay applies: to embeddings and weight matrices.
    pub decay: Vec<bool>,
    pub wte: R,
    pub wpe: R,
    pub blocks: Vec<BlockR>,
    pub lnf: LayerR,
}

/// The shape of a model that can be built: the heads share the width evenly, and the number
/// of parameters can be written.
pub open spec fn buildable(cfg: GptConfig) -> bool {
    &&& cfg.n_head > 0
    &&& cfg.n_embd % cfg.n_head == 0
    &&& layout::total_len(cfg) <= usize::MAX
}

/// Whether a model of this shape can be built.
pub fn can_build(cfg: &GptConfig) -> (b: bool)
    ensures
        b == buildable(*cfg),
{
    if cfg.n_head == 0 || cfg.n_embd % cfg.n_head != 0 {
        return false;
    }
    let c: usize = cfg.n_embd;
    let ghost cn = c as nat;
    let one = Some(c);
    assert(sizes::holds(one, cn));
    let square = sizes::times(one, c);
    let squares = sizes::times(square, 12);
    assert(sizes::holds(squares, cn * cn * 12));
    let rest = sizes::times(
        one,
        if cfg.bias {
            13
        } else {
            2
        },
    );
    let block = sizes::plus(squares, rest);
    let ghost bl = layout::block_len(cn, cfg.bias);
    assert(sizes::holds(block, bl));
    let blocks = sizes::times(block, cfg.n_layer);
    let tokens = sizes::times(one, cfg.vocab_size);
    let positions = sizes::times(one, cfg.block_size);
    let ends = sizes::plus(tokens, positions);
    let last = sizes::times(
        one,
        if cfg.bias {
            2
        } else {
            1
        },
    );
    let body = sizes::plus(ends, blocks);
    let total = sizes::plus(body, last);
    proof {
        let vc = cn * cfg.vocab_size as nat;
        let tc = cn * cfg.block_size as nat;
        let lb = bl * cfg.n_layer as nat;
        let lc = cn * (if cfg.bias {
            2
        } else {
            1nat
        });
        assert(sizes::holds(tokens, vc));
        assert(sizes::holds(positions, tc));
        assert(sizes::holds(blocks, lb));
        assert(sizes::holds(last, lc));
        assert(sizes::holds(ends, vc + tc));
        assert(sizes::holds(body, vc + tc + lb));
        assert(vc == cfg.vocab_size as nat * cn) by (nonlinear_arith)
            requires
                vc == cn * cfg.vocab_size as nat,
        ;
        assert(tc == cfg.block_size as nat * cn) by (nonlinear_arith)
            requires
                tc == cn * cfg.block_size as nat,
        ;
        assert(lb == cfg.n_layer as nat * bl) by (nonlinear_arith)
            requires
                lb == bl * cfg.n_layer as nat,
        ;
        assert(sizes::holds(total, layout::total_len(*cfg)));
    }
    total.is_some()
}

impl<T: Scalar> Gpt<T> {
    /// Every part of the model lies where its shape says.
    pub open spec fn ok(&self) -> bool {
        let cfg = self.cfg;
        let c = cfg.n_embd as nat;
        let vc = cfg.vocab_size as nat * c;
        let end = layout::block_off(cfg, cfg.n_layer as nat);
        &&& buildable(cfg)
        &&& self.params@.len() == layout::total_len(cfg)
        &&& self.grads@.len() == layout::total_len(cfg)
        &&& self.decay@.len() == layout::total_len(cfg)
        &&& self.wte == layout::r(0, vc)
        &&& self.wpe == layout::r(vc, cfg.block_size as nat * c)
        &&& self.blocks@.len() == cfg.n_layer
        &&& forall|l: int|
            0 <= l < cfg.n_layer ==> #[trigger] self.blocks@[l] == layout::block_r(
                layout::block_off(cfg, l as nat),
                c,
                cfg.bias,
            )
        &&& self.lnf == (LayerR {
            g: layout::r(end, c),
            b: layout::opt_r(cfg.bias, end + c, c),
        })
    }

    /// A model of the given shape with random weights.
    pub fn new(cfg: GptConfig, rng: &mut Rng) -> (m: Self)
        requires
            buildable(cfg),
        ensures
            m.ok(),
            m.cfg == cfg,
            scalar::terms(m.params@) == layout::initial::<T>(cfg, old(rng)@),
            scalar::terms(m.grads@) == layout::zeros::<T>(layout::total_len(cfg)),
            m.decay@ == layout::decay_flags(cfg),
            final(rng)@ == rng::advance_by(old(rng)@, layout::initial_draws(cfg)),
    {
        let c: usize = cfg.n_embd;
        let v: usize = cfg.vocab_size;
        let t: usize = cfg.block_size;
        let ghost s = rng@;
        let ghost cn = c as nat;
        let ghost vc = v as nat * cn;
        let ghost tc = t as nat * cn;
        let ghost bl = layout::block_len(cn, cfg.bias);
        let ghost q24 = 24 * (cn * cn);
        let ghost s2 = rng::advance_by(s, 2 * (vc + tc));
        proof {
            layout::lemma_advance_adds(s, 2 * vc, 2 * tc);
            assert(cfg.n_layer as nat * bl >= 0) by (nonlinear_arith)
                requires
                    bl >= 0,
            ;
        }
        let std: Num<T> = Num::bits(0x3ca3_d70a);
        let resid: Num<T> = Num::bits(0x3ca3_d70a).over(
            Num::bits(0x4000_0000).times(Num::count(cfg.n_layer)).sqrt(),
        );
        let mut pb: ParamBuilder<T> = ParamBuilder { params: Vec::new(), decay: Vec::new() };
        assert(scalar::terms(pb.params@) + layout::normals(std@, vc, s) =~= layout::normals(
            std@,
            vc,
            s,
        ));
        assert(pb.decay@ + layout::flags(true, vc) =~= layout::flags(true, vc));
        let wte = pb.add(v * c, true, Fill::Normal(std), rng);
        let wpe = pb.add(t * c, true, Fill::Normal(std), rng);
        let ghost p0 = scalar::terms(pb.params@);
        let ghost d0 = pb.decay@;
        let mut blocks: Vec<BlockR> = Vec::new();
        let mut l: usize = 0;
        while l < cfg.n_layer
            invariant
                l <= cfg.n_layer,
                buildable(cfg),
                c == cfg.n_embd,
                cn == c as nat,
                bl == layout::block_len(cn, cfg.bias),
                q24 == 24 * (cn * cn),
                std@ == layout::base_std::<T>(),
                resid@ == layout::resid_std::<T>(cfg.n_layer),
                pb.params@.len() == layout::block_off(cfg, l as nat),
                scalar::terms(pb.params@) == layout::with_blocks(p0, cfg, l as nat, s2),
                pb.decay@ == layout::with_blocks_flags(d0, cfg, l as nat),
                rng@ == rng::advance_by(s2, l as nat * q24),
                blocks@.len() == l,
                forall|k: int|
                    0 <= k < l ==> #[trigger] blocks@[k] == layout::block_r(
                        layout::block_off(cfg, k as nat),
                        cn,
                        cfg.bias,
                    ),
            decreases cfg.n_layer - l,
        {
            proof {
                assert((l + 1) * bl <= cfg.n_layer * bl) by (nonlinear_arith)
                    requires
                        l + 1 <= cfg.n_layer,
                        bl >= 0,
                ;
                assert((l + 1) * bl == l * bl + bl) by (nonlinear_arith);
                assert((l + 1) * q24 == l * q24 + q24) by (nonlinear_arith);
                layout::lemma_advance_adds(s2, l as nat * q24, q24);
            }
            let b = pb.add_block(c, cfg.bias, Ghost(cfg.n_layer), std, resid, rng);
            blocks.push(b);
            l += 1;
        }
        let g = pb.add(c, false, Fill::Ones, rng);
        let b = pb.add_bias(cfg.bias, c, rng);
        let lnf = LayerR { g, b };
        proof {
            layout::lemma_advance_adds(s, 2 * (vc + tc), cfg.n_layer as nat * q24);
            assert(pb.decay@.len() == layout::total_len(cfg)) by {
                lemma_flags_len(d0, cfg, cfg.n_layer as nat);
            }
        }
        let n: usize = pb.params.len();
        let grads: Vec<Num<T>> = zero_vec(n);
        Gpt { cfg, params: pb.params, grads, decay: pb.decay, wte, wpe, blocks, lnf }
    }

    /// How many parameters there are, not counting the position embeddings.
    pub fn num_params(&self) -> (n: usize)
        requires
            self.ok(),
        ensures
            n == layout::total_len(self.cfg) - self.cfg.block_size * self.cfg.n_embd,
    {
        proof {
            let c = self.cfg.n_embd as nat;
            let bl = layout::block_len(c, self.cfg.bias);
            assert(self.cfg.vocab_size as nat * c >= 0) by (nonlinear_arith);
            assert(self.cfg.n_layer as nat * bl >= 0) by (nonlinear_arith)
                requires
                    bl >= 0,
            ;
        }
        self.params.len() - self.wpe.len
    }

    /// Sets all gradients to zero.
    pub fn zero_grad(&mut self)
        ensures
            scalar::terms(final(self).grads@) == layout::zeros::<T>(old(self).grads@.len()),
            final(self).grads@.len() == old(self).grads@.len(),
            final(self).cfg == old(self).cfg,
            final(self).params == old(self).params,
            final(self).decay == old(self).decay,
            final(self).wte == old(self).wte,
            final(self).wpe == old(self).wpe,
            final(self).blocks == old(self).blocks,
            final(self).lnf == old(self).lnf,
    {
        let n: usize = self.grads.len();
        self.grads = zero_vec(n);
    }
}

/// Zeros.
pub fn zero_vec<T: Scalar>(n: usize) -> (v: Vec<Num<T>>)
    ensures
        v@.len() == n,
        scalar::terms(v@) == layout::zeros::<T>(n as nat),
{
    let mut v: Vec<Num<T>> = Vec::new();
    let mut i: usize = 0;
    while i < n
        invariant
            i <= n,
            v@.len() == i,
            forall|j: int| 0 <= j < i ==> (#[trigger] v@[j])@ == scalar::zero::<T>(),
        decreases n - i,
    {
        v.push(Num::bits(0));
        i += 1;
    }
    assert(scalar::terms(v@) =~= layout::zeros::<T>(n as nat));
    v
}

proof fn lemma_flags_len(d: Seq<bool>, cfg: GptConfig, n: nat)
    ensures
        layout::with_blocks_flags(d, cfg, n).len() == d.len() + n * layout::block_len(
            cfg.n_embd as nat,
            cfg.bias,
        ),
    decreases n,
{
    let bl = layout::block_len(cfg.n_embd as nat, cfg.bias);
    reveal(layout::with_block_flags);
    if n > 0 {
        lemma_flags_len(d, cfg, (n - 1) as nat);
        assert((n - 1) * bl + bl == n * bl) by (nonlinear_arith);
    } else {
        assert(0 * bl == 0);
    }
}

/// Every part of every block lies within the parameters.
pub proof fn lemma_block_fits(cfg: GptConfig, l: nat)
    requires
        buildable(cfg),
        l < cfg.n_layer,
    ensures
        block::block_fits(
            layout::block_r(layout::block_off(cfg, l), cfg.n_embd as nat, cfg.bias),
            cfg.n_embd as int,
            layout::total_len(cfg) as int,
        ),
{
    let c = cfg.n_embd as nat;
    let bl = layout::block_len(c, cfg.bias);
    let n = cfg.n_layer as nat;
    assert(l * bl + bl <= n * bl) by (nonlinear_arith)
        requires
            l + 1 <= n,
    ;
    assert(c * (3 * c) == 3 * (c * c)) by (nonlinear_arith);
    assert(c * (4 * c) == 4 * (c * c)) by (nonlinear_arith);
    assert((4 * c) * c == 4 * (c * c)) by (nonlinear_arith);
    assert(cfg.vocab_size as nat * c >= 0) by (nonlinear_arith);
    assert(cfg.block_size as nat * c >= 0) by (nonlinear_arith);
    assert(l * bl >= 0) by (nonlinear_arith);
    assert(c * c >= 0) by (nonlinear_arith);
}

/// The last normalisation and the embeddings lie within the parameters.
pub proof fn lemma_ends_fit(cfg: GptConfig)
    requires
        buildable(cfg),
    ensures
        ({
            let c = cfg.n_embd as nat;
            let vc = cfg.vocab_size as nat * c;
            let tc = cfg.block_size as nat * c;
            let end = layout::block_off(cfg, cfg.n_layer as nat);
            &&& vc + tc <= end
            &&& end + c + layout::room(cfg.bias, c) == layout::total_len(cfg)
            &&& block::layer_fits(
                LayerR { g: layout::r(end, c), b: layout::opt_r(cfg.bias, end + c, c) },
                c as int,
                layout::total_len(cfg) as int,
            )
        }),
{
    let c = cfg.n_embd as nat;
    let bl = layout::block_len(c, cfg.bias);
    assert(cfg.n_layer as nat * bl >= 0) by (nonlinear_arith);
}

} // verus!
