//! The buffers that a forward pass fills for the way back.
use crate::attention::Dims;
use crate::layout::GptConfig;
use crate::scalar;
use crate::scalar::{Num, Scalar, Term};
use crate::sizes;
use vstd::prelude::*;

verus! {

/// What a block keeps of its forward pass.
pub struct BlockCache<T: Scalar> {
    pub x_in: Vec<Num<T>>,
    pub ln1_mean: Vec<Num<T>>,
    pub ln1_rstd: Vec<Num<T>>,
    pub ln1_out: Vec<Num<T>>,
    pub qkv: Vec<Num<T>>,
    pub att: Vec<Num<T>>,
    pub att_mask: Vec<u8>,
    pub attn_out: Vec<Num<T>>,
    pub resid_mask: Vec<u8>,
    pub x2: Vec<Num<T>>,
    pub ln2_mean: Vec<Num<T>>,
    pub ln2_rstd: Vec<Num<T>>,
    pub ln2_out: Vec<Num<T>>,
    pub fc_out: Vec<Num<T>>,
    pub gelu_out: Vec<Num<T>>,
    pub mlp_out: Vec<Num<T>>,
    pub mlp_mask: Vec<u8>,
}

/// The formulas that a block keeps.
pub struct BlockTerms<T> {
    pub x_in: Seq<Term<T>>,
    pub ln1_mean: Seq<Term<T>>,
    pub ln1_rstd: Seq<Term<T>>,
    pub ln1_out: Seq<Term<T>>,
    pub qkv: Seq<Term<T>>,
    pub att: Seq<Term<T>>,
    pub att_mask: Seq<u8>,
    pub attn_out: Seq<Term<T>>,
    pub resid_mask: Seq<u8>,
    pub x2: Seq<Term<T>>,
    pub ln2_mean: Seq<Term<T>>,
    pub ln2_rstd: Seq<Term<T>>,
    pub ln2_out: Seq<Term<T>>,
    pub fc_out: Seq<Term<T>>,
    pub gelu_out: Seq<Term<T>>,
    pub mlp_out: Seq<Term<T>>,
    pub mlp_mask: Seq<u8>,
}

impl<T: Scalar> View for BlockCache<T> {
    type V = BlockTerms<T>;

    open spec fn view(&self) -> BlockTerms<T> {
        BlockTerms {
            x_in: scalar::terms(self.x_in@),
            ln1_mean: scalar::terms(self.ln1_mean@),
            ln1_rstd: scalar::terms(self.ln1_rstd@),
            ln1_out: scalar::terms(self.ln1_out@),
            qkv: scalar::terms(self.qkv@),
            att: scalar::terms(self.att@),
            att_mask: self.att_mask@,
            attn_out: scalar::terms(self.attn_out@),
            resid_mask: self.resid_mask@,
            x2: scalar::terms(self.x2@),
            ln2_mean: scalar::terms(self.ln2_mean@),
            ln2_rstd: scalar::terms(self.ln2_rstd@),
            ln2_out: scalar::terms(self.ln2_out@),
            fc_out: scalar::terms(self.fc_out@),
            gelu_out: scalar::terms(self.gelu_out@),
            mlp_out: scalar::terms(self.mlp_out@),
            mlp_mask: self.mlp_mask@,
        }
    }
}

/// The sizes of a pass can be written: the longest buffers and what they are made of.
pub open spec fn fits(d: Dims) -> bool {
    &&& d.ok()
    &&& d.b >= 1
    &&& d.t >= 1
    &&& d.b * d.t * (4 * d.c) <= usize::MAX
}

impl<T: Scalar> Default for BlockCache<T> {
    /// No buffers yet.
    fn default() -> (k: Self)
        ensures
            k.x_in@.len() == 0,
            k.ln1_mean@.len() == 0,
            k.ln1_rstd@.len() == 0,
            k.ln1_out@.len() == 0,
            k.qkv@.len() == 0,
            k.att@.len() == 0,
            k.att_mask@.len() == 0,
            k.attn_out@.len() == 0,
            k.resid_mask@.len() == 0,
            k.x2@.len() == 0,
            k.ln2_mean@.len() == 0,
            k.ln2_rstd@.len() == 0,
            k.ln2_out@.len() == 0,
            k.fc_out@.len() == 0,
            k.gelu_out@.len() == 0,
            k.mlp_out@.len() == 0,
            k.mlp_mask@.len() == 0,
    {
        BlockCache {
            x_in: Vec::new(),
            ln1_mean: Vec::new(),
            ln1_rstd: Vec::new(),
            ln1_out: Vec::new(),
            qkv: Vec::new(),
            att: Vec::new(),
            att_mask: Vec::new(),
            attn_out: Vec::new(),
            resid_mask: Vec::new(),
            x2: Vec::new(),
            ln2_mean: Vec::new(),
            ln2_rstd: Vec::new(),
            ln2_out: Vec::new(),
            fc_out: Vec::new(),
            gelu_out: Vec::new(),
            mlp_out: Vec::new(),
            mlp_mask: Vec::new(),
        }
    }
}

impl<T: Scalar> BlockCache<T> {
    /// Every buffer has its length, but for the masks.
    pub open spec fn sized(&self, d: Dims) -> bool {
        let m = d.b * d.t;
        &&& self.x_in@.len() == m * d.c
        &&& self.ln1_mean@.len() == m
        &&& self.ln1_rstd@.len() == m
        &&& self.ln1_out@.len() == m * d.c
        &&& self.qkv@.len() == m * (3 * d.c)
        &&& self.att@.len() == d.b * d.nh * d.t * d.t
        &&& self.attn_out@.len() == m * d.c
        &&& self.x2@.len() == m * d.c
        &&& self.ln2_mean@.len() == m
        &&& self.ln2_rstd@.len() == m
        &&& self.ln2_out@.len() == m * d.c
        &&& self.fc_out@.len() == m * (4 * d.c)
        &&& self.gelu_out@.len() == m * (4 * d.c)
        &&& self.mlp_out@.len() == m * d.c
    }

    /// Gives every buffer but the masks its length.
    pub(crate) fn setup(&mut self, d: Dims)
        requires
            fits(d),
        ensures
            final(self).sized(d),
            final(self).att_mask == old(self).att_mask,
            final(self).resid_mask == old(self).resid_mask,
            final(self).mlp_mask == old(self).mlp_mask,
    {
        proof {
            lemma_fits(d);
        }
        let m: usize = d.b * d.t;
        let mc: usize = m * d.c;
        let zero: Num<T> = Num::bits(0);
        self.x_in.resize(mc, zero);
        self.ln1_mean.resize(m, zero);
        self.ln1_rstd.resize(m, zero);
        self.ln1_out.resize(mc, zero);
        self.qkv.resize(m * (3 * d.c), zero);
        self.att.resize(d.b * d.nh * d.t * d.t, zero);
        self.attn_out.resize(mc, zero);
        self.x2.resize(mc, zero);
        self.ln2_mean.resize(m, zero);
        self.ln2_rstd.resize(m, zero);
        self.ln2_out.resize(mc, zero);
        self.fc_out.resize(m * (4 * d.c), zero);
        self.gelu_out.resize(m * (4 * d.c), zero);
        self.mlp_out.resize(mc, zero);
    }
}

/// The products of sizes that are met on the way.
pub proof fn lemma_fits(d: Dims)
    requires
        fits(d),
    ensures
        1 <= d.b * d.t <= usize::MAX,
        d.b * d.t * d.c <= d.b * d.t * (3 * d.c),
        d.b * d.t * (3 * d.c) == 3 * (d.b * d.t * d.c),
        d.b * d.t * (4 * d.c) == 4 * (d.b * d.t * d.c),
        d.c <= d.b * d.t * d.c,
        4 * d.c <= usize::MAX,
        d.b * d.nh <= usize::MAX,
        d.b * d.nh * d.t <= usize::MAX,
        d.b * d.nh * d.t * d.t <= usize::MAX,
{
    let m = d.b * d.t;
    let c = d.c as int;
    assert(m >= 1) by (nonlinear_arith)
        requires
            m == d.b * d.t,
            d.b >= 1,
            d.t >= 1,
    ;
    assert(m * (3 * c) == 3 * (m * c)) by (nonlinear_arith);
    assert(m * (4 * c) == 4 * (m * c)) by (nonlinear_arith);
    assert(c <= m * c) by (nonlinear_arith)
        requires
            m >= 1,
            c >= 0,
    ;
    let n = d.b * d.nh;
    let t = d.t as int;
    assert(n <= n * t) by (nonlinear_arith)
        requires
            n >= 0,
            t >= 1,
    ;
    assert(n * t <= (n * t) * t) by (nonlinear_arith)
        requires
            n * t >= 0,
            t >= 1,
    ;
}

/// Room for the way back through a block.
pub struct Scratch<T: Scalar> {
    pub dx2: Vec<Num<T>>,
    pub dx3: Vec<Num<T>>,
    pub dout: Vec<Num<T>>,
    pub dqkv: Vec<Num<T>>,
    pub d4c: Vec<Num<T>>,
}

impl<T: Scalar> Default for Scratch<T> {
    /// No buffers yet.
    fn default() -> (k: Self)
        ensures
            k.dx2@.len() == 0,
            k.dx3@.len() == 0,
            k.dout@.len() == 0,
            k.dqkv@.len() == 0,
            k.d4c@.len() == 0,
    {
        Scratch {
            dx2: Vec::new(),
            dx3: Vec::new(),
            dout: Vec::new(),
            dqkv: Vec::new(),
            d4c: Vec::new(),
        }
    }
}

impl<T: Scalar> Scratch<T> {
    /// Every buffer has its length.
    pub open spec fn sized(&self, d: Dims) -> bool {
        let m = d.b * d.t;
        &&& self.dx2@.len() == m * d.c
        &&& self.dx3@.len() == m * d.c
        &&& self.dout@.len() == m * d.c
        &&& self.dqkv@.len() == m * (3 * d.c)
        &&& self.d4c@.len() == m * (4 * d.c)
    }

    /// Gives every buffer its length.
    pub(crate) fn setup(&mut self, d: Dims)
        requires
            fits(d),
        ensures
            final(self).sized(d),
    {
        proof {
            lemma_fits(d);
        }
        let m: usize = d.b * d.t;
        let mc: usize = m * d.c;
        let zero: Num<T> = Num::bits(0);
        self.dx2.resize(mc, zero);
        self.dx3.resize(mc, zero);
        self.dout.resize(mc, zero);
        self.dqkv.resize(m * (3 * d.c), zero);
        self.d4c.resize(m * (4 * d.c), zero);
    }
}

/// The sizes of a pass over `n` tokens: sequences of the block size, or one shorter one.
pub open spec fn dims_of(cfg: GptConfig, n: nat) -> Dims {
    let t = if cfg.block_size <= n {
        cfg.block_size
    } else {
        n as usize
    };
    Dims {
        b: (n / t as nat) as usize,
        t,
        c: cfg.n_embd,
        nh: cfg.n_head,
        hs: (cfg.n_embd as nat / cfg.n_head as nat) as usize,
    }
}

/// The sizes of a pass over `n` tokens can be written: those of the blocks and that of the
/// logits.
pub open spec fn pass_fits(cfg: GptConfig, n: nat) -> bool {
    &&& fits(dims_of(cfg, n))
    &&& n * cfg.vocab_size <= usize::MAX
}

/// Whether the sizes of a pass over `n` tokens can be written.
pub fn can_pass(cfg: &GptConfig, n: usize) -> (r: bool)
    requires
        n >= 1,
        cfg.block_size >= 1,
        cfg.n_head >= 1,
    ensures
        r == pass_fits(*cfg, n as nat),
{
    let c: usize = cfg.n_embd;
    let nh: usize = cfg.n_head;
    let t: usize = if cfg.block_size <= n {
        cfg.block_size
    } else {
        n
    };
    let b: usize = n / t;
    let ghost d = dims_of(*cfg, n as nat);
    proof {
        vstd::arithmetic::div_mod::lemma_fundamental_div_mod(n as int, t as int);
        vstd::arithmetic::div_mod::lemma_div_non_zero(n as int, t as int);
        vstd::arithmetic::div_mod::lemma_fundamental_div_mod(c as int, nh as int);
        assert(t * (n as int / t as int) == b * t) by (nonlinear_arith)
            requires
                b == n as int / t as int,
        ;
        assert(nh * (c as int / nh as int) == d.nh * d.hs);
        assert(d.b == b && d.t == t);
    }
    let m: usize = b * t;
    let ghost mn = m as nat;
    let ghost cn = c as nat;
    let wide = sizes::times(Some(m), c);
    assert(sizes::holds(Some(m), mn));
    assert(sizes::holds(wide, mn * cn));
    let widest = sizes::times(wide, 4);
    let heads = sizes::times(Some(b), nh);
    assert(sizes::holds(Some(b), b as nat));
    assert(sizes::holds(heads, b as nat * nh as nat));
    let rows = sizes::times(heads, t);
    assert(sizes::holds(rows, b as nat * nh as nat * t as nat));
    let weights = sizes::times(rows, t);
    let logits = sizes::times(Some(n), cfg.vocab_size);
    assert(sizes::holds(Some(n), n as nat));
    proof {
        assert(mn * cn * 4 == mn * (4 * cn)) by (nonlinear_arith);
        assert(mn * (3 * cn) <= mn * (4 * cn)) by (nonlinear_arith);
        assert(sizes::holds(widest, mn * (4 * cn)));
        assert(sizes::holds(weights, b as nat * nh as nat * t as nat * t as nat));
        assert(sizes::holds(logits, n as nat * cfg.vocab_size as nat));
    }
    c % nh == 0 && widest.is_some() && weights.is_some() && logits.is_some()
}

/// What a pass keeps: its sizes, its activations, and room for the way back.
pub struct Cache<T: Scalar> {
    pub b: usize,
    pub t: usize,
    pub drop_scale: Num<T>,
    pub tokens: Vec<u32>,
    pub emb: Vec<Num<T>>,
    pub emb_mask: Vec<u8>,
    pub ping: Vec<Num<T>>,
    pub pong: Vec<Num<T>>,
    pub blocks: Vec<BlockCache<T>>,
    pub lnf_x: Vec<Num<T>>,
    pub lnf_mean: Vec<Num<T>>,
    pub lnf_rstd: Vec<Num<T>>,
    pub lnf_out: Vec<Num<T>>,
    pub logits: Vec<Num<T>>,
    pub probs: Vec<Num<T>>,
    pub dx: Vec<Num<T>>,
    pub scratch: Scratch<T>,
}

impl<T: Scalar> Default for Cache<T> {
    /// No pass yet.
    fn default() -> (k: Self)
        ensures
            k.tokens@.len() == 0,
            k.emb@.len() == 0,
            k.emb_mask@.len() == 0,
            k.ping@.len() == 0,
            k.pong@.len() == 0,
            k.blocks@.len() == 0,
            k.lnf_x@.len() == 0,
            k.lnf_mean@.len() == 0,
            k.lnf_rstd@.len() == 0,
            k.lnf_out@.len() == 0,
            k.logits@.len() == 0,
            k.probs@.len() == 0,
            k.dx@.len() == 0,
            k.b == 0,
            k.t == 0,
            k.drop_scale@ == scalar::zero::<T>(),
    {
        Cache {
            b: 0,
            t: 0,
            drop_scale: Num::bits(0),
            tokens: Vec::new(),
            emb: Vec::new(),
            emb_mask: Vec::new(),
            ping: Vec::new(),
            pong: Vec::new(),
            blocks: Vec::new(),
            lnf_x: Vec::new(),
            lnf_mean: Vec::new(),
            lnf_rstd: Vec::new(),
            lnf_out: Vec::new(),
            logits: Vec::new(),
            probs: Vec::new(),
            dx: Vec::new(),
            scratch: Scratch::default(),
        }
    }
}

impl<T: Scalar> Cache<T> {
    /// Every buffer has its length for a pass with these sizes.
    pub open spec fn sized(&self, d: Dims, vocab_size: usize, n_layer: usize) -> bool {
        let m = d.b * d.t;
        &&& self.b == d.b
        &&& self.t == d.t
        &&& self.tokens@.len() == m
        &&& self.emb@.len() == m * d.c
        &&& self.ping@.len() == m * d.c
        &&& self.pong@.len() == m * d.c
        &&& self.blocks@.len() >= n_layer
        &&& forall|l: int| 0 <= l < n_layer ==> (#[trigger] self.blocks@[l]).sized(d)
        &&& self.lnf_x@.len() == m * d.c
        &&& self.lnf_mean@.len() == m
        &&& self.lnf_rstd@.len() == m
        &&& self.lnf_out@.len() == m * d.c
        &&& self.logits@.len() == m * vocab_size
        &&& self.dx@.len() == m * d.c
        &&& self.scratch.sized(d)
    }

    /// Gives every buffer its length for a pass over `m` tokens in sequences of `t`.
    pub(crate) fn setup(&mut self, m: usize, t: usize, cfg: &GptConfig)
        requires
            m >= 1,
            pass_fits(*cfg, m as nat),
            t == dims_of(*cfg, m as nat).t,
            m % t == 0,
            cfg.n_head > 0,
        ensures
            final(self).sized(dims_of(*cfg, m as nat), cfg.vocab_size, cfg.n_layer),
            final(self).drop_scale == old(self).drop_scale,
            final(self).emb_mask == old(self).emb_mask,
            final(self).probs == old(self).probs,
    {
        let ghost want = dims_of(*cfg, m as nat);
        let d = Dims {
            b: m / t,
            t,
            c: cfg.n_embd,
            nh: cfg.n_head,
            hs: cfg.n_embd / cfg.n_head,
        };
        assert(d == want);
        proof {
            vstd::arithmetic::div_mod::lemma_fundamental_div_mod(m as int, t as int);
            assert(d.b * d.t == m) by (nonlinear_arith)
                requires
                    m == t * (m as int / t as int) + m as int % t as int,
                    m as int % t as int == 0,
                    d.b == m as int / t as int,
                    d.t == t,
            ;
            lemma_fits(d);
        }
        self.b = d.b;
        self.t = t;
        let mc: usize = m * d.c;
        let zero: Num<T> = Num::bits(0);
        self.tokens.resize(m, 0);
        self.emb.resize(mc, zero);
        self.ping.resize(mc, zero);
        self.pong.resize(mc, zero);
        self.lnf_x.resize(mc, zero);
        self.lnf_mean.resize(m, zero);
        self.lnf_rstd.resize(m, zero);
        self.lnf_out.resize(mc, zero);
        self.logits.resize(m * cfg.vocab_size, zero);
        self.dx.resize(mc, zero);
        self.scratch.setup(d);
        let mut l: usize = 0;
        while l < cfg.n_layer
            invariant
                l <= cfg.n_layer,
                fits(d),
                self.b == d.b,
                self.t == d.t,
                d.b * d.t == m,
                mc == m * d.c,
                self.tokens@.len() == m,
                self.emb@.len() == mc,
                self.ping@.len() == mc,
                self.pong@.len() == mc,
                self.lnf_x@.len() == mc,
                self.lnf_mean@.len() == m,
                self.lnf_rstd@.len() == m,
                self.lnf_out@.len() == mc,
                self.logits@.len() == m * cfg.vocab_size,
                self.dx@.len() == mc,
                self.scratch.sized(d),
                self.blocks@.len() >= l,
                forall|k: int| 0 <= k < l ==> (#[trigger] self.blocks@[k]).sized(d),
                self.drop_scale == old(self).drop_scale,
                self.emb_mask == old(self).emb_mask,
                self.probs == old(self).probs,
            decreases cfg.n_layer - l,
        {
            if l == self.blocks.len() {
                self.blocks.push(BlockCache::default());
            }
            self.blocks[l].setup(d);
            l += 1;
        }
    }
}

} // verus!
