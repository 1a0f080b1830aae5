//! What the parameters of a model start as, read in exact arithmetic.
use crate::decay;
use crate::exact;
use crate::exact::Exact;
use crate::layout;
use crate::layout::GptConfig;
use crate::model;
use crate::rng;
use crate::scalar;
use crate::scalar::{Term, Unary, WideTerm, WideUnary};
use vstd::prelude::*;

verus! {

/// A normal sample with a mean and a standard deviation is the mean plus the standard
/// deviation times the sample that the same draws give for mean zero and deviation one.
pub proof fn law_normal_samples_scale<T>(m: Exact<T>, mean: Term<T>, std: Term<T>, s: rng::State)
    requires
        m.ok(),
    ensures
        m.value(rng::normal_term(mean, std, s)) == m.value(mean) + exact::times(
            m.value(std),
            m.value(rng::normal_term(scalar::zero(), scalar::one(), s)),
        ),
{
    let z: Term<T> = Term::Narrow(
        rng::box_muller(rng::uniform_double(s), rng::uniform_double(rng::advance(s))),
    );
    let (zero, one) = (scalar::zero::<T>(), scalar::one::<T>());
    assert(m.value(zero) == 0real && m.value(one) == 1real);
    let plain = scalar::product(one, z);
    assert(m.value(plain) == exact::times(1real, m.value(z)));
    let scaled = scalar::product(std, z);
    assert(m.value(scaled) == exact::times(m.value(std), m.value(z)));
    exact::lemma_units(m.value(z));
}

/// The standard normal sample of two uniform numbers is that of Box and Muller: its square is
/// `-2 ln u1` times the square of the cosine of `2 pi u2`, and it has the sign of that cosine.
/// Numbers `u1` below 1e-12 count as 1e-12.
pub proof fn law_normal_samples_are_polar<T>(m: Exact<T>, a: u64, b: u64, pi: real)
    requires
        m.takes_roots(),
        (m.wide_bits)(0x4000_0000_0000_0000) == 2real,
        (m.wide_bits)(0xc000_0000_0000_0000) == -2real,
        (m.wide_bits)(0x4009_21fb_5444_2d18) == pi,
        1000000000000real * (m.wide_bits)(0x3d71_9799_812d_ea11) == 1real,
        (m.wide_bits)(a) < 1real,
        forall|x: real| 0real < x < 1real ==> #[trigger] (m.image)(Unary::Ln, x) <= 0real,
    ensures
        ({
            let least = 1real / 1000000000000real;
            let u1 = if (m.wide_bits)(a) < least {
                least
            } else {
                (m.wide_bits)(a)
            };
            let c = (m.image)(Unary::Cos, exact::times(2real * pi, (m.wide_bits)(b)));
            let z = m.wide(rng::box_muller(a, b));
            &&& exact::times(z, z) == exact::times(
                -2real * (m.image)(Unary::Ln, u1),
                exact::times(c, c),
            )
            &&& c >= 0real ==> z >= 0real
            &&& c <= 0real ==> z <= 0real
        }),
{
    let least: WideTerm<T> = WideTerm::Bits(0x3d71_9799_812d_ea11);
    let (ta, tb): (WideTerm<T>, WideTerm<T>) = (WideTerm::Bits(a), WideTerm::Bits(b));
    assert(m.wide(least) == 1real / 1000000000000real);
    assert(m.wide(ta) == (m.wide_bits)(a) && m.wide(tb) == (m.wide_bits)(b));
    let u = scalar::wide_maximum(ta, least);
    let ln = scalar::wide_apply(WideUnary::Ln, u);
    let l = m.wide(ln);
    assert(l == (m.image)(Unary::Ln, m.wide(u)));
    assert(l <= 0real);
    let minus: WideTerm<T> = WideTerm::Bits(0xc000_0000_0000_0000);
    assert(m.wide(minus) == -2real);
    let under = scalar::wide_product(minus, ln);
    assert(m.wide(under) == exact::times(-2real, l));
    exact::lemma_distributes(l, 0real, 1real + 1real);
    exact::lemma_distributes(l, 1real, 1real);
    exact::lemma_units(l);
    assert(m.wide(under) == -2real * l);
    let root = scalar::wide_apply(WideUnary::Sqrt, under);
    let r = m.wide(root);
    assert(r == (m.image)(Unary::Sqrt, m.wide(under)));
    let (two, pt): (WideTerm<T>, WideTerm<T>) = (
        WideTerm::Bits(0x4000_0000_0000_0000),
        WideTerm::Bits(0x4009_21fb_5444_2d18),
    );
    assert(m.wide(two) == 2real && m.wide(pt) == pi);
    let turn = scalar::wide_product(two, pt);
    exact::lemma_distributes(pi, 1real, 1real);
    exact::lemma_units(pi);
    assert(m.wide(turn) == 2real * pi);
    let angle = scalar::wide_product(turn, tb);
    assert(m.wide(angle) == exact::times(2real * pi, m.wide(tb)));
    let cos = scalar::wide_apply(WideUnary::Cos, angle);
    let c = m.wide(cos);
    assert(c == (m.image)(Unary::Cos, m.wide(angle)));
    let z = rng::box_muller::<T>(a, b);
    assert(z == scalar::wide_product(root, cos));
    assert(m.wide(z) == exact::times(r, c));
    exact::lemma_squares_product(r, c);
    exact::lemma_orders(0real, c, r);
    exact::lemma_orders(c, 0real, r);
    exact::lemma_commutes(r, c);
    exact::lemma_units(r);
}

/// The projections onto the residual path start with less spread: its square times twice the
/// number of layers is the square of the spread of all other weights, 0.02.
pub proof fn law_residual_spread<T>(m: Exact<T>, n_layer: usize)
    requires
        m.ok(),
        (m.bits)(0x4000_0000) == 2real,
        50real * (m.bits)(0x3ca3_d70a) == 1real,
        n_layer >= 1,
    ensures
        m.value(layout::base_std::<T>()) == 1real / 50real,
        m.value(layout::resid_std::<T>(n_layer)) > 0real,
        exact::times(
            exact::times(
                m.value(layout::resid_std::<T>(n_layer)),
                m.value(layout::resid_std::<T>(n_layer)),
            ),
            2real * (n_layer as real),
        ) == exact::times(1real / 50real, 1real / 50real),
{
    let n = n_layer as real;
    let base = layout::base_std::<T>();
    assert(m.value(base) == 1real / 50real);
    let two: Term<T> = Term::Bits(0x4000_0000);
    let count: Term<T> = Term::Count(n_layer);
    assert(m.value(two) == 2real && m.value(count) == n);
    let under = scalar::product(two, count);
    assert(m.value(under) == exact::times(2real, n));
    exact::lemma_distributes(n, 1real, 1real);
    exact::lemma_units(n);
    assert(m.value(under) == 2real * n);
    let root = scalar::apply1(Unary::Sqrt, under);
    let r = m.value(root);
    assert(r == (m.image)(Unary::Sqrt, 2real * n));
    assert(r > 0real && exact::times(r, r) == 2real * n);
    let resid = layout::resid_std::<T>(n_layer);
    assert(resid == scalar::quotient(base, root));
    let v = m.value(resid);
    assert(v == exact::over(1real / 50real, r));
    exact::lemma_divides(1real / 50real, r);
    exact::lemma_squares_product(v, r);
    exact::lemma_units(r);
    exact::lemma_orders(v, 0real, r);
}

proof fn lemma_blocks_extend<T>(p: Seq<Term<T>>, cfg: GptConfig, l: nat, n: nat, s: rng::State)
    requires
        l <= n,
    ensures
        layout::with_blocks(p, cfg, n, s).len() == p.len() + n * layout::block_len(
            cfg.n_embd as nat,
            cfg.bias,
        ),
        layout::with_blocks(p, cfg, l, s).len() <= layout::with_blocks(p, cfg, n, s).len(),
        layout::with_blocks(p, cfg, n, s).take(
            layout::with_blocks(p, cfg, l, s).len() as int,
        ) == layout::with_blocks(p, cfg, l, s),
    decreases n,
{
    let a = layout::with_blocks(p, cfg, l, s);
    let b = layout::with_blocks(p, cfg, n, s);
    let c = cfg.n_embd as nat;
    let bl = layout::block_len(c, cfg.bias);
    if n == 0 {
        assert(0 * bl == 0) by (nonlinear_arith);
        assert(b.take(a.len() as int) =~= a);
    } else {
        let k = (n - 1) as nat;
        let e = layout::with_blocks(p, cfg, k, s);
        assert(k * bl + bl == n * bl) by (nonlinear_arith)
            requires
                k == n - 1,
        ;
        lemma_blocks_extend(p, cfg, k, k, s);
        lemma_block_len(e, c, cfg.bias, cfg.n_layer, rng::advance_by(s, k * (24 * (c * c))));
        if l == n {
            assert(b.take(a.len() as int) =~= a);
        } else {
            lemma_blocks_extend(p, cfg, l, k, s);
            assert(b.take(a.len() as int) =~= b.take(e.len() as int).take(a.len() as int));
        }
    }
}

proof fn lemma_block_len<T>(p: Seq<Term<T>>, c: nat, bias: bool, n_layer: usize, s: rng::State)
    ensures
        layout::with_block(p, c, bias, n_layer, s).len() == p.len() + layout::block_len(c, bias),
        layout::with_block(p, c, bias, n_layer, s).take(p.len() as int) == p,
{
    reveal(layout::with_block);
    let q = c * c;
    assert(q >= 0) by (nonlinear_arith)
        requires
            q == c * c,
    ;
    let h = layout::with_attention(p, c, bias, n_layer, s);
    assert(h.take(p.len() as int) =~= p);
    let b = layout::with_block(p, c, bias, n_layer, s);
    assert(b.take(h.len() as int) =~= h);
    assert(b.take(p.len() as int) =~= h.take(p.len() as int));
}

/// A half of a block: a gain, a matrix of `w1` numbers, one of `w2` for the residual path, and
/// biases.
proof fn lemma_attention_half<T>(
    p: Seq<Term<T>>,
    c: nat,
    bias: bool,
    n_layer: usize,
    s: rng::State,
    i: int,
)
    ensures
        ({
            let e = layout::with_attention(p, c, bias, n_layer, s);
            let q = c * c;
            let m1 = p.len() + c + layout::room(bias, c);
            let m2 = m1 + 3 * q + layout::room(bias, 3 * c);
            &&& e.len() == m2 + q + layout::room(bias, c)
            &&& p.len() <= i < p.len() + c ==> e[i] == scalar::one::<T>()
            &&& m1 <= i < m1 + 3 * q ==> e[i] == rng::normal_term(
                scalar::zero(),
                layout::base_std::<T>(),
                rng::advance_by(s, (2 * (i - m1)) as nat),
            )
            &&& m2 <= i < m2 + q ==> e[i] == rng::normal_term(
                scalar::zero(),
                layout::resid_std::<T>(n_layer),
                rng::advance_by(rng::advance_by(s, 6 * q), (2 * (i - m2)) as nat),
            )
            &&& p.len() + c <= i < m1 || m1 + 3 * q <= i < m2 || m2 + q <= i < e.len() ==> e[i]
                == scalar::zero::<T>()
        }),
{
}

proof fn lemma_feed_forward_half<T>(
    p: Seq<Term<T>>,
    c: nat,
    bias: bool,
    n_layer: usize,
    s: rng::State,
    i: int,
)
    ensures
        ({
            let e = layout::with_feed_forward(p, c, bias, n_layer, s);
            let q = c * c;
            let m1 = p.len() + c + layout::room(bias, c);
            let m2 = m1 + 4 * q + layout::room(bias, 4 * c);
            &&& e.len() == m2 + 4 * q + layout::room(bias, c)
            &&& 0 <= i < p.len() ==> e[i] == p[i]
            &&& p.len() <= i < p.len() + c ==> e[i] == scalar::one::<T>()
            &&& m1 <= i < m1 + 4 * q ==> e[i] == rng::normal_term(
                scalar::zero(),
                layout::base_std::<T>(),
                rng::advance_by(s, (2 * (i - m1)) as nat),
            )
            &&& m2 <= i < m2 + 4 * q ==> e[i] == rng::normal_term(
                scalar::zero(),
                layout::resid_std::<T>(n_layer),
                rng::advance_by(rng::advance_by(s, 8 * q), (2 * (i - m2)) as nat),
            )
            &&& p.len() + c <= i < m1 || m1 + 4 * q <= i < m2 || m2 + 4 * q <= i < e.len() ==> e[i]
                == scalar::zero::<T>()
        }),
{
}

/// What the parameter at place `i` of a block that starts at `off` starts as, the first draws
/// for the block being those from `at` on: matrices are normal samples with the draws in turn,
/// gains are one, biases zero.
pub open spec fn starts_as<T>(
    p: Term<T>,
    cfg: GptConfig,
    off: nat,
    s: rng::State,
    at: nat,
    i: int,
) -> bool {
    let c = cfg.n_embd as nat;
    let q = c * c;
    let bo = layout::block_r(off, c, cfg.bias);
    let sample = |std: Term<T>, n: int|
        rng::normal_term(scalar::zero(), std, rng::advance_by(s, n as nat));
    &&& decay::within(bo.attn_w, i) ==> p == sample(
        layout::base_std(),
        at + 2 * (i - bo.attn_w.off),
    )
    &&& decay::within(bo.proj_w, i) ==> p == sample(
        layout::resid_std(cfg.n_layer),
        at + 6 * q + 2 * (i - bo.proj_w.off),
    )
    &&& decay::within(bo.fc_w, i) ==> p == sample(
        layout::base_std(),
        at + 8 * q + 2 * (i - bo.fc_w.off),
    )
    &&& decay::within(bo.mlp_w, i) ==> p == sample(
        layout::resid_std(cfg.n_layer),
        at + 16 * q + 2 * (i - bo.mlp_w.off),
    )
    &&& decay::within(bo.ln1.g, i) || decay::within(bo.ln2.g, i) ==> p == scalar::one::<T>()
    &&& decay::within_some(bo.ln1.b, i) || decay::within_some(bo.ln2.b, i) || decay::within_some(
        bo.attn_b,
        i,
    ) || decay::within_some(bo.proj_b, i) || decay::within_some(bo.fc_b, i) || decay::within_some(
        bo.mlp_b,
        i,
    ) ==> p == scalar::zero::<T>()
}

/// The parts of a block lie one behind the other, without gaps: the first normalisation, the
/// matrix for queries, keys and values, the projection of attention, the second normalisation,
/// and the two matrices of the feed-forward part; each followed by its bias where there is one.
pub proof fn law_parts_follow_each_other(off: nat, c: nat, bias: bool)
    requires
        off + layout::block_len(c, bias) <= usize::MAX,
    ensures
        ({
            let q = c * c;
            let bo = layout::block_r(off, c, bias);
            let attn_w = off + c + layout::room(bias, c);
            let proj_w = attn_w + 3 * q + layout::room(bias, 3 * c);
            let half = proj_w + q + layout::room(bias, c);
            let fc_w = half + c + layout::room(bias, c);
            let mlp_w = fc_w + 4 * q + layout::room(bias, 4 * c);
            &&& bo.ln1.g.off == off && bo.ln1.g.len == c
            &&& bo.attn_w.off == attn_w && bo.attn_w.len == 3 * q
            &&& bo.proj_w.off == proj_w && bo.proj_w.len == q
            &&& bo.ln2.g.off == half && bo.ln2.g.len == c
            &&& bo.fc_w.off == fc_w && bo.fc_w.len == 4 * q
            &&& bo.mlp_w.off == mlp_w && bo.mlp_w.len == 4 * q
            &&& bo.ln1.b matches Some(r) ==> r.off == off + c && r.off + r.len == attn_w
            &&& bo.attn_b matches Some(r) ==> r.off == attn_w + 3 * q && r.off + r.len == proj_w
            &&& bo.proj_b matches Some(r) ==> r.off == proj_w + q && r.off + r.len == half
            &&& bo.ln2.b matches Some(r) ==> r.off == half + c && r.off + r.len == fc_w
            &&& bo.fc_b matches Some(r) ==> r.off == fc_w + 4 * q && r.off + r.len == mlp_w
            &&& bo.mlp_b matches Some(r) ==> r.off == mlp_w + 4 * q && r.off + r.len == off
                + layout::block_len(c, bias)
        }),
{
    assert(c * c >= 0) by (nonlinear_arith);
}

proof fn lemma_first_half_starts<T>(
    p: Seq<Term<T>>,
    cfg: GptConfig,
    s: rng::State,
    at: nat,
    i: int,
)
    requires
        p.len() + layout::block_len(cfg.n_embd as nat, cfg.bias) <= usize::MAX,
        p.len() <= i < layout::block_r(p.len(), cfg.n_embd as nat, cfg.bias).ln2.g.off,
    ensures
        starts_as(
            layout::with_attention(
                p,
                cfg.n_embd as nat,
                cfg.bias,
                cfg.n_layer,
                rng::advance_by(s, at),
            )[i],
            cfg,
            p.len(),
            s,
            at,
            i,
        ),
{
    let c = cfg.n_embd as nat;
    let q = c * c;
    assert(q >= 0) by (nonlinear_arith)
        requires
            q == c * c,
    ;
    let s0 = rng::advance_by(s, at);
    lemma_attention_half(p, c, cfg.bias, cfg.n_layer, s0, i);
    law_parts_follow_each_other(p.len(), c, cfg.bias);
    let bo = layout::block_r(p.len(), c, cfg.bias);
    if decay::within(bo.attn_w, i) {
        rng::law_draws_add_up(s, at, (2 * (i - bo.attn_w.off)) as nat);
    }
    if decay::within(bo.proj_w, i) {
        let n = (2 * (i - bo.proj_w.off)) as nat;
        rng::law_draws_add_up(s, at, 6 * q);
        rng::law_draws_add_up(s, at + 6 * q, n);
    }
}

proof fn lemma_second_half_starts<T>(
    p: Seq<Term<T>>,
    h: Seq<Term<T>>,
    cfg: GptConfig,
    s: rng::State,
    at: nat,
    i: int,
)
    requires
        p.len() + layout::block_len(cfg.n_embd as nat, cfg.bias) <= usize::MAX,
        h.len() == layout::block_r(p.len(), cfg.n_embd as nat, cfg.bias).ln2.g.off,
        h.len() <= i < p.len() + layout::block_len(cfg.n_embd as nat, cfg.bias),
    ensures
        starts_as(
            layout::with_feed_forward(
                h,
                cfg.n_embd as nat,
                cfg.bias,
                cfg.n_layer,
                rng::advance_by(s, at + 8 * (cfg.n_embd as nat * cfg.n_embd as nat)),
            )[i],
            cfg,
            p.len(),
            s,
            at,
            i,
        ),
{
    let c = cfg.n_embd as nat;
    let q = c * c;
    assert(q >= 0) by (nonlinear_arith)
        requires
            q == c * c,
    ;
    let s1 = rng::advance_by(s, at + 8 * q);
    lemma_feed_forward_half(h, c, cfg.bias, cfg.n_layer, s1, i);
    law_parts_follow_each_other(p.len(), c, cfg.bias);
    let bo = layout::block_r(p.len(), c, cfg.bias);
    if decay::within(bo.fc_w, i) {
        rng::law_draws_add_up(s, at + 8 * q, (2 * (i - bo.fc_w.off)) as nat);
    }
    if decay::within(bo.mlp_w, i) {
        let n = (2 * (i - bo.mlp_w.off)) as nat;
        rng::law_draws_add_up(s, at + 8 * q, 8 * q);
        rng::law_draws_add_up(s, at + 16 * q, n);
    }
}

proof fn lemma_block_starts<T>(
    p: Seq<Term<T>>,
    cfg: GptConfig,
    s: rng::State,
    at: nat,
    i: int,
)
    requires
        p.len() + layout::block_len(cfg.n_embd as nat, cfg.bias) <= usize::MAX,
        p.len() <= i < p.len() + layout::block_len(cfg.n_embd as nat, cfg.bias),
    ensures
        starts_as(
            layout::with_block(
                p,
                cfg.n_embd as nat,
                cfg.bias,
                cfg.n_layer,
                rng::advance_by(s, at),
            )[i],
            cfg,
            p.len(),
            s,
            at,
            i,
        ),
{
    let c = cfg.n_embd as nat;
    let q = c * c;
    reveal(layout::with_block);
    let s0 = rng::advance_by(s, at);
    let h = layout::with_attention(p, c, cfg.bias, cfg.n_layer, s0);
    lemma_attention_half(p, c, cfg.bias, cfg.n_layer, s0, i);
    law_parts_follow_each_other(p.len(), c, cfg.bias);
    rng::law_draws_add_up(s, at, 8 * q);
    if i < h.len() {
        lemma_first_half_starts(p, cfg, s, at, i);
        lemma_feed_forward_half(h, c, cfg.bias, cfg.n_layer, rng::advance_by(s, at + 8 * q), i);
    } else {
        lemma_second_half_starts(p, h, cfg, s, at, i);
    }
}

/// The parameters of a fresh model: the embeddings and the weight matrices are normal samples
/// around zero, each from two draws of its own, in the order in which they lie; those of the
/// projections onto the residual path have less spread. Gains are one, biases zero.
pub proof fn law_fresh_parameters<T>(cfg: GptConfig, s: rng::State, l: nat, i: int)
    requires
        model::buildable(cfg),
    ensures
        ({
            let c = cfg.n_embd as nat;
            let p = layout::initial::<T>(cfg, s);
            let off = layout::block_off(cfg, l);
            let end = layout::block_off(cfg, cfg.n_layer as nat);
            &&& p.len() == layout::total_len(cfg)
            &&& 0 <= i < layout::embedding_len(cfg) ==> p[i] == rng::normal_term(
                scalar::zero(),
                layout::base_std::<T>(),
                rng::advance_by(s, (2 * i) as nat),
            )
            &&& l < cfg.n_layer && off <= i < off + layout::block_len(c, cfg.bias) ==> starts_as(
                p[i],
                cfg,
                off,
                s,
                2 * layout::embedding_len(cfg) + l * (24 * (c * c)),
                i,
            )
            &&& end <= i < end + c ==> p[i] == scalar::one::<T>()
            &&& end + c <= i < p.len() ==> p[i] == scalar::zero::<T>()
        }),
{
    let c = cfg.n_embd as nat;
    let n = cfg.n_layer as nat;
    let q = c * c;
    let bl = layout::block_len(c, cfg.bias);
    let vc = cfg.vocab_size as nat * c;
    let tc = cfg.block_size as nat * c;
    let e = layout::normals::<T>(layout::base_std(), vc, s) + layout::normals::<T>(
        layout::base_std(),
        tc,
        rng::advance_by(s, 2 * vc),
    );
    let s0 = rng::advance_by(s, 2 * (vc + tc));
    let all = layout::with_blocks(e, cfg, n, s0);
    let p = layout::initial::<T>(cfg, s);
    model::lemma_ends_fit(cfg);
    lemma_blocks_extend(e, cfg, 0, n, s0);
    assert(0 <= i < all.len() ==> p[i] == all[i]);
    if 0 <= i < e.len() {
        assert(all.take(e.len() as int)[i] == all[i]);
        if i >= vc {
            rng::law_draws_add_up(s, 2 * vc, (2 * (i - vc)) as nat);
        }
    }
    if l < n {
        lemma_blocks_extend(e, cfg, l, l, s0);
        lemma_blocks_extend(e, cfg, l + 1, l + 1, s0);
        lemma_blocks_extend(e, cfg, l + 1, n, s0);
        let off = layout::block_off(cfg, l);
        let before = layout::with_blocks(e, cfg, l, s0);
        let after = layout::with_blocks(e, cfg, l + 1, s0);
        assert(before.len() == off);
        assert(l * bl + bl == (l + 1) * bl) by (nonlinear_arith);
        assert((l + 1) * bl <= n * bl) by (nonlinear_arith)
            requires
                l + 1 <= n,
        ;
        if off <= i < off + bl {
            let at = l * (24 * q);
            rng::law_draws_add_up(s, 2 * (vc + tc), at);
            assert(all.take(after.len() as int)[i] == all[i]);
            assert(after == layout::with_block(
                before,
                c,
                cfg.bias,
                cfg.n_layer,
                rng::advance_by(s0, at),
            ));
            lemma_block_starts(before, cfg, s, 2 * (vc + tc) + at, i);
        }
    }
}

/// The blocks lie one behind the other, the first behind the embeddings of tokens and
/// positions, and behind the last of them the gain of the last normalisation and its bias.
pub proof fn law_blocks_follow_each_other(cfg: GptConfig, l: nat)
    ensures
        layout::block_off(cfg, 0) == (cfg.vocab_size + cfg.block_size) * cfg.n_embd,
        layout::block_off(cfg, l + 1) == layout::block_off(cfg, l) + layout::block_len(
            cfg.n_embd as nat,
            cfg.bias,
        ),
        layout::total_len(cfg) == layout::block_off(cfg, cfg.n_layer as nat) + if cfg.bias {
            2 * cfg.n_embd
        } else {
            cfg.n_embd as int
        },
{
    let bl = layout::block_len(cfg.n_embd as nat, cfg.bias);
    assert((l + 1) * bl == l * bl + bl) by (nonlinear_arith);
    assert(0 * bl == 0) by (nonlinear_arith);
    let (v, t, c) = (cfg.vocab_size as int, cfg.block_size as int, cfg.n_embd as int);
    assert((v + t) * c == v * c + t * c) by (nonlinear_arith);
}

} // verus!
