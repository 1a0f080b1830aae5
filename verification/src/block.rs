//! A transformer block, forward and backward.
use crate::attention;
use crate::attention::{attention_apply, attention_backward, attention_forward, Dims};
use crate::cache;
use crate::cache::{BlockCache, BlockTerms, Scratch};
use crate::layers;
use crate::layers::{
    bias_grad, draw_mask, dropout_forward, gelu_backward, gelu_forward, ln_backward, ln_forward,
};
use crate::layout;
use crate::layout::{BlockR, LayerR, R};
use crate::ops;
use crate::ops::{add_bias_rows, mm_nn, mm_nt, mm_tn};
use crate::rng;
use crate::rng::Rng;
use crate::scalar;
use crate::scalar::{Num, Scalar, Term};
use vstd::prelude::*;

verus! {

/// Dropout as a pass uses it: whether it is on, its rate and the scale of what is kept.
pub struct Drop<T: Scalar> {
    pub on: bool,
    pub p: Num<T>,
    pub scale: Num<T>,
}

/// Dropout by its formulas.
pub struct DropTerms<T> {
    pub on: bool,
    pub p: Term<T>,
    pub scale: Term<T>,
}

impl<T: Scalar> View for Drop<T> {
    type V = DropTerms<T>;

    open spec fn view(&self) -> DropTerms<T> {
        DropTerms { on: self.on, p: self.p@, scale: self.scale@ }
    }
}

impl<T: Scalar> Clone for Drop<T> {
    fn clone(&self) -> (r: Self)
        ensures
            r == *self,
    {
        *self
    }
}

impl<T: Scalar> Copy for Drop<T> {

}

/// The numbers in a stretch.
pub open spec fn region<A>(params: Seq<A>, r: R) -> Seq<A> {
    params.subrange(r.off as int, r.off + r.len)
}

/// The numbers in a stretch that may be absent.
pub open spec fn opt_region<A>(params: Seq<A>, r: Option<R>) -> Option<Seq<A>> {
    match r {
        Some(r) => Some(region(params, r)),
        None => None,
    }
}

/// The stretch lies within `n` numbers.
pub open spec fn within(r: R, n: int) -> bool {
    r.off + r.len <= n
}

/// `x[rows, k] * w[k, cols]`, with a bias where there is one.
pub open spec fn linear<T>(
    x: Seq<Term<T>>,
    w: Seq<Term<T>>,
    b: Option<Seq<Term<T>>>,
    rows: int,
    k: int,
    cols: int,
) -> Seq<Term<T>> {
    let y = ops::nn(layout::zeros((rows * cols) as nat), x, w, rows, k, cols);
    match b {
        Some(b) => ops::biased(y, b, rows, cols),
        None => y,
    }
}

/// The sums of the numbers at the same places.
pub open spec fn added<T>(a: Seq<Term<T>>, b: Seq<Term<T>>) -> Seq<Term<T>> {
    Seq::new(a.len(), |i: int| scalar::sum(a[i], b[i]))
}

/// The numbers as dropout leaves them.
pub open spec fn dropped<T>(x: Seq<Term<T>>, mask: Seq<u8>, drop: DropTerms<T>) -> Seq<Term<T>> {
    if drop.on {
        layers::masked(x, mask, drop.scale)
    } else {
        x
    }
}

/// The mask that dropout leaves for `n` numbers: none where it is off.
pub open spec fn mask_for<T: Scalar>(
    mask: Seq<u8>,
    n: nat,
    drop: DropTerms<T>,
    s: rng::State,
) -> bool {
    if drop.on {
        mask.len() == n && layers::is_mask(mask, drop.p, s)
    } else {
        mask.len() == 0
    }
}

/// The generator after dropout of `n` numbers.
pub open spec fn after_drop<T>(s: rng::State, n: nat, drop: DropTerms<T>) -> rng::State {
    if drop.on {
        rng::advance_by(s, n)
    } else {
        s
    }
}

/// The weights are those of attention, before dropout, at every place up to the position
/// that attends.
pub open spec fn are_weights<T>(att: Seq<Term<T>>, qkv: Seq<Term<T>>, d: Dims) -> bool {
    &&& att.len() == d.b * d.nh * d.t * d.t
    &&& forall|x: int|
        0 <= x < att.len() && attention::attends(d, x) ==> #[trigger] att[x] == attention::weight(
            qkv,
            d,
            x,
        )
}

/// `k` holds what a block keeps of a forward pass from `src`, `dst` its output; the
/// generator was in the state `s`.
pub open spec fn block_done<T: Scalar>(
    params: Seq<Term<T>>,
    bo: BlockR,
    src: Seq<Term<T>>,
    k: BlockTerms<T>,
    dst: Seq<Term<T>>,
    d: Dims,
    drop: DropTerms<T>,
    s: rng::State,
) -> bool {
    let m = d.b * d.t;
    let c = d.c as int;
    let mc = (m * c) as nat;
    let s2 = after_drop(s, (d.b * d.nh * d.t * d.t) as nat, drop);
    let s3 = after_drop(s2, mc, drop);
    &&& k.x_in == src
    &&& k.ln1_mean == layers::means(src, m, c)
    &&& k.ln1_rstd == layers::rstds(src, m, c)
    &&& k.ln1_out == layers::normalised(
        src,
        region(params, bo.ln1.g),
        opt_region(params, bo.ln1.b),
        m,
        c,
    )
    &&& k.qkv == linear(
        k.ln1_out,
        region(params, bo.attn_w),
        opt_region(params, bo.attn_b),
        m,
        c,
        3 * c,
    )
    &&& mask_for(k.att_mask, (d.b * d.nh * d.t * d.t) as nat, drop, s)
    &&& are_weights(k.att, k.qkv, d)
    &&& k.attn_out == attention::outputs(k.att, k.att_mask, drop.scale, k.qkv, d)
    &&& mask_for(k.resid_mask, mc, drop, s2)
    &&& k.x2 == added(
        dropped(
            linear(
                k.attn_out,
                region(params, bo.proj_w),
                opt_region(params, bo.proj_b),
                m,
                c,
                c,
            ),
            k.resid_mask,
            drop,
        ),
        src,
    )
    &&& k.ln2_mean == layers::means(k.x2, m, c)
    &&& k.ln2_rstd == layers::rstds(k.x2, m, c)
    &&& k.ln2_out == layers::normalised(
        k.x2,
        region(params, bo.ln2.g),
        opt_region(params, bo.ln2.b),
        m,
        c,
    )
    &&& k.fc_out == linear(
        k.ln2_out,
        region(params, bo.fc_w),
        opt_region(params, bo.fc_b),
        m,
        c,
        4 * c,
    )
    &&& k.gelu_out == layers::gelus(k.fc_out)
    &&& mask_for(k.mlp_mask, mc, drop, s3)
    &&& k.mlp_out == dropped(
        linear(
            k.gelu_out,
            region(params, bo.mlp_w),
            opt_region(params, bo.mlp_b),
            m,
            4 * c,
            c,
        ),
        k.mlp_mask,
        drop,
    )
    &&& dst == added(k.x2, k.mlp_out)
}

/// The generator after the forward pass of a block.
pub open spec fn after_block<T>(s: rng::State, d: Dims, drop: DropTerms<T>) -> rng::State {
    let mc = (d.b * d.t * d.c) as nat;
    after_drop(
        after_drop(after_drop(s, (d.b * d.nh * d.t * d.t) as nat, drop), mc, drop),
        mc,
        drop,
    )
}

/// Every part of a block of width `c` lies within `n` parameters and has its size.
pub open spec fn block_fits(bo: BlockR, c: int, n: int) -> bool {
    &&& layer_fits(bo.ln1, c, n)
    &&& within(bo.attn_w, n) && bo.attn_w.len == c * (3 * c)
    &&& bo.attn_b matches Some(r) ==> within(r, n) && r.len == 3 * c
    &&& within(bo.proj_w, n) && bo.proj_w.len == c * c
    &&& bo.proj_b matches Some(r) ==> within(r, n) && r.len == c
    &&& layer_fits(bo.ln2, c, n)
    &&& within(bo.fc_w, n) && bo.fc_w.len == c * (4 * c)
    &&& bo.fc_b matches Some(r) ==> within(r, n) && r.len == 4 * c
    &&& within(bo.mlp_w, n) && bo.mlp_w.len == (4 * c) * c
    &&& bo.mlp_b matches Some(r) ==> within(r, n) && r.len == c
}

/// The parameters of a normalisation of width `c` lie within `n` parameters, the bias
/// right behind the scale.
pub open spec fn layer_fits(ln: LayerR, c: int, n: int) -> bool {
    &&& within(ln.g, n) && ln.g.len == c
    &&& ln.b matches Some(r) ==> within(r, n) && r.len == c && r.off == ln.g.off + c
}

/// The numbers of a stretch.
fn part<T: Scalar>(params: &[Num<T>], r: R) -> (s: &[Num<T>])
    requires
        within(r, params.len() as int),
    ensures
        s@.len() == r.len,
        scalar::terms(s@) == region(scalar::terms(params@), r),
{
    let s = vstd::slice::slice_subrange(params, r.off, r.off + r.len);
    assert(scalar::terms(s@) =~= region(scalar::terms(params@), r));
    s
}

/// Sets all numbers to zero.
pub fn clear<T: Scalar>(x: &mut [Num<T>])
    ensures
        final(x)@.len() == old(x)@.len(),
        scalar::terms(final(x)@) == layout::zeros::<T>(old(x)@.len()),
{
    let n: usize = x.len();
    let mut i: usize = 0;
    while i < n
        invariant
            i <= n,
            n == x@.len(),
            forall|j: int| 0 <= j < i ==> (#[trigger] x@[j])@ == scalar::zero::<T>(),
        decreases n - i,
    {
        x[i] = Num::bits(0);
        i += 1;
    }
    assert(scalar::terms(x@) =~= layout::zeros::<T>(n as nat));
}

/// Copies numbers.
pub fn copy<T: Scalar>(dst: &mut [Num<T>], src: &[Num<T>])
    requires
        old(dst)@.len() == src@.len(),
    ensures
        final(dst)@.len() == src@.len(),
        scalar::terms(final(dst)@) == scalar::terms(src@),
{
    let n: usize = src.len();
    let mut i: usize = 0;
    while i < n
        invariant
            i <= n,
            n == src@.len(),
            n == dst@.len(),
            forall|j: int| 0 <= j < i ==> (#[trigger] dst@[j])@ == src@[j]@,
        decreases n - i,
    {
        dst[i] = src[i];
        i += 1;
    }
    assert(scalar::terms(dst@) =~= scalar::terms(src@));
}

/// Adds number by number to `x`.
fn add_to<T: Scalar>(x: &mut [Num<T>], y: &[Num<T>])
    requires
        old(x)@.len() == y@.len(),
    ensures
        final(x)@.len() == y@.len(),
        scalar::terms(final(x)@) == added(scalar::terms(old(x)@), scalar::terms(y@)),
{
    let ghost x0 = scalar::terms(x@);
    let n: usize = y.len();
    let mut i: usize = 0;
    while i < n
        invariant
            i <= n,
            n == y@.len(),
            n == x@.len(),
            n == x0.len(),
            forall|j: int|
                0 <= j < n ==> (#[trigger] x@[j])@ == if j < i {
                    scalar::sum(x0[j], y@[j]@)
                } else {
                    x0[j]
                },
        decreases n - i,
    {
        x[i] = x[i].plus(y[i]);
        i += 1;
    }
    assert(scalar::terms(x@) =~= added(x0, scalar::terms(y@)));
}

/// Fills `dst` with the sums of the numbers at the same places.
fn add_into<T: Scalar>(dst: &mut [Num<T>], a: &[Num<T>], b: &[Num<T>])
    requires
        old(dst)@.len() == a@.len(),
        a@.len() == b@.len(),
    ensures
        final(dst)@.len() == a@.len(),
        scalar::terms(final(dst)@) == added(scalar::terms(a@), scalar::terms(b@)),
{
    let n: usize = a.len();
    let mut i: usize = 0;
    while i < n
        invariant
            i <= n,
            n == a@.len(),
            n == b@.len(),
            n == dst@.len(),
            forall|j: int| 0 <= j < i ==> (#[trigger] dst@[j])@ == scalar::sum(a@[j]@, b@[j]@),
        decreases n - i,
    {
        dst[i] = a[i].plus(b[i]);
        i += 1;
    }
    assert(scalar::terms(dst@) =~= added(scalar::terms(a@), scalar::terms(b@)));
}

/// Fills `y` with `x * w`, with a bias where there is one.
fn linear_into<T: Scalar>(
    y: &mut [Num<T>],
    x: &[Num<T>],
    params: &[Num<T>],
    w: R,
    b: Option<R>,
    rows: usize,
    k: usize,
    cols: usize,
)
    requires
        old(y)@.len() == rows * cols,
        rows * k <= x.len(),
        within(w, params.len() as int),
        w.len == k * cols,
        b matches Some(r) ==> within(r, params.len() as int) && r.len == cols,
    ensures
        final(y)@.len() == rows * cols,
        scalar::terms(final(y)@) == linear(
            scalar::terms(x@),
            region(scalar::terms(params@), w),
            opt_region(scalar::terms(params@), b),
            rows as int,
            k as int,
            cols as int,
        ),
{
    clear(y);
    mm_nn(y, x, part(params, w), rows, k, cols);
    if let Some(r) = b {
        add_bias_rows(y, part(params, r), rows, cols);
    }
}

/// Applies dropout where it is on; else the mask is emptied.
pub fn drop_into<T: Scalar>(x: &mut [Num<T>], mask: &mut Vec<u8>, drop: Drop<T>, rng: &mut Rng)
    ensures
        final(x)@.len() == old(x)@.len(),
        mask_for(final(mask)@, old(x)@.len(), drop@, old(rng)@),
        scalar::terms(final(x)@) == dropped(scalar::terms(old(x)@), final(mask)@, drop@),
        final(rng)@ == after_drop(old(rng)@, old(x)@.len(), drop@),
{
    if drop.on {
        dropout_forward(x, mask, drop.p, drop.scale, rng);
    } else {
        mask.clear();
    }
}

/// Draws the mask of `n` numbers where dropout is on; else the mask is emptied.
fn mask_into<T: Scalar>(n: usize, mask: &mut Vec<u8>, drop: Drop<T>, rng: &mut Rng)
    ensures
        mask_for(final(mask)@, n as nat, drop@, old(rng)@),
        final(rng)@ == after_drop(old(rng)@, n as nat, drop@),
{
    if drop.on {
        draw_mask(n, mask, drop.p, rng);
    } else {
        mask.clear();
    }
}

/// Normalises the rows of `x` with the given parameters.
pub fn norm_into<T: Scalar>(
    x: &[Num<T>],
    params: &[Num<T>],
    ln: LayerR,
    mean: &mut [Num<T>],
    rstd: &mut [Num<T>],
    y: &mut [Num<T>],
    rows: usize,
    c: usize,
)
    requires
        x.len() == rows * c,
        layer_fits(ln, c as int, params.len() as int),
        old(mean)@.len() == rows,
        old(rstd)@.len() == rows,
        old(y)@.len() == rows * c,
    ensures
        final(mean)@.len() == rows,
        final(rstd)@.len() == rows,
        final(y)@.len() == rows * c,
        scalar::terms(final(mean)@) == layers::means(scalar::terms(x@), rows as int, c as int),
        scalar::terms(final(rstd)@) == layers::rstds(scalar::terms(x@), rows as int, c as int),
        scalar::terms(final(y)@) == layers::normalised(
            scalar::terms(x@),
            region(scalar::terms(params@), ln.g),
            opt_region(scalar::terms(params@), ln.b),
            rows as int,
            c as int,
        ),
{
    let bias: Option<&[Num<T>]> = match ln.b {
        Some(r) => Some(part(params, r)),
        None => None,
    };
    ln_forward(x, part(params, ln.g), bias, mean, rstd, y, rows, c);
}

/// The forward pass of a block: attention and feed-forward, each behind a normalisation
/// and added to its input.
pub fn block_forward<T: Scalar>(
    params: &[Num<T>],
    bo: &BlockR,
    src: &[Num<T>],
    bc: &mut BlockCache<T>,
    dst: &mut [Num<T>],
    d: Dims,
    drop: Drop<T>,
    rng: &mut Rng,
)
    requires
        cache::fits(d),
        old(bc).sized(d),
        block_fits(*bo, d.c as int, params.len() as int),
        src@.len() == d.b * d.t * d.c,
        old(dst)@.len() == d.b * d.t * d.c,
    ensures
        final(bc).sized(d),
        final(dst)@.len() == d.b * d.t * d.c,
        block_done(
            scalar::terms(params@),
            *bo,
            scalar::terms(src@),
            final(bc)@,
            scalar::terms(final(dst)@),
            d,
            drop@,
            old(rng)@,
        ),
        final(rng)@ == after_block(old(rng)@, d, drop@),
{
    proof {
        cache::lemma_fits(d);
    }
    let m: usize = d.b * d.t;
    let c: usize = d.c;
    copy(bc.x_in.as_mut_slice(), src);
    norm_into(
        bc.x_in.as_slice(),
        params,
        bo.ln1,
        bc.ln1_mean.as_mut_slice(),
        bc.ln1_rstd.as_mut_slice(),
        bc.ln1_out.as_mut_slice(),
        m,
        c,
    );
    linear_into(
        bc.qkv.as_mut_slice(),
        bc.ln1_out.as_slice(),
        params,
        bo.attn_w,
        bo.attn_b,
        m,
        c,
        3 * c,
    );
    attention_forward(bc.qkv.as_slice(), bc.att.as_mut_slice(), d);
    assert(are_weights(scalar::terms(bc.att@), scalar::terms(bc.qkv@), d));
    let weights: usize = bc.att.len();
    mask_into(weights, &mut bc.att_mask, drop, rng);
    attention_apply(
        bc.att.as_slice(),
        bc.att_mask.as_slice(),
        drop.scale,
        bc.qkv.as_slice(),
        bc.attn_out.as_mut_slice(),
        d,
    );
    linear_into(
        bc.x2.as_mut_slice(),
        bc.attn_out.as_slice(),
        params,
        bo.proj_w,
        bo.proj_b,
        m,
        c,
        c,
    );
    drop_into(bc.x2.as_mut_slice(), &mut bc.resid_mask, drop, rng);
    add_to(bc.x2.as_mut_slice(), bc.x_in.as_slice());
    norm_into(
        bc.x2.as_slice(),
        params,
        bo.ln2,
        bc.ln2_mean.as_mut_slice(),
        bc.ln2_rstd.as_mut_slice(),
        bc.ln2_out.as_mut_slice(),
        m,
        c,
    );
    linear_into(
        bc.fc_out.as_mut_slice(),
        bc.ln2_out.as_slice(),
        params,
        bo.fc_w,
        bo.fc_b,
        m,
        c,
        4 * c,
    );
    gelu_forward(bc.fc_out.as_slice(), bc.gelu_out.as_mut_slice());
    linear_into(
        bc.mlp_out.as_mut_slice(),
        bc.gelu_out.as_slice(),
        params,
        bo.mlp_w,
        bo.mlp_b,
        m,
        4 * c,
        c,
    );
    drop_into(bc.mlp_out.as_mut_slice(), &mut bc.mlp_mask, drop, rng);
    add_into(dst, bc.x2.as_slice(), bc.mlp_out.as_slice());
}

/// The gradients of a pass on its way back through dropout: times mask and scale, or times
/// one where there was none.
pub open spec fn undropped<T>(dx: Seq<Term<T>>, mask: Seq<u8>, scale: Term<T>) -> Seq<Term<T>> {
    Seq::new(
        dx.len(),
        |i: int|
            scalar::product(
                dx[i],
                if mask.len() == 0 {
                    scalar::one()
                } else {
                    scalar::product(Term::Count(mask[i] as usize), scale)
                },
            ),
    )
}

/// `dy[rows, k] * w[cols, k]^T`.
pub open spec fn back_linear<T>(
    dy: Seq<Term<T>>,
    w: Seq<Term<T>>,
    rows: int,
    k: int,
    cols: int,
) -> Seq<Term<T>> {
    ops::nt(layout::zeros((rows * cols) as nat), dy, w, rows, k, cols)
}

/// The gradients with those of a matrix and its bias added: `x[rows, k]` went in,
/// `dy[rows, cols]` came back.
pub open spec fn linear_grads<T>(
    grads: Seq<Term<T>>,
    w: R,
    b: Option<R>,
    x: Seq<Term<T>>,
    dy: Seq<Term<T>>,
    rows: int,
    k: int,
    cols: int,
) -> Seq<Term<T>> {
    let g = weight_grads(grads, w, x, dy, rows, k, cols);
    match b {
        Some(r) => layers::bias_grads(g, dy, r.off as int, rows, cols),
        None => g,
    }
}

/// The gradients with those of a matrix added.
pub open spec fn weight_grads<T>(
    grads: Seq<Term<T>>,
    w: R,
    x: Seq<Term<T>>,
    dy: Seq<Term<T>>,
    rows: int,
    k: int,
    cols: int,
) -> Seq<Term<T>> {
    grads.take(w.off as int) + ops::tn(region(grads, w), x, dy, rows, k, cols) + grads.skip(
        w.off + w.len,
    )
}

/// Gradients on their way back: those of the activations and those of the parameters.
pub struct Flow<T> {
    pub dx: Seq<Term<T>>,
    pub grads: Seq<Term<T>>,
}

/// The way back through a normalisation.
pub open spec fn back_norm<T>(
    f: Flow<T>,
    k: layers::Norm<T>,
    ln: LayerR,
    rows: int,
    c: int,
) -> Flow<T> {
    Flow {
        dx: layers::ln_dx(f.dx, k, rows, c),
        grads: layers::ln_grads(f.grads, f.dx, k, ln.g.off as int, ln.b is Some, rows, c),
    }
}

/// The way back through the feed-forward half of a block.
pub open spec fn back_feed_forward<T>(
    params: Seq<Term<T>>,
    bo: BlockR,
    k: BlockTerms<T>,
    f: Flow<T>,
    d: Dims,
    scale: Term<T>,
) -> Flow<T> {
    let m = d.b * d.t;
    let c = d.c as int;
    let dout = undropped(f.dx, k.mlp_mask, scale);
    let df = layers::sloped(back_linear(dout, region(params, bo.mlp_w), m, c, 4 * c), k.fc_out);
    let g1 = linear_grads(f.grads, bo.mlp_w, bo.mlp_b, k.gelu_out, dout, m, 4 * c, c);
    let dh = back_linear(df, region(params, bo.fc_w), m, 4 * c, c);
    let g2 = linear_grads(g1, bo.fc_w, bo.fc_b, k.ln2_out, df, m, c, 4 * c);
    let n = layers::Norm {
        x: k.x2,
        g: region(params, bo.ln2.g),
        mean: k.ln2_mean,
        rstd: k.ln2_rstd,
    };
    let b = back_norm(Flow { dx: dh, grads: g2 }, n, bo.ln2, m, c);
    Flow { dx: added(b.dx, f.dx), grads: b.grads }
}

/// The way back through the attention half of a block.
pub open spec fn back_attention<T>(
    params: Seq<Term<T>>,
    bo: BlockR,
    k: BlockTerms<T>,
    f: Flow<T>,
    d: Dims,
    scale: Term<T>,
) -> Flow<T> {
    let m = d.b * d.t;
    let c = d.c as int;
    let dout = undropped(f.dx, k.resid_mask, scale);
    let dy = back_linear(dout, region(params, bo.proj_w), m, c, c);
    let g1 = linear_grads(f.grads, bo.proj_w, bo.proj_b, k.attn_out, dout, m, c, c);
    let dqkv = attention::qkv_grads(
        layout::zeros((m * (3 * c)) as nat),
        (attention::Back { dy, qkv: k.qkv, att: k.att, mask: k.att_mask, scale }),
        d,
    );
    let dh = back_linear(dqkv, region(params, bo.attn_w), m, 3 * c, c);
    let g2 = linear_grads(g1, bo.attn_w, bo.attn_b, k.ln1_out, dqkv, m, c, 3 * c);
    let n = layers::Norm {
        x: k.x_in,
        g: region(params, bo.ln1.g),
        mean: k.ln1_mean,
        rstd: k.ln1_rstd,
    };
    let b = back_norm(Flow { dx: dh, grads: g2 }, n, bo.ln1, m, c);
    Flow { dx: added(b.dx, f.dx), grads: b.grads }
}

/// The way back through a block.
pub open spec fn back_block<T>(
    params: Seq<Term<T>>,
    bo: BlockR,
    k: BlockTerms<T>,
    f: Flow<T>,
    d: Dims,
    scale: Term<T>,
) -> Flow<T> {
    back_attention(params, bo, k, back_feed_forward(params, bo, k, f, d, scale), d, scale)
}

/// Fills `out` with the gradients behind dropout.
fn undrop_into<T: Scalar>(out: &mut [Num<T>], dx: &[Num<T>], mask: &[u8], scale: Num<T>)
    requires
        old(out)@.len() == dx@.len(),
        mask@.len() == 0 || mask@.len() == dx@.len(),
    ensures
        final(out)@.len() == dx@.len(),
        scalar::terms(final(out)@) == undropped(scalar::terms(dx@), mask@, scale@),
{
    let masked: bool = mask.len() != 0;
    let n: usize = dx.len();
    let mut i: usize = 0;
    while i < n
        invariant
            i <= n,
            n == dx@.len(),
            n == out@.len(),
            masked == (mask@.len() != 0),
            mask@.len() == 0 || mask@.len() == n,
            forall|j: int|
                0 <= j < i ==> (#[trigger] out@[j])@ == undropped(
                    scalar::terms(dx@),
                    mask@,
                    scale@,
                )[j],
        decreases n - i,
    {
        let s: Num<T> = if masked {
            Num::count(mask[i] as usize).times(scale)
        } else {
            Num::bits(0x3f80_0000)
        };
        out[i] = dx[i].times(s);
        i += 1;
    }
    assert(scalar::terms(out@) =~= undropped(scalar::terms(dx@), mask@, scale@));
}

/// Adds the gradients of a matrix and its bias.
fn add_linear_grads<T: Scalar>(
    grads: &mut [Num<T>],
    w: R,
    b: Option<R>,
    x: &[Num<T>],
    dy: &[Num<T>],
    rows: usize,
    k: usize,
    cols: usize,
)
    requires
        within(w, old(grads)@.len() as int),
        w.len == k * cols,
        b matches Some(r) ==> within(r, old(grads)@.len() as int) && r.len == cols,
        rows * k <= x.len(),
        rows * cols <= dy.len(),
    ensures
        final(grads)@.len() == old(grads)@.len(),
        scalar::terms(final(grads)@) == linear_grads(
            scalar::terms(old(grads)@),
            w,
            b,
            scalar::terms(x@),
            scalar::terms(dy@),
            rows as int,
            k as int,
            cols as int,
        ),
{
    let ghost g0 = scalar::terms(grads@);
    add_weight_grads(grads, w, x, dy, rows, k, cols);
    if let Some(r) = b {
        bias_grad(grads, r.off, dy, rows, cols);
    }
}

pub fn add_weight_grads<T: Scalar>(
    grads: &mut [Num<T>],
    w: R,
    x: &[Num<T>],
    dy: &[Num<T>],
    rows: usize,
    k: usize,
    cols: usize,
)
    requires
        within(w, old(grads)@.len() as int),
        w.len == k * cols,
        rows * k <= x.len(),
        rows * cols <= dy.len(),
    ensures
        final(grads)@.len() == old(grads)@.len(),
        scalar::terms(final(grads)@) == weight_grads(
            scalar::terms(old(grads)@),
            w,
            scalar::terms(x@),
            scalar::terms(dy@),
            rows as int,
            k as int,
            cols as int,
        ),
{
    let ghost g0 = scalar::terms(grads@);
    let (_, rest) = grads.split_at_mut(w.off);
    let (g, _) = rest.split_at_mut(w.len);
    assert(scalar::terms(g@) =~= region(g0, w));
    mm_tn(g, x, dy, rows, k, cols);
    assert(scalar::terms(grads@) =~= weight_grads(
        g0,
        w,
        scalar::terms(x@),
        scalar::terms(dy@),
        rows as int,
        k as int,
        cols as int,
    ));
}

/// Fills `out` with `dy * w^T`.
fn back_linear_into<T: Scalar>(
    out: &mut [Num<T>],
    dy: &[Num<T>],
    params: &[Num<T>],
    w: R,
    rows: usize,
    k: usize,
    cols: usize,
)
    requires
        old(out)@.len() == rows * cols,
        rows * k <= dy.len(),
        within(w, params.len() as int),
        w.len == cols * k,
    ensures
        final(out)@.len() == rows * cols,
        scalar::terms(final(out)@) == back_linear(
            scalar::terms(dy@),
            region(scalar::terms(params@), w),
            rows as int,
            k as int,
            cols as int,
        ),
{
    clear(out);
    mm_nt(out, dy, part(params, w), rows, k, cols);
}

/// The way back through a normalisation.
pub fn back_norm_in<T: Scalar>(
    dx: &mut [Num<T>],
    x: &[Num<T>],
    params: &[Num<T>],
    ln: LayerR,
    mean: &[Num<T>],
    rstd: &[Num<T>],
    grads: &mut [Num<T>],
    rows: usize,
    c: usize,
)
    requires
        old(dx)@.len() == rows * c,
        x.len() == rows * c,
        layer_fits(ln, c as int, params.len() as int),
        layer_fits(ln, c as int, old(grads)@.len() as int),
        mean.len() == rows,
        rstd.len() == rows,
    ensures
        final(dx)@.len() == rows * c,
        final(grads)@.len() == old(grads)@.len(),
        (Flow { dx: scalar::terms(final(dx)@), grads: scalar::terms(final(grads)@) }) == back_norm(
            (Flow { dx: scalar::terms(old(dx)@), grads: scalar::terms(old(grads)@) }),
            (layers::Norm {
                x: scalar::terms(x@),
                g: region(scalar::terms(params@), ln.g),
                mean: scalar::terms(mean@),
                rstd: scalar::terms(rstd@),
            }),
            ln,
            rows as int,
            c as int,
        ),
{
    let bias: bool = ln.b.is_some();
    ln_backward(dx, x, part(params, ln.g), mean, rstd, grads, ln.g.off, bias, rows, c);
}

/// The masks of a block are those of its last forward pass: full or empty.
pub open spec fn masks_ok<T: Scalar>(k: BlockCache<T>, d: Dims) -> bool {
    let mc = d.b * d.t * d.c;
    &&& k.att_mask@.len() == 0 || k.att_mask@.len() == d.b * d.nh * d.t * d.t
    &&& k.resid_mask@.len() == 0 || k.resid_mask@.len() == mc
    &&& k.mlp_mask@.len() == 0 || k.mlp_mask@.len() == mc
}

/// The way back through the feed-forward half; the gradient of its input is left in
/// `scratch.dx2`.
fn back_feed_forward_in<T: Scalar>(
    params: &[Num<T>],
    grads: &mut [Num<T>],
    bo: &BlockR,
    bc: &BlockCache<T>,
    dx: &[Num<T>],
    scratch: &mut Scratch<T>,
    d: Dims,
    scale: Num<T>,
)
    requires
        cache::fits(d),
        bc.sized(d),
        masks_ok(*bc, d),
        old(scratch).sized(d),
        block_fits(*bo, d.c as int, params.len() as int),
        old(grads)@.len() == params@.len(),
        dx@.len() == d.b * d.t * d.c,
    ensures
        final(scratch).sized(d),
        final(grads)@.len() == old(grads)@.len(),
        (Flow {
            dx: scalar::terms(final(scratch).dx2@),
            grads: scalar::terms(final(grads)@),
        }) == back_feed_forward(
            scalar::terms(params@),
            *bo,
            bc@,
            (Flow { dx: scalar::terms(dx@), grads: scalar::terms(old(grads)@) }),
            d,
            scale@,
        ),
{
    proof {
        cache::lemma_fits(d);
        lemma_products(d.c as int);
    }
    let m: usize = d.b * d.t;
    let c: usize = d.c;
    undrop_into(scratch.dout.as_mut_slice(), dx, bc.mlp_mask.as_slice(), scale);
    back_linear_into(
        scratch.d4c.as_mut_slice(),
        scratch.dout.as_slice(),
        params,
        bo.mlp_w,
        m,
        c,
        4 * c,
    );
    gelu_backward(scratch.d4c.as_mut_slice(), bc.fc_out.as_slice());
    add_linear_grads(
        grads,
        bo.mlp_w,
        bo.mlp_b,
        bc.gelu_out.as_slice(),
        scratch.dout.as_slice(),
        m,
        4 * c,
        c,
    );
    back_linear_into(
        scratch.dx3.as_mut_slice(),
        scratch.d4c.as_slice(),
        params,
        bo.fc_w,
        m,
        4 * c,
        c,
    );
    add_linear_grads(
        grads,
        bo.fc_w,
        bo.fc_b,
        bc.ln2_out.as_slice(),
        scratch.d4c.as_slice(),
        m,
        c,
        4 * c,
    );
    back_norm_in(
        scratch.dx3.as_mut_slice(),
        bc.x2.as_slice(),
        params,
        bo.ln2,
        bc.ln2_mean.as_slice(),
        bc.ln2_rstd.as_slice(),
        grads,
        m,
        c,
    );
    add_into(scratch.dx2.as_mut_slice(), scratch.dx3.as_slice(), dx);
}

/// The sizes of a block's matrices, read from either side.
proof fn lemma_products(c: int)
    ensures
        (4 * c) * c == c * (4 * c),
        (3 * c) * c == c * (3 * c),
{
    assert((4 * c) * c == c * (4 * c)) by (nonlinear_arith);
    assert((3 * c) * c == c * (3 * c)) by (nonlinear_arith);
}

/// The way back through the attention half, from `scratch.dx2`; the gradient of its input
/// is left in `dx`.
fn back_attention_in<T: Scalar>(
    params: &[Num<T>],
    grads: &mut [Num<T>],
    bo: &BlockR,
    bc: &BlockCache<T>,
    dx: &mut [Num<T>],
    scratch: &mut Scratch<T>,
    d: Dims,
    scale: Num<T>,
)
    requires
        cache::fits(d),
        bc.sized(d),
        masks_ok(*bc, d),
        old(scratch).sized(d),
        block_fits(*bo, d.c as int, params.len() as int),
        old(grads)@.len() == params@.len(),
        old(dx)@.len() == d.b * d.t * d.c,
    ensures
        final(scratch).sized(d),
        final(grads)@.len() == old(grads)@.len(),
        final(dx)@.len() == d.b * d.t * d.c,
        (Flow { dx: scalar::terms(final(dx)@), grads: scalar::terms(final(grads)@) })
            == back_attention(
            scalar::terms(params@),
            *bo,
            bc@,
            (Flow {
                dx: scalar::terms(old(scratch).dx2@),
                grads: scalar::terms(old(grads)@),
            }),
            d,
            scale@,
        ),
{
    proof {
        cache::lemma_fits(d);
        lemma_products(d.c as int);
    }
    let m: usize = d.b * d.t;
    let c: usize = d.c;
    undrop_into(
        scratch.dout.as_mut_slice(),
        scratch.dx2.as_slice(),
        bc.resid_mask.as_slice(),
        scale,
    );
    back_linear_into(
        scratch.dx3.as_mut_slice(),
        scratch.dout.as_slice(),
        params,
        bo.proj_w,
        m,
        c,
        c,
    );
    add_linear_grads(
        grads,
        bo.proj_w,
        bo.proj_b,
        bc.attn_out.as_slice(),
        scratch.dout.as_slice(),
        m,
        c,
        c,
    );
    clear(scratch.dqkv.as_mut_slice());
    attention_backward(
        scratch.dx3.as_slice(),
        bc.qkv.as_slice(),
        bc.att.as_slice(),
        bc.att_mask.as_slice(),
        scale,
        scratch.dqkv.as_mut_slice(),
        d,
    );
    back_linear_into(
        scratch.dx3.as_mut_slice(),
        scratch.dqkv.as_slice(),
        params,
        bo.attn_w,
        m,
        3 * c,
        c,
    );
    add_linear_grads(
        grads,
        bo.attn_w,
        bo.attn_b,
        bc.ln1_out.as_slice(),
        scratch.dqkv.as_slice(),
        m,
        c,
        3 * c,
    );
    back_norm_in(
        scratch.dx3.as_mut_slice(),
        bc.x_in.as_slice(),
        params,
        bo.ln1,
        bc.ln1_mean.as_slice(),
        bc.ln1_rstd.as_slice(),
        grads,
        m,
        c,
    );
    add_into(dx, scratch.dx3.as_slice(), scratch.dx2.as_slice());
}

/// The way back through a block: `dx` is replaced by the gradient of the block's input, and
/// the gradients of its parameters are added to `grads`.
pub fn block_backward<T: Scalar>(
    params: &[Num<T>],
    grads: &mut [Num<T>],
    bo: &BlockR,
    bc: &BlockCache<T>,
    dx: &mut [Num<T>],
    scratch: &mut Scratch<T>,
    d: Dims,
    scale: Num<T>,
)
    requires
        cache::fits(d),
        bc.sized(d),
        masks_ok(*bc, d),
        old(scratch).sized(d),
        block_fits(*bo, d.c as int, params.len() as int),
        old(grads)@.len() == params@.len(),
        old(dx)@.len() == d.b * d.t * d.c,
    ensures
        final(scratch).sized(d),
        final(grads)@.len() == old(grads)@.len(),
        final(dx)@.len() == d.b * d.t * d.c,
        (Flow { dx: scalar::terms(final(dx)@), grads: scalar::terms(final(grads)@) }) == back_block(
            scalar::terms(params@),
            *bo,
            bc@,
            (Flow { dx: scalar::terms(old(dx)@), grads: scalar::terms(old(grads)@) }),
            d,
            scale@,
        ),
{
    back_feed_forward_in(params, grads, bo, bc, dx, scratch, d, scale);
    back_attention_in(params, grads, bo, bc, dx, scratch, d, scale);
}

} // verus!
