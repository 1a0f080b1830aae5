//! Training: how it is set up, its steps and its evaluations.
use crate::backward;
use crate::cache;
use crate::cache::Cache;
use crate::causal;
use crate::data;
use crate::data::{Dataset, Split};
use crate::forward;
use crate::layout;
use crate::model;
use crate::model::{can_build, Gpt, GptConfig};
use crate::optim;
use crate::optim::{clip_grad_norm, get_lr, AdamW};
use crate::opts;
use crate::opts::{bits_or, get_bool, get_numbers, get_text, size_or, BadValue, Reading};
use crate::rng;
use crate::rng::Rng;
use crate::scalar;
use crate::scalar::{Num, Scalar, Term, WideNum, WideTerm};
use crate::schedule::Pace;
use crate::text::{chars_of, string_of};
use vstd::prelude::*;

verus! {

/// What to train on, which model, and how. Numbers that are no counts are given by the bit
/// patterns of singles.
pub struct TrainArgs {
    pub data_dir: String,
    pub out_dir: String,
    pub block_size: usize,
    pub batch_size: usize,
    pub n_layer: usize,
    pub n_head: usize,
    pub n_embd: usize,
    pub dropout: u32,
    pub bias: bool,
    pub learning_rate: u32,
    pub max_iters: usize,
    pub weight_decay: u32,
    pub beta1: u32,
    pub beta2: u32,
    pub grad_clip: u32,
    pub decay_lr: bool,
    pub warmup_iters: usize,
    pub lr_decay_iters: usize,
    pub min_lr: u32,
    pub eval_interval: usize,
    pub eval_iters: usize,
    pub log_interval: usize,
    pub always_save_checkpoint: bool,
    pub seed: u64,
    pub threads: usize,
}

impl TrainArgs {
    /// A small model on characters that trains in minutes.
    pub fn defaults(threads: usize) -> (a: Self)
        ensures
            a.data_dir@ == ""@,
            a.out_dir@ == "out-rs"@,
            a.block_size == 64,
            a.batch_size == 16,
            a.n_layer == 4,
            a.n_head == 4,
            a.n_embd == 128,
            a.dropout == 0x3e4c_cccdu32,
            a.bias == false,
            a.learning_rate == 0x3a83_126fu32,
            a.max_iters == 300,
            a.weight_decay == 0x3dcc_cccdu32,
            a.beta1 == 0x3f66_6666u32,
            a.beta2 == 0x3f7d_70a4u32,
            a.grad_clip == 0x3f80_0000u32,
            a.decay_lr == true,
            a.warmup_iters == 50,
            a.lr_decay_iters == 300,
            a.min_lr == 0x38d1_b717u32,
            a.eval_interval == 50,
            a.eval_iters == 20,
            a.log_interval == 10,
            a.always_save_checkpoint == false,
            a.seed == 1337,
            a.threads == threads,
    {
        TrainArgs {
            data_dir: string_of(chars_of("").as_slice()),
            out_dir: string_of(chars_of("out-rs").as_slice()),
            block_size: 64,
            batch_size: 16,
            n_layer: 4,
            n_head: 4,
            n_embd: 128,
            dropout: 0x3e4c_cccd,
            bias: false,
            learning_rate: 0x3a83_126f,
            max_iters: 300,
            weight_decay: 0x3dcc_cccd,
            beta1: 0x3f66_6666,
            beta2: 0x3f7d_70a4,
            grad_clip: 0x3f80_0000,
            decay_lr: true,
            warmup_iters: 50,
            lr_decay_iters: 300,
            min_lr: 0x38d1_b717,
            eval_interval: 50,
            eval_iters: 20,
            log_interval: 10,
            always_save_checkpoint: false,
            seed: 1337,
            threads,
        }
    }

    /// The arguments as options change them. Without `--data-dir` the data are in `data_dir`;
    /// a new number of iterations is that of the learning-rate decay too, unless that is
    /// given. `singles` holds how the numbers that are no counts read. Of several values that
    /// cannot be read, the error names that of the option that is read first.
    pub fn with_options(
        self,
        options: &[(String, String)],
        data_dir: &str,
        singles: &Singles,
    ) -> (r: Result<Self, BadValue>)
        ensures
            ({
                let o = opts::pairs(options@);
                match r {
                    Ok(a) => {
                        &&& opts::all_readable(o, train_keys(*singles))
                        &&& a.data_dir@ == opts::text_or(o, "data-dir"@, data_dir@)
                        &&& a.out_dir@ == opts::text_or(o, "out-dir"@, self.out_dir@)
                        &&& a.block_size == opts::number_or(o, "block-size"@, self.block_size as int)
                        &&& a.batch_size == opts::number_or(o, "batch-size"@, self.batch_size as int)
                        &&& a.n_layer == opts::number_or(o, "n-layer"@, self.n_layer as int)
                        &&& a.n_head == opts::number_or(o, "n-head"@, self.n_head as int)
                        &&& a.n_embd == opts::number_or(o, "n-embd"@, self.n_embd as int)
                        &&& a.max_iters == opts::number_or(o, "max-iters"@, self.max_iters as int)
                        &&& a.warmup_iters == opts::number_or(o, "warmup-iters"@, self.warmup_iters as int)
                        &&& a.eval_interval == opts::number_or(o, "eval-interval"@, self.eval_interval as int)
                        &&& a.eval_iters == opts::number_or(o, "eval-iters"@, self.eval_iters as int)
                        &&& a.log_interval == opts::number_or(o, "log-interval"@, self.log_interval as int)
                        &&& a.seed == opts::number_or(o, "seed"@, self.seed as int)
                        &&& a.threads == opts::number_or(o, "threads"@, self.threads as int)
                        &&& a.lr_decay_iters == opts::number_or(
                            o,
                            "lr-decay-iters"@,
                            opts::number_or(o, "max-iters"@, self.lr_decay_iters as int),
                        )
                        &&& a.dropout == opts::single_or(
                            o,
                            "dropout"@,
                            singles.dropout,
                            self.dropout,
                        )
                        &&& a.learning_rate == opts::single_or(
                            o,
                            "learning-rate"@,
                            singles.learning_rate,
                            self.learning_rate,
                        )
                        &&& a.weight_decay == opts::single_or(
                            o,
                            "weight-decay"@,
                            singles.weight_decay,
                            self.weight_decay,
                        )
                        &&& a.beta1 == opts::single_or(
                            o,
                            "beta1"@,
                            singles.beta1,
                            self.beta1,
                        )
                        &&& a.beta2 == opts::single_or(
                            o,
                            "beta2"@,
                            singles.beta2,
                            self.beta2,
                        )
                        &&& a.grad_clip == opts::single_or(
                            o,
                            "grad-clip"@,
                            singles.grad_clip,
                            self.grad_clip,
                        )
                        &&& a.min_lr == opts::single_or(
                            o,
                            "min-lr"@,
                            singles.min_lr,
                            self.min_lr,
                        )
                        &&& a.bias == opts::flag_of(o, "bias"@, self.bias)
                        &&& a.decay_lr == opts::flag_of(o, "decay-lr"@, self.decay_lr)
                        &&& a.always_save_checkpoint == opts::flag_of(
                            o,
                            "always-save"@,
                            self.always_save_checkpoint,
                        )
                    },
                    Err(e) => opts::is_first_bad(o, train_keys(*singles), e),
                }
            }),
    {
        let keys: [(&str, Reading); 20] = [
            ("block-size", Reading::Count),
            ("batch-size", Reading::Count),
            ("n-layer", Reading::Count),
            ("n-head", Reading::Count),
            ("n-embd", Reading::Count),
            ("dropout", Reading::Single(singles.dropout)),
            ("learning-rate", Reading::Single(singles.learning_rate)),
            ("max-iters", Reading::Count),
            ("weight-decay", Reading::Single(singles.weight_decay)),
            ("beta1", Reading::Single(singles.beta1)),
            ("beta2", Reading::Single(singles.beta2)),
            ("grad-clip", Reading::Single(singles.grad_clip)),
            ("warmup-iters", Reading::Count),
            ("lr-decay-iters", Reading::Count),
            ("min-lr", Reading::Single(singles.min_lr)),
            ("eval-interval", Reading::Count),
            ("eval-iters", Reading::Count),
            ("log-interval", Reading::Count),
            ("seed", Reading::Count),
            ("threads", Reading::Count),
        ];
        assert(opts::key_views(keys@) =~= train_keys(*singles));
        let v = match get_numbers(options, &keys) {
            Ok(v) => v,
            Err(e) => {
                return Err(e);
            },
        };
        proof {
            lemma_not_seed();
        }
        let decay_iters: usize = size_or(v[7], self.lr_decay_iters);
        Ok(
            TrainArgs {
                data_dir: get_text(options, "data-dir", data_dir),
                out_dir: get_text(options, "out-dir", self.out_dir.as_str()),
                block_size: size_or(v[0], self.block_size),
                batch_size: size_or(v[1], self.batch_size),
                n_layer: size_or(v[2], self.n_layer),
                n_head: size_or(v[3], self.n_head),
                n_embd: size_or(v[4], self.n_embd),
                dropout: bits_or(v[5], self.dropout),
                bias: get_bool(options, "bias", self.bias),
                learning_rate: bits_or(v[6], self.learning_rate),
                max_iters: size_or(v[7], self.max_iters),
                weight_decay: bits_or(v[8], self.weight_decay),
                beta1: bits_or(v[9], self.beta1),
                beta2: bits_or(v[10], self.beta2),
                grad_clip: bits_or(v[11], self.grad_clip),
                decay_lr: get_bool(options, "decay-lr", self.decay_lr),
                warmup_iters: size_or(v[12], self.warmup_iters),
                lr_decay_iters: size_or(v[13], decay_iters),
                min_lr: bits_or(v[14], self.min_lr),
                eval_interval: size_or(v[15], self.eval_interval),
                eval_iters: size_or(v[16], self.eval_iters),
                log_interval: size_or(v[17], self.log_interval),
                always_save_checkpoint: get_bool(
                    options,
                    "always-save",
                    self.always_save_checkpoint,
                ),
                seed: match v[18] {
                    Some(n) => n,
                    None => self.seed,
                },
                threads: size_or(v[19], self.threads),
            },
        )
    }

    /// The shape of the model.
    pub open spec fn shape(&self, vocab_size: usize) -> GptConfig {
        GptConfig {
            block_size: self.block_size,
            vocab_size,
            n_layer: self.n_layer,
            n_head: self.n_head,
            n_embd: self.n_embd,
            dropout: self.dropout,
            bias: self.bias,
        }
    }

    /// The shape of the model.
    pub fn config(&self, vocab_size: usize) -> (cfg: GptConfig)
        ensures
            cfg == self.shape(vocab_size),
    {
        GptConfig {
            block_size: self.block_size,
            vocab_size,
            n_layer: self.n_layer,
            n_head: self.n_head,
            n_embd: self.n_embd,
            dropout: self.dropout,
            bias: self.bias,
        }
    }

    /// How the run is paced.
    pub fn pace(&self) -> (p: Pace)
        ensures
            p == (Pace {
                max_iters: self.max_iters,
                eval_interval: self.eval_interval,
                log_interval: self.log_interval,
                always_save: self.always_save_checkpoint,
            }),
    {
        Pace {
            max_iters: self.max_iters,
            eval_interval: self.eval_interval,
            log_interval: self.log_interval,
            always_save: self.always_save_checkpoint,
        }
    }

    /// The learning rate of an iteration.
    pub open spec fn rate<T>(&self, it: usize) -> Term<T> {
        if self.decay_lr {
            optim::lr_of(
                it,
                self.warmup_iters,
                self.lr_decay_iters,
                Term::Bits(self.learning_rate),
                Term::Bits(self.min_lr),
            )
        } else {
            Term::Bits(self.learning_rate)
        }
    }

    /// The learning rate of an iteration.
    pub fn learning_rate_at<T: Scalar>(&self, it: usize) -> (lr: Num<T>)
        requires
            self.decay_lr ==> self.warmup_iters < usize::MAX,
        ensures
            lr@ == self.rate::<T>(it),
    {
        if self.decay_lr {
            get_lr(
                it,
                self.warmup_iters,
                self.lr_decay_iters,
                Num::bits(self.learning_rate),
                Num::bits(self.min_lr),
            )
        } else {
            Num::bits(self.learning_rate)
        }
    }
}

/// The bit patterns of the singles that the values of options write; `None` where the value
/// writes none, or the option is not given.
pub struct Singles {
    pub dropout: Option<u32>,
    pub learning_rate: Option<u32>,
    pub weight_decay: Option<u32>,
    pub beta1: Option<u32>,
    pub beta2: Option<u32>,
    pub grad_clip: Option<u32>,
    pub min_lr: Option<u32>,
}

/// The options that give numbers, in the order in which they are read.
pub open spec fn train_keys(singles: Singles) -> Seq<(Seq<char>, Reading)> {
    seq![
        ("block-size"@, Reading::Count),
        ("batch-size"@, Reading::Count),
        ("n-layer"@, Reading::Count),
        ("n-head"@, Reading::Count),
        ("n-embd"@, Reading::Count),
        ("dropout"@, Reading::Single(singles.dropout)),
        ("learning-rate"@, Reading::Single(singles.learning_rate)),
        ("max-iters"@, Reading::Count),
        ("weight-decay"@, Reading::Single(singles.weight_decay)),
        ("beta1"@, Reading::Single(singles.beta1)),
        ("beta2"@, Reading::Single(singles.beta2)),
        ("grad-clip"@, Reading::Single(singles.grad_clip)),
        ("warmup-iters"@, Reading::Count),
        ("lr-decay-iters"@, Reading::Count),
        ("min-lr"@, Reading::Single(singles.min_lr)),
        ("eval-interval"@, Reading::Count),
        ("eval-iters"@, Reading::Count),
        ("log-interval"@, Reading::Count),
        ("seed"@, Reading::Count),
        ("threads"@, Reading::Count),
    ]
}

/// The sizes among the options are no seeds.
proof fn lemma_not_seed()
    ensures
        "block-size"@ != "seed"@,
        "batch-size"@ != "seed"@,
        "n-layer"@ != "seed"@,
        "n-head"@ != "seed"@,
        "n-embd"@ != "seed"@,
        "max-iters"@ != "seed"@,
        "warmup-iters"@ != "seed"@,
        "lr-decay-iters"@ != "seed"@,
        "eval-interval"@ != "seed"@,
        "eval-iters"@ != "seed"@,
        "log-interval"@ != "seed"@,
        "threads"@ != "seed"@,
{
    reveal_strlit("block-size");
    reveal_strlit("batch-size");
    reveal_strlit("n-layer");
    reveal_strlit("n-head");
    reveal_strlit("n-embd");
    reveal_strlit("max-iters");
    reveal_strlit("warmup-iters");
    reveal_strlit("lr-decay-iters");
    reveal_strlit("eval-interval");
    reveal_strlit("eval-iters");
    reveal_strlit("log-interval");
    reveal_strlit("seed");
    reveal_strlit("threads");
    assert("seed"@.len() == 4);
    assert("block-size"@.len() > 4);
    assert("batch-size"@.len() > 4);
    assert("n-layer"@.len() > 4);
    assert("n-head"@.len() > 4);
    assert("n-embd"@.len() > 4);
    assert("max-iters"@.len() > 4);
    assert("warmup-iters"@.len() > 4);
    assert("lr-decay-iters"@.len() > 4);
    assert("eval-interval"@.len() > 4);
    assert("eval-iters"@.len() > 4);
    assert("log-interval"@.len() > 4);
    assert("threads"@.len() > 4);
}

/// Every token of a part is in the vocabulary.
pub open spec fn all_known(part: Seq<u16>, vocab_size: usize) -> bool {
    forall|i: int| 0 <= i < part.len() ==> #[trigger] part[i] < vocab_size
}

/// Batches can be drawn from a part of the data and run through the model: the part is longer
/// than a block, its tokens are known and the sizes of a batch can be written.
pub open spec fn batches_run(cfg: GptConfig, part: Seq<u16>, batch_size: usize) -> bool {
    &&& cfg.block_size >= 1
    &&& batch_size >= 1
    &&& part.len() > cfg.block_size + 1
    &&& all_known(part, cfg.vocab_size)
    &&& batch_size * cfg.block_size <= usize::MAX
    &&& cache::pass_fits(cfg, batch_size as nat * cfg.block_size as nat)
}

/// Where batches can be drawn from a part of the data, every one of them can be run through
/// the model, whatever the generator gives.
pub proof fn law_batches_can_run(cfg: GptConfig, part: Seq<u16>, batch_size: usize, s: rng::State)
    requires
        batches_run(cfg, part, batch_size),
    ensures
        ({
            let n = batch_size as nat;
            let t = cfg.block_size as nat;
            let x = data::batch_inputs(part, s, n, t);
            &&& forward::runnable(cfg, x)
            &&& forward::are_targets(cfg, x, data::batch_targets(part, s, n, t))
        }),
{
    let n = batch_size as nat;
    let t = cfg.block_size as nat;
    let x = data::batch_inputs(part, s, n, t);
    let y = data::batch_targets(part, s, n, t);
    assert(n * t >= t && n * t >= 1) by (nonlinear_arith)
        requires
            n >= 1,
            t >= 1,
    ;
    vstd::arithmetic::div_mod::lemma_mod_multiples_basic(n as int, t as int);
    assert(n * t % t == 0);
    assert forall|k: int| 0 <= k < n * t implies #[trigger] x[k] < cfg.vocab_size && y[k]
        < cfg.vocab_size by {
        let b = (k / t as int) as nat;
        data::law_batch_in_range(part.len(), s, b, t);
        assert(0 <= k % t as int && k % (t as int) < t);
        let p = data::batch_start(part.len(), s, b, t) + k % (t as int);
        assert(part[p] < cfg.vocab_size);
        assert(part[p + 1] < cfg.vocab_size);
    }
    assert forall|k: int| 0 <= k < n * t implies #[trigger] y[k] < cfg.vocab_size by {
        assert(x[k] < cfg.vocab_size);
    }
}

/// `loss` is the mean loss of a batch, measured without dropout.
pub open spec fn is_loss<T: Scalar>(
    params: Seq<Term<T>>,
    cfg: GptConfig,
    x: Seq<u32>,
    y: Seq<u32>,
    loss: Term<T>,
) -> bool {
    exists|s: rng::State, k: Cache<T>| #[trigger]
        forward::forward_done(params, cfg, x, Some(y), false, s, k, loss)
}

/// The sum of the first `n` losses, in higher precision.
pub open spec fn loss_total<T>(losses: Seq<Term<T>>, n: nat) -> WideTerm<T>
    decreases n,
{
    if n == 0 {
        WideTerm::Bits(0)
    } else {
        WideTerm::Plus(Box::new(loss_total(losses, (n - 1) as nat)), Box::new(losses[n - 1]))
    }
}

/// The mean of losses.
pub open spec fn loss_mean<T>(losses: Seq<Term<T>>) -> WideTerm<T> {
    scalar::over_count(loss_total(losses, losses.len()), losses.len() as usize)
}

/// The inputs of batch `i` of those drawn one after the other from `part`.
pub open spec fn inputs_of(
    part: Seq<u16>,
    s: rng::State,
    batch_size: nat,
    block_size: nat,
    i: nat,
) -> Seq<u32> {
    data::batch_inputs(part, rng::advance_by(s, i * batch_size), batch_size, block_size)
}

/// The targets of batch `i` of those drawn one after the other from `part`.
pub open spec fn targets_of(
    part: Seq<u16>,
    s: rng::State,
    batch_size: nat,
    block_size: nat,
    i: nat,
) -> Seq<u32> {
    data::batch_targets(part, rng::advance_by(s, i * batch_size), batch_size, block_size)
}

/// Batches are drawn one after the other: those behind the first `i` are those that a generator
/// gives which has already drawn these.
pub proof fn law_batches_walk_on(
    part: Seq<u16>,
    s: rng::State,
    batch_size: nat,
    block_size: nat,
    i: nat,
    j: nat,
)
    ensures
        inputs_of(part, s, batch_size, block_size, i + j) == inputs_of(
            part,
            rng::advance_by(s, i * batch_size),
            batch_size,
            block_size,
            j,
        ),
        targets_of(part, s, batch_size, block_size, i + j) == targets_of(
            part,
            rng::advance_by(s, i * batch_size),
            batch_size,
            block_size,
            j,
        ),
        inputs_of(part, s, batch_size, block_size, 0) == data::batch_inputs(
            part,
            s,
            batch_size,
            block_size,
        ),
        targets_of(part, s, batch_size, block_size, 0) == data::batch_targets(
            part,
            s,
            batch_size,
            block_size,
        ),
{
    assert((i + j) * batch_size == i * batch_size + j * batch_size) by (nonlinear_arith);
    assert(0 * batch_size == 0) by (nonlinear_arith);
    rng::law_draws_add_up(s, i * batch_size, j * batch_size);
}

/// Each of the losses is that of a batch of its own, drawn one after the other from `part`.
pub open spec fn are_losses<T: Scalar>(
    params: Seq<Term<T>>,
    cfg: GptConfig,
    part: Seq<u16>,
    batch_size: nat,
    s: rng::State,
    losses: Seq<Term<T>>,
) -> bool {
    forall|i: int|
        0 <= i < losses.len() ==> is_loss(
            params,
            cfg,
            inputs_of(part, s, batch_size, cfg.block_size as nat, i as nat),
            targets_of(part, s, batch_size, cfg.block_size as nat, i as nat),
            #[trigger] losses[i],
        )
}

/// `mean` is the mean loss over `n` random batches of `part`.
pub open spec fn is_estimate<T: Scalar>(
    params: Seq<Term<T>>,
    cfg: GptConfig,
    part: Seq<u16>,
    batch_size: nat,
    n: nat,
    s: rng::State,
    mean: WideTerm<T>,
) -> bool {
    exists|losses: Seq<Term<T>>| #[trigger]
        are_losses(params, cfg, part, batch_size, s, losses) && losses.len() == n && mean
            == loss_mean(losses)
}

/// The generator state settles an estimate: it is the same whatever the buffers held, and
/// in whatever order or by how many workers the batches are measured.
pub proof fn law_estimate_is_settled<T: Scalar>(
    params: Seq<Term<T>>,
    cfg: GptConfig,
    part: Seq<u16>,
    batch_size: usize,
    n: nat,
    s: rng::State,
    a: WideTerm<T>,
    b: WideTerm<T>,
)
    requires
        batches_run(cfg, part, batch_size),
        is_estimate(params, cfg, part, batch_size as nat, n, s, a),
        is_estimate(params, cfg, part, batch_size as nat, n, s, b),
    ensures
        a == b,
{
    let bs = batch_size as nat;
    let t = cfg.block_size as nat;
    let la = choose|losses: Seq<Term<T>>| #[trigger]
        are_losses(params, cfg, part, bs, s, losses) && losses.len() == n && a == loss_mean(losses);
    let lb = choose|losses: Seq<Term<T>>| #[trigger]
        are_losses(params, cfg, part, bs, s, losses) && losses.len() == n && b == loss_mean(losses);
    assert forall|i: int| 0 <= i < n implies la[i] == lb[i] by {
        let x = inputs_of(part, s, bs, t, i as nat);
        let y = targets_of(part, s, bs, t, i as nat);
        law_batches_can_run(cfg, part, batch_size, rng::advance_by(s, i as nat * bs));
        assert(is_loss(params, cfg, x, y, la[i]));
        assert(is_loss(params, cfg, x, y, lb[i]));
        let (s1, k1) = choose|s1: rng::State, k1: Cache<T>| #[trigger]
            forward::forward_done(params, cfg, x, Some(y), false, s1, k1, la[i]);
        let (s2, k2) = choose|s2: rng::State, k2: Cache<T>| #[trigger]
            forward::forward_done(params, cfg, x, Some(y), false, s2, k2, lb[i]);
        causal::law_targets_settle_loss(params, cfg, x, y, s1, s2, k1, k2, la[i], lb[i]);
    }
    assert(la =~= lb);
}

/// Inputs and targets of a batch.
pub struct Batch {
    pub x: Vec<u32>,
    pub y: Vec<u32>,
}

/// Draws `n` batches from a part of the data.
pub fn draw_batches(
    dataset: &Dataset,
    split: Split,
    batch_size: usize,
    block_size: usize,
    n: usize,
    rng: &mut Rng,
) -> (v: Vec<Batch>)
    requires
        n > 0 ==> dataset.part(split).len() > block_size + 1,
        n > 0 ==> batch_size * block_size <= usize::MAX,
    ensures
        v@.len() == n,
        forall|i: int|
            0 <= i < n ==> (#[trigger] v@[i]).x@ == inputs_of(
                dataset.part(split),
                old(rng)@,
                batch_size as nat,
                block_size as nat,
                i as nat,
            ),
        forall|i: int|
            0 <= i < n ==> (#[trigger] v@[i]).y@ == targets_of(
                dataset.part(split),
                old(rng)@,
                batch_size as nat,
                block_size as nat,
                i as nat,
            ),
        final(rng)@ == rng::advance_by(old(rng)@, n as nat * batch_size as nat),
{
    let ghost s = rng@;
    let ghost part = dataset.part(split);
    let ghost bs = batch_size as nat;
    let ghost t = block_size as nat;
    let mut v: Vec<Batch> = Vec::new();
    let mut i: usize = 0;
    assert(0 * bs == 0) by (nonlinear_arith);
    while i < n
        invariant
            i <= n,
            n > 0 ==> dataset.part(split).len() > block_size + 1,
            n > 0 ==> batch_size * block_size <= usize::MAX,
            part == dataset.part(split),
            bs == batch_size as nat,
            t == block_size as nat,
            v@.len() == i,
            forall|j: int| 0 <= j < i ==> (#[trigger] v@[j]).x@ == inputs_of(part, s, bs, t, j as nat),
            forall|j: int|
                0 <= j < i ==> (#[trigger] v@[j]).y@ == targets_of(part, s, bs, t, j as nat),
            rng@ == rng::advance_by(s, i as nat * bs),
        decreases n - i,
    {
        let mut x: Vec<u32> = Vec::new();
        let mut y: Vec<u32> = Vec::new();
        dataset.get_batch(split, batch_size, block_size, rng, &mut x, &mut y);
        proof {
            layout::lemma_advance_adds(s, i as nat * bs, bs);
            assert((i as nat + 1) * bs == i as nat * bs + bs) by (nonlinear_arith);
        }
        v.push(Batch { x, y });
        i += 1;
    }
    v
}

/// The mean loss of a batch, measured without dropout.
pub fn batch_loss<T: Scalar>(model: &Gpt<T>, batch: &Batch, cache: &mut Cache<T>) -> (loss: Num<T>)
    requires
        model.ok(),
        forward::runnable(model.cfg, batch.x@),
        forward::are_targets(model.cfg, batch.x@, batch.y@),
    ensures
        is_loss(scalar::terms(model.params@), model.cfg, batch.x@, batch.y@, loss@),
{
    let mut rng = Rng::new(0);
    model.forward(batch.x.as_slice(), Some(batch.y.as_slice()), false, &mut rng, cache)
}

/// The mean of losses.
pub fn mean_of_losses<T: Scalar>(losses: &[Num<T>]) -> (mean: WideNum<T>)
    ensures
        mean@ == loss_mean(scalar::terms(losses@)),
{
    let mut sum: WideNum<T> = WideNum::bits(0);
    let mut i: usize = 0;
    while i < losses.len()
        invariant
            i <= losses.len(),
            sum@ == loss_total(scalar::terms(losses@), i as nat),
        decreases losses.len() - i,
    {
        sum = sum.plus(losses[i]);
        i += 1;
    }
    sum.over_count(losses.len())
}

/// The mean loss over `n` random batches of a part of the data.
fn estimate_part<T: Scalar>(
    model: &Gpt<T>,
    dataset: &Dataset,
    split: Split,
    batch_size: usize,
    n: usize,
    rng: &mut Rng,
    cache: &mut Cache<T>,
) -> (mean: WideNum<T>)
    requires
        model.ok(),
        n > 0 ==> batches_run(model.cfg, dataset.part(split), batch_size),
    ensures
        is_estimate(
            scalar::terms(model.params@),
            model.cfg,
            dataset.part(split),
            batch_size as nat,
            n as nat,
            old(rng)@,
            mean@,
        ),
        final(rng)@ == rng::advance_by(old(rng)@, n as nat * batch_size as nat),
{
    let ghost s = rng@;
    let ghost params = scalar::terms(model.params@);
    let ghost part = dataset.part(split);
    let ghost bs = batch_size as nat;
    let ghost t = model.cfg.block_size as nat;
    let batches = draw_batches(dataset, split, batch_size, model.cfg.block_size, n, rng);
    let mut losses: Vec<Num<T>> = Vec::new();
    let mut i: usize = 0;
    while i < n
        invariant
            i <= n,
            model.ok(),
            n > 0 ==> batches_run(model.cfg, part, batch_size),
            params == scalar::terms(model.params@),
            bs == batch_size as nat,
            t == model.cfg.block_size as nat,
            batches@.len() == n,
            forall|j: int|
                0 <= j < n ==> (#[trigger] batches@[j]).x@ == inputs_of(part, s, bs, t, j as nat),
            forall|j: int|
                0 <= j < n ==> (#[trigger] batches@[j]).y@ == targets_of(part, s, bs, t, j as nat),
            losses@.len() == i,
            forall|j: int|
                0 <= j < i ==> is_loss(
                    params,
                    model.cfg,
                    inputs_of(part, s, bs, t, j as nat),
                    targets_of(part, s, bs, t, j as nat),
                    (#[trigger] losses@[j])@,
                ),
        decreases n - i,
    {
        proof {
            law_batches_can_run(model.cfg, part, batch_size, rng::advance_by(s, i as nat * bs));
        }
        let loss: Num<T> = batch_loss(model, &batches[i], cache);
        losses.push(loss);
        i += 1;
    }
    let ghost lt = scalar::terms(losses@);
    assert(are_losses(params, model.cfg, part, bs, s, lt)) by {
        assert forall|j: int| 0 <= j < lt.len() implies is_loss(
            params,
            model.cfg,
            inputs_of(part, s, bs, t, j as nat),
            targets_of(part, s, bs, t, j as nat),
            #[trigger] lt[j],
        ) by {
            assert(lt[j] == losses@[j]@);
        }
    }
    mean_of_losses(losses.as_slice())
}

/// The mean losses over `eval_iters` random batches of the training part and of the
/// validation part, measured without dropout.
pub fn estimate_loss<T: Scalar>(
    model: &Gpt<T>,
    dataset: &Dataset,
    batch_size: usize,
    eval_iters: usize,
    rng: &mut Rng,
    cache: &mut Cache<T>,
) -> (r: (WideNum<T>, WideNum<T>))
    requires
        model.ok(),
        eval_iters > 0 ==> batches_run(model.cfg, dataset.train@, batch_size),
        eval_iters > 0 ==> batches_run(model.cfg, dataset.val@, batch_size),
    ensures
        ({
            let params = scalar::terms(model.params@);
            let bs = batch_size as nat;
            let n = eval_iters as nat;
            let s = old(rng)@;
            let mid = rng::advance_by(s, n * bs);
            &&& is_estimate(params, model.cfg, dataset.train@, bs, n, s, r.0@)
            &&& is_estimate(params, model.cfg, dataset.val@, bs, n, mid, r.1@)
            &&& final(rng)@ == rng::advance_by(s, 2 * (n * bs))
        }),
{
    let ghost s = rng@;
    let ghost drawn = eval_iters as nat * batch_size as nat;
    let a = estimate_part(model, dataset, Split::Train, batch_size, eval_iters, rng, cache);
    let b = estimate_part(model, dataset, Split::Val, batch_size, eval_iters, rng, cache);
    proof {
        layout::lemma_advance_adds(s, drawn, drawn);
    }
    (a, b)
}

/// A run can be made: the model can be built, batches can be drawn and run, and no interval
/// is zero.
pub open spec fn trainable(args: &TrainArgs, dataset: &Dataset) -> bool {
    let cfg = args.shape(dataset.vocab_size);
    &&& model::buildable(cfg)
    &&& batches_run(cfg, dataset.train@, args.batch_size)
    &&& args.eval_iters > 0 ==> batches_run(cfg, dataset.val@, args.batch_size)
    &&& args.decay_lr ==> args.warmup_iters < usize::MAX
    &&& args.eval_interval > 0
    &&& args.log_interval > 0
}

/// Whether every token is in the vocabulary.
fn known_tokens(part: &[u16], vocab_size: usize) -> (r: bool)
    ensures
        r == all_known(part@, vocab_size),
{
    let mut i: usize = 0;
    while i < part.len()
        invariant
            i <= part.len(),
            forall|j: int| 0 <= j < i ==> #[trigger] part@[j] < vocab_size,
        decreases part.len() - i,
    {
        if part[i] as usize >= vocab_size {
            assert(!(part@[i as int] < vocab_size));
            return false;
        }
        i += 1;
    }
    true
}

/// Whether batches can be drawn from a part of the data and run through a model.
fn can_run_batches(cfg: &GptConfig, part: &[u16], batch_size: usize) -> (r: bool)
    requires
        cfg.n_head >= 1,
    ensures
        r == batches_run(*cfg, part@, batch_size),
{
    if cfg.block_size == 0 || batch_size == 0 || part.len() <= cfg.block_size || part.len()
        - cfg.block_size <= 1 || !known_tokens(part, cfg.vocab_size) {
        return false;
    }
    let n: usize = match batch_size.checked_mul(cfg.block_size) {
        Some(n) => n,
        None => {
            return false;
        },
    };
    proof {
        assert(n >= 1) by (nonlinear_arith)
            requires
                n == batch_size * cfg.block_size,
                batch_size >= 1,
                cfg.block_size >= 1,
        ;
    }
    cache::can_pass(cfg, n)
}

/// Whether a run can be made.
pub fn can_train(args: &TrainArgs, dataset: &Dataset) -> (r: bool)
    ensures
        r == trainable(args, dataset),
{
    let cfg = args.config(dataset.vocab_size);
    can_build(&cfg) && can_run_batches(&cfg, dataset.train.as_slice(), args.batch_size) && (
    args.eval_iters == 0 || can_run_batches(&cfg, dataset.val.as_slice(), args.batch_size)) && (
    !args.decay_lr || args.warmup_iters < usize::MAX) && args.eval_interval > 0
        && args.log_interval > 0
}

/// A training run: the model, the optimiser, and the batch to come.
pub struct Trainer<T: Scalar> {
    pub model: Gpt<T>,
    pub optimizer: AdamW<T>,
    pub cache: Cache<T>,
    pub rng: Rng,
    pub x: Vec<u32>,
    pub y: Vec<u32>,
}

/// `g` holds the gradients of the loss of a batch, measured with dropout from the generator
/// state `s`.
pub open spec fn are_gradients<T: Scalar>(
    params: Seq<Term<T>>,
    cfg: GptConfig,
    x: Seq<u32>,
    y: Seq<u32>,
    s: rng::State,
    loss: Term<T>,
    g: Seq<Term<T>>,
) -> bool {
    exists|k: Cache<T>| #[trigger]
        forward::forward_done(params, cfg, x, Some(y), true, s, k, loss) && g
            == backward::backward_grads(
            params,
            cfg,
            k,
            y,
            layout::zeros::<T>(layout::total_len(cfg)),
        )
}

/// The generator after a step has run its batch.
pub open spec fn after_batch<T>(cfg: GptConfig, n: nat, s: rng::State) -> rng::State {
    forward::state_at(
        s,
        cache::dims_of(cfg, n),
        forward::block_drop::<T>(cfg, true),
        cfg.n_layer as nat,
    )
}

/// An iteration with the learning rate `lr` takes a run from `a` to `b` and measures `loss`.
pub open spec fn is_step<T: Scalar>(
    args: &TrainArgs,
    dataset: &Dataset,
    a: Trainer<T>,
    loss: Term<T>,
    lr: Term<T>,
    b: Trainer<T>,
) -> bool {
    let cfg = a.model.cfg;
    let params = scalar::terms(a.model.params@);
    let grads = scalar::terms(b.model.grads@);
    &&& exists|g: Seq<Term<T>>| #[trigger]
        are_gradients(params, cfg, a.x@, a.y@, a.rng@, loss, g) && optim::may_clip(
            g,
            Term::Bits(args.grad_clip),
            grads,
        )
    &&& optim::steps(
        a.optimizer,
        params,
        grads,
        a.model.decay@,
        lr,
        Term::Bits(args.weight_decay),
        b.optimizer,
        scalar::terms(b.model.params@),
    )
    &&& b.model.decay == a.model.decay
    &&& b.drew_from(args, dataset, after_batch::<T>(cfg, a.x@.len(), a.rng@))
}

impl<T: Scalar> Trainer<T> {
    /// The run is that of `args` on `dataset`: the model has its shape, the optimiser its
    /// size, and the batch to come can be run.
    pub open spec fn ok(&self, args: &TrainArgs, dataset: &Dataset) -> bool {
        &&& trainable(args, dataset)
        &&& self.model.ok()
        &&& self.model.cfg == args.shape(dataset.vocab_size)
        &&& self.optimizer.m@.len() == self.model.params@.len()
        &&& self.optimizer.v@.len() == self.model.params@.len()
        &&& forward::runnable(self.model.cfg, self.x@)
        &&& forward::are_targets(self.model.cfg, self.x@, self.y@)
    }

    /// The next batch was drawn from the generator state `s`.
    pub open spec fn drew_from(&self, args: &TrainArgs, dataset: &Dataset, s: rng::State) -> bool {
        let n = args.batch_size as nat;
        let t = args.block_size as nat;
        &&& self.x@ == data::batch_inputs(dataset.train@, s, n, t)
        &&& self.y@ == data::batch_targets(dataset.train@, s, n, t)
        &&& self.rng@ == rng::advance_by(s, n)
    }

    /// The run is at its start: a fresh model drawn from the seed, an optimiser that has taken
    /// no step, and the first batch.
    pub open spec fn started(&self, args: &TrainArgs, dataset: &Dataset) -> bool {
        let cfg = args.shape(dataset.vocab_size);
        let s = rng::seeded(args.seed);
        let n = layout::total_len(cfg);
        &&& self.ok(args, dataset)
        &&& scalar::terms(self.model.params@) == layout::initial::<T>(cfg, s)
        &&& self.model.decay@ == layout::decay_flags(cfg)
        &&& scalar::terms(self.optimizer.m@) == layout::zeros::<T>(n)
        &&& scalar::terms(self.optimizer.v@) == layout::zeros::<T>(n)
        &&& self.optimizer.t == 0
        &&& self.optimizer.beta1@ == Term::<T>::Bits(args.beta1)
        &&& self.optimizer.beta2@ == Term::<T>::Bits(args.beta2)
        &&& self.optimizer.eps@ == Term::<T>::Bits(0x322b_cc77)
        &&& self.drew_from(args, dataset, rng::advance_by(s, layout::initial_draws(cfg)))
    }

    /// The start of a run: a fresh model, an optimiser that has taken no step, and the first
    /// batch.
    pub fn start(args: &TrainArgs, dataset: &Dataset) -> (r: Self)
        requires
            trainable(args, dataset),
        ensures
            r.started(args, dataset),
    {
        let cfg = args.config(dataset.vocab_size);
        let mut rng = Rng::new(args.seed);
        let model: Gpt<T> = Gpt::new(cfg, &mut rng);
        let optimizer: AdamW<T> = AdamW::new(
            model.params.len(),
            Num::bits(args.beta1),
            Num::bits(args.beta2),
            Num::bits(0x322b_cc77),
        );
        let mut x: Vec<u32> = Vec::new();
        let mut y: Vec<u32> = Vec::new();
        proof {
            law_batches_can_run(cfg, dataset.train@, args.batch_size, rng@);
        }
        dataset.get_batch(Split::Train, args.batch_size, args.block_size, &mut rng, &mut x, &mut y);
        Trainer { model, optimizer, cache: Cache::default(), rng, x, y }
    }

    /// One iteration: runs the batch forward and backward, draws the next one, clips the
    /// gradients and takes a step of the optimiser. Returns the loss and the learning rate.
    pub fn step(&mut self, args: &TrainArgs, dataset: &Dataset, it: usize) -> (r: (Num<T>, Num<T>))
        requires
            old(self).ok(args, dataset),
            old(self).optimizer.t < u64::MAX,
        ensures
            r.1@ == args.rate::<T>(it),
            is_step(args, dataset, *old(self), r.0@, r.1@, *final(self)),
            final(self).ok(args, dataset),
    {
        let ghost s = self.rng@;
        let ghost x0 = self.x@;
        let ghost y0 = self.y@;
        let ghost cfg = self.model.cfg;
        let ghost params = scalar::terms(self.model.params@);
        let lr: Num<T> = args.learning_rate_at(it);
        self.model.zero_grad();
        let loss: Num<T> = self.model.forward(
            self.x.as_slice(),
            Some(self.y.as_slice()),
            true,
            &mut self.rng,
            &mut self.cache,
        );
        let ghost k = self.cache;
        proof {
            backward::law_forward_prepares_backward(params, cfg, x0, y0, true, s, k, loss@);
        }
        self.model.backward(&mut self.cache, self.y.as_slice());
        let ghost g = scalar::terms(self.model.grads@);
        assert(are_gradients(params, cfg, x0, y0, s, loss@, g));
        proof {
            law_batches_can_run(cfg, dataset.train@, args.batch_size, self.rng@);
        }
        dataset.get_batch(
            Split::Train,
            args.batch_size,
            args.block_size,
            &mut self.rng,
            &mut self.x,
            &mut self.y,
        );
        let _norm: Num<T> = clip_grad_norm(
            self.model.grads.as_mut_slice(),
            Num::bits(args.grad_clip),
        );
        self.optimizer.step(
            self.model.params.as_mut_slice(),
            self.model.grads.as_slice(),
            self.model.decay.as_slice(),
            lr,
            Num::bits(args.weight_decay),
        );
        (loss, lr)
    }
}

} // verus!
