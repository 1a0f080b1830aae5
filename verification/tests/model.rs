use nanogpt_rs::attention::{attention_apply, attention_backward, attention_forward, Dims};
use nanogpt_rs::cache::{can_pass, Cache};
use nanogpt_rs::checkpoint::{load_checkpoint, model_from_checkpoint, save_checkpoint, Checkpoint, CheckpointError};
use nanogpt_rs::data::{Dataset, Split};
use nanogpt_rs::generate::{can_start, draw};
use nanogpt_rs::layers::{dropout_forward, gelu_backward, gelu_forward, ln_backward, ln_forward};
use nanogpt_rs::model::{Gpt, GptConfig};
use nanogpt_rs::ops::{add_bias_rows, mm_nn, mm_nt, mm_tn, softmax_row};
use nanogpt_rs::optim::{clip_grad_norm, get_lr, AdamW};
use nanogpt_rs::pool::ParMut;
use nanogpt_rs::rng::Rng;
use nanogpt_rs::scalar::{Num, Scalar};
use nanogpt_rs::topk::{sort_descending, top_k_mask};
use nanogpt_rs::train::{batch_loss, can_train, draw_batches, estimate_loss, mean_of_losses, TrainArgs, Trainer};

/// Singles, with doubles for long sums.
#[derive(Clone, Copy)]
struct F(f32);

impl Scalar for F {
    type Wide = f64;

    fn from_bits(bits: u32) -> Self {
        F(f32::from_bits(bits))
    }
    fn to_bits(self) -> u32 {
        self.0.to_bits()
    }
    fn from_count(n: usize) -> Self {
        F(n as f32)
    }
    fn plus(self, other: Self) -> Self {
        F(self.0 + other.0)
    }
    fn minus(self, other: Self) -> Self {
        F(self.0 - other.0)
    }
    fn times(self, other: Self) -> Self {
        F(self.0 * other.0)
    }
    fn over(self, other: Self) -> Self {
        F(self.0 / other.0)
    }
    fn maximum(self, other: Self) -> Self {
        F(self.0.max(other.0))
    }
    fn exp(self) -> Self {
        F(self.0.exp())
    }
    fn ln(self) -> Self {
        F(self.0.ln())
    }
    fn sqrt(self) -> Self {
        F(self.0.sqrt())
    }
    fn tanh(self) -> Self {
        F(self.0.tanh())
    }
    fn cos(self) -> Self {
        F(self.0.cos())
    }
    fn powi(self, n: i32) -> Self {
        F(self.0.powi(n))
    }
    fn less(self, other: Self) -> bool {
        self.0 < other.0
    }
    fn at_least(self, other: Self) -> bool {
        self.0 >= other.0
    }
    fn is_zero(self) -> bool {
        self.0 == 0.0
    }
    fn wide_from_bits(bits: u64) -> f64 {
        f64::from_bits(bits)
    }
    fn wide_plus(sum: f64, x: Self) -> f64 {
        sum + x.0 as f64
    }
    fn wide_plus_square(sum: f64, x: Self) -> f64 {
        sum + (x.0 as f64) * (x.0 as f64)
    }
    fn wide_over_count(sum: f64, n: usize) -> f64 {
        sum / n as f64
    }
    fn wide_times(a: f64, b: f64) -> f64 {
        a * b
    }
    fn wide_maximum(a: f64, b: f64) -> f64 {
        a.max(b)
    }
    fn wide_ln(a: f64) -> f64 {
        a.ln()
    }
    fn wide_sqrt(a: f64) -> f64 {
        a.sqrt()
    }
    fn wide_cos(a: f64) -> f64 {
        a.cos()
    }
    fn narrow(a: f64) -> Self {
        F(a as f32)
    }
    fn wide_to_bits(a: f64) -> u64 {
        a.to_bits()
    }
}

/// Doubles throughout, for difference quotients.
#[derive(Clone, Copy)]
struct D(f64);

impl Scalar for D {
    type Wide = f64;

    fn from_bits(bits: u32) -> Self {
        D(f32::from_bits(bits) as f64)
    }
    fn to_bits(self) -> u32 {
        (self.0 as f32).to_bits()
    }
    fn from_count(n: usize) -> Self {
        D(n as f64)
    }
    fn plus(self, other: Self) -> Self {
        D(self.0 + other.0)
    }
    fn minus(self, other: Self) -> Self {
        D(self.0 - other.0)
    }
    fn times(self, other: Self) -> Self {
        D(self.0 * other.0)
    }
    fn over(self, other: Self) -> Self {
        D(self.0 / other.0)
    }
    fn maximum(self, other: Self) -> Self {
        D(self.0.max(other.0))
    }
    fn exp(self) -> Self {
        D(self.0.exp())
    }
    fn ln(self) -> Self {
        D(self.0.ln())
    }
    fn sqrt(self) -> Self {
        D(self.0.sqrt())
    }
    fn tanh(self) -> Self {
        D(self.0.tanh())
    }
    fn cos(self) -> Self {
        D(self.0.cos())
    }
    fn powi(self, n: i32) -> Self {
        D(self.0.powi(n))
    }
    fn less(self, other: Self) -> bool {
        self.0 < other.0
    }
    fn at_least(self, other: Self) -> bool {
        self.0 >= other.0
    }
    fn is_zero(self) -> bool {
        self.0 == 0.0
    }
    fn wide_from_bits(bits: u64) -> f64 {
        f64::from_bits(bits)
    }
    fn wide_plus(sum: f64, x: Self) -> f64 {
        sum + x.0
    }
    fn wide_plus_square(sum: f64, x: Self) -> f64 {
        sum + x.0 * x.0
    }
    fn wide_over_count(sum: f64, n: usize) -> f64 {
        sum / n as f64
    }
    fn wide_times(a: f64, b: f64) -> f64 {
        a * b
    }
    fn wide_maximum(a: f64, b: f64) -> f64 {
        a.max(b)
    }
    fn wide_ln(a: f64) -> f64 {
        a.ln()
    }
    fn wide_sqrt(a: f64) -> f64 {
        a.sqrt()
    }
    fn wide_cos(a: f64) -> f64 {
        a.cos()
    }
    fn narrow(a: f64) -> Self {
        D(a)
    }
    fn wide_to_bits(a: f64) -> u64 {
        a.to_bits()
    }
}

fn nums(v: &[f32]) -> Vec<Num<F>> {
    v.iter().map(|&x| Num::given(F(x))).collect()
}

fn floats(v: &[Num<F>]) -> Vec<f32> {
    v.iter().map(|x| x.raw().0).collect()
}

fn num(x: f32) -> Num<F> {
    Num::bits(x.to_bits())
}

fn wave(n: usize, k: f32) -> Vec<f32> {
    (0..n).map(|i| ((i as f32 + 1.0) * k).sin()).collect()
}

fn config() -> GptConfig {
    GptConfig {
        block_size: 4,
        vocab_size: 7,
        n_layer: 2,
        n_head: 2,
        n_embd: 6,
        dropout: 0,
        bias: true,
    }
}

fn fresh(cfg: GptConfig, seed: u64) -> Gpt<F> {
    let mut rng = Rng::new(seed);
    Gpt::new(cfg, &mut rng)
}

#[test]
fn products_of_matrices() {
    let a = nums(&[1.0, 2.0, 3.0, 4.0, 5.0, 6.0]);
    let b = nums(&[1.0, 0.0, -1.0, 2.0, 3.0, 1.0]);
    let mut c = nums(&[10.0; 4]);
    mm_nn(&mut c, &a, &b, 2, 3, 2);
    assert_eq!(floats(&c), vec![10.0 + 1.0 - 2.0 + 9.0, 10.0 + 4.0 + 3.0, 10.0 + 4.0 - 5.0 + 18.0, 10.0 + 10.0 + 6.0]);
    let mut c = nums(&[0.5; 4]);
    mm_nt(&mut c, &a, &b, 2, 3, 2);
    assert_eq!(floats(&c), vec![-1.5, 11.5, -1.5, 29.5]);
    let mut c = nums(&[0.0; 9]);
    let d = nums(&[1.0, 0.0, 2.0, -1.0, 3.0, 1.0]);
    mm_tn(&mut c, &a, &d, 2, 3, 3);
    assert_eq!(floats(&c), vec![-3.0, 12.0, 6.0, -3.0, 15.0, 9.0, -3.0, 18.0, 12.0]);
    let mut x = nums(&[1.0, 2.0, 3.0, 4.0]);
    add_bias_rows(&mut x, &nums(&[10.0, 20.0]), 2, 2);
    assert_eq!(floats(&x), vec![11.0, 22.0, 13.0, 24.0]);
}

#[test]
fn a_zero_skips_its_products() {
    let mut c = nums(&[1.0]);
    mm_nn(&mut c, &nums(&[0.0, 2.0]), &nums(&[f32::NAN, 3.0]), 1, 2, 1);
    assert_eq!(floats(&c), vec![7.0]);
}

#[test]
fn softmax_is_that_of_the_formula() {
    let v = [0.5f32, -1.25, 3.0, 2.0];
    let mut x = nums(&v);
    softmax_row(&mut x);
    let e: Vec<f32> = v.iter().map(|a| (a - 3.0f32).exp()).collect();
    let sum: f32 = ((0.0f32 + e[0]) + e[1] + e[2]) + e[3];
    let inv = 1.0 / sum;
    let want: Vec<f32> = e.iter().map(|a| a * inv).collect();
    assert_eq!(floats(&x), want);
}

#[test]
fn gelu_is_the_tanh_form() {
    let v = [0.0f32, 1.0, -2.0, 0.3];
    let mut y = nums(&[9.0; 4]);
    gelu_forward(&nums(&v), &mut y);
    for (g, x) in floats(&y).iter().zip(v) {
        let u = 0.797_884_6f32 * (x + 0.044715 * x * x * x);
        assert!((g - 0.5 * x * (1.0 + u.tanh())).abs() < 1e-6);
    }
    assert_eq!(floats(&y)[0], 0.0);
    let mut dy = nums(&[1.0; 4]);
    gelu_backward(&mut dy, &nums(&v));
    let h = 1e-3f64;
    for (g, x) in floats(&dy).iter().zip(v) {
        let f = |x: f64| 0.5 * x * (1.0 + (0.797_884_560_8 * (x + 0.044715 * x * x * x)).tanh());
        let slope = (f(x as f64 + h) - f(x as f64 - h)) / (2.0 * h);
        assert!((*g as f64 - slope).abs() < 1e-5);
    }
}

#[test]
fn normalised_rows_have_mean_zero_and_variance_one() {
    let x = wave(12, 0.7);
    let g = nums(&[1.0; 4]);
    let mut y = nums(&[0.0; 12]);
    let (mut mean, mut rstd) = (nums(&[0.0; 3]), nums(&[0.0; 3]));
    ln_forward(&nums(&x), &g, None, &mut mean, &mut rstd, &mut y, 3, 4);
    let y = floats(&y);
    for r in 0..3 {
        let row = &y[r * 4..r * 4 + 4];
        let m: f32 = row.iter().sum::<f32>() / 4.0;
        let v: f32 = row.iter().map(|a| (a - m) * (a - m)).sum::<f32>() / 4.0;
        assert!(m.abs() < 1e-6 && (v - 1.0).abs() < 1e-3);
        let mu = x[r * 4..r * 4 + 4].iter().fold(0.0f32, |s, a| s + a) / 4.0;
        assert_eq!(floats(&mean)[r], mu);
    }
    let mut z = nums(&[0.0; 12]);
    let b = nums(&[1.0, 2.0, 3.0, 4.0]);
    ln_forward(&nums(&x), &nums(&[2.0; 4]), Some(b.as_slice()), &mut mean, &mut rstd, &mut z, 3, 4);
    for (i, v) in floats(&z).iter().enumerate() {
        assert!((v - (2.0 * y[i] + 1.0 + (i % 4) as f32)).abs() < 1e-5);
    }
}

#[test]
fn the_way_back_through_normalisation() {
    let x = wave(6, 1.1);
    let dy = wave(6, 0.3);
    let g = [1.5f32, -0.5, 2.0];
    let mut y = nums(&[0.0; 6]);
    let (mut mean, mut rstd) = (nums(&[0.0; 2]), nums(&[0.0; 2]));
    ln_forward(&nums(&x), &nums(&g), None, &mut mean, &mut rstd, &mut y, 2, 3);
    let mut dx = nums(&dy);
    let mut grads = nums(&[0.0; 6]);
    ln_backward(&mut dx, &nums(&x), &nums(&g), &mean, &rstd, &mut grads, 0, true, 2, 3);
    let dx = floats(&dx);
    let f = |x: &[f64]| -> f64 {
        let mut s = 0.0;
        for r in 0..2 {
            let row = &x[r * 3..r * 3 + 3];
            let m = row.iter().sum::<f64>() / 3.0;
            let v = row.iter().map(|a| (a - m) * (a - m)).sum::<f64>() / 3.0;
            for d in 0..3 {
                s += dy[r * 3 + d] as f64 * (row[d] - m) / (v + 1e-5).sqrt() * g[d] as f64;
            }
        }
        s
    };
    let wide: Vec<f64> = x.iter().map(|&a| a as f64).collect();
    for i in 0..6 {
        let mut up = wide.clone();
        let mut down = wide.clone();
        up[i] += 1e-5;
        down[i] -= 1e-5;
        let slope = (f(&up) - f(&down)) / 2e-5;
        assert!((dx[i] as f64 - slope).abs() < 1e-3, "{} {} {}", i, dx[i], slope);
    }
    let grads = floats(&grads);
    for d in 0..3 {
        let mut sg = 0.0f32;
        let mut sb = 0.0f32;
        for r in 0..2 {
            let xhat = (x[r * 3 + d] - floats(&mean)[r]) * floats(&rstd)[r];
            sg += dy[r * 3 + d] * xhat;
            sb += dy[r * 3 + d];
        }
        assert_eq!((grads[d], grads[3 + d]), (sg, sb));
    }
}

#[test]
fn gains_and_biases_collect_the_incoming_gradient() {
    let mut dy = nums(&[1.0, 0.0]);
    let mut grads = nums(&[0.0; 4]);
    let (x, g) = (nums(&[1.0, -1.0]), nums(&[1.0, 1.0]));
    ln_backward(&mut dy, &x, &g, &nums(&[0.0]), &nums(&[1.0]), &mut grads, 0, true, 1, 2);
    assert_eq!(floats(&dy), vec![0.0, 0.0]);
    assert_eq!(floats(&grads), vec![1.0, 0.0, 1.0, 0.0]);
}

#[test]
fn dropout_keeps_or_clears() {
    let mut rng = Rng::new(11);
    let mut again = Rng::new(11);
    let mut x = nums(&wave(50, 0.37));
    let mut mask = vec![7u8; 3];
    dropout_forward(&mut x, &mut mask, num(0.3), num(2.0), &mut rng);
    assert_eq!(mask.len(), 50);
    for (i, v) in wave(50, 0.37).iter().enumerate() {
        let keep = f32::from_bits(again.uniform_f32()) >= 0.3;
        assert_eq!(mask[i] == 1, keep);
        assert_eq!(floats(&x)[i], if keep { v * 2.0 } else { 0.0 });
    }
    assert!(mask.contains(&0) && mask.contains(&1));
    assert_eq!(rng.next_u64(), again.next_u64());
}

#[test]
fn attention_looks_back_only() {
    let d = Dims { b: 2, t: 3, c: 4, nh: 2, hs: 2 };
    let qkv = wave(2 * 3 * 12, 0.21);
    let mut att = nums(&[5.0; 36]);
    attention_forward(&nums(&qkv), &mut att, d);
    let a = floats(&att);
    for bb in 0..2 {
        for h in 0..2 {
            for i in 0..3 {
                let base = ((bb * 2 + h) * 3 + i) * 3;
                let s: f32 = a[base..base + i + 1].iter().sum();
                assert!((s - 1.0).abs() < 1e-6);
                assert!(a[base + i + 1..base + 3].iter().all(|&x| x == 5.0));
            }
        }
    }
    let mut y = nums(&[1.0; 24]);
    attention_apply(&att, &[], num(1.0), &nums(&qkv), &mut y, d);
    let y = floats(&y);
    for bb in 0..2usize {
        for i in 0..3usize {
            for col in 0..4usize {
                let h = col / 2;
                let mut s = 0.0f32;
                for j in 0..=i {
                    s += a[((bb * 2 + h) * 3 + i) * 3 + j] * qkv[(bb * 3 + j) * 12 + 8 + col];
                }
                assert_eq!(y[(bb * 3 + i) * 4 + col], s);
            }
        }
    }
}

#[test]
fn masked_attention_scales_once() {
    let d = Dims { b: 1, t: 2, c: 1, nh: 1, hs: 1 };
    let qkv = nums(&[1.0, 2.0, 3.0, 4.0, 5.0, 6.0]);
    let att = nums(&[1.0, 0.0, 0.25, 0.75]);
    let mut y = nums(&[0.0; 2]);
    attention_apply(&att, &[1, 0, 0, 1], num(2.0), &qkv, &mut y, d);
    assert_eq!(floats(&y), vec![6.0, 9.0]);
    let mut dqkv = nums(&[0.0; 6]);
    attention_backward(&nums(&[1.0, 1.0]), &qkv, &att, &[1, 0, 0, 1], num(2.0), &mut dqkv, d);
    let g = floats(&dqkv);
    assert_eq!((g[2], g[5]), (2.0, 1.5));
    let rowdot = 0.25f32 * 0.0 + 0.75 * 12.0;
    let s0 = 0.25 * (0.0 - rowdot);
    let s1 = 0.75 * (12.0 - rowdot);
    assert_eq!(g[3], s0 * 2.0 + s1 * 5.0);
    assert_eq!(g[0], 0.0);
    assert_eq!(g[1], s0 * 4.0);
    assert_eq!(g[4], s1 * 4.0);
}

#[test]
fn keys_collect_the_queries_that_attend_to_them() {
    let d = Dims { b: 1, t: 2, c: 1, nh: 1, hs: 1 };
    let qkv = nums(&[1.0, 1.0, 2.0, 3.0, 1.0, 0.0]);
    let att = nums(&[1.0, 0.0, 0.5, 0.5]);
    let mut dqkv = nums(&[0.0; 6]);
    attention_backward(&nums(&[0.0, 1.0]), &qkv, &att, &[], num(1.0), &mut dqkv, d);
    assert_eq!(floats(&dqkv), vec![0.0, 1.5, 0.5, 0.0, -1.5, 0.5]);
}

#[test]
fn the_optimiser_takes_adamw_steps() {
    let mut opt: AdamW<F> = AdamW::new(2, num(0.9), num(0.99), num(1e-8));
    let mut p = nums(&[1.0, -2.0]);
    let (mut m, mut v, mut want) = ([0.0f32; 2], [0.0f32; 2], [1.0f32, -2.0]);
    for t in 1..=3i32 {
        let g = [0.5f32 * t as f32, -0.25];
        opt.step(&mut p, &nums(&g), &[true, false], num(0.01), num(0.1));
        let bc1 = 1.0 - 0.9f32.powi(t);
        let bc2 = 1.0 - 0.99f32.powi(t);
        for i in 0..2 {
            if i == 0 {
                want[i] *= 1.0 - 0.01f32 * 0.1;
            }
            m[i] = 0.9 * m[i] + (1.0 - 0.9f32) * g[i];
            v[i] = 0.99 * v[i] + (1.0 - 0.99f32) * g[i] * g[i];
            want[i] -= 0.01 * (m[i] / bc1) / ((v[i] / bc2).sqrt() + 1e-8);
        }
        assert_eq!(floats(&p), want.to_vec());
    }
    assert_eq!(opt.t, 3);
}

#[test]
fn decay_touches_flagged_parameters_only() {
    let run = |wd: f32| {
        let mut opt: AdamW<F> = AdamW::new(3, num(0.9), num(0.99), num(1e-8));
        let mut p = nums(&[1.0, 1.0]);
        opt.step(&mut p, &nums(&[0.5, 0.5]), &[true, false], num(0.01), num(wd));
        floats(&p)
    };
    let (a, b) = (run(0.0), run(0.5));
    assert_ne!(a[0], b[0]);
    assert_eq!(a[1], b[1]);
    assert_eq!(a[0], a[1]);
}

#[test]
fn the_learning_rate_rises_and_falls() {
    let at = |it: usize| get_lr(it, 10, 110, num(1e-3), num(1e-4)).raw().0;
    assert_eq!(at(0), 1e-3f32 * 1.0 / 11.0);
    assert_eq!(at(9), 1e-3f32 * 10.0 / 11.0);
    assert!((at(10) - 1e-3).abs() < 1e-9);
    assert!((at(60) - 5.5e-4).abs() < 1e-8);
    assert!((at(110) - 1e-4).abs() < 1e-9);
    assert_eq!(at(111), 1e-4);
    assert_eq!(at(100000), 1e-4);
}

#[test]
fn gradients_are_clipped_to_their_norm() {
    let mut g = nums(&[3.0, 4.0]);
    let n = clip_grad_norm(&mut g, num(1.0)).raw().0;
    assert_eq!(n, 5.0);
    let s = 1.0f32 / (5.0 + 1e-6);
    assert_eq!(floats(&g), vec![3.0 * s, 4.0 * s]);
    let mut g = nums(&[3.0, 4.0]);
    assert_eq!(clip_grad_norm(&mut g, num(5.0)).raw().0, 5.0);
    assert_eq!(floats(&g), vec![3.0, 4.0]);
    assert_eq!(clip_grad_norm(&mut g, num(0.0)).raw().0, 5.0);
    assert_eq!(floats(&g), vec![3.0, 4.0]);
}

#[test]
fn the_largest_are_kept() {
    assert_eq!(sort_descending(&[3, -1, 7, 3]), vec![7, 3, 3, -1]);
    let b = |v: &[f32]| v.iter().map(|x| x.to_bits()).collect::<Vec<u32>>();
    assert_eq!(top_k_mask(&b(&[1.0, 5.0, 3.0, 3.0]), 2), Some(vec![false, true, true, true]));
    assert_eq!(top_k_mask(&b(&[1.0, -5.0]), 9), Some(vec![true, true]));
    assert_eq!(top_k_mask(&b(&[1.0, f32::NAN]), 1), None);
    assert_eq!(top_k_mask(&b(&[-0.0, 0.0, -1.0]), 1), Some(vec![true, true, false]));
}

#[test]
fn draws_follow_the_running_sum() {
    let p = nums(&[0.25, 0.5, 0.25]);
    let all = [true; 3];
    assert_eq!(draw(&p, &all, num(0.0)), 0);
    assert_eq!(draw(&p, &all, num(0.25)), 1);
    assert_eq!(draw(&p, &all, num(0.74)), 1);
    assert_eq!(draw(&p, &all, num(0.75)), 2);
    assert_eq!(draw(&p, &all, num(1.5)), 2);
    let p = nums(&[0.0, 0.5, 0.25, 0.0]);
    let some = [false, true, true, false];
    assert_eq!(draw(&p, &some, num(0.0)), 1);
    assert_eq!(draw(&p, &some, num(0.5)), 2);
    assert_eq!(draw(&p, &some, num(0.9)), 2);
    assert_eq!(draw(&p, &[false, true, false, false], num(0.9)), 1);
}

/// The generator whose first draw is the largest single below one.
fn highest_draw() -> Rng {
    assert_eq!(f32::from_bits(Rng::new(330027).uniform_f32()), 1.0 - 1.0 / 16777216.0);
    Rng::new(330027)
}

/// A model that always predicts the same row: the normalisation hands its bias on, and the
/// logits are the embeddings themselves.
fn fixed_row(row: &[f32]) -> Gpt<F> {
    let cfg = GptConfig { vocab_size: row.len(), n_layer: 0, n_head: 1, n_embd: 1, ..config() };
    let mut m = fresh(cfg, 0);
    let mut p = vec![0.0; m.params.len()];
    p[..row.len()].copy_from_slice(row);
    p[m.lnf.b.unwrap().off] = 1.0;
    m.params = nums(&p);
    m
}

#[test]
fn what_is_cut_is_never_drawn() {
    let m = fixed_row(&[0.0, -16.45, -100.0]);
    let mut cache = Cache::default();
    m.forward(&[0], None, false, &mut Rng::new(0), &mut cache);
    assert_eq!(floats(&cache.logits), vec![0.0, -16.45, -100.0]);
    let mut probs = nums(&[0.0, -16.45, f32::NEG_INFINITY]);
    softmax_row(&mut probs);
    let sum: f32 = floats(&probs).iter().sum();
    assert!(sum <= f32::from_bits(highest_draw().uniform_f32()));
    assert_eq!(m.generate(&[0], 1, num(1.0), 2, &mut highest_draw()).unwrap(), vec![0, 1]);
    assert_eq!(m.generate(&[0], 1, num(1.0), 1, &mut highest_draw()).unwrap(), vec![0, 0]);
    assert_eq!(m.generate(&[0], 1, num(1.0), 3, &mut highest_draw()).unwrap(), vec![0, 2]);
}

#[test]
fn followers_are_among_the_largest() {
    let m = stirred(config());
    for top_k in 1..7usize {
        let mut rng = Rng::new(top_k as u64);
        let out = m.generate(&[5], 12, num(3.0), top_k, &mut rng).unwrap();
        for n in 1..out.len() {
            let mut cache = Cache::default();
            m.forward(&out[n.saturating_sub(4)..n], None, false, &mut rng, &mut cache);
            let all = floats(&cache.logits);
            let row = &all[all.len() - 7..];
            let above = row.iter().filter(|&&x| x > row[out[n] as usize]).count();
            assert!(above < top_k);
        }
    }
}

#[test]
fn the_state_settles_generation() {
    let m = stirred(config());
    let run = |seed: u64| m.generate(&[3, 1], 12, num(1.5), 0, &mut Rng::new(seed)).unwrap();
    assert_eq!(run(31), run(31));
    assert_ne!(run(31), run(32));
}

#[test]
fn continuing_twice_is_continuing_once() {
    let m = stirred(config());
    let (mut one, mut two) = (Rng::new(31), Rng::new(31));
    let whole = m.generate(&[3, 1], 9, num(0.9), 4, &mut one).unwrap();
    let part = m.generate(&[3, 1], 4, num(0.9), 4, &mut two).unwrap();
    assert_eq!(part, whole[..6]);
    assert_eq!(m.generate(&part, 5, num(0.9), 4, &mut two).unwrap(), whole);
    assert_eq!(one.next_u64(), two.next_u64());
}

#[test]
fn sums_write_through_a_view() {
    let mut v = nums(&[1.0, 2.0]);
    {
        let mut p = ParMut::new(&mut v);
        p.add_assign(1, num(0.5));
    }
    assert_eq!(floats(&v), vec![1.0, 2.5]);
}

#[test]
fn a_fresh_model_has_its_layout() {
    let cfg = config();
    let m = fresh(cfg, 5);
    let block = 12 * 36 + 13 * 6;
    assert_eq!(m.params.len(), 7 * 6 + 4 * 6 + 2 * block + 12);
    assert_eq!(m.num_params(), m.params.len() - 24);
    assert_eq!(m.num_decayed(), 42 + 24 + 2 * 12 * 36);
    assert_eq!(m.blocks.len(), 2);
    let p = floats(&m.params);
    let mut rng = Rng::new(5);
    for x in &p[..66] {
        let u1 = f64::from_bits(rng.uniform_f64()).max(1e-12);
        let u2 = f64::from_bits(rng.uniform_f64());
        let z = (-2.0 * u1.ln()).sqrt() * (2.0 * std::f64::consts::PI * u2).cos();
        assert_eq!(*x, 0.0 + 0.02 * z as f32);
    }
    for (l, bo) in m.blocks.iter().enumerate() {
        assert_eq!(bo.ln1.g.off, 66 + l * block);
        assert!(p[bo.ln1.g.off..bo.ln1.g.off + 6].iter().all(|&x| x == 1.0));
        let b = bo.attn_b.unwrap();
        assert!(p[b.off..b.off + b.len].iter().all(|&x| x == 0.0));
        assert!(m.decay[bo.fc_w.off] && m.decay[bo.mlp_w.off + bo.mlp_w.len - 1]);
        assert!(!m.decay[bo.ln2.g.off] && !m.decay[b.off]);
    }
    let w = m.blocks[0].proj_w;
    let std = 0.02f32 / (2.0f32 * 2.0).sqrt();
    let rms = (p[w.off..w.off + w.len].iter().map(|x| x * x).sum::<f32>() / w.len as f32).sqrt();
    assert!((rms / std - 1.0).abs() < 0.5);
    assert_eq!(m.lnf.g.off, 66 + 2 * block);
    let plain = fresh(GptConfig { bias: false, ..cfg }, 5);
    assert!(plain.lnf.b.is_none() && plain.blocks[1].mlp_b.is_none());
    assert_eq!(plain.params.len(), 66 + 2 * (12 * 36 + 12) + 6);
}

/// The forward pass by plain loops: the logits of every position.
fn plain_logits(m: &Gpt<F>, tokens: &[u32]) -> Vec<f32> {
    let p = floats(&m.params);
    let cfg = m.cfg;
    let c = cfg.n_embd;
    let t = tokens.len().min(cfg.block_size);
    let rows = tokens.len();
    let norm = |x: &[f32], g: usize, b: Option<usize>| -> Vec<f32> {
        let mut y = vec![0.0; x.len()];
        for r in 0..rows {
            let row = &x[r * c..r * c + c];
            let mu = row.iter().fold(0.0, |s, a| s + a) / c as f32;
            let var = row.iter().fold(0.0, |s, a| s + (a - mu) * (a - mu)) / c as f32;
            let rs = 1.0 / (var + 1e-5).sqrt();
            for d in 0..c {
                y[r * c + d] = (row[d] - mu) * rs * p[g + d] + b.map_or(0.0, |b| p[b + d]);
            }
        }
        y
    };
    let linear = |x: &[f32], k: usize, w: usize, b: Option<usize>, n: usize| -> Vec<f32> {
        let mut y = vec![0.0; rows * n];
        for r in 0..rows {
            for o in 0..n {
                let mut s = 0.0;
                for i in 0..k {
                    s += x[r * k + i] * p[w + i * n + o];
                }
                y[r * n + o] = s + b.map_or(0.0, |b| p[b + o]);
            }
        }
        y
    };
    let mut x = vec![0.0; rows * c];
    for r in 0..rows {
        for d in 0..c {
            x[r * c + d] = p[tokens[r] as usize * c + d] + p[m.wpe.off + (r % t) * c + d];
        }
    }
    for bo in &m.blocks {
        let h = norm(&x, bo.ln1.g.off, bo.ln1.b.map(|r| r.off));
        let qkv = linear(&h, c, bo.attn_w.off, bo.attn_b.map(|r| r.off), 3 * c);
        let hs = c / cfg.n_head;
        let mut y = vec![0.0; rows * c];
        for r in 0..rows {
            let first = r - r % t;
            for h in 0..cfg.n_head {
                let scores: Vec<f32> = (first..=r)
                    .map(|j| {
                        let mut s = 0.0;
                        for d in 0..hs {
                            s += qkv[r * 3 * c + h * hs + d] * qkv[j * 3 * c + c + h * hs + d];
                        }
                        s / (hs as f32).sqrt()
                    })
                    .collect();
                let max = scores.iter().fold(f32::NEG_INFINITY, |a, &b| a.max(b));
                let e: Vec<f32> = scores.iter().map(|s| (s - max).exp()).collect();
                let sum: f32 = e.iter().sum();
                for (j, w) in e.iter().enumerate() {
                    for d in 0..hs {
                        y[r * c + h * hs + d] += w / sum * qkv[(first + j) * 3 * c + 2 * c + h * hs + d];
                    }
                }
            }
        }
        let o = linear(&y, c, bo.proj_w.off, bo.proj_b.map(|r| r.off), c);
        for i in 0..x.len() {
            x[i] += o[i];
        }
        let h = norm(&x, bo.ln2.g.off, bo.ln2.b.map(|r| r.off));
        let f = linear(&h, c, bo.fc_w.off, bo.fc_b.map(|r| r.off), 4 * c);
        let g: Vec<f32> = f
            .iter()
            .map(|&x| 0.5 * x * (1.0 + (0.797_884_6f32 * (x + 0.044715 * x * x * x)).tanh()))
            .collect();
        let o = linear(&g, 4 * c, bo.mlp_w.off, bo.mlp_b.map(|r| r.off), c);
        for i in 0..x.len() {
            x[i] += o[i];
        }
    }
    let h = norm(&x, m.lnf.g.off, m.lnf.b.map(|r| r.off));
    let mut out = vec![0.0; rows * cfg.vocab_size];
    for r in 0..rows {
        for o in 0..cfg.vocab_size {
            for d in 0..c {
                out[r * cfg.vocab_size + o] += h[r * c + d] * p[o * c + d];
            }
        }
    }
    out
}

/// A model whose parameters are all far from their start.
fn stirred(cfg: GptConfig) -> Gpt<F> {
    let mut m = fresh(cfg, 2);
    let n = m.params.len();
    m.params = nums(&wave(n, 0.618));
    m
}

#[test]
fn logits_agree_with_plain_loops() {
    for bias in [true, false] {
        let m = stirred(GptConfig { bias, ..config() });
        for tokens in [vec![1u32, 6, 0, 3], vec![2, 5], vec![1, 6, 0, 3, 3, 2, 1, 0]] {
            let mut cache = Cache::default();
            let mut rng = Rng::new(0);
            let loss = m.forward(&tokens, None, false, &mut rng, &mut cache).raw().0;
            assert_eq!(loss, 0.0);
            let got = floats(&cache.logits);
            let want = plain_logits(&m, &tokens);
            assert_eq!(got.len(), want.len());
            for (a, b) in got.iter().zip(&want) {
                assert!((a - b).abs() < 2e-4, "{} {}", a, b);
            }
        }
    }
}

#[test]
fn the_loss_is_the_mean_cross_entropy() {
    let m = stirred(config());
    let tokens = [1u32, 6, 0, 3];
    let targets = [6u32, 0, 3, 5];
    let mut cache = Cache::default();
    let loss = m.forward(&tokens, Some(&targets), false, &mut Rng::new(0), &mut cache).raw().0;
    let logits = plain_logits(&m, &tokens);
    let mut want = 0.0f64;
    for r in 0..4 {
        let row = &logits[r * 7..r * 7 + 7];
        let sum: f64 = row.iter().map(|&x| (x as f64).exp()).sum();
        want -= ((row[targets[r] as usize] as f64).exp() / sum).ln();
    }
    assert!((loss as f64 - want / 4.0).abs() < 1e-4);
    for (a, b) in floats(&cache.logits).iter().zip(&logits) {
        assert!((a - b).abs() < 2e-4);
    }
    for r in 0..4 {
        let s: f32 = floats(&cache.probs)[r * 7..r * 7 + 7].iter().sum();
        assert!((s - 1.0).abs() < 1e-5);
    }
}

#[test]
fn predictions_are_causal() {
    let m = stirred(config());
    let run = |tokens: &[u32], seed: u64| {
        let mut cache = Cache::default();
        m.forward(tokens, None, false, &mut Rng::new(seed), &mut cache);
        floats(&cache.logits)
    };
    let a = run(&[1, 2, 3, 4, 5, 6, 0, 1], 1);
    let b = run(&[1, 2, 3, 0, 5, 6, 1, 1], 2);
    assert_eq!(a[..21], b[..21]);
    assert_ne!(a[21..28], b[21..28]);
    assert_eq!(a[28..42], b[28..42]);
    assert_ne!(a[42..49], b[42..49]);
    assert_eq!(run(&[1, 2, 3, 4, 5, 6, 0, 1], 9), a);
}

#[test]
fn evaluation_draws_nothing_and_training_does() {
    let m = stirred(GptConfig { dropout: 0.2f32.to_bits(), ..config() });
    let tokens = [1u32, 2, 3, 4];
    let mut cache = Cache::default();
    let mut rng = Rng::new(8);
    m.forward(&tokens, Some(&tokens), false, &mut rng, &mut cache);
    assert_eq!(rng.next_u64(), Rng::new(8).next_u64());
    assert!(cache.emb_mask.is_empty() && cache.blocks[0].att_mask.is_empty());
    let mut rng = Rng::new(8);
    m.forward(&tokens, Some(&tokens), true, &mut rng, &mut cache);
    let mut again = Rng::new(8);
    for _ in 0..24 + 2 * (32 + 24 + 24) {
        again.next_u64();
    }
    assert_eq!(rng.next_u64(), again.next_u64());
    assert_eq!(cache.emb_mask.len(), 24);
    assert_eq!(cache.blocks[1].att_mask.len(), 32);
    let att = floats(&cache.blocks[0].att);
    for r in 0..8 {
        let i = r % 4;
        let s: f32 = att[r * 4..r * 4 + i + 1].iter().sum();
        assert!((s - 1.0).abs() < 1e-5);
    }
}

/// Holds the gradient of every parameter against a difference quotient of the loss. Passes
/// from the same seed have the same masks.
fn compare_gradients(cfg: GptConfig, training: bool) {
    let mut m: Gpt<D> = Gpt::new(cfg, &mut Rng::new(4));
    let n = m.params.len();
    m.params = wave(n, 0.618).iter().map(|&x| Num::given(D(0.3 * x as f64))).collect();
    let tokens = [1u32, 6, 0, 3, 2, 2, 5, 1];
    let targets = [6u32, 0, 3, 5, 2, 1, 4, 0];
    let mut cache = Cache::default();
    m.zero_grad();
    m.forward(&tokens, Some(&targets), training, &mut Rng::new(6), &mut cache);
    if training {
        assert!(cache.emb_mask.contains(&0) && cache.emb_mask.contains(&1));
        for b in &cache.blocks {
            for mask in [&b.att_mask, &b.resid_mask, &b.mlp_mask] {
                assert!(mask.contains(&0) && mask.contains(&1));
            }
        }
    }
    m.backward(&mut cache, &targets);
    let grads: Vec<f64> = m.grads.iter().map(|g| g.raw().0).collect();
    let mut seen = 0;
    for i in 0..n {
        let at = m.params[i].raw().0;
        let mut side = |x: f64| {
            m.params[i] = Num::given(D(x));
            m.forward(&tokens, Some(&targets), training, &mut Rng::new(6), &mut cache).raw().0
        };
        let slope = (side(at + 1e-5) - side(at - 1e-5)) / 2e-5;
        m.params[i] = Num::given(D(at));
        assert!((grads[i] - slope).abs() < 1e-7, "{} {} {}", i, grads[i], slope);
        if slope.abs() > 1e-5 {
            seen += 1;
        }
    }
    assert!(2 * seen > n);
}

#[test]
fn gradients_agree_with_difference_quotients() {
    compare_gradients(config(), false);
}

#[test]
fn gradients_agree_without_biases() {
    compare_gradients(GptConfig { bias: false, ..config() }, false);
}

#[test]
fn gradients_agree_behind_dropout() {
    compare_gradients(GptConfig { dropout: 0.25f32.to_bits(), ..config() }, true);
}

#[test]
fn equal_masks_make_equal_passes() {
    let m = stirred(GptConfig { dropout: 0.25f32.to_bits(), ..config() });
    let tokens = [1u32, 6, 0, 3, 2, 2, 5, 1];
    let (mut one, mut two) = (Rng::new(9), Rng::new(9));
    let mut a = Cache::default();
    let mut b = Cache::default();
    m.forward(&[4, 4, 4, 4], Some(&[0, 0, 0, 0]), true, &mut Rng::new(1), &mut b);
    let x = m.forward(&tokens, Some(&tokens), true, &mut one, &mut a).raw().0;
    let y = m.forward(&tokens, Some(&tokens), true, &mut two, &mut b).raw().0;
    assert_eq!(x, y);
    assert_eq!(floats(&a.logits), floats(&b.logits));
    assert_eq!(a.emb_mask, b.emb_mask);
    assert_eq!(one.next_u64(), two.next_u64());
    let z = m.forward(&tokens, Some(&tokens), true, &mut one, &mut a).raw().0;
    assert_ne!(x, z);
}

#[test]
fn gradients_start_from_zero() {
    let mut m = stirred(config());
    let mut cache = Cache::default();
    let tokens = [1u32, 2, 3, 4];
    let loss = m.forward(&tokens, Some(&tokens), false, &mut Rng::new(0), &mut cache).raw().0;
    assert!(loss > 0.0);
    m.backward(&mut cache, &tokens);
    assert!(floats(&m.grads).iter().any(|&g| g != 0.0));
    m.zero_grad();
    assert!(floats(&m.grads).iter().all(|&g| g == 0.0));
}

#[test]
fn sizes_of_passes() {
    let cfg = config();
    assert!(can_pass(&cfg, 4));
    assert!(can_pass(&cfg, 400));
    assert!(!can_pass(&GptConfig { n_head: 4, ..cfg }, 4));
    assert!(!can_pass(&cfg, usize::MAX / 2));
    assert!(!can_pass(&GptConfig { vocab_size: usize::MAX, ..cfg }, 4));
    assert!(can_start(&cfg, &[6], 10));
    assert!(!can_start(&cfg, &[7], 10));
    assert!(!can_start(&cfg, &[], 10));
    assert!(!can_start(&cfg, &[1], usize::MAX));
    assert!(can_start(&cfg, &[], 0));
    let long = GptConfig { block_size: 1 << 33, n_embd: 2, n_head: 2, ..cfg };
    assert!(can_start(&long, &[1], 100));
    assert!(!can_start(&long, &[1], 1 << 33));
}

#[test]
fn generation_continues_the_prompt() {
    let m = stirred(config());
    let prompt = [3u32, 1];
    let mut rng = Rng::new(77);
    let out = m.generate(&prompt, 9, num(0.8), 3, &mut rng).unwrap();
    assert_eq!(out.len(), 11);
    assert_eq!(out[..2], prompt);
    assert!(out.iter().all(|&t| t < 7));
    let mut again = Rng::new(77);
    let mut idx = prompt.to_vec();
    for _ in 0..9 {
        let ctx = &idx[idx.len().saturating_sub(4)..];
        let mut cache = Cache::default();
        m.forward(ctx, None, false, &mut again, &mut cache);
        let all = floats(&cache.logits);
        let mut row: Vec<f32> = all[all.len() - 7..].iter().map(|x| x / 0.8).collect();
        let mut sorted = row.clone();
        sorted.sort_by(|a, b| b.partial_cmp(a).unwrap());
        for x in row.iter_mut() {
            if *x < sorted[2] {
                *x = f32::NEG_INFINITY;
            }
        }
        let mut probs = nums(&row);
        softmax_row(&mut probs);
        let u = f32::from_bits(again.uniform_f32());
        let mut cum = 0.0;
        let mut next = row.iter().rposition(|x| *x != f32::NEG_INFINITY).unwrap();
        for (i, p) in floats(&probs).iter().enumerate() {
            cum += p;
            if u < cum {
                next = i;
                break;
            }
        }
        idx.push(next as u32);
    }
    assert_eq!(out, idx);
    assert_eq!(rng.next_u64(), again.next_u64());
}

#[test]
fn one_choice_is_the_largest() {
    let m = stirred(config());
    let out = m.generate(&[2], 6, num(1.0), 1, &mut Rng::new(1)).unwrap();
    let other = m.generate(&[2], 6, num(0.5), 1, &mut Rng::new(2)).unwrap();
    assert_eq!(out, other);
    assert_eq!(m.generate(&[2], 0, num(1.0), 0, &mut Rng::new(1)).unwrap(), vec![2]);
    assert_eq!(m.generate(&[2], 5, num(1.0), 0, &mut Rng::new(1)).unwrap().len(), 6);
}

#[test]
fn a_nan_leaves_no_largest() {
    let mut m = stirred(config());
    let n = m.params.len();
    m.params = nums(&vec![f32::NAN; n]);
    assert!(m.generate(&[2], 3, num(1.0), 2, &mut Rng::new(1)).is_none());
    assert_eq!(m.generate(&[2], 3, num(1.0), 0, &mut Rng::new(1)).unwrap(), vec![2, 6, 6, 6]);
}

#[test]
fn a_model_survives_its_checkpoint() {
    let m = stirred(config());
    let itos = vec!["a".to_string(), "b".to_string()];
    let file = save_checkpoint(&m, 12, 0.5f64.to_bits(), &itos);
    let c = load_checkpoint(&file).ok().unwrap();
    assert_eq!((c.iter_num, f64::from_bits(c.best_val_loss)), (12, 0.5));
    assert_eq!(c.itos, itos);
    let back: Gpt<F> = model_from_checkpoint(&c).ok().unwrap();
    assert_eq!(back.cfg, m.cfg);
    assert_eq!(floats(&back.params), floats(&m.params));
    assert_eq!(back.decay, m.decay);
    let short = Checkpoint { params: c.params[1..].to_vec(), ..c };
    let n = m.params.len();
    let e = model_from_checkpoint::<F>(&short).err().unwrap();
    assert_eq!(e, CheckpointError::ParamCountMismatch { found: n - 1, expected: n });
}

fn toy() -> (TrainArgs, Dataset) {
    let data: Vec<u16> = (0..200).map(|i| [0u16, 1, 2, 3, 2, 1][i % 6]).collect();
    let dataset = Dataset { train: data.clone(), val: data[..60].to_vec(), vocab_size: 4, itos: vec![] };
    let mut args = TrainArgs::defaults(1);
    args.block_size = 6;
    args.batch_size = 4;
    args.n_layer = 1;
    args.n_head = 2;
    args.n_embd = 8;
    args.eval_iters = 3;
    args.max_iters = 60;
    args.warmup_iters = 5;
    args.learning_rate = 0.01f32.to_bits();
    (args, dataset)
}

#[test]
fn what_can_be_trained() {
    let (args, dataset) = toy();
    assert!(can_train(&args, &dataset));
    let with = |f: &dyn Fn(&mut TrainArgs)| {
        let (mut args, dataset) = toy();
        f(&mut args);
        can_train(&args, &dataset)
    };
    assert!(!with(&|a| a.n_head = 3));
    assert!(!with(&|a| a.block_size = 0));
    assert!(!with(&|a| a.batch_size = 0));
    assert!(!with(&|a| a.block_size = 59));
    assert!(with(&|a| {
        a.block_size = 59;
        a.eval_iters = 0;
    }));
    assert!(!with(&|a| a.eval_interval = 0));
    assert!(!with(&|a| a.log_interval = 0));
    assert!(!with(&|a| a.warmup_iters = usize::MAX));
    let (args, mut dataset) = toy();
    dataset.vocab_size = 3;
    assert!(!can_train(&args, &dataset));
}

#[test]
fn a_run_starts_from_its_seed() {
    let (args, dataset) = toy();
    let r: Trainer<F> = Trainer::start(&args, &dataset);
    let mut rng = Rng::new(1337);
    let m: Gpt<F> = Gpt::new(args.config(4), &mut rng);
    assert_eq!(floats(&r.model.params), floats(&m.params));
    let (mut x, mut y) = (vec![], vec![]);
    dataset.get_batch(Split::Train, 4, 6, &mut rng, &mut x, &mut y);
    assert_eq!((&r.x, &r.y), (&x, &y));
    let mut mine = r.rng;
    assert_eq!(mine.next_u64(), rng.next_u64());
    assert_eq!(r.optimizer.t, 0);
}

#[test]
fn a_step_is_made_of_its_parts() {
    let (args, dataset) = toy();
    let mut r: Trainer<F> = Trainer::start(&args, &dataset);
    let mut s: Trainer<F> = Trainer::start(&args, &dataset);
    let (loss, lr) = r.step(&args, &dataset, 0);
    assert_eq!(lr.raw().0, 0.01f32 * 1.0 / 6.0);
    s.model.zero_grad();
    let want = s.model.forward(&s.x, Some(&s.y), true, &mut s.rng, &mut s.cache);
    assert_eq!(loss.raw().0, want.raw().0);
    s.model.backward(&mut s.cache, &s.y);
    dataset.get_batch(Split::Train, 4, 6, &mut s.rng, &mut s.x, &mut s.y);
    clip_grad_norm(&mut s.model.grads, num(1.0));
    s.optimizer.step(&mut s.model.params, &s.model.grads, &s.model.decay, lr, num(0.1));
    assert_eq!(floats(&r.model.params), floats(&s.model.params));
    assert_eq!(floats(&r.model.grads), floats(&s.model.grads));
    assert_eq!((&r.x, &r.y), (&s.x, &s.y));
    assert_eq!(r.rng.next_u64(), s.rng.next_u64());
}

#[test]
fn training_lowers_the_loss() {
    let (args, dataset) = toy();
    let mut r: Trainer<F> = Trainer::start(&args, &dataset);
    let mut cache = Cache::default();
    let before = estimate_loss(&r.model, &dataset, 4, 3, &mut Rng::new(1), &mut cache);
    for it in 0..=60 {
        r.step(&args, &dataset, it);
    }
    let after = estimate_loss(&r.model, &dataset, 4, 3, &mut Rng::new(1), &mut cache);
    let loss = |w: nanogpt_rs::scalar::WideNum<F>| f64::from_bits(w.pattern());
    assert!((loss(before.0) - 4.0f64.ln()).abs() < 0.2);
    assert!(loss(after.0) < 0.7 * loss(before.0));
    assert!(loss(after.1) < 0.7 * loss(before.1));
}

#[test]
fn estimates_are_means_over_batches() {
    let (args, dataset) = toy();
    let r: Trainer<F> = Trainer::start(&args, &dataset);
    let mut cache = Cache::default();
    let mut rng = Rng::new(6);
    let (a, b) = estimate_loss(&r.model, &dataset, 4, 3, &mut rng, &mut cache);
    let mut again = Rng::new(6);
    for (split, got) in [(Split::Train, a), (Split::Val, b)] {
        let batches = draw_batches(&dataset, split, 4, 6, 3, &mut again);
        let losses: Vec<Num<F>> = batches.iter().rev().map(|x| batch_loss(&r.model, x, &mut Cache::default())).collect();
        let back: Vec<Num<F>> = losses.iter().rev().copied().collect();
        let mean = mean_of_losses(&back);
        assert_eq!(mean.pattern(), got.pattern());
        let sum = floats(&back).iter().fold(0.0f64, |s, &x| s + x as f64);
        assert_eq!(f64::from_bits(got.pattern()), sum / 3.0);
    }
    assert_eq!(rng.next_u64(), again.next_u64());
    let (none, _) = estimate_loss(&r.model, &dataset, 4, 0, &mut rng, &mut cache);
    assert!(f64::from_bits(none.pattern()).is_nan());
}
