//! A small GPT on characters: data preparation, the model with its forward and backward
//! pass, training, checkpoints and sampling.
//!
//! Numbers are of a type that is given by its operations alone. Every number is held together
//! with the formula that it is a value of, and contracts say which formula a result is: see
//! [`scalar`]. What is not a matter of numbers (bytes, texts, random bits, positions, plans) is
//! stated outright.
pub mod adjoint;
pub mod alphabet;
pub mod attention;
pub mod attention_slopes;
pub mod backward;
pub mod block;
pub mod bytes;
pub mod cache;
pub mod causal;
pub mod checkpoint;
pub mod data;
pub mod decay;
pub mod descent;
pub mod dropping;
pub mod exact;
pub mod forward;
pub mod generate;
pub mod gradient;
pub mod head_slopes;
pub mod ieee;
pub mod json;
pub mod layers;
pub mod layout;
pub mod loss_slopes;
pub mod meaning;
pub mod meta;
pub mod model;
pub mod norm_slopes;
pub mod notation;
pub mod number;
pub mod ops;
pub mod optim;
pub mod opts;
pub mod pool;
pub mod progress;
pub mod rng;
pub mod rounding;
pub mod sample;
pub mod scalar;
pub mod schedule;
pub mod settled;
pub mod shares;
pub mod sizes;
pub mod slopes;
pub mod spans;
pub mod starting;
pub mod text;
pub mod topk;
pub mod train;
pub mod wiring;
