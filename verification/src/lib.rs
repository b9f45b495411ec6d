//! The decisions of a small machine-learning engine.
//!
//! The engine trains a perceptron on tables or a convolutional network on
//! images, as a project's `train.toml` declares. It reports each run as a stream
//! of JSON lines and keeps it in a directory of its own. What it reads, decides
//! and writes is computed here:
//!
//! - [`cli`]: what the arguments ask for, and what a new project begins with
//! - [`config`]: the configuration and its defaults
//! - [`data`], [`images`], [`rng`]: tables, pictures, and their random split
//! - [`model`]: which model is trained where, and how predictions are counted
//! - [`training`], [`course`]: the course of a run, step by step and as a whole
//! - [`harness`]: what each step records, and the commands that control a run
//! - [`protocol`], [`run_store`]: the stream of events, and the files of a run
//! - [`onnx`], [`wire`], [`inference`]: the export of a trained perceptron, and what
//!   the exported file computes
//! - [`calendar`], [`json`], [`paths`], [`scalar`], [`text`]: the groundwork
//!
//! Floating-point arithmetic and the networks are left to the caller: numbers
//! come in as bit patterns, or as values of a type that is only passed on. So is
//! everything that touches the file system and the standard streams: a step
//! returns what is to be done, in order.
use vstd::prelude::*;

pub mod calendar;
pub mod cli;
pub mod config;
pub mod course;
pub mod data;
pub mod harness;
pub mod images;
pub mod inference;
pub mod json;
pub mod model;
pub mod onnx;
pub mod paths;
pub mod protocol;
pub mod rng;
pub mod run_store;
pub mod scalar;
pub mod text;
pub mod training;
pub mod wire;

verus! {

} // verus!
