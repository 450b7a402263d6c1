//! A walker made of rigid segments that learns to walk.
//!
//! The library lays out the body of the walker, moves it, judges what it does, records rollouts, estimates
//! advantages, cuts minibatches and schedules the training. It holds floating-point numbers by their bit
//! pattern and orders, negates and screens them itself; sums, products and the like come in through an
//! [`arithmetic::Arithmetic`] of which nothing is assumed, and the contracts say what becomes of the
//! numbers in terms of [`arithmetic::Operations`] that describe it. Random numbers, networks and
//! gradients come in through traits of which nothing is assumed either.

pub mod advantage;
pub mod arithmetic;
pub mod contact;
pub mod decision;
pub mod displacement;
pub mod distribution;
pub mod dynamics;
pub mod env;
pub mod fidelity;
pub mod field;
pub mod incidence;
pub mod joining;
pub mod lanes;
pub mod layout;
pub mod math;
pub mod minibatch;
pub mod model;
pub mod momentum;
pub mod morphology;
pub mod motion;
pub mod numbers;
pub mod observation;
pub mod physics;
pub mod pooling;
pub mod ppo;
pub mod preparation;
pub mod report;
pub mod rollout;
pub mod rounding;
pub mod single;
pub mod statistics;
pub mod step;
pub mod traversal;
pub mod update;
pub mod viz;
pub mod walker;
