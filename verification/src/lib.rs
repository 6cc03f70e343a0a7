//! the-universe: executable philosophy, with its integer core verified.
//!
//! A runnable model of a simulation-hypothesis framework. This crate holds the
//! parts of the model whose behaviour is exact — the creator's random stream,
//! the geometry of discrete space and the seeding of it, the probe that
//! decides what is observed, the toggles and dials of the four limits, what a
//! step of the laws costs, the cost arithmetic of nesting, the one-way pipe,
//! the clusters a bootloader is made of, the laws a sweep visited, the
//! inhabitant's causal measurements, the checks on a config and the command
//! line — each with a contract that Verus checks.
//!
//! The laws themselves (density bands, mean-field updates, divergences) work
//! in floating point and run in the program around this library.

pub mod bootloader;
pub mod budget;
pub mod clusters;
pub mod cli;
pub mod config;
pub mod constraints;
pub mod detector;
pub mod layer;
pub mod observer;
pub mod physics;
pub mod pipe;
pub mod rng;
pub mod space;
pub mod sweep;
