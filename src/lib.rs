//! Advent of Code puzzle solvers, with the accelerator dispatch layer that
//! plans kernel launches, checks host/device transfers and drives the
//! multi-walker convergence loop.
//!
//! The dispatch layer is `launch`, `session`, `kernel`, `convergence` and
//! `batch`; `gpu_day08` runs it on the network of `day08`. The device itself
//! (context, module, stream, buffers) is driven by the caller, which hands
//! the library plain values and follows its decisions.

pub mod batch;
pub mod convergence;
pub mod day01;
pub mod day02;
pub mod day03;
pub mod day04;
pub mod day05;
pub mod day06;
pub mod day07;
pub mod day08;
pub mod day09;
pub mod day10;
pub mod day11;
pub mod day12;
pub mod day13;
pub mod error;
pub mod gpu_day08;
pub mod kernel;
pub mod launch;
pub mod session;
pub mod text;
