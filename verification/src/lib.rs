//! Host-side orchestration of a bitonic sort that runs on an accelerator.
//!
//! The array of `2^k` elements lives in accelerator memory. The host decides
//! which comparator dispatches to submit, in which order, with which parameter
//! block and over which grid of execution groups.
//!
//! What is proved here: the plan is exactly the schedule of the bitonic
//! network, stage by stage and step by step; the issuer hands out its entries
//! one at a time, in order, each only when the one before it has completed;
//! and the network, run on the host's model of the comparator, leaves every
//! array of `2^k` elements in ascending order with the elements it had.
//!
//! What is taken on trust: the bytes `bytemuck` gives for the parameter
//! block, and the standard library's sort that the result check compares
//! with.
//!
//! `stencil` stands apart: it lists the offsets of the square filter kernels
//! that the depth filter of the renderer works with.

pub mod bands;
pub mod error;
pub mod grid;
pub mod host;
pub mod issuer;
pub mod length;
pub mod network;
pub mod params;
pub mod permutation;
pub mod result_check;
pub mod sequencer;
pub mod sorting;
pub mod stencil;
pub mod upload;
