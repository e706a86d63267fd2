//! Exact reranking of candidate tensors on accelerators: the parts that decide.
//!
//! A client sends a query and the candidates of a search, each a tensor known by
//! its digest. The daemon scores them and answers with the candidates and their
//! scores. This crate holds what both sides decide and compute without touching a
//! file, a socket or a device:
//!
//! - the wire format, from either side ([`protocol`], [`reader`], [`client`],
//!   [`framing`], [`agreement`], [`health`]);
//! - who is served, and when ([`server`], [`connection`], [`scheduler`],
//!   [`lifecycle`]);
//! - where tensors come from, and that they are what their digests say
//!   ([`shard`], [`shard_store`], [`reads`], [`host_cache`], [`quant`]);
//! - where they are kept on a device ([`allocator`], [`sketch`], [`cache`]), and how
//!   a request moves over the devices ([`tensors`], [`engine`], [`run`], [`scores`],
//!   [`resident`], [`residency`], [`status`]);
//! - how a device is used ([`backend`], [`cpu`], [`gpu`], [`gpu_scores`], [`vulkan`],
//!   [`metal`], [`scoring`], [`codes`]) and which of its kernels runs ([`dispatch`],
//!   [`calibration`]).
//!
//! [`bytes`], [`digest`], [`numbers`], [`table`] and [`text`] are what these share.
//!
//! Floating-point numbers are carried as their bits. Where a step needs arithmetic
//! on them, it takes the operation as a function from bits to bits.

use vstd::prelude::*;

pub mod agreement;
pub mod allocator;
pub mod backend;
pub mod bytes;
pub mod cache;
pub mod calibration;
pub mod client;
pub mod codes;
pub mod connection;
pub mod cpu;
pub mod digest;
pub mod dispatch;
pub mod engine;
pub mod framing;
pub mod gpu;
pub mod gpu_scores;
pub mod health;
pub mod host_cache;
pub mod lifecycle;
pub mod metal;
pub mod numbers;
pub mod protocol;
pub mod quant;
pub mod reader;
pub mod reads;
pub mod residency;
pub mod resident;
pub mod run;
pub mod scheduler;
pub mod scores;
pub mod scoring;
pub mod server;
pub mod shard;
pub mod shard_store;
pub mod sketch;
pub mod status;
pub mod table;
pub mod tensors;
pub mod text;
pub mod vulkan;

verus! {

} // verus!
