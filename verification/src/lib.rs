//! Framing and reassembly of video frames carried over unreliable datagrams.
//!
//! A sender cuts every encoded frame into size-bounded packets, each with a
//! fixed big-endian header; a receiver collects packets in any order, tolerates
//! duplicates, and hands out a frame once all of its chunks have arrived. A
//! ping and its pong, in a format of their own, tell whether the peer is there.
//!
//! Every executable function carries a contract that Verus proves, stated over
//! a mathematical view of the data:
//!
//! - [`sequence`], [`packet`], [`packet_codec`] and [`healthcheck`] are the
//!   wire formats, with [`big_endian`] underneath;
//! - [`packetizer`] is the sender's side, with the arithmetic of cutting in
//!   [`chunks`];
//! - [`reassembler`] is the receiver's side; [`reassembly`] says what a push
//!   does and what follows from that, over [`assembly`] and [`eviction`];
//! - [`delivery`] proves that what the one side cuts up the other puts
//!   together again, whatever the order of arrival;
//! - [`codec`], [`transport`] and [`network`] are what the framing needs of
//!   its surroundings.

pub mod assembly;
pub mod big_endian;
pub mod chunks;
pub mod codec;
pub mod delivery;
pub mod eviction;
pub mod healthcheck;
pub mod network;
pub mod packet;
pub mod packet_codec;
pub mod packetizer;
pub mod reassembler;
pub mod reassembly;
pub mod sequence;
pub mod transport;
