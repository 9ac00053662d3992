//! Placement engine and request plane of a distributed object store.
//!
//! Clients address objects by pool and name. A storage map decides which
//! daemon holds an object: the object's name is hashed to a group, and the
//! group is placed on devices by a walk through a weighted tree. Clients and
//! daemons exchange requests and replies as datagrams, which an envelope
//! protects against forgery and replay.
//!
//! - [`storage_map`]: the tree, the algorithms that draw in it, and the walk.
//! - [`hash`]: the hashes that the walk and the grouping of objects use.
//! - [`wire`]: requests and replies as bytes.
//! - [`crypto`]: the authenticated envelope around a datagram.
//! - [`client`]: to which daemon a request goes, and who waits for its reply.
//! - [`daemon`]: where a request is served, also while the map of a pool
//!   changes, and what serving it means.
//! - [`storage`]: what a daemon keeps, and the store that keeps it in memory.
//! - [`blocks`]: a block device laid over objects.
//! - [`proto`]: a line protocol of words.
//! - [`bytes`]: numbers on the wire.
//! - [`ident`]: the identifiers of devices, pools, objects and groups.

pub mod blocks;
pub mod bytes;
pub mod client;
pub mod crypto;
pub mod daemon;
pub mod hash;
pub mod ident;
pub mod proto;
pub mod storage;
pub mod storage_map;
pub mod wire;

pub use ident::{DeviceId, GroupId, ObjectId, PoolName};
