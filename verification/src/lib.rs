//! chunklog is a version-control library for voxel worlds.
//!
//! Inspired by Git's object model, it provides content-addressed storage,
//! deduplication and commit history for chunk data, decoupled from any
//! game engine.
//!
//! # Architecture
//!
//! - [`hash`] – the content address of a byte string and its hex text form.
//! - [`object`] – blobs, trees and commits, with their canonical byte encoding.
//! - [`store`] – the [`ObjectStore`] contract and the verified [`MemoryStore`].
//! - [`opfs`] – the append-only object-log format used by the browser store,
//!   its recovery parser and its in-memory transactional index.
//! - [`repo`] – the [`Repository`]: commits and history over any store.
//! - [`staging`] – the incremental patch that the command line stages.
//! - [`diff`], [`gc`] – result types of world comparison and collection.
//! - [`cli`] – the arguments of the command-line subcommands.

pub mod cli;
pub mod codec;
pub mod diff;
pub mod gc;
pub mod hash;
pub mod object;
pub mod opfs;
pub mod opfs_cache;
pub mod repo;
pub mod staging;
pub mod store;
pub mod text;

pub use diff::WorldDiff;
pub use gc::GcStats;
pub use hash::{parse_hash, ParseHashError};
pub use object::{ChunkCoords, Commit, Object};
pub use repo::{LogEntry, Repository, World};
pub use store::{MemoryStore, ObjectStore};
