//! Placement, chunk logs and replicated metadata of a filesystem that pools
//! local disks and keeps files append-only until they are converted.
//!
//! From the bottom up:
//!
//! - bytes, checksums, hashes and texts: [`bytes`], [`crc32c`], [`hash`],
//!   [`text`]
//! - where replicas go: [`top`], [`hrw`], [`log2`], [`placement`],
//!   [`redundancy_spec`]
//! - what is stored and how it is written down: [`proto`], [`wire`], [`codec`]
//! - disks and the logs on them: [`disk`], [`framing`], [`segment`], [`wal`],
//!   [`replicator`]
//! - the metadata: [`local`], [`mode`], [`write_path`], [`store`]
//! - files: [`content`], [`pool`]
//! - the mount: [`ioctl`], [`fs`], [`args`]

pub mod args;
pub mod bytes;
pub mod codec;
pub mod content;
pub mod crc32c;
pub mod disk;
pub mod framing;
pub mod fs;
pub mod hash;
pub mod hrw;
pub mod ioctl;
pub mod local;
pub mod log2;
pub mod mode;
pub mod placement;
pub mod pool;
pub mod proto;
pub mod redundancy_spec;
pub mod replicator;
pub mod segment;
pub mod store;
pub mod text;
pub mod top;
pub mod wal;
pub mod wire;
pub mod write_path;
