//! A small file-transfer protocol: a producer advertises a catalog of files,
//! a consumer asks for files by name and receives them as a stream of
//! fixed-size chunks.
//!
//! Everything here works on bytes and plain values; the process that owns the
//! sockets and files hands bytes in and takes bytes out.

pub mod catalog;
pub mod chunk;
pub mod config;
pub mod error;
pub mod listing;
pub mod orchestrator;
pub mod packet;
pub mod session;
pub mod units;
pub mod wire;

pub use catalog::{Catalog, CatalogEntry};
pub use chunk::{reassemble, split_into_chunks, Chunk, FIXED_CHUNK_SIZE};
pub use config::{Config, DEFAULT_PORT};
pub use error::SessionError;
pub use listing::{listing_names, parse_want_list};
pub use orchestrator::{update_queue, DownloadPhase, DownloadableFile, Downloader, Step};
pub use packet::Packet;
pub use session::{serve, Reply, Request};
pub use units::format_size;
