//! Core of a memory-bounded image-sequence viewer: a byte-budgeted cache of
//! decoded images with background prefetching, driven by a playback manager
//! that turns wall-clock time and user navigation into cache operations.

pub mod error;
pub mod fs_path;
pub mod directory;
pub mod cache;
pub mod host;
pub mod playback;

