//! Preview-acceleration library for a terminal file browser.
//!
//! The two cores are a bounded, TTL- and mtime-invalidated directory-listing
//! cache ([`DirectoryCache`]) and a live media frame pipeline
//! ([`MediaSession`], [`StreamReader`], [`FrameSlot`]) that scans a raw JPEG
//! byte stream for frame boundaries, decodes complete frames, and exposes the
//! most recent decoded frame to a polling renderer.

pub mod cache;
pub mod config;
pub mod event_handler;
pub mod frame;
pub mod fs;
pub mod git;
pub mod security;
pub mod session;
pub mod stream;

pub use cache::DirectoryCache;
pub use config::Config;
pub use event_handler::AppMode;
pub use git::FileStatus;
pub use frame::FrameSlot;
pub use fs::resolve_link;
pub use security::check_file_size;
pub use security::validate_path;
pub use security::SecurityError;
pub use session::MediaSession;
pub use session::SessionState;
pub use stream::StreamReader;
