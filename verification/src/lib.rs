//! Core of a recording-session manager: the sandboxed path validator, the
//! artifact scanner, and the recording catalog, together with the session
//! controller that ties them to a capture engine.
//!
//! Paths are handled as UTF-8 byte strings (`Vec<u8>` / `&[u8]`); the
//! surrounding host process canonicalizes operating-system paths before
//! handing them in, and converts back at the edge.

pub mod catalog;
pub mod paths;
pub mod playback;
pub mod sandbox;
pub mod scanner;
pub mod service;
pub mod session;

pub use paths::db_path;
