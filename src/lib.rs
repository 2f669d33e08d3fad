//! Resumable, chunked file uploads: per-upload state, slice validation,
//! reassembly and collision-free naming of the stored file.

pub mod config;
pub mod decimal;
pub mod fingerprint;
pub mod filename;
pub mod upload;
pub mod registry;
