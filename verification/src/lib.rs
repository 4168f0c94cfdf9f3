//! Chunked-upload pipeline: byte-range slicing, per-file upload
//! orchestration with ordered reassembly, rate-limit retry and
//! cancellation, and the catalog of completed uploads.

pub mod actions;
pub mod reader;
pub mod state;
pub mod strsim;
pub mod upload;
