//! Verified core of a container-image layer analyzer.
//!
//! The library parses image references, models OCI / Docker v2 manifests and
//! configs, decodes layer blobs into file listings, computes per-layer
//! add/modify/remove diffs with file trees, and derives an efficiency
//! score with a wasted-space budget.  Network and filesystem access live
//! outside the library; the functions here work on plain values.

pub mod analyze;
pub mod cache;
pub mod config;
pub mod docker;
pub mod error;
pub mod jsonval;
pub mod layer;
pub mod oci_image;
pub mod store;
pub mod strops;
pub mod util;
