//! Matching the pages of two scans of one document by perceptual fingerprints.
//!
//! A page is reduced to a [`fingerprint::Fingerprint`]; the fingerprints of the
//! old scan are kept in a [`index::MetricIndex`]; [`matcher::match_pages`] pairs
//! every page of the new scan with at most one page of the old scan.

pub mod arrange;
pub mod bytes;
pub mod extract;
pub mod fingerprint;
pub mod hashed;
pub mod index;
pub mod matcher;
pub mod missing;
pub mod page;
pub mod pipeline;
