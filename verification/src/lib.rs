//! Finding images to tidy away: exact duplicates, images that look alike and images that may
//! be blurred.
//!
//! A scan goes from [`scan::match_cache`] over [`scan::HashingStage`],
//! [`scan::AnalysisStage`], [`scan::GroupingStage`] and [`scan::ListingStage`] to a
//! [`scan::ScanResult`]. Files are read and written by the caller.
pub mod blur;
pub mod cache;
pub mod cancel;
pub mod errors;
pub mod escape;
pub mod exact;
pub mod forest;
pub mod lists;
pub mod numbers;
pub mod paths;
pub mod picture;
pub mod progress;
pub mod record;
pub mod scan;
pub mod similar;
pub mod text;
pub mod trash;
