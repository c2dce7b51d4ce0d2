//! Verified core of a documentation-site mirroring crawler.
//!
//! The library holds the logic with real correctness concerns: URL
//! canonicalization and crawl-eligibility filtering, the mapping between
//! canonical URLs and on-disk storage paths, link extraction from raw page
//! markup, the crawl engine's queue/completed-set state machine, and the
//! persisted location index. Network and file I/O live outside the library
//! and hand plain values in and out.

pub mod date;
pub mod format_url;
pub mod kb_urls;
pub mod kb_utils;
pub mod paths;
pub mod scrape;
pub mod scrape_client;
pub mod text;
