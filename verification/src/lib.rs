//! A generic web-crawling engine.
//!
//! Given a pluggable site-specific fetcher/parser (a "spider"), the engine
//! discovers a frontier of URLs, fetches them, extracts items and follow-up
//! links, and terminates once the frontier is exhausted. The heart of the
//! crate is the crawl state machine: URL admission with deduplication, the
//! three queues (frontier, discovery, item), the in-flight counter, and the
//! quiescence predicate that decides when a run is complete.

pub mod crawler;
pub mod engine;
pub mod error;
pub mod script;
pub mod spiders;
