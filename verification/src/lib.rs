//! A file-name search engine: the query language, trigram and bitmap
//! indexes, an in-memory document store, result ordering, the binary
//! index formats, and the pure parts of scanning file systems.

pub mod stdx;
pub mod treemap;
pub mod le;
pub mod numfmt;
pub mod text;
pub mod compare;
pub mod codes;
pub mod strmap;
pub mod hashindex;
pub mod models;
pub mod dates;
pub mod trigram;
pub mod bitmap;
pub mod dsl;
pub mod query;
pub mod matcher;
pub mod filters;
pub mod extractor;
pub mod ranking;
pub mod index_store;
pub mod cache;
pub mod scheduler;
pub mod document;
pub mod paths;
pub mod config;
pub mod scanner;
pub mod mft;
pub mod segment;
pub mod volumes;
pub mod service;
pub mod dto;
pub mod wal;
pub mod platform;
