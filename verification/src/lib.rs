//! A read-only S3 view of an HDFS directory tree.
//!
//! The library holds every decision of the gateway: how an S3 key maps to an HDFS path,
//! how a listing is ordered, grouped and cut into pages, which byte window a ranged read
//! serves, how upstream failures are reported. It performs no I/O.

pub mod auth;
pub mod backpressure;
pub mod config;
pub mod error;
pub mod lifecycle;
pub mod list_objects;
pub mod listing;
pub mod log_lines;
pub mod metadata;
pub mod namespace;
pub mod number;
pub mod object;
pub mod path;
pub mod pulls;
pub mod range;
pub mod request;
pub mod server;
pub mod sort;
pub mod sorted_listing;
pub mod stream;
pub mod text;
pub mod token;
pub mod walk;
pub mod write_policy;
