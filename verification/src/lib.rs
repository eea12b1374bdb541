//! Byte-level translation between Bedrock protocol versions.
pub mod codec;
pub mod text;
pub mod versions;
pub mod wrapper;
pub mod direction;
pub mod mapping;
pub mod packet_ids;
pub mod rewriter;
pub mod steps;
pub mod table;
pub mod handler;
pub mod translator;
pub mod connection;
pub mod manager;
pub mod pipeline;
pub mod sound_events;
pub mod config;
pub mod report;
