//! Offline shard builder.

pub mod assemble;
pub mod building;
pub mod bytes;
pub mod cli;
pub mod commit;
pub mod config;
pub mod delimited;
pub mod dense_codec;
pub mod document;
pub mod frames;
pub mod gates;
pub mod ids;
pub mod json;
pub mod names;
pub mod parquet_source;
pub mod partfile;
pub mod payload_index;
pub mod placement;
pub mod plan;
pub mod progress;
pub mod records;
pub mod report;
pub mod retarget;
pub mod ring;
pub mod surfaces;
pub mod text;
