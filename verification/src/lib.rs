//! Placement, replication and repair logic of a sharded object store.

pub mod balance;
pub mod catalog;
pub mod cli;
pub mod commands;
pub mod config;
pub mod cross_verify;
pub mod delete;
pub mod diagnostics;
pub mod digest;
pub mod drain;
pub mod error;
pub mod event;
pub mod ids;
pub mod listing;
pub mod markers;
pub mod meta_put;
pub mod meta_read;
pub mod metadata;
pub mod multipart;
pub mod opening;
pub mod partitioned;
pub mod path;
pub mod persistence;
pub mod placement;
pub mod put;
pub mod read;
pub mod redistribute;
pub mod repair;
pub mod replication;
pub mod retire;
pub mod scan;
pub mod store;
pub mod string_map;
pub mod sync;
pub mod tally;
pub mod text;
pub mod time;
pub mod tlv;
pub mod verify;
pub mod writes;
