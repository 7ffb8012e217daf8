pub mod strmap;
pub mod text;
pub mod types;
pub mod cover;
pub mod metrics;
pub mod index;
pub mod graph;
pub mod lifecycle;
pub mod multi;
pub mod workload;
pub mod bench;
pub mod storage;
pub mod config;
pub mod sql;
pub mod plan;
pub mod runner;
pub mod orchestrate;
pub mod benchmark;
pub mod oplog;
pub mod suite;
pub mod laws;
pub mod consistency;
pub mod order;
