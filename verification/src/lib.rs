//! Verified decision logic of a distributed shuffle engine.
pub mod aqe;
pub mod backend;
pub mod checksum;
pub mod chunk_reader;
pub mod chunk_source;
pub mod client;
pub mod default_scheduler;
pub mod dispatcher;
pub mod drain;
pub mod error;
pub mod executor;
pub mod flight;
pub mod io_error;
pub mod ipc;
pub mod linear_scheduler;
pub mod local_io;
pub mod offset_bytes;
pub mod page_ranges;
pub mod read_stats;
pub mod recovery;
pub mod remote_chunks;
pub mod replay;
pub mod scaling;
pub mod scheduler;
pub mod shuffle_cache;
pub mod shuffle_file;
pub mod sort;
pub mod task;
pub mod text;
pub mod wire;
pub mod worker;
pub mod worker_manager;
