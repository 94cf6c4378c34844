//! Verified core of a LAS/LAZ to COPC (Cloud-Optimized Point Cloud) converter.
//!
//! The conversion scans the input files, validates that they agree, distributes
//! their points to chunks, builds the octree of each chunk, merges the chunks,
//! and writes the output file. The library holds the decisions, the data
//! structures and the file formats of these stages; reading and writing files
//! and floating-point geometry are left to the program around it. Doubles
//! travel through the library as their bit patterns.

pub mod assembly;
pub mod batches;
pub mod build_run;
pub mod chunk_build;
pub mod chunk_files;
pub mod chunking;
pub mod config;
pub mod conservation;
pub mod crs;
pub mod distribute;
pub mod encode;
pub mod error;
pub mod extra_bytes;
pub mod fbits;
pub mod file_laws;
pub mod grouping;
pub mod hierarchy;
pub mod index_laws;
pub mod input_laws;
pub mod inputs;
pub mod key;
pub mod le;
pub mod leaves;
pub mod memory;
pub mod merge;
pub mod morton;
pub mod node_map;
pub mod node_store;
pub mod node_writer;
pub mod notes;
pub mod octree;
pub mod pipeline;
pub mod plan_laws;
pub mod planner;
pub mod point;
pub mod progress;
pub mod report;
pub mod report_laws;
pub mod run_laws;
pub mod sampling;
pub mod sampling_laws;
pub mod scan;
pub mod schema_diff;
pub mod schema_laws;
pub mod sorting;
pub mod temp;
pub mod temporal;
pub mod text;
pub mod text_laws;
pub mod tree_build;
pub mod tree_laws;
pub mod units;
pub mod validate;
pub mod writer;

pub use chunking::{ChunkPlan, HeaderBoundsMismatch, PlannedChunk};
pub use config::{
    Forward, NodeStorage, PipelineConfig, ProgressEvent, ProgressLog, ProgressObserver,
    TempCompression,
};
pub use error::Error;
pub use inputs::collect_input_files;
pub use pipeline::{Built, Distributed, Pipeline, Scanned, Validated};
pub use planner::{compute_chunk_target, select_grid_size};
