//! Graph result projection and relation inference for a protein
//! interaction graph.
//!
//! The store itself (queried over the network by the surrounding
//! application) hands back rows of nodes and paths; this crate holds the
//! logic that reshapes those rows: entity extraction and deduplication,
//! selection of the unordered entity pairs to probe for relations, and
//! decoding of annotated paths into scored edges.

pub mod api;
pub mod decoder;
pub mod entity;
pub mod err;
pub mod parse;
pub mod prober;

pub use api::{
    harvest_node_pairs, set_entities, ProteinArgs, ProteinPathResp, ProteinResp, ProteinScoreArgs,
    ProteinSetArgs, QuerySimilarityArgs, ShortestPathArgs,
};
pub use decoder::{decode_path, decode_paths, Interact};
pub use entity::{Entity, EntityMap, PathNode};
pub use err::{AppError, AppErrorType};
pub use parse::parse_i32;
pub use prober::{confirmed_relations, select_probe_pairs};
