//! Verified core of the Git bridge.

pub mod claims;
pub mod commit;
pub mod dependencies;
pub mod edges;
pub mod error;
pub mod facts;
pub mod graph;
pub mod graph_first;
pub mod history;
pub mod import;
pub mod import_run;
pub mod indexed;
pub mod json;
pub mod ledger;
pub mod line_index;
pub mod line_units;
pub mod merge;
pub mod message;
pub mod mirror;
pub mod oid;
pub mod parse;
pub mod paths;
pub mod places;
pub mod preflight_run;
pub mod progress;
pub mod projection_run;
pub mod publish_run;
pub mod push;
pub mod push_run;
pub mod recording;
pub mod records;
pub mod ref_mapping;
pub mod replay;
pub mod replay_files;
pub mod resolution_run;
pub mod rewrite;
pub mod roundtrip;
pub mod sequence;
pub mod shadow;
pub mod squash;
pub mod squash_run;
pub mod synthesis;
pub mod text;
pub mod transfer_run;
pub mod transport;
pub mod tree;
