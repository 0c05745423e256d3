//! rrecall: search over recorded assistant conversation transcripts.
pub mod text;
pub mod paths;
pub mod parser;
pub mod chunk;
pub mod query;
pub mod search;
pub mod output;
pub mod escalate;
pub mod scope;
pub mod group;
pub mod index;
pub mod scan;
pub mod tier;
pub mod reindex;
pub mod hybrid;
