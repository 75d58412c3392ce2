//! A personal journal whose entries mention people (`@name`), projects
//! (`%name`) and tags (`#name`), with an entity graph and a token index
//! derived from the text on ingestion.
pub mod chars;
pub mod sigil;
pub mod links;
pub mod registry;
pub mod rank;
pub mod index;
pub mod date;
pub mod journal;
pub mod query;
pub mod order;
pub mod completion;
pub mod config;
pub mod entity;
