//! Verified core of `dups`.

pub mod check;
pub mod digest;
pub mod disk;
pub mod entries;
pub mod error;
pub mod generate;
pub mod hashfile;
pub mod index;
pub mod laws;
pub mod logging;
pub mod moves;
pub mod names;
pub mod order;
pub mod path;
pub mod path_facts;
pub mod plan;
pub mod prefix;
pub mod probes;
pub mod rename;
pub mod report;
pub mod text;
