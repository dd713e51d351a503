//! Resolution of Container Device Interface (CDI) devices into bind mounts.
//!
//! A CDI specification is a file that defines devices of one kind and says which device nodes of
//! the host each of them needs. The library takes what was read from the directories that hold
//! specifications, finds the devices that were requested by their qualified names, and says which
//! nodes have to be bound into a sandbox.

pub mod binding_laws;
pub mod binds;
pub mod error;
pub mod laws;
pub mod listing;
pub mod name_laws;
pub mod names;
pub mod outcome_laws;
pub mod path;
pub mod path_laws;
pub mod reading_laws;
pub mod resolve;
pub mod scan;
pub mod search_laws;
pub mod sorting;
pub mod spec_file;
pub mod table;
pub mod text;
