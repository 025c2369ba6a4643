use vstd::prelude::*;

pub mod text;
pub mod paths;
pub mod time;
pub mod models;
pub mod ulid;
pub mod delta;
pub mod errors;
pub mod search;
pub mod engine;
pub mod webdav;
pub mod clipper;
pub mod notes;
pub mod tasks;
pub mod diagnostics;
pub mod crypto;
pub mod queue;
pub mod vault;
pub mod attachments;
pub mod watch;
pub mod settings;
pub mod dtos;
pub mod dto;
pub mod trash;
pub mod history;
pub mod scan;
pub mod conflict;
pub mod traversal;
pub mod folders;

verus! {
} // verus!
