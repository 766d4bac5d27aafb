//! A verified core for a directory-tree indexer and a static-content
//! resolver.
//!
//! The indexer walks a directory tree and records every file and directory
//! as an [`entry::Entry`] in a [`table::Table`] whose paths are unique;
//! recording an already-known path is a silent no-op. The walk is driven as
//! a state machine ([`scanner::Scanner`]): the caller lists directories and
//! hands the listings in, the scanner decides what to record, where to
//! descend next, and when a global ceiling on visited entries stops the run.
//!
//! The resolver ([`resolver`]) maps an incoming request path to an on-disk
//! target: it strips a configured prefix, tries the literal path, and on a
//! miss retries once with `.html` appended.
use vstd::prelude::*;

pub mod entry;
pub mod resolver;
pub mod scanner;
pub mod table;

verus! {

} // verus!
