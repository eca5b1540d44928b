//! Management of a directory of Architecture Decision Record (ADR) documents:
//! numbering and naming of new records, template substitution, and
//! regeneration of the index document from a directory listing.

pub mod cli;
pub mod gen;
pub mod index;
pub mod scan;
pub mod text;
