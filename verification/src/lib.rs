//! A minimal version-control core: a content-addressed object store,
//! a flat staging index, and a working-tree status report, all specified
//! over byte sequences.
//!
//! Contents, repository-relative paths, and hexadecimal digests are all
//! modelled as byte vectors; the surrounding command-line program owns the
//! file handling and feeds plain values in and out.

pub mod bytes;
pub mod digest;
pub mod head;
pub mod index;
pub mod object;
pub mod repo;
pub mod status;
