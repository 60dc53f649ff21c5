//! A photo library organiser: catalogue, duplicate detection, reversible
//! removal, slideshow sequencing and metadata-driven renaming.
//!
//! Everything here works on plain values. Paths are text, instants are unix
//! seconds, and whatever has to be read from or written to the outside world is
//! handed in and out by the program around the library.

pub mod app;
pub mod catalog;
pub mod clusters;
pub mod colour;
pub mod dupes;
pub mod engine;
pub mod faces;
pub mod hashing;
pub mod indexer;
pub mod kind;
pub mod metadata;
pub mod order;
pub mod pathname;
pub mod paths;
pub mod pcloud;
pub mod picture;
pub mod quarantine;
pub mod regroup;
pub mod rescan;
pub mod schema;
pub mod single;
pub mod slideshow;
pub mod template;
pub mod text;
pub mod thumbs;
pub mod union_find;
