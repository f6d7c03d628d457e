//! Packs named byte resources into one seekable archive: a sorted index of
//! `(path, offset, length)` triples followed by independently compressed
//! payloads, so that any one resource can be read back without the rest.
pub mod index_serialization;
pub mod path;
pub mod resource_library;
pub mod compression;
pub mod archive;
