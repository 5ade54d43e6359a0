//! Reading git pack files: the object headers, the delta format, the
//! pack checksum and the steps of a pack parse, together with the stored
//! object format and the small pieces of protocol logic that `clone`,
//! `cat-file` and `ls-tree` need.

pub mod commands;
pub mod delta;
pub mod hashing;
pub mod objects;
pub mod packfile;
pub mod pattern;
pub mod varint;
pub mod zlib;
