//! Verified core of a read-only virtual filesystem for FromSoftware DVDBND
//! archives: BHD5 header parsing, path hashing, file encryption metadata,
//! path components and the compressed trie lookups.

pub mod archives;
pub mod bhd5;
pub mod cli;
pub mod components;
pub mod hash;
pub mod keys;
pub mod libsais;
pub mod mount;
pub mod rsa;
pub mod trie;
pub mod encryption;
pub mod files;
pub mod filesystem;
pub mod unaligned;
