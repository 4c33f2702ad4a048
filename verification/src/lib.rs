//! Blueprints of directory trees.
//!
//! A blueprint is a single JSON document that describes a directory: its
//! name, the text files in it and, recursively, its sub-directories. This
//! library holds the tree type, the rules by which a directory listing becomes
//! a tree, the document format, and the order of the steps by which a tree is
//! written back to disk. Reading and writing the disk itself is left to the
//! caller.
pub mod blueprint;
pub mod disk;
pub mod document;
pub mod materialize;
pub mod paths;
pub mod repository;
pub mod scan;
pub mod tree;
