//! The capture policy of Shiran: which files of `/proc` and `/sys` are read, how
//! much of them, and what a snapshot records about each.
//!
//! Nothing here touches the disk. A capture is a state machine that names the next
//! thing to look at and takes what was found there.
pub mod bounds;
pub mod budget;
pub mod capture;
pub mod entries;
pub mod entry;
pub mod error;
pub mod fidelity;
pub mod keys;
pub mod leaves;
pub mod listing;
pub mod observation;
pub mod order;
pub mod path;
pub mod protocol;
pub mod snapshot;
pub mod status;
pub mod text;
pub mod tree;
pub mod trees;
pub mod walk;
