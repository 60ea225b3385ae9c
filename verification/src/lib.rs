//! A partitioned, version-controlled object store.
//!
//! Elements are kept in partitions. Each partition has a history of commits,
//! which may fork and is joined again by merging. A classifier routes elements
//! to partitions by a key, and a partition that has grown too large is divided
//! in two. What is stored in files opens with a checksummed header.
//!
//! - [`detail`]: the file header, read and written, and its checksum;
//! - [`state`]: snapshots, working copies, changes, and the state sum;
//! - [`merge`]: the solvers that reconcile two snapshots;
//! - [`partition`]: the history of one partition;
//! - [`routing`], [`driver`], [`meta`]: the classifier, the bookkeeping behind
//!   it with the division of partitions, and its stored form;
//! - [`repo`]: the partitions of a repository together;
//! - [`sequence`]: elements that are sequences of 64-bit values;
//! - [`idmap`], [`le`]: maps by identifier, and integers as files hold them.

pub mod detail;
pub mod driver;
pub mod idmap;
pub mod le;
pub mod merge;
pub mod meta;
pub mod partition;
pub mod repo;
pub mod routing;
pub mod sequence;
pub mod state;
