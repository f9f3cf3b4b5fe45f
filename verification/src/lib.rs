//! The storage layer of a delay queue. A message is stored with the time at
//! which it falls due, under a key whose bytes sort by that time, so that an
//! ordered key-value namespace hands the messages out soonest first.
//!
//! `storage::db_server` holds the keys, the reading of stored entries and the
//! store; `storage::key_text` the text of a key and its order;
//! `storage::lifecycle` what holds of the store from put to delete;
//! `storage::namespace` the ordered namespace that the store keeps in memory;
//! `topic_queue` and `delay_queue` the messages as they are put and as they
//! are fetched.

pub mod delay_queue;
pub mod error;
pub mod storage;
pub mod topic_queue;
