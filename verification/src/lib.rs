//! Buckets of a map from account keys to lists of slots.
//!
//! A bucket has an index, an open-addressed table with one entry for each key, and data buckets
//! that hold the lists, by length: data bucket `b` has cells for up to `2^b` slots. A table that
//! has no room is replaced by a larger one in two steps: the larger table is made and set aside,
//! and is put in place later.
//!
//! `bucket` is the bucket itself. Its contracts speak of the tables (`bucket_model`) and of the
//! map from keys to lists that they stand for, `BucketModel::contents`. `bucket_growth` says how
//! far tables grow, and `laws` what holds over several operations. `key_laws`, `storage_laws`,
//! `search_laws`, `write_laws` and `growth_laws` say what single operations do, byte by byte and
//! cell by cell.
pub mod bucket;
pub mod bucket_error;
pub mod bucket_growth;
pub mod bucket_item;
pub mod bucket_lemmas;
pub mod bucket_listing;
pub mod bucket_model;
pub mod bucket_owners;
pub mod bucket_stats;
pub mod bucket_storage;
pub mod byte_order;
pub mod growth_laws;
pub mod index_entry;
pub mod key_laws;
pub mod laws;
pub mod outside;
pub mod probe;
pub mod pubkey;
pub mod search_laws;
pub mod storage_laws;
pub mod write_laws;
