//! A persistent backing store for an incremental computation cache: task
//! identities, per-task cached data and a journal of pending operations,
//! kept in four tables and written in atomic snapshots.
pub mod keys;
pub mod table;
pub mod codec;
pub mod items;
pub mod ext_key;
pub mod store;
pub mod laws;
