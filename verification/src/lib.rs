//! An embeddable, ordered, optionally-encrypted key-value storage layer
//! with three caching strategies on top of it.
//!
//! The core pieces are:
//! - an order-preserving byte codec for domain keys and values ([`AdaptToDb`]),
//! - an abstract ordered byte store ([`Store`]) with a verified in-memory
//!   implementation ([`VecStore`]),
//! - a typed persistent table ([`Db`]) over a store, optionally sealing
//!   values with authenticated encryption ([`Encrypt`], [`Aes256Cipher`]),
//! - three cache tables: [`MemTable`] (full mirror), [`LruTable`]
//!   (single-level LRU) and [`SectionLruTable`] (two-level, sectioned LRU).

mod adapt_to_db;
mod be;
mod binary;
mod db;
mod encrypt;
mod error;
mod kv_map;
mod lex;
mod lru_table;
mod mem_table;
mod min_value;
mod section_lru_table;
mod store;
mod update_from;

pub use adapt_to_db::AdaptToDb;
pub use binary::{Binary, Crypted};
pub use db::{Db, DbKeyValue, DbValue, Direction, Iter, IteratorMode};
pub use encrypt::{Aes256Cipher, Encrypt, prepare_nonce};
pub use error::Error;
pub use kv_map::{Aged, KvMap};
pub use lru_table::LruTable;
pub use mem_table::MemTable;
pub use min_value::MinValue;
pub use section_lru_table::SectionLruTable;
pub use store::{FaultStore, Store, StoreContents, VecStore};
pub use update_from::UpdateFrom;
