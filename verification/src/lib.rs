//! A hash map with one writer and many readers.
//!
//! The table is a power of two of buckets. A bucket is a list that starts with a
//! sentinel and holds its keys in split order, that is, ordered by the reversed
//! bits of their hash codes ([`bits`], [`layout`]). Nodes live in an arena
//! ([`arena`]), and what leaves a list is handed over to a memory manager
//! ([`hazard`]). [`map`] and [`search`] have the operations, with their contracts;
//! [`laws`] says what follows across calls.
//!
//! [`reader`] is the walk of a reader, access by access, and [`trail`] notes that a
//! search is such a walk, for which [`keeper`] asks the memory manager. [`protocol`] shows it safe against a writer that is at work
//! meanwhile, and [`shared`] shows that what it finds was stored in the course of its
//! search. [`listing`] says that the lists are in order at every moment, and [`pursuit`]
//! when a search cannot miss its key.

pub mod arena;
pub mod bits;
pub mod hash_key;
pub mod hazard;
pub mod keeper;
pub mod laws;
pub mod layout;
pub mod listing;
pub mod map;
pub mod node;
pub mod protocol;
pub mod pursuit;
pub mod reader;
pub mod search;
pub mod shared;
pub mod trail;
