//! A generic associative container built from first principles: open
//! addressing with linear probing, explicit tombstones, and capacity-doubling
//! growth, with every operation specified against a `Map` model of the table.

pub mod hash_key;
pub mod hash_table;
pub mod hashing;
pub mod laws;
