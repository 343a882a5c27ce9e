//! Open-addressing hash tables of `u32` keys and `u32` values with linear
//! probing, in three flavours: a plain table without removal, a table with
//! tombstone removal, an item counter and load-factor driven growth, and a
//! growing table whose load is recomputed by scanning its slots.

pub mod hashing;
pub mod probe;
pub mod chain;
pub mod load_factor;
pub mod growing;
pub mod hash_table;
pub mod hash_table_restriction1;
pub mod hash_table_restrict;
