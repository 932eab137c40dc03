//! A hash table with open addressing, per-slot states and incremental resizing.
//!
//! Every slot of a table is `Empty`, a live `Entry`, a `Tombstone` left by a
//! removal, or `Copied` once a resize has moved it to the successor table.
//! A resize hands the old table's slots over to a larger one a range at a time,
//! while lookups consult both tables and writers help the copy along.

pub mod key;
pub mod map;
pub mod probe;
pub mod reclaim;
pub mod slot;
pub mod table;

pub use key::{SeededHash, TableKey};
pub use map::{HashMap, Iter, Keys, OccupiedError, Values};
pub use slot::Slot;
