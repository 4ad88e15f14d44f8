//! What holds of the model: lookups find what the tree holds, an insertion
//! changes what the tree holds at one key, the enumeration lists every key
//! once, and the order of insertions does not show.

pub mod insert;
pub mod keys;
pub mod lookup;
pub mod runs;
