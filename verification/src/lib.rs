//! A hash table with separate chaining: buckets of (key, value) pairs,
//! load-factor-triggered doubling, an entry API for get-or-insert, and
//! borrowed-key lookup through an explicit hashing/equality capability.

pub mod key;
pub mod table;

pub use key::LookupKey;
pub use key::TableKey;
pub use table::Entry;
pub use table::HashMap;
pub use table::Iter;
pub use table::OccupiedEntry;
pub use table::VacantEntry;
