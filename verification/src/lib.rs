//! A hash table with separate chaining: an array of buckets, each an ordered
//! list of key-value pairs, that doubles when three quarters of it are in use.
//!
//! The table is a [`HashMap`]; its mathematical value is a `Map` from the views
//! of its keys to its values. Keys implement [`Key`], lookups take any
//! [`Equivalent`] of the key type.

pub mod entry;
pub mod growth;
pub mod iter;
pub mod key;
pub mod laws;
pub mod model;
pub mod order;
pub mod table;

pub use entry::Entry;
pub use entry::OccupiedEntry;
pub use entry::VacantEntry;
pub use iter::IntoIter;
pub use iter::Iter;
pub use key::Equivalent;
pub use key::Key;
pub use table::HashMap;
