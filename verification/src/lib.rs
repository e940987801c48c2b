//! A hash map built from first principles: buckets chosen by the keys' hashes, a chain of
//! entries in each bucket, and a table that doubles before it gets too full.
//!
//! ```
//! let mut map = mediocremap::MediocreMap::new();
//! map.insert("tk1", "tv1");
//! map.insert("tk2", "tv2");
//!
//! map.remove(&"tk1");
//! assert_eq!(map.get(&"tk1"), None);
//! assert_eq!(map.get(&"tk2"), Some(&"tv2"));
//! ```
//!
//! The operations are specified twice over. To its users a map is its view, a
//! `Map` from the keys' views to the values, and the number of its buckets: see
//! [`model`]. Beneath that, [`table`] says what each operation does to the chains, which
//! fixes the order of a traversal too. [`laws`] states what follows for every map.

pub mod chain;
pub mod construct;
pub mod key;
pub mod laws;
pub mod map;
pub mod model;
pub mod table;

pub use key::Key;
pub use map::MediocreMap;
