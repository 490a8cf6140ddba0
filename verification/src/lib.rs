//! A consistent-hashing ring: tags are expanded into a fixed number of
//! virtual positions on a ring of fixed size, and an arbitrary request key
//! selects the owner of the first bucket at or after the key, wrapping
//! around to the smallest position when the key exceeds every stored one.

pub mod model;
pub mod ring;

pub use ring::Ring;
pub use ring::RingEntry;
pub use ring::RingError;
pub use model::REPLICAS;
pub use model::RING_MOD;
