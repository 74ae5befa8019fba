//! A hierarchical (multi-level) bit set.
//!
//! A [`BitSet`] tracks a sparse, dynamically growable set of integer
//! positions.  Layer 0 stores one membership bit per position; every coarser
//! layer stores one summary bit per word of the layer below, so testing or
//! updating a position costs one word operation per layer, and draining all
//! set positions skips empty subtrees instead of scanning every word.
//!
//! [`BitSet`]: bit_set::BitSet

pub mod bits;
pub mod layout;
pub mod layer;
pub mod bit_set;
pub mod drain;

pub use bit_set::AtomicBitSet;
pub use bit_set::BitSet;
pub use drain::Drain;
pub use layer::Layer;
pub use layout::bit_set_layout;
pub use layout::round_capacity_up;
pub use layout::LayerLayout;
