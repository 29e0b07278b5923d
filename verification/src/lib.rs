//! A consistent-hashing ring: owners are placed on a circle of digests through
//! virtual nodes, and a key belongs to the owner of the first virtual node at
//! or after the key's digest.

pub mod digest;
pub mod key;
pub mod node;
pub mod order;
pub mod placement;
pub mod ring;
pub mod vnode;

pub use crate::digest::hash_key;
pub use crate::node::Node;
pub use crate::ring::Ring;
pub use crate::ring::VNodes;
pub use crate::vnode::VNode;
