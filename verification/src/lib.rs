//! A consistent hash ring.
//!
//! A `HashRing` maps an unbounded space of request keys to a small, dynamic
//! set of nodes so that adding or removing a node relocates only a small
//! fraction of the keys. Nodes and keys are placed on the circular key space
//! `[0, 2^64)` by hashing their canonical byte identity; a key is served by
//! the node with the smallest hash at or after the key's hash, wrapping
//! around to the smallest hash overall when none follows.

mod hash;
mod ident;
mod laws;
mod ring;

pub use hash::hash_bytes;
pub use hash::hash_of;
pub use hash::le64;
pub use hash::md5_digest;
pub use ident::dec_rep;
pub use ident::vnode_id;
pub use ident::Identity;
pub use ident::VNode;
pub use laws::lemma_determinism;
pub use laws::lemma_duplicate_tolerance;
pub use laws::lemma_removal_disruption;
pub use laws::lemma_round_trip;
pub use laws::lemma_wrap_around;
pub use ring::distinct_keys;
pub use ring::first_ge_spec;
pub use ring::first_gt_spec;
pub use ring::found;
pub use ring::lemma_add_sorted;
pub use ring::lemma_first_ge_props;
pub use ring::lemma_first_ge_unique;
pub use ring::lemma_first_gt_props;
pub use ring::lemma_first_gt_unique;
pub use ring::lemma_found_at_first_ge;
pub use ring::lemma_remove_sorted;
pub use ring::sorted;
pub use ring::spec_add;
pub use ring::succ_spec;
pub use ring::HashRing;
pub use ring::Node;
