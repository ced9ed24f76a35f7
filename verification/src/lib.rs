//! A small registry of fixed-size entities ("kitties") held in a flat
//! key-value store, with per-owner membership tracked by an intrusive
//! doubly-linked list encoded entirely as key-value pairs, and a
//! deterministic byte-wise combination of two parents' payloads.
//!
//! The store itself and the per-owner list live in [`store`] and [`list`];
//! the id allocation, entity storage and breeding rules live in [`pallet`];
//! the bitwise payload combination lives in [`dna`].

use vstd::prelude::*;

mod dna;
mod list;
mod pallet;
mod store;

pub use dna::child_dna;
pub use dna::combine_dna;
pub use dna::combine_dna_spec;
pub use dna::lemma_combine_dna_bits;
pub use list::append_map;
pub use list::back_of;
pub use list::front_of;
pub use list::lemma_append_preserves_links;
pub use list::lemma_append_to_empty;
pub use list::lemma_remove_preserves_links;
pub use list::links_match;
pub use list::node_of;
pub use list::remove_map;
pub use list::OwnedKitties;
pub use pallet::same_state;
pub use pallet::Error;
pub use pallet::Module;
pub use store::LinkStore;
pub use store::NodeKey;

verus! {

/// An entity: a fixed 16-byte payload, never mutated after creation.
#[derive(Clone, Copy)]
pub struct Kitty(pub [u8; 16]);

impl Kitty {
    /// The payload as a mathematical sequence of bytes.
    pub open spec fn view(self) -> Seq<u8> {
        self.0@
    }
}

/// One node of a per-owner linked list.  The node for key `None` is the
/// owner's sentinel; the node for key `Some(id)` is the list element for
/// entity `id`.  An absent record is read as `{ prev: None, next: None }`.
#[derive(Clone, Copy, Debug, PartialEq, Eq)]
pub struct KittyLinkedItem {
    pub prev: Option<u32>,
    pub next: Option<u32>,
}

} // verus!
