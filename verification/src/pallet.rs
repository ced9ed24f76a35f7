//! The top-level operations: id allocation with overflow protection,
//! entity storage, and breeding.
//!
//! A failed operation leaves every piece of state exactly as it was; a
//! successful `create` or `do_breed` stores one new entity under the next
//! id, advances the counter by one, and appends the id to the caller's
//! list.
//!
//! The payload handed to `create` and the selector handed to `do_breed`
//! are the fresh, call-unique 16-byte values that the caller draws from
//! the runtime's randomness collaborator; the module takes them as plain
//! inputs and is verified for every value of them.

use vstd::prelude::*;

use crate::dna::child_dna;
use crate::dna::combine_dna;
use crate::dna::combine_dna_spec;
use crate::list::append_map;
use crate::list::OwnedKitties;
use crate::store::KittyStore;
use crate::store::NodeKey;
use crate::Kitty;
use crate::KittyLinkedItem;

verus! {

/// The errors an operation reports; a failing operation changes nothing.
#[derive(Clone, Copy, Debug, PartialEq, Eq, Structural)]
pub enum Error {
    /// The id counter has reached the largest representable id.
    KittiesCountOverflow,
    /// A referenced entity id is not stored.
    InvalidKittyId,
    /// Both breeding parents are the same entity.
    RequireDifferentParent,
}

/// The entity registry: stored payloads, the id counter, and the per-owner
/// membership lists.
pub struct Module {
    kitties: KittyStore,
    kitties_count: u32,
    owned: OwnedKitties,
}

impl Module {
    /// The stored payloads, by id.
    pub closed spec fn kitties_map(self) -> Map<u32, Seq<u8>> {
        self.kitties@
    }

    /// The id counter: the next id to allocate.
    pub closed spec fn count(self) -> u32 {
        self.kitties_count
    }

    /// The ids owned by `owner`, in append order.
    pub closed spec fn owned_list(self, owner: u64) -> Seq<u32> {
        self.owned.list(owner)
    }

    /// The stored linked-list node records.
    pub closed spec fn owned_map(self) -> Map<NodeKey, KittyLinkedItem> {
        self.owned.nodes()
    }

    /// Whether an entity is stored under `kitty_id`.
    pub open spec fn has_kitty(self, kitty_id: u32) -> bool {
        self.kitties_map().contains_key(kitty_id)
    }

    /// Every stored or listed id is below the counter, every payload is 16
    /// bytes, and the lists' records are intact.
    pub closed spec fn wf(self) -> bool {
        &&& self.kitties.wf()
        &&& self.owned.wf()
        &&& forall|o: u64, i: int|
            0 <= i < self.owned_list(o).len() ==> #[trigger] self.owned_list(o)[i]
                < self.kitties_count
        &&& forall|id: u32| #[trigger]
            self.kitties@.dom().contains(id) ==> id < self.kitties_count
        &&& forall|id: u32| #[trigger]
            self.kitties@.dom().contains(id) ==> self.kitties@[id].len() == 16
    }

    pub fn new() -> (r: Self)
        ensures
            r.wf(),
            r.count() == 0,
            r.kitties_map() == Map::<u32, Seq<u8>>::empty(),
            forall|o: u64| r.owned_list(o) == Seq::<u32>::empty(),
            r.owned_map() == Map::<NodeKey, KittyLinkedItem>::empty(),
    {
        Module { kitties: KittyStore::new(), kitties_count: 0, owned: OwnedKitties::new() }
    }

    /// The stored payload for `kitty_id`, if any.
    pub fn kitties(&self, kitty_id: u32) -> (r: Option<Kitty>)
        requires
            self.wf(),
        ensures
            (match r {
                Some(k) => self.kitties_map().contains_key(kitty_id) && k@
                    == self.kitties_map()[kitty_id],
                None => !self.kitties_map().contains_key(kitty_id),
            }),
    {
        self.kitties.get(kitty_id)
    }

    /// The total number of entities ever created: the next id.
    pub fn kitties_count(&self) -> (r: u32)
        ensures
            r == self.count(),
    {
        self.kitties_count
    }

    /// The raw linked-list record stored at `(owner, key)`, if any.
    pub fn owned_kitties(&self, owner: u64, key: Option<u32>) -> (r: Option<KittyLinkedItem>)
        requires
            self.wf(),
        ensures
            r == (if self.owned_map().contains_key((owner, key)) {
                Some(self.owned_map()[(owner, key)])
            } else {
                None::<KittyLinkedItem>
            }),
    {
        self.owned.get(owner, key)
    }

    /// The ids owned by `owner`, front to back.
    pub fn owned_entities(&self, owner: u64) -> (r: Vec<u32>)
        requires
            self.wf(),
        ensures
            r@ == self.owned_list(owner),
    {
        self.owned.enumerate(owner)
    }

    /// The next id to allocate, without mutating state; fails exactly when
    /// the counter has reached the largest representable id.
    pub fn next_kitty_id(&self) -> (r: Result<u32, Error>)
        ensures
            self.count() == u32::MAX ==> r == Err::<u32, Error>(Error::KittiesCountOverflow),
            self.count() < u32::MAX ==> r == Ok::<u32, Error>(self.count()),
    {
        let kitty_id = self.kitties_count;
        if kitty_id == u32::MAX {
            Err(Error::KittiesCountOverflow)
        } else {
            Ok(kitty_id)
        }
    }

    /// Append a freshly allocated `kitty_id` to `owner`'s list.
    pub fn insert_owned_kitty(&mut self, owner: u64, kitty_id: u32)
        requires
            old(self).wf(),
            kitty_id < old(self).count(),
            !old(self).owned_list(owner).contains(kitty_id),
        ensures
            final(self).wf(),
            final(self).count() == old(self).count(),
            final(self).kitties_map() == old(self).kitties_map(),
            final(self).owned_list(owner) == old(self).owned_list(owner).push(kitty_id),
            forall|o: u64| o != owner ==> final(self).owned_list(o) == old(self).owned_list(o),
            final(self).owned_map() == append_map(old(self).owned_map(), owner, kitty_id),
    {
        self.owned.append(owner, kitty_id);
        proof {
            assert forall|o: u64, i: int|
                0 <= i < self.owned_list(o).len() implies #[trigger] self.owned_list(o)[i]
                < self.kitties_count by {
                if o == owner && i == self.owned_list(o).len() - 1 {
                } else {
                    assert(self.owned_list(o)[i] == old(self).owned_list(o)[i]);
                }
            }
        }
    }

    /// Store `kitty` under the freshly allocated `kitty_id` and advance the
    /// counter past it; the id must not be below any id already handed out.
    pub fn insert_kitty(&mut self, owner: u64, kitty_id: u32, kitty: Kitty)
        requires
            old(self).wf(),
            kitty_id >= old(self).count(),
            kitty_id < u32::MAX,
        ensures
            final(self).wf(),
            final(self).count() == kitty_id + 1,
            final(self).kitties_map() == old(self).kitties_map().insert(kitty_id, kitty@),
            final(self).owned_list(owner) == old(self).owned_list(owner).push(kitty_id),
            forall|o: u64| o != owner ==> final(self).owned_list(o) == old(self).owned_list(o),
            final(self).owned_map() == append_map(old(self).owned_map(), owner, kitty_id),
    {
        self.kitties.insert(kitty_id, kitty);
        self.kitties_count = kitty_id + 1;
        proof {
            assert(kitty@.len() == 16);
            assert(self.owned == old(self).owned);
            assert forall|o: u64, i: int|
                0 <= i < self.owned_list(o).len() implies #[trigger] self.owned_list(o)[i]
                < self.kitties_count by {
                assert(self.owned_list(o) == old(self).owned_list(o));
                assert(old(self).owned_list(o)[i] < old(self).kitties_count);
            }
            assert forall|id: u32| #[trigger]
                self.kitties@.dom().contains(id) implies id < self.kitties_count by {
                if id != kitty_id {
                    assert(old(self).kitties@.dom().contains(id));
                }
            }
            assert forall|id: u32| #[trigger]
                self.kitties@.dom().contains(id) implies self.kitties@[id].len() == 16 by {
                if id != kitty_id {
                    assert(old(self).kitties@.dom().contains(id));
                }
            }
            assert(self.wf());
            assert(!self.owned_list(owner).contains(kitty_id)) by {
                if self.owned_list(owner).contains(kitty_id) {
                    let w = choose|w: int|
                        0 <= w < self.owned_list(owner).len() && self.owned_list(owner)[w]
                            == kitty_id;
                    assert(self.owned_list(owner) == old(self).owned_list(owner));
                    assert(old(self).owned_list(owner)[w] < old(self).kitties_count);
                }
            }
        }
        self.insert_owned_kitty(owner, kitty_id);
    }

    /// Create a new entity for `sender` out of the given fresh payload.
    /// Fails exactly when no id is left, leaving all state unchanged.
    pub fn create(&mut self, sender: u64, dna: [u8; 16]) -> (r: Result<(), Error>)
        requires
            old(self).wf(),
        ensures
            final(self).wf(),
            old(self).count() == u32::MAX ==> r == Err::<(), Error>(Error::KittiesCountOverflow)
                && same_state(*old(self), *final(self)),
            old(self).count() < u32::MAX ==> r == Ok::<(), Error>(()) && final(self).count() == old(self).count() + 1 && final(self).kitties_map() == old(self).kitties_map().insert(
                old(self).count(),
                dna@,
            ) && final(self).owned_list(sender) == old(self).owned_list(sender).push(
                old(self).count(),
            ) && (forall|o: u64|
                o != sender ==> final(self).owned_list(o) == old(self).owned_list(o)) && final(self).owned_map() == append_map(old(self).owned_map(), sender, old(self).count()),
    {
        let kitty_id = match self.next_kitty_id() {
            Ok(id) => id,
            Err(e) => {
                return Err(e);
            },
        };
        let kitty = Kitty(dna);
        self.insert_kitty(sender, kitty_id, kitty);
        Ok(())
    }

    /// Breed a new entity for `sender` from two distinct stored parents and
    /// a fresh selector.  Each byte of the child takes the first parent's
    /// bit where the selector bit is set and the second parent's where it
    /// is clear.  Fails — changing nothing — when either parent is not
    /// stored, when the parents are the same id, or when no id is left.
    pub fn do_breed(
        &mut self,
        sender: u64,
        kitty_id_1: u32,
        kitty_id_2: u32,
        selector: [u8; 16],
    ) -> (r: Result<(), Error>)
        requires
            old(self).wf(),
        ensures
            final(self).wf(),
            !old(self).has_kitty(kitty_id_1) || !old(self).has_kitty(kitty_id_2) ==> r == Err::<
                (),
                Error,
            >(Error::InvalidKittyId) && same_state(*old(self), *final(self)),
            old(self).has_kitty(kitty_id_1) && old(self).has_kitty(kitty_id_2) && kitty_id_1
                == kitty_id_2 ==> r == Err::<(), Error>(Error::RequireDifferentParent)
                && same_state(*old(self), *final(self)),
            old(self).has_kitty(kitty_id_1) && old(self).has_kitty(kitty_id_2) && kitty_id_1
                != kitty_id_2 && old(self).count() == u32::MAX ==> r == Err::<(), Error>(
                Error::KittiesCountOverflow,
            ) && same_state(*old(self), *final(self)),
            old(self).has_kitty(kitty_id_1) && old(self).has_kitty(kitty_id_2) && kitty_id_1
                != kitty_id_2 && old(self).count() < u32::MAX ==> r == Ok::<(), Error>(())
                && final(self).count() == old(self).count() + 1 && final(self).kitties_map() == old(self).kitties_map().insert(
                old(self).count(),
                child_dna(
                    old(self).kitties_map()[kitty_id_1],
                    old(self).kitties_map()[kitty_id_2],
                    selector@,
                ),
            ) && final(self).owned_list(sender) == old(self).owned_list(sender).push(
                old(self).count(),
            ) && (forall|o: u64|
                o != sender ==> final(self).owned_list(o) == old(self).owned_list(o)) && final(self).owned_map() == append_map(old(self).owned_map(), sender, old(self).count()),
    {
        let kitty1 = match self.kitties.get(kitty_id_1) {
            Some(k) => k,
            None => {
                return Err(Error::InvalidKittyId);
            },
        };
        let kitty2 = match self.kitties.get(kitty_id_2) {
            Some(k) => k,
            None => {
                return Err(Error::InvalidKittyId);
            },
        };
        if kitty_id_1 == kitty_id_2 {
            return Err(Error::RequireDifferentParent);
        }
        let kitty_id = match self.next_kitty_id() {
            Ok(id) => id,
            Err(e) => {
                return Err(e);
            },
        };

        let kitty1_dna = kitty1.0;
        let kitty2_dna = kitty2.0;
        let mut new_dna: [u8; 16] = [0u8; 16];
        let mut i: usize = 0;
        while i < 16
            invariant
                i <= 16,
                forall|j: int|
                    0 <= j < i ==> #[trigger] new_dna@[j] == combine_dna_spec(
                        kitty1_dna@[j],
                        kitty2_dna@[j],
                        selector@[j],
                    ),
            decreases 16 - i,
        {
            new_dna[i] = combine_dna(kitty1_dna[i], kitty2_dna[i], selector[i]);
            i = i + 1;
        }
        proof {
            assert(new_dna@ =~= child_dna(
                old(self).kitties_map()[kitty_id_1],
                old(self).kitties_map()[kitty_id_2],
                selector@,
            ));
        }
        self.insert_kitty(sender, kitty_id, Kitty(new_dna));
        Ok(())
    }
}

/// Both states hold the same counter, payloads, lists and node records.
pub open spec fn same_state(a: Module, b: Module) -> bool {
    &&& b.count() == a.count()
    &&& b.kitties_map() == a.kitties_map()
    &&& b.owned_map() == a.owned_map()
    &&& forall|o: u64| b.owned_list(o) == a.owned_list(o)
}

} // verus!
