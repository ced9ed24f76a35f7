//! Flat key-value storage, modelled as a `Map` in specifications.
//!
//! Two stores back the library: [`LinkStore`] keeps the linked-list nodes,
//! keyed by `(owner, Option<id>)`, and [`KittyStore`] keeps the entity
//! payloads, keyed by id.  Both are association vectors with unique keys;
//! their abstract view is the map folded from the entries.

use vstd::prelude::*;

use crate::Kitty;
use crate::KittyLinkedItem;

verus! {

/// A linked-list storage key: the owner's account together with either
/// `None` (that owner's sentinel node) or `Some(id)` (the node of entity
/// `id`).
pub type NodeKey = (u64, Option<u32>);

/// The map folded from a sequence of key-value entries; a later entry for
/// the same key wins.
pub open spec fn entries_map<K, V>(s: Seq<(K, V)>) -> Map<K, V>
    decreases s.len(),
{
    if s.len() == 0 {
        Map::empty()
    } else {
        entries_map(s.drop_last()).insert(s.last().0, s.last().1)
    }
}

/// No two entries share a key.
pub open spec fn keys_unique<K, V>(s: Seq<(K, V)>) -> bool {
    forall|i: int, j: int| 0 <= i < j < s.len() ==> (#[trigger] s[i]).0 != (#[trigger] s[j]).0
}

/// A key is in the folded map exactly when some entry carries it.
proof fn lemma_entries_map_dom<K, V>(s: Seq<(K, V)>, k: K)
    ensures
        entries_map(s).dom().contains(k) <==> exists|i: int|
            0 <= i < s.len() && (#[trigger] s[i]).0 == k,
    decreases s.len(),
{
    if s.len() > 0 {
        lemma_entries_map_dom(s.drop_last(), k);
        if s.last().0 == k {
            assert(s[s.len() - 1].0 == k);
        } else if entries_map(s).dom().contains(k) {
            let i = choose|i: int| 0 <= i < s.drop_last().len() && (#[trigger] s.drop_last()[i]).0 == k;
            assert(s[i].0 == k);
        } else {
            assert forall|i: int| 0 <= i < s.len() implies (#[trigger] s[i]).0 != k by {
                if i < s.len() - 1 {
                    assert(s.drop_last()[i] == s[i]);
                }
            }
        }
    }
}

/// With unique keys, the folded map sends each entry's key to its value.
proof fn lemma_entries_map_index<K, V>(s: Seq<(K, V)>, i: int)
    requires
        keys_unique(s),
        0 <= i < s.len(),
    ensures
        entries_map(s).dom().contains(s[i].0),
        entries_map(s)[s[i].0] == s[i].1,
    decreases s.len(),
{
    if i < s.len() - 1 {
        assert(keys_unique(s.drop_last())) by {
            assert forall|a: int, b: int|
                0 <= a < b < s.drop_last().len() implies (#[trigger] s.drop_last()[a]).0 != (
            #[trigger] s.drop_last()[b]).0 by {
                assert(s[a] == s.drop_last()[a]);
                assert(s[b] == s.drop_last()[b]);
            }
        }
        lemma_entries_map_index(s.drop_last(), i);
        assert(s.drop_last()[i] == s[i]);
        assert(s[i].0 != s[s.len() - 1].0);
    }
}

/// Replacing the value at one index updates the folded map at that key.
proof fn lemma_entries_map_update<K, V>(s: Seq<(K, V)>, i: int, v: V)
    requires
        keys_unique(s),
        0 <= i < s.len(),
    ensures
        keys_unique(s.update(i, (s[i].0, v))),
        entries_map(s.update(i, (s[i].0, v))) == entries_map(s).insert(s[i].0, v),
    decreases s.len(),
{
    let t = s.update(i, (s[i].0, v));
    assert(keys_unique(t)) by {
        assert forall|a: int, b: int|
            0 <= a < b < t.len() implies (#[trigger] t[a]).0 != (#[trigger] t[b]).0 by {
            assert(t[a].0 == s[a].0);
            assert(t[b].0 == s[b].0);
        }
    }
    if i == s.len() - 1 {
        assert(t.drop_last() =~= s.drop_last());
        assert(entries_map(t) =~= entries_map(s).insert(s[i].0, v));
    } else {
        assert(keys_unique(s.drop_last())) by {
            assert forall|a: int, b: int|
                0 <= a < b < s.drop_last().len() implies (#[trigger] s.drop_last()[a]).0 != (
            #[trigger] s.drop_last()[b]).0 by {
                assert(s[a] == s.drop_last()[a]);
                assert(s[b] == s.drop_last()[b]);
            }
        }
        lemma_entries_map_update(s.drop_last(), i, v);
        assert(t.drop_last() =~= s.drop_last().update(i, (s[i].0, v)));
        assert(s.drop_last()[i] == s[i]);
        assert(t.last() == s.last());
        // The two inserts commute because the keys differ.
        assert(s[i].0 != s.last().0);
        assert(entries_map(t) =~= entries_map(s).insert(s[i].0, v));
    }
}

/// Appending an entry with a fresh key inserts it into the folded map.
proof fn lemma_entries_map_push<K, V>(s: Seq<(K, V)>, k: K, v: V)
    requires
        keys_unique(s),
        forall|i: int| 0 <= i < s.len() ==> (#[trigger] s[i]).0 != k,
    ensures
        keys_unique(s.push((k, v))),
        entries_map(s.push((k, v))) == entries_map(s).insert(k, v),
{
    let t = s.push((k, v));
    assert(keys_unique(t)) by {
        assert forall|a: int, b: int|
            0 <= a < b < t.len() implies (#[trigger] t[a]).0 != (#[trigger] t[b]).0 by {
            assert(t[a] == s[a]);
            if b < s.len() {
                assert(t[b] == s[b]);
            }
        }
    }
    assert(t.drop_last() =~= s);
    assert(t.last() == (k, v));
}

/// Removing the entry at one index removes its key from the folded map.
proof fn lemma_entries_map_remove<K, V>(s: Seq<(K, V)>, i: int)
    requires
        keys_unique(s),
        0 <= i < s.len(),
    ensures
        keys_unique(s.remove(i)),
        entries_map(s.remove(i)) == entries_map(s).remove(s[i].0),
    decreases s.len(),
{
    let t = s.remove(i);
    assert(keys_unique(t)) by {
        assert forall|a: int, b: int|
            0 <= a < b < t.len() implies (#[trigger] t[a]).0 != (#[trigger] t[b]).0 by {
            assert(t[a] == (if a < i { s[a] } else { s[a + 1] }));
            assert(t[b] == (if b < i { s[b] } else { s[b + 1] }));
        }
    }
    assert(keys_unique(s.drop_last())) by {
        assert forall|a: int, b: int|
            0 <= a < b < s.drop_last().len() implies (#[trigger] s.drop_last()[a]).0 != (
        #[trigger] s.drop_last()[b]).0 by {
            assert(s[a] == s.drop_last()[a]);
            assert(s[b] == s.drop_last()[b]);
        }
    }
    if i == s.len() - 1 {
        assert(t =~= s.drop_last());
        // The removed key does not occur among the earlier entries, so
        // removing it from the folded map of those entries changes nothing.
        lemma_entries_map_dom(s.drop_last(), s[i].0);
        assert(forall|a: int|
            0 <= a < s.drop_last().len() ==> (#[trigger] s.drop_last()[a]).0 != s[i].0) by {
            assert forall|a: int|
                0 <= a < s.drop_last().len() implies (#[trigger] s.drop_last()[a]).0 != s[i].0 by {
                assert(s.drop_last()[a] == s[a]);
            }
        }
        assert(entries_map(t) =~= entries_map(s).remove(s[i].0));
    } else {
        lemma_entries_map_remove(s.drop_last(), i);
        assert(t.drop_last() =~= s.drop_last().remove(i));
        assert(t.last() == s.last());
        assert(s.drop_last()[i] == s[i]);
        assert(s[i].0 != s.last().0);
        assert(entries_map(t) =~= entries_map(s).remove(s[i].0));
    }
}

/// Two `Option<u32>` values are equal exactly when this returns true.
pub(crate) fn opt_eq(a: Option<u32>, b: Option<u32>) -> (r: bool)
    ensures
        r == (a == b),
{
    match (a, b) {
        (None, None) => true,
        (Some(x), Some(y)) => x == y,
        _ => false,
    }
}

/// The store of linked-list nodes: a map from `(owner, Option<id>)` to the
/// node record stored there.
pub struct LinkStore {
    entries: Vec<(NodeKey, KittyLinkedItem)>,
}

impl View for LinkStore {
    type V = Map<NodeKey, KittyLinkedItem>;

    closed spec fn view(&self) -> Map<NodeKey, KittyLinkedItem> {
        entries_map(self.entries@)
    }
}

impl LinkStore {
    /// Entries never repeat a key.
    pub closed spec fn wf(self) -> bool {
        keys_unique(self.entries@)
    }

    pub fn new() -> (r: Self)
        ensures
            r.wf(),
            r@ == Map::<NodeKey, KittyLinkedItem>::empty(),
    {
        LinkStore { entries: Vec::new() }
    }

    /// The index of the entry for `(owner, key)`, if one is stored.
    fn find(&self, owner: u64, key: Option<u32>) -> (r: Option<usize>)
        ensures
            (match r {
                Some(i) => 0 <= i < self.entries@.len() && self.entries@[i as int].0 == (
                owner,
                key,
                ),
                None => forall|i: int|
                    0 <= i < self.entries@.len() ==> (#[trigger] self.entries@[i]).0 != (
                    owner,
                    key,
                    ),
            }),
    {
        let n = self.entries.len();
        let mut idx: usize = 0;
        while idx < n
            invariant
                n == self.entries@.len(),
                idx <= n,
                forall|i: int|
                    0 <= i < idx ==> (#[trigger] self.entries@[i]).0 != (owner, key),
            decreases n - idx,
        {
            let e = self.entries[idx];
            if e.0.0 == owner && opt_eq(e.0.1, key) {
                return Some(idx);
            }
            idx = idx + 1;
        }
        None
    }

    /// The record stored at `(owner, key)`, if any.
    pub fn get(&self, owner: u64, key: Option<u32>) -> (r: Option<KittyLinkedItem>)
        requires
            self.wf(),
        ensures
            r == (if self@.contains_key((owner, key)) {
                Some(self@[(owner, key)])
            } else {
                None::<KittyLinkedItem>
            }),
    {
        proof {
            lemma_entries_map_dom(self.entries@, (owner, key));
        }
        match self.find(owner, key) {
            Some(i) => {
                proof {
                    lemma_entries_map_index(self.entries@, i as int);
                }
                Some(self.entries[i].1)
            },
            None => None,
        }
    }

    /// Store `item` at `(owner, key)`, replacing any record there.
    pub fn insert(&mut self, owner: u64, key: Option<u32>, item: KittyLinkedItem)
        requires
            old(self).wf(),
        ensures
            final(self).wf(),
            final(self)@ == old(self)@.insert((owner, key), item),
    {
        match self.find(owner, key) {
            Some(i) => {
                proof {
                    lemma_entries_map_update(self.entries@, i as int, item);
                }
                self.entries[i] = ((owner, key), item);
            },
            None => {
                proof {
                    lemma_entries_map_push(self.entries@, (owner, key), item);
                }
                self.entries.push(((owner, key), item));
            },
        }
    }

    /// Remove and return the record stored at `(owner, key)`, if any.
    pub fn take(&mut self, owner: u64, key: Option<u32>) -> (r: Option<KittyLinkedItem>)
        requires
            old(self).wf(),
        ensures
            final(self).wf(),
            r == (if old(self)@.contains_key((owner, key)) {
                Some(old(self)@[(owner, key)])
            } else {
                None::<KittyLinkedItem>
            }),
            final(self)@ == old(self)@.remove((owner, key)),
            !old(self)@.contains_key((owner, key)) ==> final(self)@ == old(self)@,
    {
        proof {
            lemma_entries_map_dom(self.entries@, (owner, key));
        }
        match self.find(owner, key) {
            Some(i) => {
                proof {
                    lemma_entries_map_index(self.entries@, i as int);
                    lemma_entries_map_remove(self.entries@, i as int);
                }
                let e = self.entries.remove(i);
                Some(e.1)
            },
            None => {
                proof {
                    assert(old(self)@.remove((owner, key)) =~= old(self)@);
                }
                None
            },
        }
    }
}

/// The pairs of a payload store, with each payload taken as its byte
/// sequence.
pub open spec fn kitty_pairs(s: Seq<(u32, Kitty)>) -> Seq<(u32, Seq<u8>)> {
    s.map_values(|p: (u32, Kitty)| (p.0, p.1@))
}

/// The store of entity payloads: a map from entity id to its 16 bytes.
pub struct KittyStore {
    entries: Vec<(u32, Kitty)>,
}

impl View for KittyStore {
    type V = Map<u32, Seq<u8>>;

    closed spec fn view(&self) -> Map<u32, Seq<u8>> {
        entries_map(kitty_pairs(self.entries@))
    }
}

impl KittyStore {
    /// Entries never repeat an id.
    pub closed spec fn wf(self) -> bool {
        keys_unique(kitty_pairs(self.entries@))
    }

    pub fn new() -> (r: Self)
        ensures
            r.wf(),
            r@ == Map::<u32, Seq<u8>>::empty(),
    {
        KittyStore { entries: Vec::new() }
    }

    /// The index of the entry for `kitty_id`, if one is stored.
    fn find(&self, kitty_id: u32) -> (r: Option<usize>)
        ensures
            (match r {
                Some(i) => 0 <= i < self.entries@.len() && self.entries@[i as int].0 == kitty_id,
                None => forall|i: int|
                    0 <= i < self.entries@.len() ==> (#[trigger] self.entries@[i]).0 != kitty_id,
            }),
    {
        let n = self.entries.len();
        let mut idx: usize = 0;
        while idx < n
            invariant
                n == self.entries@.len(),
                idx <= n,
                forall|i: int| 0 <= i < idx ==> (#[trigger] self.entries@[i]).0 != kitty_id,
            decreases n - idx,
        {
            if self.entries[idx].0 == kitty_id {
                return Some(idx);
            }
            idx = idx + 1;
        }
        None
    }

    /// The payload stored for `kitty_id`, if any.
    pub fn get(&self, kitty_id: u32) -> (r: Option<Kitty>)
        requires
            self.wf(),
        ensures
            (match r {
                Some(k) => self@.contains_key(kitty_id) && k@ == self@[kitty_id],
                None => !self@.contains_key(kitty_id),
            }),
    {
        proof {
            lemma_entries_map_dom(kitty_pairs(self.entries@), kitty_id);
        }
        match self.find(kitty_id) {
            Some(i) => {
                proof {
                    lemma_entries_map_index(kitty_pairs(self.entries@), i as int);
                }
                Some(self.entries[i].1)
            },
            None => {
                proof {
                    assert(forall|i: int|
                        0 <= i < kitty_pairs(self.entries@).len() ==> (#[trigger] kitty_pairs(
                            self.entries@,
                        )[i]).0 != kitty_id);
                }
                None
            },
        }
    }

    /// Store `kitty` at `kitty_id`, replacing any payload there.
    pub fn insert(&mut self, kitty_id: u32, kitty: Kitty)
        requires
            old(self).wf(),
        ensures
            final(self).wf(),
            final(self)@ == old(self)@.insert(kitty_id, kitty@),
    {
        match self.find(kitty_id) {
            Some(i) => {
                proof {
                    lemma_entries_map_update(kitty_pairs(self.entries@), i as int, kitty@);
                    assert(kitty_pairs(self.entries@.update(i as int, (kitty_id, kitty))) =~= kitty_pairs(
                        self.entries@,
                    ).update(i as int, (kitty_id, kitty@)));
                }
                self.entries[i] = (kitty_id, kitty);
            },
            None => {
                proof {
                    lemma_entries_map_push(kitty_pairs(self.entries@), kitty_id, kitty@);
                    assert(kitty_pairs(self.entries@.push((kitty_id, kitty))) =~= kitty_pairs(
                        self.entries@,
                    ).push((kitty_id, kitty@)));
                }
                self.entries.push((kitty_id, kitty));
            },
        }
    }
}

} // verus!
