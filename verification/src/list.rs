//! The per-owner membership list: an intrusive doubly-linked list encoded
//! entirely as node records in the flat store.
//!
//! The node at key `None` is the owner's sentinel.  Its `next` field points
//! at the first element of forward traversal (the earliest append still
//! present) and its `prev` field is reused as a tail cursor, pointing at the
//! latest append, so that appends are O(1).  [`links_match`] states the
//! integrity invariant: traversal from the sentinel enumerates exactly the
//! owned ids, once each, and every `prev` field reproduces the reverse of
//! the forward order.

use vstd::prelude::*;

use crate::store::LinkStore;
use crate::store::NodeKey;
use crate::KittyLinkedItem;

verus! {

/// The node read at `(owner, key)`: the stored record, or the all-`None`
/// default where none is stored.
pub open spec fn node_of(
    m: Map<NodeKey, KittyLinkedItem>,
    owner: u64,
    key: Option<u32>,
) -> KittyLinkedItem {
    if m.dom().contains((owner, key)) {
        m[(owner, key)]
    } else {
        KittyLinkedItem { prev: None, next: None }
    }
}

/// The first element of a list, as a pointer value.
pub open spec fn front_of(s: Seq<u32>) -> Option<u32> {
    if s.len() == 0 {
        None
    } else {
        Some(s[0])
    }
}

/// The last element of a list, as a pointer value.
pub open spec fn back_of(s: Seq<u32>) -> Option<u32> {
    if s.len() == 0 {
        None
    } else {
        Some(s[s.len() - 1])
    }
}

/// The node records of `owner` encode exactly the list `s`:
/// no id repeats; the sentinel's `next` points at the front and its `prev`
/// at the back; every listed id has a stored node whose `prev` and `next`
/// are its neighbours in `s`; and no node is stored for an unlisted id.
pub open spec fn links_match(m: Map<NodeKey, KittyLinkedItem>, owner: u64, s: Seq<u32>) -> bool {
    &&& s.no_duplicates()
    &&& node_of(m, owner, None).next == front_of(s)
    &&& node_of(m, owner, None).prev == back_of(s)
    &&& forall|i: int| 0 <= i < s.len() ==> m.dom().contains((owner, Some(#[trigger] s[i])))
    &&& forall|i: int|
        0 <= i < s.len() ==> node_of(m, owner, Some(#[trigger] s[i])).prev == (if i == 0 {
            None::<u32>
        } else {
            Some(s[i - 1])
        })
    &&& forall|i: int|
        0 <= i < s.len() ==> node_of(m, owner, Some(#[trigger] s[i])).next == (if i == s.len()
            - 1 {
            None::<u32>
        } else {
            Some(s[i + 1])
        })
    &&& forall|k: u32| m.dom().contains((owner, Some(k))) ==> s.contains(k)
}

/// The store after appending `kitty_id` for `owner`: the sentinel is
/// rewritten to point back at the new id, the former tail (read after the
/// sentinel write, so in an empty list it is the fresh sentinel itself) is
/// rewritten to point forward at it, and the new node is written last.
pub open spec fn append_map(m: Map<NodeKey, KittyLinkedItem>, owner: u64, kitty_id: u32) -> Map<
    NodeKey,
    KittyLinkedItem,
> {
    let head = node_of(m, owner, None);
    let m1 = m.insert((owner, None), KittyLinkedItem { prev: Some(kitty_id), next: head.next });
    let p = node_of(m1, owner, head.prev);
    let m2 = m1.insert(
        (owner, head.prev),
        KittyLinkedItem { prev: p.prev, next: Some(kitty_id) },
    );
    m2.insert((owner, Some(kitty_id)), KittyLinkedItem { prev: head.prev, next: None })
}

/// The store after removing `kitty_id` for `owner`: where no node is stored
/// the store is unchanged; otherwise the node is taken out and each
/// neighbour (the sentinel where a pointer is `None`) is rewritten to skip
/// it.
pub open spec fn remove_map(m: Map<NodeKey, KittyLinkedItem>, owner: u64, kitty_id: u32) -> Map<
    NodeKey,
    KittyLinkedItem,
> {
    if m.dom().contains((owner, Some(kitty_id))) {
        let item = m[(owner, Some(kitty_id))];
        let m0 = m.remove((owner, Some(kitty_id)));
        let prev = node_of(m0, owner, item.prev);
        let m1 = m0.insert((owner, item.prev), KittyLinkedItem { prev: prev.prev, next: item.next });
        let next = node_of(m1, owner, item.next);
        m1.insert((owner, item.next), KittyLinkedItem { prev: item.prev, next: next.next })
    } else {
        m
    }
}

/// Appending a fresh id preserves list integrity, and the list grows by
/// that id at the back of forward-traversal order.
pub proof fn lemma_append_preserves_links(
    m: Map<NodeKey, KittyLinkedItem>,
    owner: u64,
    s: Seq<u32>,
    kitty_id: u32,
)
    requires
        links_match(m, owner, s),
        !s.contains(kitty_id),
    ensures
        links_match(append_map(m, owner, kitty_id), owner, s.push(kitty_id)),
{
    let s2 = s.push(kitty_id);
    let head = node_of(m, owner, None);
    let m1 = m.insert((owner, None), KittyLinkedItem { prev: Some(kitty_id), next: head.next });
    let p = node_of(m1, owner, head.prev);
    let m2 = m1.insert(
        (owner, head.prev),
        KittyLinkedItem { prev: p.prev, next: Some(kitty_id) },
    );
    let m3 = m2.insert((owner, Some(kitty_id)), KittyLinkedItem { prev: head.prev, next: None });
    assert(append_map(m, owner, kitty_id) == m3);
    assert(forall|i: int| 0 <= i < s.len() ==> s[i] != kitty_id);
    assert(s2.no_duplicates()) by {
        assert forall|a: int, b: int|
            0 <= a < s2.len() && 0 <= b < s2.len() && a != b implies s2[a] != s2[b] by {
            if a < s.len() && b < s.len() {
                assert(s2[a] == s[a] && s2[b] == s[b]);
            } else if a < s.len() {
                assert(s2[a] == s[a] && s2[b] == kitty_id);
            } else {
                assert(s2[a] == kitty_id && s2[b] == s[b]);
            }
        }
    }
    if s.len() == 0 {
        assert(head.prev == None::<u32> && head.next == None::<u32>);
        assert(p == (KittyLinkedItem { prev: Some(kitty_id), next: None }));
        assert(node_of(m3, owner, None) == (KittyLinkedItem {
            prev: Some(kitty_id),
            next: Some(kitty_id),
        }));
        assert(node_of(m3, owner, Some(kitty_id)) == (KittyLinkedItem { prev: None, next: None }));
        assert(s2[0] == kitty_id);
        assert forall|i: int| 0 <= i < s2.len() implies m3.dom().contains(
            (owner, Some(#[trigger] s2[i])),
        ) by {
            assert(s2[i] == kitty_id);
        }
        assert forall|i: int|
            0 <= i < s2.len() implies node_of(m3, owner, Some(#[trigger] s2[i])).prev == (if i
                == 0 {
                None::<u32>
            } else {
                Some(s2[i - 1])
            }) by {
            assert(s2[i] == kitty_id);
        }
        assert forall|i: int|
            0 <= i < s2.len() implies node_of(m3, owner, Some(#[trigger] s2[i])).next == (if i
                == s2.len() - 1 {
                None::<u32>
            } else {
                Some(s2[i + 1])
            }) by {
            assert(s2[i] == kitty_id);
        }
        assert forall|k: u32| m3.dom().contains((owner, Some(k))) implies s2.contains(k) by {
            if k != kitty_id {
                assert(m.dom().contains((owner, Some(k))));
                assert(s.contains(k));
                assert(false);
            } else {
                assert(s2[0] == kitty_id);
            }
        }
    } else {
        let n = s.len() as int;
        assert(head.next == Some(s[0]) && head.prev == Some(s[n - 1]));
        let t = s[n - 1];
        assert(t != kitty_id);
        assert(p == node_of(m, owner, Some(t)));
        assert(p.prev == (if n == 1 {
            None::<u32>
        } else {
            Some(s[n - 2])
        }));
        assert(node_of(m3, owner, None) == (KittyLinkedItem {
            prev: Some(kitty_id),
            next: Some(s[0]),
        }));
        assert(node_of(m3, owner, Some(t)) == (KittyLinkedItem {
            prev: p.prev,
            next: Some(kitty_id),
        }));
        assert(node_of(m3, owner, Some(kitty_id)) == (KittyLinkedItem {
            prev: Some(t),
            next: None,
        }));
        assert(front_of(s2) == Some(s[0]) && back_of(s2) == Some(kitty_id));
        assert forall|i: int| 0 <= i < s2.len() implies m3.dom().contains(
            (owner, Some(#[trigger] s2[i])),
        ) by {
            if i < n {
                assert(s2[i] == s[i]);
                assert(m.dom().contains((owner, Some(s[i]))));
                assert(m3.dom().contains((owner, Some(s[i]))));
            } else {
                assert(s2[i] == kitty_id);
            }
        }
        assert forall|i: int|
            0 <= i < s2.len() implies node_of(m3, owner, Some(#[trigger] s2[i])).prev == (if i
                == 0 {
                None::<u32>
            } else {
                Some(s2[i - 1])
            }) by {
            if i == n {
                assert(s2[i] == kitty_id && s2[i - 1] == t);
            } else if i == n - 1 {
                assert(s2[i] == t);
            } else {
                assert(s2[i] == s[i] && s[i] != t && s[i] != kitty_id);
                assert(node_of(m3, owner, Some(s[i])) == node_of(m, owner, Some(s[i])));
            }
        }
        assert forall|i: int|
            0 <= i < s2.len() implies node_of(m3, owner, Some(#[trigger] s2[i])).next == (if i
                == s2.len() - 1 {
                None::<u32>
            } else {
                Some(s2[i + 1])
            }) by {
            if i == n {
                assert(s2[i] == kitty_id);
            } else if i == n - 1 {
                assert(s2[i] == t && s2[i + 1] == kitty_id);
            } else {
                assert(s2[i] == s[i] && s[i] != t && s[i] != kitty_id);
                assert(node_of(m3, owner, Some(s[i])) == node_of(m, owner, Some(s[i])));
                assert(s2[i + 1] == s[i + 1]);
            }
        }
        assert forall|k: u32| m3.dom().contains((owner, Some(k))) implies s2.contains(k) by {
            if k == kitty_id {
                assert(s2[n] == kitty_id);
            } else {
                assert(m.dom().contains((owner, Some(k))));
                assert(s.contains(k));
                let w = choose|w: int| 0 <= w < s.len() && s[w] == k;
                assert(s2[w] == k);
            }
        }
    }
}

/// An append for one owner leaves every other owner's records untouched.
proof fn lemma_append_links_other(
    m: Map<NodeKey, KittyLinkedItem>,
    owner: u64,
    kitty_id: u32,
    other: u64,
    s: Seq<u32>,
)
    requires
        links_match(m, other, s),
        other != owner,
    ensures
        links_match(append_map(m, owner, kitty_id), other, s),
{
    let m3 = append_map(m, owner, kitty_id);
    assert forall|key: Option<u32>| node_of(m3, other, key) == node_of(m, other, key) by {}
    assert forall|k: u32| m3.dom().contains((other, Some(k))) == m.dom().contains(
        (other, Some(k)),
    ) by {}
    lemma_links_match_same_nodes(m, m3, other, s);
}

/// A removal for one owner leaves every other owner's records untouched.
proof fn lemma_remove_links_other(
    m: Map<NodeKey, KittyLinkedItem>,
    owner: u64,
    kitty_id: u32,
    other: u64,
    s: Seq<u32>,
)
    requires
        links_match(m, other, s),
        other != owner,
    ensures
        links_match(remove_map(m, owner, kitty_id), other, s),
{
    let m2 = remove_map(m, owner, kitty_id);
    assert forall|key: Option<u32>| node_of(m2, other, key) == node_of(m, other, key) by {}
    assert forall|k: u32| m2.dom().contains((other, Some(k))) == m.dom().contains(
        (other, Some(k)),
    ) by {}
    lemma_links_match_same_nodes(m, m2, other, s);
}

/// Integrity transfers between stores whose records for `owner` agree.
proof fn lemma_links_match_same_nodes(
    m1: Map<NodeKey, KittyLinkedItem>,
    m2: Map<NodeKey, KittyLinkedItem>,
    owner: u64,
    s: Seq<u32>,
)
    requires
        links_match(m1, owner, s),
        forall|key: Option<u32>| node_of(m2, owner, key) == node_of(m1, owner, key),
        forall|k: u32| m2.dom().contains((owner, Some(k))) == m1.dom().contains((owner, Some(k))),
    ensures
        links_match(m2, owner, s),
{
    assert(node_of(m2, owner, None) == node_of(m1, owner, None));
    assert forall|i: int| 0 <= i < s.len() implies m2.dom().contains(
        (owner, Some(#[trigger] s[i])),
    ) by {
        assert(m1.dom().contains((owner, Some(s[i]))));
    }
    assert forall|i: int|
        0 <= i < s.len() implies node_of(m2, owner, Some(#[trigger] s[i])).prev == (if i == 0 {
            None::<u32>
        } else {
            Some(s[i - 1])
        }) by {
        assert(node_of(m2, owner, Some(s[i])) == node_of(m1, owner, Some(s[i])));
    }
    assert forall|i: int|
        0 <= i < s.len() implies node_of(m2, owner, Some(#[trigger] s[i])).next == (if i == s.len()
            - 1 {
            None::<u32>
        } else {
            Some(s[i + 1])
        }) by {
        assert(node_of(m2, owner, Some(s[i])) == node_of(m1, owner, Some(s[i])));
    }
    assert forall|k: u32| m2.dom().contains((owner, Some(k))) implies s.contains(k) by {
        assert(m1.dom().contains((owner, Some(k))));
    }
}

/// Removing an id preserves list integrity for every position — head,
/// middle, tail or sole element — and removing an unlisted id changes
/// nothing.
#[verifier::rlimit(80)]
pub proof fn lemma_remove_preserves_links(
    m: Map<NodeKey, KittyLinkedItem>,
    owner: u64,
    s: Seq<u32>,
    kitty_id: u32,
)
    requires
        links_match(m, owner, s),
    ensures
        links_match(remove_map(m, owner, kitty_id), owner, s.remove_value(kitty_id)),
{
    let m2 = remove_map(m, owner, kitty_id);
    s.index_of_first_ensures(kitty_id);
    if m.dom().contains((owner, Some(kitty_id))) {
        assert(s.contains(kitty_id));
        let idx = match s.index_of_first(kitty_id) {
            Some(i) => i,
            None => 0,
        };
        assert(0 <= idx < s.len() && s[idx] == kitty_id);
        let s2 = s.remove(idx);
        assert(s.remove_value(kitty_id) == s2);
        let n = s.len() as int;
        let item = m[(owner, Some(kitty_id))];
        assert(node_of(m, owner, Some(s[idx])) == item);
        assert(item.prev == (if idx == 0 {
            None::<u32>
        } else {
            Some(s[idx - 1])
        }));
        assert(item.next == (if idx == n - 1 {
            None::<u32>
        } else {
            Some(s[idx + 1])
        }));
        let pk = item.prev;
        let nk = item.next;
        let m0 = m.remove((owner, Some(kitty_id)));
        let prev = node_of(m0, owner, pk);
        let m1 = m0.insert((owner, pk), KittyLinkedItem { prev: prev.prev, next: item.next });
        let next = node_of(m1, owner, nk);
        assert(m2 == m1.insert((owner, nk), KittyLinkedItem { prev: item.prev, next: next.next }));
        assert(pk != Some(kitty_id));
        assert(nk != Some(kitty_id));
        assert(prev == node_of(m, owner, pk));
        assert(forall|j: int| 0 <= j < idx ==> s2[j] == s[j]);
        assert(forall|j: int| idx <= j < s2.len() ==> s2[j] == s[j + 1]);
        assert(s2.no_duplicates()) by {
            assert forall|a: int, b: int|
                0 <= a < s2.len() && 0 <= b < s2.len() && a != b implies s2[a] != s2[b] by {
                let a0 = if a < idx { a } else { a + 1 };
                let b0 = if b < idx { b } else { b + 1 };
                assert(s2[a] == s[a0] && s2[b] == s[b0] && a0 != b0);
            }
        }
        if n == 1 {
            assert(idx == 0 && pk == None::<u32> && nk == None::<u32>);
            assert(s2.len() == 0);
            assert(node_of(m2, owner, None) == (KittyLinkedItem { prev: None, next: None }));
            assert forall|k: u32| m2.dom().contains((owner, Some(k))) implies s2.contains(k) by {
                assert(m.dom().contains((owner, Some(k))));
                assert(s.contains(k));
                let w = choose|w: int| 0 <= w < s.len() && s[w] == k;
                assert(w == 0 && k == kitty_id);
                assert(!m2.dom().contains((owner, Some(kitty_id))));
                assert(false);
            }
        } else {
            if idx == 0 {
                assert(pk == None::<u32> && nk == Some(s[1]));
                assert(node_of(m2, owner, None) == (KittyLinkedItem {
                    prev: node_of(m, owner, None).prev,
                    next: item.next,
                }));
                assert(node_of(m2, owner, None).next == front_of(s2));
                assert(back_of(s2) == Some(s[n - 1]));
                assert(node_of(m2, owner, None).prev == back_of(s2));
            } else if idx == n - 1 {
                assert(pk == Some(s[idx - 1]) && nk == None::<u32>);
                assert(next == node_of(m, owner, None));
                assert(node_of(m2, owner, None) == (KittyLinkedItem {
                    prev: item.prev,
                    next: node_of(m, owner, None).next,
                }));
                assert(front_of(s2) == Some(s[0]));
                assert(back_of(s2) == Some(s[idx - 1]));
            } else {
                assert(pk == Some(s[idx - 1]) && nk == Some(s[idx + 1]));
                assert(node_of(m2, owner, None) == node_of(m, owner, None));
                assert(front_of(s2) == Some(s[0]));
                assert(s2[s2.len() - 1] == s[n - 1]);
                assert(back_of(s2) == Some(s[n - 1]));
            }
            assert forall|j: int| 0 <= j < s2.len() implies m2.dom().contains(
                (owner, Some(#[trigger] s2[j])),
            ) by {
                let j0 = if j < idx { j } else { j + 1 };
                assert(s2[j] == s[j0] && j0 != idx);
                assert(s[j0] != kitty_id);
                assert(m.dom().contains((owner, Some(s[j0]))));
            }
            assert forall|j: int|
                0 <= j < s2.len() implies node_of(m2, owner, Some(#[trigger] s2[j])).prev == (if j
                    == 0 {
                    None::<u32>
                } else {
                    Some(s2[j - 1])
                }) by {
                if j == idx {
                    assert(s2[j] == s[idx + 1] && nk == Some(s[idx + 1]));
                    assert(node_of(m2, owner, Some(s[idx + 1])).prev == item.prev);
                    if j > 0 {
                        assert(s2[j - 1] == s[idx - 1]);
                    }
                } else if j == idx - 1 {
                    assert(s2[j] == s[idx - 1] && pk == Some(s[idx - 1]));
                    assert(pk != nk);
                    assert(node_of(m2, owner, Some(s[idx - 1])).prev == prev.prev);
                    assert(prev == node_of(m, owner, Some(s[idx - 1])));
                    if j > 0 {
                        assert(s2[j - 1] == s[idx - 2]);
                    }
                } else {
                    let j0 = if j < idx { j } else { j + 1 };
                    assert(s2[j] == s[j0] && j0 != idx && j0 != idx - 1 && j0 != idx + 1);
                    assert(Some(s[j0]) != pk && Some(s[j0]) != nk && s[j0] != kitty_id);
                    assert(node_of(m2, owner, Some(s[j0])) == node_of(m, owner, Some(s[j0])));
                    if j > 0 {
                        let j1 = if j - 1 < idx { j - 1 } else { j };
                        assert(s2[j - 1] == s[j1] && j1 == j0 - 1);
                    }
                }
            }
            assert forall|j: int|
                0 <= j < s2.len() implies node_of(m2, owner, Some(#[trigger] s2[j])).next == (if j
                    == s2.len() - 1 {
                    None::<u32>
                } else {
                    Some(s2[j + 1])
                }) by {
                if j == idx {
                    assert(s2[j] == s[idx + 1] && nk == Some(s[idx + 1]));
                    assert(node_of(m2, owner, Some(s[idx + 1])).next == next.next);
                    assert(next == node_of(m, owner, Some(s[idx + 1])));
                    if j < s2.len() - 1 {
                        assert(s2[j + 1] == s[idx + 2]);
                    }
                } else if j == idx - 1 {
                    assert(s2[j] == s[idx - 1] && pk == Some(s[idx - 1]));
                    assert(pk != nk);
                    assert(node_of(m2, owner, Some(s[idx - 1])).next == item.next);
                    if j < s2.len() - 1 {
                        assert(s2[j + 1] == s[idx + 1]);
                    }
                } else {
                    let j0 = if j < idx { j } else { j + 1 };
                    assert(s2[j] == s[j0] && j0 != idx && j0 != idx - 1 && j0 != idx + 1);
                    assert(Some(s[j0]) != pk && Some(s[j0]) != nk && s[j0] != kitty_id);
                    assert(node_of(m2, owner, Some(s[j0])) == node_of(m, owner, Some(s[j0])));
                    if j < s2.len() - 1 {
                        let j1 = if j + 1 < idx { j + 1 } else { j + 2 };
                        assert(s2[j + 1] == s[j1] && j1 == j0 + 1);
                    }
                }
            }
            assert forall|k: u32| m2.dom().contains((owner, Some(k))) implies s2.contains(k) by {
                if pk == Some(k) {
                    assert(s2[idx - 1] == s[idx - 1]);
                } else if nk == Some(k) {
                    assert(s2[idx] == s[idx + 1]);
                } else {
                    assert(m.dom().contains((owner, Some(k))));
                    assert(s.contains(k));
                    let w = choose|w: int| 0 <= w < s.len() && s[w] == k;
                    assert(k != kitty_id);
                    assert(w != idx);
                    if w < idx {
                        assert(s2[w] == k);
                    } else {
                        assert(s2[w - 1] == k);
                    }
                }
            }
        }
    } else {
        if s.contains(kitty_id) {
            let w = choose|w: int| 0 <= w < s.len() && s[w] == kitty_id;
            assert(m.dom().contains((owner, Some(s[w]))));
            assert(false);
        }
        assert(s.index_of_first(kitty_id) is None);
        assert(s.remove_value(kitty_id) == s);
        assert(m2 == m);
    }
}

/// Appending any id for an owner with no current entries leaves the
/// sentinel pointing at it both ways and the new node all-`None`.
pub proof fn lemma_append_to_empty(m: Map<NodeKey, KittyLinkedItem>, owner: u64, kitty_id: u32)
    requires
        links_match(m, owner, Seq::<u32>::empty()),
    ensures
        node_of(append_map(m, owner, kitty_id), owner, None) == (KittyLinkedItem {
            prev: Some(kitty_id),
            next: Some(kitty_id),
        }),
        node_of(append_map(m, owner, kitty_id), owner, Some(kitty_id)) == (KittyLinkedItem {
            prev: None,
            next: None,
        }),
{
    let head = node_of(m, owner, None);
    assert(head.prev == None::<u32> && head.next == None::<u32>);
}

/// The per-owner linked lists, together with the ghost record of each
/// owner's current list, kept in step with the stored nodes.
pub struct OwnedKitties {
    store: LinkStore,
    lists: Ghost<Map<u64, Seq<u32>>>,
}

impl OwnedKitties {
    /// The stored node records.
    pub closed spec fn nodes(self) -> Map<NodeKey, KittyLinkedItem> {
        self.store@
    }

    /// The ids owned by `owner`, in forward-traversal (append) order.
    pub closed spec fn list(self, owner: u64) -> Seq<u32> {
        if self.lists@.dom().contains(owner) {
            self.lists@[owner]
        } else {
            Seq::<u32>::empty()
        }
    }

    /// Every owner's stored records encode exactly that owner's list.
    pub closed spec fn wf(self) -> bool {
        &&& self.store.wf()
        &&& forall|owner: u64| links_match(self.store@, owner, #[trigger] self.list(owner))
    }

    /// List integrity: in a well-formed structure, every owner's stored
    /// records encode exactly that owner's list — each owned id once, in
    /// forward-traversal order, with every `prev` field reproducing the
    /// reverse of the `next` order.
    pub proof fn lemma_wf_links(self, owner: u64)
        requires
            self.wf(),
        ensures
            links_match(self.nodes(), owner, self.list(owner)),
    {
    }

    pub fn new() -> (r: Self)
        ensures
            r.wf(),
            r.nodes() == Map::<NodeKey, KittyLinkedItem>::empty(),
            forall|o: u64| r.list(o) == Seq::<u32>::empty(),
    {
        let r = OwnedKitties { store: LinkStore::new(), lists: Ghost(Map::empty()) };
        proof {
            assert forall|owner: u64| links_match(r.store@, owner, #[trigger] r.list(owner)) by {
                assert(r.list(owner) == Seq::<u32>::empty());
            }
        }
        r
    }

    /// The record stored at `(owner, key)`, if any.
    pub fn get(&self, owner: u64, key: Option<u32>) -> (r: Option<KittyLinkedItem>)
        requires
            self.wf(),
        ensures
            r == (if self.nodes().contains_key((owner, key)) {
                Some(self.nodes()[(owner, key)])
            } else {
                None::<KittyLinkedItem>
            }),
    {
        self.store.get(owner, key)
    }

    /// The node at `(owner, key)`, absent records read as all-`None`.
    fn read(&self, owner: u64, key: Option<u32>) -> (r: KittyLinkedItem)
        requires
            self.store.wf(),
        ensures
            r == node_of(self.store@, owner, key),
    {
        match self.store.get(owner, key) {
            Some(item) => item,
            None => KittyLinkedItem { prev: None, next: None },
        }
    }

    /// The owner's sentinel node.
    fn read_head(&self, owner: u64) -> (r: KittyLinkedItem)
        requires
            self.store.wf(),
        ensures
            r == node_of(self.store@, owner, None),
    {
        self.read(owner, None)
    }

    /// Store `item` at `(owner, key)`.
    fn write(&mut self, owner: u64, key: Option<u32>, item: KittyLinkedItem)
        requires
            old(self).store.wf(),
        ensures
            final(self).store.wf(),
            final(self).store@ == old(self).store@.insert((owner, key), item),
            final(self).lists == old(self).lists,
    {
        self.store.insert(owner, key, item);
    }

    /// Store `item` as the owner's sentinel node.
    fn write_head(&mut self, owner: u64, item: KittyLinkedItem)
        requires
            old(self).store.wf(),
        ensures
            final(self).store.wf(),
            final(self).store@ == old(self).store@.insert((owner, None), item),
            final(self).lists == old(self).lists,
    {
        self.write(owner, None, item);
    }

    /// Append `kitty_id` for `owner`, in O(1) via the sentinel's tail
    /// cursor.  The id must not already be owned.
    pub fn append(&mut self, owner: u64, kitty_id: u32)
        requires
            old(self).wf(),
            !old(self).list(owner).contains(kitty_id),
        ensures
            final(self).wf(),
            final(self).nodes() == append_map(old(self).nodes(), owner, kitty_id),
            final(self).list(owner) == old(self).list(owner).push(kitty_id),
            forall|o: u64| o != owner ==> final(self).list(o) == old(self).list(o),
    {
        let head = self.read_head(owner);
        let new_head = KittyLinkedItem { prev: Some(kitty_id), next: head.next };
        self.write_head(owner, new_head);

        let prev = self.read(owner, head.prev);
        let new_prev = KittyLinkedItem { prev: prev.prev, next: Some(kitty_id) };
        self.write(owner, head.prev, new_prev);

        let item = KittyLinkedItem { prev: head.prev, next: None };
        self.write(owner, Some(kitty_id), item);

        let ghost new_list = old(self).list(owner).push(kitty_id);
        self.lists = Ghost(old(self).lists@.insert(owner, new_list));
        proof {
            assert(self.store@ == append_map(old(self).store@, owner, kitty_id));
            assert forall|o: u64| links_match(self.store@, o, #[trigger] self.list(o)) by {
                if o == owner {
                    assert(self.list(o) == new_list);
                    lemma_append_preserves_links(
                        old(self).store@,
                        owner,
                        old(self).list(owner),
                        kitty_id,
                    );
                } else {
                    assert(self.list(o) == old(self).list(o));
                    lemma_append_links_other(
                        old(self).store@,
                        owner,
                        kitty_id,
                        o,
                        old(self).list(o),
                    );
                }
            }
        }
    }

    /// Remove `kitty_id` from `owner`'s list, reconnecting its neighbours;
    /// removing an unlisted id is a no-op.
    pub fn remove(&mut self, owner: u64, kitty_id: u32)
        requires
            old(self).wf(),
        ensures
            final(self).wf(),
            final(self).nodes() == remove_map(old(self).nodes(), owner, kitty_id),
            final(self).list(owner) == old(self).list(owner).remove_value(kitty_id),
            forall|o: u64| o != owner ==> final(self).list(o) == old(self).list(o),
            !old(self).list(owner).contains(kitty_id) ==> final(self).nodes() == old(self).nodes(),
    {
        proof {
            if !old(self).list(owner).contains(kitty_id) && old(self).store@.dom().contains(
                (owner, Some(kitty_id)),
            ) {
                assert(old(self).list(owner).contains(kitty_id));
            }
        }
        match self.store.take(owner, Some(kitty_id)) {
            Some(item) => {
                let prev = self.read(owner, item.prev);
                let new_prev = KittyLinkedItem { prev: prev.prev, next: item.next };
                self.write(owner, item.prev, new_prev);

                let next = self.read(owner, item.next);
                let new_next = KittyLinkedItem { prev: item.prev, next: next.next };
                self.write(owner, item.next, new_next);
            },
            None => {},
        }
        let ghost new_list = old(self).list(owner).remove_value(kitty_id);
        self.lists = Ghost(old(self).lists@.insert(owner, new_list));
        proof {
            assert(self.store@ == remove_map(old(self).store@, owner, kitty_id));
            assert forall|o: u64| links_match(self.store@, o, #[trigger] self.list(o)) by {
                if o == owner {
                    assert(self.list(o) == new_list);
                    lemma_remove_preserves_links(
                        old(self).store@,
                        owner,
                        old(self).list(owner),
                        kitty_id,
                    );
                } else {
                    assert(self.list(o) == old(self).list(o));
                    lemma_remove_links_other(
                        old(self).store@,
                        owner,
                        kitty_id,
                        o,
                        old(self).list(o),
                    );
                }
            }
        }
    }

    /// The ids owned by `owner`, front to back, by following `next` from
    /// the sentinel.
    pub fn enumerate(&self, owner: u64) -> (r: Vec<u32>)
        requires
            self.wf(),
        ensures
            r@ == self.list(owner),
    {
        let ghost s = self.list(owner);
        let mut r: Vec<u32> = Vec::new();
        let mut cur: Option<u32> = self.read_head(owner).next;
        while cur.is_some()
            invariant
                self.wf(),
                s == self.list(owner),
                r@.len() <= s.len(),
                r@ == s.take(r@.len() as int),
                cur == (if r@.len() == s.len() {
                    None::<u32>
                } else {
                    Some(s[r@.len() as int])
                }),
            decreases s.len() - r@.len(),
        {
            let id = cur.unwrap();
            let ghost i = r@.len() as int;
            r.push(id);
            cur = self.read(owner, Some(id)).next;
            proof {
                assert(id == s[i]);
                assert(r@ =~= s.take(i + 1));
            }
        }
        proof {
            assert(r@ =~= s);
        }
        r
    }
}

} // verus!
