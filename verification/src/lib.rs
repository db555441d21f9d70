//! Persistent ordered set and map.
//!
//! The set is a height-balanced binary search tree whose update operations
//! return new versions while leaving every prior version valid; unchanged
//! subtrees are shared between versions.  The map stores key/value entries
//! in that set, ordered and compared by key alone, so a probe entry with a
//! placeholder value locates or deletes an entry by its key.

use vstd::prelude::*;

pub mod avl;

verus! {

use crate::avl::ImmutAvlTree;
use crate::avl::Orderable;

/// A persistent ordered set of values, one value per key.
pub type ImmutableSet<T> = ImmutAvlTree<T>;

/// One entry of the map.  Entries are ordered and considered equal by key
/// alone; the carried value plays no part in comparisons.
#[derive(Clone, Copy)]
struct ImmutableMapContent<K: Orderable, V: Copy> {
    key: K,
    val: V,
}

impl<K: Orderable, V: Copy> Orderable for ImmutableMapContent<K, V> {
    closed spec fn key(self) -> int {
        self.key.key()
    }

    fn lt(&self, other: &Self) -> bool {
        self.key.lt(&other.key)
    }

    fn gt(&self, other: &Self) -> bool {
        self.key.gt(&other.key)
    }
}

/// A persistent ordered map from keys to values, built on the set: every
/// update returns a new map and leaves the receiver untouched.  Values must
/// be cheaply duplicable, and carry a default used as the placeholder when
/// probing by key.
pub struct ImmutableMap<K: Orderable, V: Copy + Default> {
    set: ImmutableSet<ImmutableMapContent<K, V>>,
}

impl<K: Orderable, V: Copy + Default> ImmutableMap<K, V> {
    /// Contents, as a map from each entry's key to its value.
    pub closed spec fn as_map(self) -> Map<int, V> {
        self.set.as_map().map_values(|c: ImmutableMapContent<K, V>| c.val)
    }

    /// Well-formedness of the underlying tree.
    pub closed spec fn wf(self) -> bool {
        self.set.wf()
    }

    /// Balance invariant of the underlying tree.
    pub closed spec fn balanced(self) -> bool {
        self.set.balanced()
    }

    /// The empty map.
    pub fn new() -> (r: Self)
        ensures
            r.wf(),
            r.balanced(),
            r.as_map() == Map::<int, V>::empty(),
    {
        let r = ImmutableMap { set: ImmutableSet::new() };
        proof {
            assert(r.as_map() =~= Map::<int, V>::empty());
        }
        r
    }

    /// A new map in which `key` is bound to `val`; an entry already stored
    /// under an equal key is replaced.  The receiver is unchanged.  The
    /// bound on the size keeps the underlying tree's cached heights in range.
    pub fn insert(&self, key: K, val: V) -> (r: Self)
        requires
            self.wf(),
            self.as_map().len() + 2 <= u32::MAX,
        ensures
            r.wf(),
            r.as_map() == self.as_map().insert(key.key(), val),
            self.balanced() ==> r.balanced(),
    {
        proof {
            assert(self.as_map().dom() =~= self.set.as_map().dom());
        }
        let r = ImmutableMap { set: self.set.insert(ImmutableMapContent { key, val }) };
        proof {
            assert(r.as_map() =~= self.as_map().insert(key.key(), val));
        }
        r
    }

    /// A new map without any entry under `key`; when the key is absent the
    /// new map has the same contents.  The receiver is unchanged.
    pub fn delete(&self, key: K) -> (r: Self)
        requires
            self.wf(),
        ensures
            r.wf(),
            r.as_map() == self.as_map().remove(key.key()),
    {
        let r = ImmutableMap {
            set: self.set.delete(ImmutableMapContent { key, val: V::default() }),
        };
        proof {
            assert(r.as_map() =~= self.as_map().remove(key.key()));
        }
        r
    }

    /// Whether an entry is stored under this key.  The probe entry is built
    /// from `key` and `val`, but entries compare by key alone, so the value
    /// takes no part in the outcome.
    pub fn contains(&self, key: K, val: V) -> (r: bool)
        requires
            self.wf(),
        ensures
            r == self.as_map().dom().contains(key.key()),
    {
        proof {
            assert(self.as_map().dom() =~= self.set.as_map().dom());
        }
        self.set.contains(ImmutableMapContent { key, val })
    }

    /// Number of stored entries, counted by a full traversal.
    pub fn size(&self) -> (r: usize)
        requires
            self.wf(),
        ensures
            r == self.as_map().len(),
    {
        proof {
            assert(self.as_map().dom() =~= self.set.as_map().dom());
        }
        self.set.size()
    }

    /// Borrow the value stored under `key`, if any.
    pub fn get_val_as_ref(&self, key: K) -> (r: Option<&V>)
        requires
            self.wf(),
        ensures
            (match r {
                Some(v) => self.as_map().dom().contains(key.key()) && *v == self.as_map()[
                    key.key()
                ],
                None => !self.as_map().dom().contains(key.key()),
            }),
    {
        proof {
            assert(self.as_map().dom() =~= self.set.as_map().dom());
        }
        let content = self.set.get_as_ref(ImmutableMapContent { key, val: V::default() });
        if let Some(content) = content {
            Some(&content.val)
        } else {
            None
        }
    }
}

/// Replacing a value: inserting twice under one key keeps a single entry,
/// holding the later value, and the size after the second insert equals the
/// size after the first.
pub proof fn lemma_replace<V>(m: Map<int, V>, k: int, v1: V, v2: V)
    ensures
        m.insert(k, v1).insert(k, v2) == m.insert(k, v2),
        m.insert(k, v1).insert(k, v2).len() == m.insert(k, v1).len(),
{
    assert(m.insert(k, v1).insert(k, v2) =~= m.insert(k, v2));
    assert(m.insert(k, v1).insert(k, v2).dom() =~= m.insert(k, v1).dom());
}

} // verus!
