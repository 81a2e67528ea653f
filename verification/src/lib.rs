//! A generic prefix tree (trie) mapping sequences of symbols to values.
//!
//! `Trie<T, U>` stores values of type `U` under keys that are finite
//! sequences of symbols of type `T`, sharing the nodes of any common
//! prefix.  A key is present exactly when the node its path leads to
//! holds a value, so a key may at the same time be a strict prefix of
//! another key.
//!
//! The companion module [`trie`] offers a presence-only variant that
//! tracks membership structurally, without payloads.

use vstd::prelude::*;

pub mod trie;
mod trie_node;

verus! {

use vstd::laws_eq::obeys_concrete_eq;
use vstd::pervasive::cloned;
use crate::trie_node::TrieNode;

/// Cloning a value of `T` yields a value equal to the original.
///
/// Both engines hand out snapshots of stored data and copy symbols
/// into new nodes, so their contracts ask that `clone` preserve the
/// value, just as `==` is asked to agree with logical equality through
/// [`obeys_concrete_eq`].
pub open spec fn clone_is_exact<T: Clone>() -> bool {
    forall|a: T, b: T| #[trigger] cloned::<T>(a, b) ==> b == a
}

/// Prefix tree object
pub struct Trie<T: Eq + Clone, U: Clone> {
    /// Root of the prefix tree
    root: TrieNode<T, U>,
}

impl<T: Eq + Clone, U: Clone> Trie<T, U> {
    /// The shape every reachable `Trie` value has: the root carries no
    /// label and no value, and every subtree keeps one child per
    /// distinct edge label.  It holds of every trie this module hands
    /// out and is maintained by every operation.
    #[verifier::type_invariant]
    pub closed spec fn wf(self) -> bool {
        &&& self.root.key is None
        &&& self.root.value is None
        &&& self.root.wf()
    }

    /// The keys currently stored, each with its value.
    pub closed spec fn view(self) -> Map<Seq<T>, U> {
        Map::new(
            |s: Seq<T>| self.root.value_at(s) is Some,
            |s: Seq<T>| self.root.value_at(s).unwrap(),
        )
    }

    /// Whether a node exists at the end of the path labelled `key`:
    /// `key` is the empty sequence, a stored key, or a prefix of one.
    pub closed spec fn resolves(self, key: Seq<T>) -> bool {
        self.root.contains_path(key)
    }

    /// Creates a new `Trie` object
    pub fn new() -> (t: Trie<T, U>)
        ensures
            t@ == Map::<Seq<T>, U>::empty(),
            forall|s: Seq<T>| t.resolves(s) == (s.len() == 0),
    {
        let t = Trie { root: TrieNode::new(None, None) };
        proof {
            assert forall|s: Seq<T>| t.root.value_at(s) is None by {
                assert(!t.root.has_child(s[0]));
            }
            assert forall|s: Seq<T>| t.resolves(s) == (s.len() == 0) by {
                assert(!t.root.has_child(s[0]));
            }
            assert(t@ =~= Map::<Seq<T>, U>::empty());
        }
        t
    }

    /// Checks that trie is empty
    pub fn is_empty(&self) -> (r: bool)
        ensures
            r == (forall|s: Seq<T>| s.len() > 0 ==> !self.resolves(s)),
            r ==> self@ == Map::<Seq<T>, U>::empty(),
    {
        proof {
            use_type_invariant(&*self);
        }
        let r = self.root.children.is_empty();
        proof {
            if r {
                assert forall|s: Seq<T>| s.len() > 0 implies !self.resolves(s) by {
                    assert(!self.root.has_child(s[0]));
                }
                assert forall|s: Seq<T>| self.root.value_at(s) is None by {
                    if s.len() > 0 {
                        assert(!self.root.has_child(s[0]));
                    }
                }
                assert(self@ =~= Map::<Seq<T>, U>::empty());
            } else {
                let k = self.root.children[0].key;
                assert(self.root.children[0].key is Some);
                let c = k.unwrap();
                assert(self.root.has_child(c));
                let s = seq![c];
                assert(s.len() > 0 && s[0] == c);
                assert(s.drop_first().len() == 0);
                assert(self.root.child(c).contains_path(s.drop_first()));
                assert(self.resolves(s));
            }
        }
        r
    }

    /// Adds a new key to the trie
    ///
    /// Walks the path for `key` from the root, creating nodes for any
    /// unseen suffix, and overwrites the value at the final node.  Keys
    /// are non-empty sequences: the root itself never carries a value.
    pub fn add(&mut self, key: &[T], value: U)
        requires
            key@.len() > 0,
            obeys_concrete_eq::<T>(),
            clone_is_exact::<T>(),
        ensures
            final(self)@ == old(self)@.insert(key@, value),
            forall|s: Seq<T>|
                #[trigger] final(self).resolves(s) == (old(self).resolves(s) || s.is_prefix_of(
                    key@,
                )),
    {
        proof {
            use_type_invariant(&*self);
        }
        let mut root = TrieNode::new(None, None);
        core::mem::swap(&mut self.root, &mut root);
        root.insert_path(key, 0, value);
        proof {
            assert(key@.skip(0) =~= key@);
            assert(root.value_at(Seq::<T>::empty()) == old(self).root.value_at(Seq::<T>::empty()));
        }
        self.root = root;
        proof {
            assert(self@ =~= old(self)@.insert(key@, value));
        }
    }

    /// Clears the trie
    ///
    /// Discards all of the root's children and, with them, every
    /// stored key and value.
    pub fn clear(&mut self)
        ensures
            final(self)@ == Map::<Seq<T>, U>::empty(),
            forall|s: Seq<T>| #[trigger] final(self).resolves(s) == (s.len() == 0),
    {
        self.root = TrieNode::new(None, None);
        proof {
            self.root.lemma_no_children_paths();
            assert(self@ =~= Map::<Seq<T>, U>::empty());
        }
    }

    /// Finds the node in the trie by the key
    ///
    /// Internal API
    fn find_node(&self, key: &[T]) -> (r: Option<&TrieNode<T, U>>)
        requires
            obeys_concrete_eq::<T>(),
        ensures
            match r {
                Some(n) => self.resolves(key@) && n.value == self.root.value_at(key@),
                None => !self.resolves(key@) && self.root.value_at(key@) is None,
            },
    {
        proof {
            use_type_invariant(&*self);
            assert(key@.skip(0) =~= key@);
        }
        self.root.find_path(key, 0)
    }

    /// Looks for the key in trie
    ///
    /// The key is present exactly when the node its path leads to
    /// exists and holds a value; it may at the same time be a strict
    /// prefix of another key.
    pub fn has_key(&self, key: &[T]) -> (r: bool)
        requires
            obeys_concrete_eq::<T>(),
        ensures
            r == self@.contains_key(key@),
    {
        match self.find_node(key) {
            Some(node) => node.may_be_leaf(),
            None => false,
        }
    }

    /// Gets the value from the tree by key
    ///
    /// Returns a snapshot of the value stored under `key`, or `None`
    /// if the path does not resolve or its last node holds no value.
    pub fn get_value(&self, key: &[T]) -> (r: Option<U>)
        requires
            obeys_concrete_eq::<T>(),
            clone_is_exact::<U>(),
        ensures
            r == (if self@.contains_key(key@) {
                Some(self@[key@])
            } else {
                None::<U>
            }),
    {
        match self.find_node(key) {
            Some(node) => node.get_value(),
            None => None,
        }
    }

    /// Sets the value pointed by a key
    ///
    /// Succeeds exactly when the path for `key` already resolves to a
    /// node; it never creates nodes.  On failure nothing is changed.
    pub fn set_value(&mut self, key: &[T], value: U) -> (r: Result<(), ()>)
        requires
            key@.len() > 0,
            obeys_concrete_eq::<T>(),
        ensures
            (r is Ok) == old(self).resolves(key@),
            forall|s: Seq<T>| #[trigger] final(self).resolves(s) == old(self).resolves(s),
            r is Ok ==> final(self)@ == old(self)@.insert(key@, value),
            r is Err ==> final(self)@ == old(self)@,
    {
        proof {
            use_type_invariant(&*self);
        }
        let mut root = TrieNode::new(None, None);
        core::mem::swap(&mut self.root, &mut root);
        let r = root.set_path(key, 0, value);
        proof {
            assert(key@.skip(0) =~= key@);
            assert(root.value_at(Seq::<T>::empty()) == old(self).root.value_at(Seq::<T>::empty()));
        }
        self.root = root;
        proof {
            if r is Ok {
                assert(self@ =~= old(self)@.insert(key@, value));
            } else {
                assert(self@ =~= old(self)@);
            }
        }
        r
    }

    /// Applies a function to the value pointed by a key
    ///
    /// Feeds a snapshot of the value stored under `key` to `f` and
    /// stores the result back.  Fails, changing nothing, when the path
    /// does not resolve or its last node holds no value.
    pub fn apply_on_value<F: FnOnce(U) -> U>(&mut self, key: &[T], f: F) -> (r: Result<(), ()>)
        requires
            obeys_concrete_eq::<T>(),
            clone_is_exact::<U>(),
            old(self)@.contains_key(key@) ==> call_requires(f, (old(self)@[key@],)),
        ensures
            (r is Ok) == old(self)@.contains_key(key@),
            forall|s: Seq<T>| #[trigger] final(self).resolves(s) == old(self).resolves(s),
            r is Ok ==> exists|nv: U|
                call_ensures(f, (old(self)@[key@],), nv) && final(self)@ == old(self)@.insert(
                    key@,
                    nv,
                ),
            r is Err ==> final(self)@ == old(self)@,
    {
        proof {
            use_type_invariant(&*self);
            assert(key@.skip(0) =~= key@);
        }
        let mut root = TrieNode::new(None, None);
        core::mem::swap(&mut self.root, &mut root);
        let r = root.apply_path(key, 0, f);
        proof {
            assert(root.value_at(Seq::<T>::empty()) == old(self).root.value_at(Seq::<T>::empty()));
        }
        self.root = root;
        proof {
            if r is Ok {
                let nv = choose|nv: U|
                    call_ensures(f, (old(self).root.value_at(key@).unwrap(),), nv) && (forall|
                        s: Seq<T>,
                    |
                        #[trigger] self.root.value_at(s) == (if s == key@ {
                            Some(nv)
                        } else {
                            old(self).root.value_at(s)
                        }));
                assert(self@ =~= old(self)@.insert(key@, nv));
            } else {
                assert(self@ =~= old(self)@);
            }
        }
        r
    }
}

/// Idempotent insertion: adding the same key with the same value any
/// number of times leaves the stored contents — and with them every
/// `has_key` and `get_value` answer — exactly as after the first
/// addition.
pub proof fn lemma_add_idempotent<T, U>(m: Map<Seq<T>, U>, key: Seq<T>, value: U)
    ensures
        m.insert(key, value).insert(key, value) == m.insert(key, value),
{
    assert(m.insert(key, value).insert(key, value) =~= m.insert(key, value));
}

/// Overwrite: adding a key twice with different values keeps the key
/// present and stores the value given last.
pub proof fn lemma_add_overwrites<T, U>(m: Map<Seq<T>, U>, key: Seq<T>, v1: U, v2: U)
    ensures
        m.insert(key, v1).insert(key, v2) == m.insert(key, v2),
        m.insert(key, v2).contains_key(key),
        m.insert(key, v2)[key] == v2,
{
    assert(m.insert(key, v1).insert(key, v2) =~= m.insert(key, v2));
}

/// Storing under one key — through `add`, `set_value` or
/// `apply_on_value` — touches exactly that key: any other key, a
/// prefix or an extension of it included, keeps its presence and its
/// value.
pub proof fn lemma_insert_keeps_other_keys<T, U>(
    m: Map<Seq<T>, U>,
    key: Seq<T>,
    value: U,
    other: Seq<T>,
)
    requires
        other != key,
    ensures
        m.insert(key, value).contains_key(other) == m.contains_key(other),
        m.contains_key(other) ==> m.insert(key, value)[other] == m[other],
        m.insert(key, value).contains_key(key),
        m.insert(key, value)[key] == value,
{
}

/// Absence: an engine holding no keys — freshly created, or freshly
/// cleared — answers `false` to `has_key` and `None` to `get_value`
/// for every sequence.
pub proof fn lemma_empty_has_no_keys<T, U>(key: Seq<T>)
    ensures
        !Map::<Seq<T>, U>::empty().contains_key(key),
{
}

/// A value is stored only at a node that exists: every present key
/// resolves.  Hence `set_value` on a key that was never added fails,
/// and a later `get_value` of it still answers `None`.
pub proof fn lemma_stored_key_resolves<T: Eq + Clone, U: Clone>(t: Trie<T, U>, key: Seq<T>)
    ensures
        t@.contains_key(key) ==> t.resolves(key),
{
    t.root.lemma_value_implies_path(key);
}

/// The root is never matched as a key result: the empty sequence
/// always resolves, yet never holds a value.
pub proof fn lemma_empty_key_never_stored<T: Eq + Clone, U: Clone>(t: Trie<T, U>)
    requires
        t.wf(),
    ensures
        !t@.contains_key(Seq::<T>::empty()),
        t.resolves(Seq::<T>::empty()),
{
}

/// Prefix sharing: the nodes reachable in the tree are closed under
/// prefixes, so every prefix of a resolving sequence resolves.
pub proof fn lemma_resolved_prefix_closed<T: Eq + Clone, U: Clone>(
    t: Trie<T, U>,
    key: Seq<T>,
    prefix: Seq<T>,
)
    requires
        t.resolves(key),
        prefix.is_prefix_of(key),
    ensures
        t.resolves(prefix),
{
    t.root.lemma_path_prefix_closed(key, prefix);
}

} // verus!
