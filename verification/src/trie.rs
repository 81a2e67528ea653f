//! A presence-only prefix tree: it records which symbol sequences have
//! been added, without storing values.
//!
//! Membership is structural: a sequence is reported present exactly
//! when its path resolves to a node that currently has no children.
//! So, unlike the value-bearing engine at the crate root, adding a
//! longer sequence that extends a stored one makes the shorter one
//! stop being reported, since its node gains a child.  See
//! [`Trie::has_key`] and [`lemma_extension_hides_prefix`].

use vstd::prelude::*;

verus! {

use vstd::laws_eq::obeys_concrete_eq;
use crate::clone_is_exact;

/// The set of all prefixes of a sequence, the empty sequence and the
/// sequence itself included: exactly the paths that adding `key`
/// guarantees to exist.
pub open spec fn prefixes_of<T>(key: Seq<T>) -> Set<Seq<T>> {
    Set::new(|p: Seq<T>| p.is_prefix_of(key))
}

/// The structural-leaf membership rule: a sequence is reported present
/// exactly when its path exists and no added sequence extends it by a
/// further symbol.
pub open spec fn structurally_present<T>(paths: Set<Seq<T>>, key: Seq<T>) -> bool {
    paths.contains(key) && (forall|c: T| !paths.contains(#[trigger] key.push(c)))
}

/// One point of the presence-only tree: an incoming edge label and the
/// owned child nodes.  The label of the root of a tree is arbitrary
/// and never compared.
#[verifier::ext_equal]
pub struct TrieNode<T: Eq + Clone + Default> {
    /// The label of the edge leading into this node.
    pub key: T,
    /// The child nodes, at most one per edge label.
    pub children: Vec<TrieNode<T>>,
}

impl<T: Eq + Clone + Default> TrieNode<T> {
    /// Well-formedness of a subtree: no two children share an equal
    /// edge label.
    pub open spec fn wf(self) -> bool
        decreases self,
    {
        &&& (forall|i: int, j: int|
            #![trigger self.children[i].key, self.children[j].key]
            0 <= i < j < self.children.len() ==> self.children[i].key != self.children[j].key)
        &&& (forall|i: int|
            0 <= i < self.children.len() ==> (#[trigger] self.children[i]).wf())
    }

    /// Whether some child carries the edge label `c`.
    pub open spec fn has_child(self, c: T) -> bool {
        exists|i: int| 0 <= i < self.children.len() && (#[trigger] self.children[i].key) == c
    }

    /// The position of the child carrying the edge label `c`
    /// (meaningful only when `has_child(c)` holds).
    pub open spec fn child_idx(self, c: T) -> int {
        choose|i: int| 0 <= i < self.children.len() && (#[trigger] self.children[i].key) == c
    }

    /// The child carrying the edge label `c`.
    pub open spec fn child(self, c: T) -> TrieNode<T> {
        self.children[self.child_idx(c)]
    }

    /// Whether a node lies at the end of the path labelled `s` below
    /// this node.
    pub open spec fn contains_path(self, s: Seq<T>) -> bool
        decreases self,
    {
        s.len() == 0 || (self.has_child(s[0]) && self.child(s[0]).contains_path(s.drop_first()))
    }

    /// In a well-formed node the child for a given label is unique, so
    /// finding any child with that label pins down `child_idx`.
    pub proof fn lemma_child_at(self, c: T, i: int)
        requires
            self.wf(),
            0 <= i < self.children.len(),
            self.children[i].key == c,
        ensures
            self.has_child(c),
            self.child_idx(c) == i,
            self.child(c) == self.children[i],
    {
        assert(self.has_child(c));
        let j = self.child_idx(c);
        assert(0 <= j < self.children.len() && self.children[j].key == c);
        if i < j {
            assert(self.children[i].key != self.children[j].key);
        } else if j < i {
            assert(self.children[j].key != self.children[i].key);
        }
    }

    /// Every prefix of a contained path is itself contained.
    pub proof fn lemma_path_prefix_closed(self, s: Seq<T>, p: Seq<T>)
        requires
            self.contains_path(s),
            p.is_prefix_of(s),
        ensures
            self.contains_path(p),
        decreases self,
    {
        if p.len() > 0 {
            assert(p =~= s.subrange(0, p.len() as int));
            assert(p[0] == s[0]);
            crate::trie_node::lemma_prefix_step(p, s);
            self.child(s[0]).lemma_path_prefix_closed(s.drop_first(), p.drop_first());
        }
    }

    /// How the paths below a node change when exactly one child — the
    /// one carrying the label `c` — is replaced by a node with the same
    /// label: paths through other labels are untouched, and paths
    /// through `c` are those of the replaced child, one step down.
    proof fn lemma_child_update_paths(self, b: Self, c: T, idx: int)
        requires
            self.wf(),
            b.wf(),
            self.has_child(c),
            idx == self.child_idx(c),
            b.children.len() == self.children.len(),
            forall|j: int|
                0 <= j < self.children.len() && j != idx ==> b.children[j] == self.children[j],
            b.children[idx].key == c,
        ensures
            forall|s: Seq<T>|
                (s.len() == 0 || s[0] != c) ==> #[trigger] b.contains_path(s) == self.contains_path(
                    s,
                ),
            forall|s: Seq<T>|
                s.len() > 0 && s[0] == c ==> #[trigger] b.contains_path(s)
                    == b.children[idx].contains_path(s.drop_first()),
            forall|s: Seq<T>|
                s.len() > 0 && s[0] == c ==> #[trigger] self.contains_path(s)
                    == self.children[idx].contains_path(s.drop_first()),
    {
        assert(0 <= idx < self.children.len() && self.children[idx].key == c);
        b.lemma_child_at(c, idx);
        self.lemma_child_at(c, idx);
        assert forall|s: Seq<T>| s.len() > 0 && s[0] != c implies #[trigger] b.contains_path(s)
            == self.contains_path(s) by {
            let d = s[0];
            if self.has_child(d) {
                let j = self.child_idx(d);
                assert(0 <= j < self.children.len() && self.children[j].key == d);
                assert(j != idx);
                assert(b.children[j] == self.children[j]);
                b.lemma_child_at(d, j);
            } else if b.has_child(d) {
                let j = b.child_idx(d);
                assert(0 <= j < b.children.len() && b.children[j].key == d);
                assert(j != idx);
                assert(self.children[j].key == d);
                assert(self.has_child(d));
            }
        }
    }

    /// How the paths below a node change when a child with a fresh
    /// label `c` is appended: paths through other labels are untouched,
    /// paths through `c` are those of the new child, one step down, and
    /// there were no paths through `c` before.
    proof fn lemma_child_push_paths(self, b: Self, c: T)
        requires
            self.wf(),
            b.wf(),
            !self.has_child(c),
            b.children@ == self.children@.push(b.children[self.children.len() as int]),
            b.children[self.children.len() as int].key == c,
        ensures
            forall|s: Seq<T>|
                (s.len() == 0 || s[0] != c) ==> #[trigger] b.contains_path(s) == self.contains_path(
                    s,
                ),
            forall|s: Seq<T>|
                s.len() > 0 && s[0] == c ==> #[trigger] b.contains_path(s)
                    == b.children[self.children.len() as int].contains_path(s.drop_first()),
            forall|s: Seq<T>| s.len() > 0 && s[0] == c ==> !#[trigger] self.contains_path(s),
    {
        let idx = self.children.len() as int;
        assert(b.children.len() == self.children.len() + 1);
        assert(forall|j: int| 0 <= j < idx ==> b.children[j] == self.children[j]);
        b.lemma_child_at(c, idx);
        assert forall|s: Seq<T>| s.len() > 0 && s[0] != c implies #[trigger] b.contains_path(s)
            == self.contains_path(s) by {
            let d = s[0];
            if self.has_child(d) {
                let j = self.child_idx(d);
                assert(0 <= j < self.children.len() && self.children[j].key == d);
                assert(b.children[j] == self.children[j]);
                b.lemma_child_at(d, j);
            } else if b.has_child(d) {
                let j = b.child_idx(d);
                assert(0 <= j < b.children.len() && b.children[j].key == d);
                assert(j != idx);
                assert(self.children[j].key == d);
                assert(self.has_child(d));
            }
        }
        assert forall|s: Seq<T>| s.len() > 0 && s[0] == c implies !#[trigger] self.contains_path(
            s,
        ) by {
            assert(!self.has_child(s[0]));
        }
    }

    /// Builds a node with the given edge label and no children.
    pub fn new(key: T) -> (r: TrieNode<T>)
        ensures
            r.key == key,
            r.children@.len() == 0,
            r.wf(),
    {
        TrieNode { key, children: Vec::new() }
    }

    /// Linear scan of the children for one whose edge label equals
    /// `key`; returns that child.
    pub fn find(&self, key: &T) -> (r: Option<&TrieNode<T>>)
        requires
            self.wf(),
            obeys_concrete_eq::<T>(),
        ensures
            match r {
                Some(n) => self.has_child(*key) && *n == self.child(*key),
                None => !self.has_child(*key),
            },
    {
        proof {
            reveal(vstd::laws_eq::obeys_concrete_eq);
        }
        let n = self.children.len();
        let mut i: usize = 0;
        while i < n
            invariant
                n == self.children.len(),
                0 <= i <= n,
                self.wf(),
                obeys_concrete_eq::<T>(),
                forall|j: int| 0 <= j < i ==> (#[trigger] self.children[j].key) != *key,
            decreases n - i,
        {
            proof {
                reveal(vstd::laws_eq::obeys_concrete_eq);
            }
            if &self.children[i].key == key {
                proof {
                    self.lemma_child_at(*key, i as int);
                }
                return Some(&self.children[i]);
            }
            i += 1;
        }
        assert(!self.has_child(*key));
        None
    }

    /// Returns the position of the child whose edge label equals `key`
    /// if one exists; otherwise appends a child with that label and no
    /// children, and returns its position.
    pub fn add(&mut self, key: &T) -> (i: usize)
        requires
            old(self).wf(),
            obeys_concrete_eq::<T>(),
            clone_is_exact::<T>(),
        ensures
            final(self).wf(),
            final(self).key == old(self).key,
            i < final(self).children.len(),
            final(self).children[i as int].key == *key,
            final(self).has_child(*key),
            final(self).child_idx(*key) == i as int,
            old(self).has_child(*key) ==> *final(self) == *old(self),
            !old(self).has_child(*key) ==> i as int == old(self).children@.len()
                && final(self).children@ == old(self).children@.push(
                final(self).children[i as int],
            ) && final(self).children[i as int].children@.len() == 0,
    {
        proof {
            reveal(vstd::laws_eq::obeys_concrete_eq);
        }
        let n = self.children.len();
        let mut i: usize = 0;
        while i < n
            invariant
                n == self.children.len(),
                0 <= i <= n,
                self.wf(),
                obeys_concrete_eq::<T>(),
                forall|j: int| 0 <= j < i ==> (#[trigger] self.children[j].key) != *key,
            decreases n - i,
        {
            proof {
                reveal(vstd::laws_eq::obeys_concrete_eq);
            }
            if &self.children[i].key == key {
                proof {
                    self.lemma_child_at(*key, i as int);
                }
                return i;
            }
            i += 1;
        }
        let label = key.clone();
        proof {
            assert(vstd::pervasive::cloned::<T>(*key, label));
        }
        let node = TrieNode::new(label);
        let i = self.children.len();
        self.children.push(node);
        proof {
            assert(self.children[i as int].key == *key);
            assert(forall|j: int| 0 <= j < i ==> (#[trigger] self.children[j].key) != *key);
            assert(self.wf()) by {
                assert(forall|j: int|
                    0 <= j < i ==> (#[trigger] self.children[j]) == old(self).children[j]);
            }
            self.lemma_child_at(*key, i as int);
        }
        i
    }

    /// Whether this node currently has no children — the structural
    /// presence criterion of this engine.
    pub fn is_leaf(&self) -> (r: bool)
        ensures
            r == (self.children@.len() == 0),
    {
        self.children.is_empty()
    }

    /// Walks the path labelled by `key[i..]` below this node, creating
    /// any missing nodes.
    fn grow_path(&mut self, key: &[T], i: usize)
        requires
            old(self).wf(),
            i <= key@.len(),
            obeys_concrete_eq::<T>(),
            clone_is_exact::<T>(),
        ensures
            final(self).wf(),
            final(self).key == old(self).key,
            forall|s: Seq<T>|
                #[trigger] final(self).contains_path(s) == (old(self).contains_path(s)
                    || s.is_prefix_of(key@.skip(i as int))),
        decreases key@.len() - i,
    {
        if i == key.len() {
            proof {
                let k = key@.skip(i as int);
                assert(k.len() == 0);
                assert forall|s: Seq<T>|
                    #[trigger] self.contains_path(s) == (old(self).contains_path(s)
                        || s.is_prefix_of(k)) by {
                    if s.len() == 0 {
                        assert(s =~= k.subrange(0, s.len() as int));
                        assert(s.is_prefix_of(k));
                    }
                }
            }
        } else {
            let ghost pre = *self;
            let ghost c = key@[i as int];
            let idx = self.add(&key[i]);
            let ghost mid = *self;
            let child = &mut self.children[idx];
            child.grow_path(key, i + 1);
            proof {
                let now = *self;
                let fc = now.children[idx as int];
                let mc = mid.children[idx as int];
                let k = key@.skip(i as int);
                let kc = key@.skip(i as int + 1);
                assert(k.len() > 0 && k[0] == c);
                assert(k.drop_first() =~= kc);

                assert(now.children@ == mid.children@.update(idx as int, fc));
                assert(fc.key == mc.key);
                assert(now.wf()) by {
                    assert(forall|j: int|
                        0 <= j < now.children.len() && j != idx ==> (#[trigger] now.children[j])
                            == mid.children[j]);
                    assert(forall|j: int|
                        0 <= j < now.children.len() ==> (#[trigger] now.children[j].key)
                            == mid.children[j].key);
                }
                mid.lemma_child_update_paths(now, c, idx as int);

                if pre.has_child(c) {
                    pre.lemma_child_at(c, idx as int);
                } else {
                    pre.lemma_child_push_paths(mid, c);
                    assert forall|s: Seq<T>| #[trigger] mc.contains_path(s) == (s.len() == 0) by {
                        if s.len() > 0 {
                            assert(!mc.has_child(s[0]));
                        }
                    }
                }

                assert forall|s: Seq<T>|
                    #[trigger] now.contains_path(s) == (pre.contains_path(s) || s.is_prefix_of(
                        k,
                    )) by {
                    if s.len() == 0 {
                        assert(s =~= k.subrange(0, s.len() as int));
                        assert(s.is_prefix_of(k));
                    } else if s[0] == c {
                        crate::trie_node::lemma_prefix_step(s, k);
                        assert(now.contains_path(s) == fc.contains_path(s.drop_first()));
                        assert(fc.contains_path(s.drop_first()) == (mc.contains_path(
                            s.drop_first(),
                        ) || s.drop_first().is_prefix_of(kc)));
                    } else {
                        if s.is_prefix_of(k) {
                            assert(s =~= k.subrange(0, s.len() as int));
                            assert(s[0] == k[0]);
                        }
                    }
                }
            }
        }
    }

    /// Walks the path labelled by `key[i..]` below this node and
    /// returns the node at its end, or `None` as soon as a symbol has
    /// no matching child.
    fn seek(&self, key: &[T], i: usize) -> (r: Option<&TrieNode<T>>)
        requires
            self.wf(),
            i <= key@.len(),
            obeys_concrete_eq::<T>(),
        ensures
            match r {
                Some(n) => self.contains_path(key@.skip(i as int)) && n.wf() && (forall|c: T|
                    #[trigger] self.contains_path(key@.skip(i as int).push(c)) == n.has_child(c)),
                None => !self.contains_path(key@.skip(i as int)),
            },
        decreases key@.len() - i,
    {
        let ghost k = key@.skip(i as int);
        if i == key.len() {
            proof {
                assert(k.len() == 0);
                assert forall|c: T| #[trigger] self.contains_path(k.push(c)) == self.has_child(
                    c,
                ) by {
                    let e = k.push(c);
                    assert(e.len() == 1 && e[0] == c);
                    assert(e.drop_first().len() == 0);
                    if self.has_child(c) {
                        assert(self.child(c).contains_path(e.drop_first()));
                    }
                }
            }
            Some(self)
        } else {
            let ghost kc = key@.skip(i as int + 1);
            let ghost c = key@[i as int];
            proof {
                assert(k.len() > 0 && k[0] == c);
                assert(k.drop_first() =~= kc);
            }
            match self.find(&key[i]) {
                Some(child) => {
                    let r = child.seek(key, i + 1);
                    proof {
                        if r is Some {
                            assert forall|d: T|
                                #[trigger] self.contains_path(k.push(d)) == r.unwrap().has_child(
                                    d,
                                ) by {
                                let e = k.push(d);
                                assert(e.len() > 0 && e[0] == c);
                                assert(e.drop_first() =~= kc.push(d));
                                assert(self.contains_path(e) == child.contains_path(kc.push(d)));
                            }
                        }
                    }
                    r
                },
                None => None,
            }
        }
    }
}

/// Prefix tree object
pub struct Trie<T: Eq + Clone + Default> {
    /// Root of the prefix tree
    root: TrieNode<T>,
}

impl<T: Eq + Clone + Default> Trie<T> {
    /// The shape every reachable `Trie` value has: every subtree keeps
    /// one child per distinct edge label.  It holds of every trie this
    /// module hands out and is maintained by every operation.
    #[verifier::type_invariant]
    pub closed spec fn wf(self) -> bool {
        self.root.wf()
    }

    /// The paths that currently exist in the tree: the empty sequence,
    /// and every prefix of every added sequence.
    pub closed spec fn view(self) -> Set<Seq<T>> {
        Set::new(|s: Seq<T>| self.root.contains_path(s))
    }

    /// Creates a new `Trie` object
    pub fn new() -> (t: Trie<T>)
        ensures
            forall|s: Seq<T>| #[trigger] t@.contains(s) == (s.len() == 0),
    {
        let t = Trie { root: TrieNode::new(T::default()) };
        proof {
            assert forall|s: Seq<T>| #[trigger] t@.contains(s) == (s.len() == 0) by {
                if s.len() > 0 {
                    assert(!t.root.has_child(s[0]));
                }
            }
        }
        t
    }

    /// Checks that trie is empty
    pub fn is_empty(&self) -> (r: bool)
        ensures
            r == (forall|s: Seq<T>| s.len() > 0 ==> !self@.contains(s)),
    {
        proof {
            use_type_invariant(&*self);
        }
        let r = self.root.is_leaf();
        proof {
            if r {
                assert forall|s: Seq<T>| s.len() > 0 implies !self@.contains(s) by {
                    assert(!self.root.has_child(s[0]));
                }
            } else {
                let c = self.root.children[0].key;
                assert(self.root.has_child(c));
                let s = seq![c];
                assert(s.len() > 0 && s[0] == c);
                assert(s.drop_first().len() == 0);
                assert(self.root.child(c).contains_path(s.drop_first()));
                assert(self@.contains(s));
            }
        }
        r
    }

    /// Adds a new key to the trie
    ///
    /// Walks the path for `key` from the root, creating nodes for any
    /// unseen suffix; no terminal marker is stored.
    pub fn add(&mut self, key: &[T])
        requires
            obeys_concrete_eq::<T>(),
            clone_is_exact::<T>(),
        ensures
            final(self)@ == old(self)@.union(prefixes_of(key@)),
    {
        proof {
            use_type_invariant(&*self);
        }
        let mut root = TrieNode::new(T::default());
        core::mem::swap(&mut self.root, &mut root);
        root.grow_path(key, 0);
        proof {
            assert(key@.skip(0) =~= key@);
        }
        self.root = root;
        proof {
            assert(self@ =~= old(self)@.union(prefixes_of(key@)));
        }
    }

    /// Clears the trie
    ///
    /// Discards all of the root's children and, with them, every
    /// added sequence.
    pub fn clear(&mut self)
        ensures
            forall|s: Seq<T>| #[trigger] final(self)@.contains(s) == (s.len() == 0),
    {
        self.root = TrieNode::new(T::default());
        proof {
            assert forall|s: Seq<T>| #[trigger] self@.contains(s) == (s.len() == 0) by {
                if s.len() > 0 {
                    assert(!self.root.has_child(s[0]));
                }
            }
        }
    }

    /// Looks for the key in trie
    ///
    /// Membership is structural: the answer is `true` exactly when the
    /// path for `key` resolves and its last node currently has no
    /// children.  A sequence that was added stops being reported as
    /// soon as a longer added sequence extends it.
    pub fn has_key(&self, key: &[T]) -> (r: bool)
        requires
            obeys_concrete_eq::<T>(),
        ensures
            r == structurally_present(self@, key@),
    {
        proof {
            use_type_invariant(&*self);
            assert(key@.skip(0) =~= key@);
        }
        match self.root.seek(key, 0) {
            Some(node) => {
                let r = node.is_leaf();
                proof {
                    if r {
                        assert forall|c: T| !self@.contains(#[trigger] key@.push(c)) by {
                            assert(!node.has_child(c));
                        }
                        assert(structurally_present(self@, key@));
                    } else {
                        let c = node.children[0].key;
                        assert(node.has_child(c));
                        assert(self@.contains(key@.push(c)));
                        assert(!structurally_present(self@, key@));
                    }
                }
                r
            },
            None => {
                proof {
                    assert(!self@.contains(key@));
                }
                false
            },
        }
    }
}

/// The structural-leaf rule makes presence of a sequence transient:
/// once some longer sequence extending it is added, the shorter one is
/// no longer reported present, even though it was added explicitly;
/// the extended sequence itself is reported as long as nothing added
/// extends it further.  This divergence from the value-bearing engine
/// is inherent to defining presence as "no further children".
pub proof fn lemma_extension_hides_prefix<T>(paths: Set<Seq<T>>, key: Seq<T>, ext: Seq<T>)
    requires
        ext.len() > 0,
    ensures
        !structurally_present(paths.union(prefixes_of(key)).union(prefixes_of(key + ext)), key),
        (forall|c: T| !paths.contains(#[trigger] (key + ext).push(c)))
            ==> structurally_present(
            paths.union(prefixes_of(key)).union(prefixes_of(key + ext)),
            key + ext,
        ),
{
    let all = paths.union(prefixes_of(key)).union(prefixes_of(key + ext));
    let step = key.push(ext[0]);
    assert(step =~= (key + ext).subrange(0, key.len() as int + 1));
    assert(step.is_prefix_of(key + ext));
    assert(all.contains(step));
    assert(!structurally_present(all, key));

    if forall|c: T| !paths.contains(#[trigger] (key + ext).push(c)) {
        assert((key + ext).is_prefix_of(key + ext)) by {
            assert((key + ext) =~= (key + ext).subrange(0, (key + ext).len() as int));
        }
        assert(all.contains(key + ext));
        assert forall|c: T| !all.contains(#[trigger] (key + ext).push(c)) by {
            let e = (key + ext).push(c);
            assert(e.len() > (key + ext).len());
            assert(!e.is_prefix_of(key + ext));
            assert(!e.is_prefix_of(key));
        }
    }
}

/// Every path in a presence-only trie is closed under prefixes, and
/// the empty path is always there: the tree always has a root.
pub proof fn lemma_paths_prefix_closed<T: Eq + Clone + Default>(
    t: Trie<T>,
    key: Seq<T>,
    prefix: Seq<T>,
)
    requires
        t@.contains(key),
        prefix.is_prefix_of(key),
    ensures
        t@.contains(prefix),
        t@.contains(Seq::<T>::empty()),
{
    t.root.lemma_path_prefix_closed(key, prefix);
}

} // verus!
