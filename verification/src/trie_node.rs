use vstd::prelude::*;

verus! {

use vstd::laws_eq::obeys_concrete_eq;
use crate::clone_is_exact;

/// One point of the prefix tree: an incoming edge label, an optional
/// terminal value, and the owned child nodes.  The label is `None` only
/// at the root of a tree.
#[verifier::ext_equal]
pub(crate) struct TrieNode<T, U> {
    pub(crate) key: Option<T>,
    pub(crate) value: Option<U>,
    pub(crate) children: Vec<TrieNode<T, U>>,
}

impl<T, U> TrieNode<T, U> {
    /// Well-formedness of a subtree: no two children share an equal
    /// edge label, and every child carries a label.
    pub(crate) open spec fn wf(self) -> bool
        decreases self,
    {
        &&& (forall|i: int, j: int|
            #![trigger self.children[i].key, self.children[j].key]
            0 <= i < j < self.children.len() ==> self.children[i].key != self.children[j].key)
        &&& (forall|i: int|
            0 <= i < self.children.len() ==> (#[trigger] self.children[i].key) is Some)
        &&& (forall|i: int|
            0 <= i < self.children.len() ==> (#[trigger] self.children[i]).wf())
    }

    /// Whether some child carries the edge label `c`.
    pub(crate) open spec fn has_child(self, c: T) -> bool {
        exists|i: int|
            0 <= i < self.children.len() && (#[trigger] self.children[i].key) == Some(c)
    }

    /// The position of the child carrying the edge label `c`
    /// (meaningful only when `has_child(c)` holds).
    pub(crate) open spec fn child_idx(self, c: T) -> int {
        choose|i: int|
            0 <= i < self.children.len() && (#[trigger] self.children[i].key) == Some(c)
    }

    /// The child carrying the edge label `c`.
    pub(crate) open spec fn child(self, c: T) -> TrieNode<T, U> {
        self.children[self.child_idx(c)]
    }

    /// Whether a node lies at the end of the path labelled `s` below
    /// this node.
    pub(crate) open spec fn contains_path(self, s: Seq<T>) -> bool
        decreases self,
    {
        s.len() == 0 || (self.has_child(s[0]) && self.child(s[0]).contains_path(s.drop_first()))
    }

    /// The value stored at the end of the path labelled `s` below this
    /// node, or `None` if the path is missing or its last node holds no
    /// value.
    pub(crate) open spec fn value_at(self, s: Seq<T>) -> Option<U>
        decreases self,
    {
        if s.len() == 0 {
            self.value
        } else if self.has_child(s[0]) {
            self.child(s[0]).value_at(s.drop_first())
        } else {
            None
        }
    }

    /// Paths below a node with no children: only the empty path, and
    /// only the node's own value.
    pub(crate) proof fn lemma_no_children_paths(self)
        requires
            self.children.len() == 0,
        ensures
            forall|s: Seq<T>| #[trigger] self.contains_path(s) == (s.len() == 0),
            forall|s: Seq<T>|
                #[trigger] self.value_at(s) == (if s.len() == 0 { self.value } else { None::<U> }),
    {
        assert forall|s: Seq<T>| #[trigger] self.contains_path(s) == (s.len() == 0) by {
            if s.len() > 0 {
                assert(!self.has_child(s[0]));
            }
        }
        assert forall|s: Seq<T>|
            #[trigger] self.value_at(s) == (if s.len() == 0 { self.value } else { None::<U> }) by {
            if s.len() > 0 {
                assert(!self.has_child(s[0]));
            }
        }
    }

    /// A value can only be stored at a node that exists: wherever
    /// `value_at` is populated, the path is contained in the tree.
    pub(crate) proof fn lemma_value_implies_path(self, s: Seq<T>)
        ensures
            self.value_at(s) is Some ==> self.contains_path(s),
        decreases self,
    {
        if s.len() > 0 && self.has_child(s[0]) {
            self.child(s[0]).lemma_value_implies_path(s.drop_first());
        }
    }

    /// Every prefix of a contained path is itself contained.
    pub(crate) proof fn lemma_path_prefix_closed(self, s: Seq<T>, p: Seq<T>)
        requires
            self.contains_path(s),
            p.is_prefix_of(s),
        ensures
            self.contains_path(p),
        decreases self,
    {
        if p.len() > 0 {
            assert(p =~= s.subrange(0, p.len() as int));
            assert(p[0] == s[0]);
            lemma_prefix_step(p, s);
            self.child(s[0]).lemma_path_prefix_closed(s.drop_first(), p.drop_first());
        }
    }

    /// In a well-formed node the child for a given label is unique, so
    /// finding any child with that label pins down `child_idx`.
    pub(crate) proof fn lemma_child_at(self, c: T, i: int)
        requires
            self.wf(),
            0 <= i < self.children.len(),
            self.children[i].key == Some(c),
        ensures
            self.has_child(c),
            self.child_idx(c) == i,
            self.child(c) == self.children[i],
    {
        assert(self.has_child(c));
        let j = self.child_idx(c);
        assert(0 <= j < self.children.len() && self.children[j].key == Some(c));
        if i < j {
            assert(self.children[i].key != self.children[j].key);
        } else if j < i {
            assert(self.children[j].key != self.children[i].key);
        }
    }

    /// How the paths below a node change when exactly one child — the
    /// one carrying the label `c` — is replaced by a node with the same
    /// label: paths through other labels are untouched, and paths
    /// through `c` are those of the replaced child, one step down.
    pub(crate) proof fn lemma_child_update_paths(self, b: Self, c: T, idx: int)
        requires
            self.wf(),
            b.wf(),
            b.key == self.key,
            b.value == self.value,
            self.has_child(c),
            idx == self.child_idx(c),
            b.children.len() == self.children.len(),
            forall|j: int|
                0 <= j < self.children.len() && j != idx ==> b.children[j] == self.children[j],
            b.children[idx].key == Some(c),
        ensures
            forall|s: Seq<T>|
                (s.len() == 0 || s[0] != c) ==> #[trigger] b.contains_path(s) == self.contains_path(
                    s,
                ),
            forall|s: Seq<T>|
                (s.len() == 0 || s[0] != c) ==> #[trigger] b.value_at(s) == self.value_at(s),
            forall|s: Seq<T>|
                s.len() > 0 && s[0] == c ==> #[trigger] b.contains_path(s)
                    == b.children[idx].contains_path(s.drop_first()),
            forall|s: Seq<T>|
                s.len() > 0 && s[0] == c ==> #[trigger] b.value_at(s)
                    == b.children[idx].value_at(s.drop_first()),
            forall|s: Seq<T>|
                s.len() > 0 && s[0] == c ==> #[trigger] self.contains_path(s)
                    == self.children[idx].contains_path(s.drop_first()),
            forall|s: Seq<T>|
                s.len() > 0 && s[0] == c ==> #[trigger] self.value_at(s)
                    == self.children[idx].value_at(s.drop_first()),
    {
        assert(0 <= idx < self.children.len() && self.children[idx].key == Some(c));
        b.lemma_child_at(c, idx);
        self.lemma_child_at(c, idx);
        assert forall|s: Seq<T>| s.len() > 0 && s[0] != c implies #[trigger] b.contains_path(s)
            == self.contains_path(s) && b.value_at(s) == self.value_at(s) by {
            let d = s[0];
            if self.has_child(d) {
                let j = self.child_idx(d);
                assert(0 <= j < self.children.len() && self.children[j].key == Some(d));
                assert(j != idx);
                assert(b.children[j] == self.children[j]);
                b.lemma_child_at(d, j);
            } else if b.has_child(d) {
                let j = b.child_idx(d);
                assert(0 <= j < b.children.len() && b.children[j].key == Some(d));
                assert(j != idx);
                assert(self.children[j].key == Some(d));
                assert(self.has_child(d));
            }
        }
    }

    /// How the paths below a node change when a child with a fresh
    /// label `c` is appended: paths through other labels are untouched,
    /// paths through `c` are those of the new child, one step down, and
    /// there were no paths through `c` before.
    pub(crate) proof fn lemma_child_push_paths(self, b: Self, c: T)
        requires
            self.wf(),
            b.wf(),
            b.key == self.key,
            b.value == self.value,
            !self.has_child(c),
            b.children@ == self.children@.push(b.children[self.children.len() as int]),
            b.children[self.children.len() as int].key == Some(c),
        ensures
            forall|s: Seq<T>|
                (s.len() == 0 || s[0] != c) ==> #[trigger] b.contains_path(s) == self.contains_path(
                    s,
                ),
            forall|s: Seq<T>|
                (s.len() == 0 || s[0] != c) ==> #[trigger] b.value_at(s) == self.value_at(s),
            forall|s: Seq<T>|
                s.len() > 0 && s[0] == c ==> #[trigger] b.contains_path(s)
                    == b.children[self.children.len() as int].contains_path(s.drop_first()),
            forall|s: Seq<T>|
                s.len() > 0 && s[0] == c ==> #[trigger] b.value_at(s) == b.children[
                    self.children.len() as int
                ].value_at(s.drop_first()),
            forall|s: Seq<T>|
                s.len() > 0 && s[0] == c ==> !#[trigger] self.contains_path(s)
                    && #[trigger] self.value_at(s) == None::<U>,
    {
        let idx = self.children.len() as int;
        assert(b.children.len() == self.children.len() + 1);
        assert(forall|j: int| 0 <= j < idx ==> b.children[j] == self.children[j]);
        b.lemma_child_at(c, idx);
        assert forall|s: Seq<T>| s.len() > 0 && s[0] != c implies #[trigger] b.contains_path(s)
            == self.contains_path(s) && b.value_at(s) == self.value_at(s) by {
            let d = s[0];
            if self.has_child(d) {
                let j = self.child_idx(d);
                assert(0 <= j < self.children.len() && self.children[j].key == Some(d));
                assert(b.children[j] == self.children[j]);
                b.lemma_child_at(d, j);
            } else if b.has_child(d) {
                let j = b.child_idx(d);
                assert(0 <= j < b.children.len() && b.children[j].key == Some(d));
                assert(j != idx);
                assert(self.children[j].key == Some(d));
                assert(self.has_child(d));
            }
        }
        assert forall|s: Seq<T>| s.len() > 0 && s[0] == c implies !#[trigger] self.contains_path(s)
            && #[trigger] self.value_at(s) == None::<U> by {
            assert(!self.has_child(s[0]));
        }
    }
}

/// Walking one symbol into a sequence keeps the prefix relation: when
/// two non-empty sequences start with the same symbol, one is a prefix
/// of the other exactly when that holds of their tails.
pub(crate) proof fn lemma_prefix_step<T>(s: Seq<T>, k: Seq<T>)
    requires
        s.len() > 0,
        k.len() > 0,
        s[0] == k[0],
    ensures
        s.is_prefix_of(k) == s.drop_first().is_prefix_of(k.drop_first()),
{
    if s.is_prefix_of(k) {
        assert(s.drop_first() =~= k.drop_first().subrange(0, s.len() - 1));
    }
    if s.drop_first().is_prefix_of(k.drop_first()) {
        assert(s.drop_first() =~= k.drop_first().subrange(0, s.len() - 1));
        assert forall|i: int| 0 <= i < s.len() implies s[i] == k[i] by {
            if i > 0 {
                assert(s[i] == s.drop_first()[i - 1]);
                assert(k.drop_first()[i - 1] == k[i]);
            }
        }
        assert(s =~= k.subrange(0, s.len() as int));
    }
}

impl<T: Eq + Clone, U: Clone> TrieNode<T, U> {
    /// Builds a node with the given edge label and value and no
    /// children.
    pub(crate) fn new(key: Option<T>, value: Option<U>) -> (r: TrieNode<T, U>)
        ensures
            r.key == key,
            r.value == value,
            r.children@.len() == 0,
            r.wf(),
    {
        TrieNode { key, value, children: Vec::new() }
    }

    /// Linear scan of the children for one whose edge label equals
    /// `symbol`; returns its position.
    pub(crate) fn find(&self, symbol: &T) -> (r: Option<usize>)
        requires
            self.wf(),
            obeys_concrete_eq::<T>(),
        ensures
            match r {
                Some(i) => self.has_child(*symbol) && i == self.child_idx(*symbol) && i
                    < self.children@.len(),
                None => !self.has_child(*symbol),
            },
    {
        proof {
            reveal(vstd::laws_eq::obeys_concrete_eq);
        }
        let n = self.children.len();
        let mut i: usize = 0;
        while i < n
            invariant
                n == self.children.len(),
                0 <= i <= n,
                self.wf(),
                obeys_concrete_eq::<T>(),
                forall|j: int| 0 <= j < i ==> (#[trigger] self.children[j].key) != Some(*symbol),
            decreases n - i,
        {
            match &self.children[i].key {
                Some(k) => {
                    proof {
                        reveal(vstd::laws_eq::obeys_concrete_eq);
                    }
                    if k == symbol {
                        proof {
                            self.lemma_child_at(*symbol, i as int);
                        }
                        return Some(i);
                    }
                },
                None => {},
            }
            i += 1;
        }
        assert(!self.has_child(*symbol));
        None
    }

    /// Returns the position of the child whose edge label equals
    /// `symbol` if one exists; otherwise appends a child with that
    /// label, no value and no children, and returns its position.
    pub(crate) fn add(&mut self, symbol: &T) -> (i: usize)
        requires
            old(self).wf(),
            obeys_concrete_eq::<T>(),
            clone_is_exact::<T>(),
        ensures
            final(self).wf(),
            final(self).key == old(self).key,
            final(self).value == old(self).value,
            i < final(self).children.len(),
            final(self).children[i as int].key == Some(*symbol),
            final(self).has_child(*symbol),
            final(self).child_idx(*symbol) == i as int,
            old(self).has_child(*symbol) ==> *final(self) == *old(self),
            !old(self).has_child(*symbol) ==> i as int == old(self).children@.len()
                && final(self).children@ == old(self).children@.push(
                final(self).children[i as int],
            ) && final(self).children[i as int].value is None && final(self).children[
                i as int
            ].children@.len() == 0,
    {
        match self.find(symbol) {
            Some(i) => {
                proof {
                    self.lemma_child_at(*symbol, self.child_idx(*symbol));
                }
                i
            },
            None => {
                let label = symbol.clone();
                proof {
                    assert(vstd::pervasive::cloned::<T>(*symbol, label));
                }
                let node = TrieNode::new(Some(label), None);
                let i = self.children.len();
                self.children.push(node);
                proof {
                    assert(self.children[i as int].key == Some(*symbol));
                    assert(forall|j: int|
                        0 <= j < i ==> (#[trigger] self.children[j].key) != Some(*symbol));
                    assert(self.wf()) by {
                        assert(forall|j: int|
                            0 <= j < i ==> (#[trigger] self.children[j]) == old(self).children[j]);
                    }
                    self.lemma_child_at(*symbol, i as int);
                }
                i
            },
        }
    }

    /// Walks the path labelled by `key[i..]` below this node, creating
    /// any missing nodes, and stores `value` at its last node.
    pub(crate) fn insert_path(&mut self, key: &[T], i: usize, value: U)
        requires
            old(self).wf(),
            i <= key@.len(),
            obeys_concrete_eq::<T>(),
            clone_is_exact::<T>(),
        ensures
            final(self).wf(),
            final(self).key == old(self).key,
            forall|s: Seq<T>|
                #[trigger] final(self).contains_path(s) == (old(self).contains_path(s)
                    || s.is_prefix_of(key@.skip(i as int))),
            forall|s: Seq<T>|
                #[trigger] final(self).value_at(s) == (if s == key@.skip(i as int) {
                    Some(value)
                } else {
                    old(self).value_at(s)
                }),
        decreases key@.len() - i,
    {
        if i == key.len() {
            self.set_value(value);
            proof {
                let k = key@.skip(i as int);
                assert(k.len() == 0);
                assert forall|s: Seq<T>|
                    #[trigger] self.contains_path(s) == (old(self).contains_path(s)
                        || s.is_prefix_of(k)) by {
                    if s.len() == 0 {
                        assert(s =~= k.subrange(0, s.len() as int));
                        assert(s.is_prefix_of(k));
                    }
                }
                assert forall|s: Seq<T>|
                    #[trigger] self.value_at(s) == (if s == k {
                        Some(value)
                    } else {
                        old(self).value_at(s)
                    }) by {
                    if s.len() == 0 {
                        assert(s =~= k);
                    }
                }
            }
        } else {
            let ghost pre = *self;
            let ghost c = key@[i as int];
            let idx = self.add(&key[i]);
            let ghost mid = *self;
            let child = &mut self.children[idx];
            child.insert_path(key, i + 1, value);
            proof {
                let now = *self;
                let fc = now.children[idx as int];
                let mc = mid.children[idx as int];
                let k = key@.skip(i as int);
                let kc = key@.skip(i as int + 1);
                assert(k.len() > 0 && k[0] == c);
                assert(k.drop_first() =~= kc);

                assert(now.children@ == mid.children@.update(idx as int, fc));
                assert(fc.key == mc.key);
                assert(now.wf()) by {
                    assert(forall|j: int|
                        0 <= j < now.children.len() && j != idx ==> (#[trigger] now.children[j])
                            == mid.children[j]);
                    assert(forall|j: int|
                        0 <= j < now.children.len() ==> (#[trigger] now.children[j].key)
                            == mid.children[j].key);
                }
                mid.lemma_child_update_paths(now, c, idx as int);

                if pre.has_child(c) {
                    pre.lemma_child_at(c, idx as int);
                } else {
                    pre.lemma_child_push_paths(mid, c);
                    mc.lemma_no_children_paths();
                }

                assert forall|s: Seq<T>|
                    #[trigger] now.contains_path(s) == (pre.contains_path(s) || s.is_prefix_of(
                        k,
                    )) by {
                    if s.len() == 0 {
                        assert(s =~= k.subrange(0, s.len() as int));
                        assert(s.is_prefix_of(k));
                    } else if s[0] == c {
                        lemma_prefix_step(s, k);
                        assert(s.drop_first().is_prefix_of(kc) == s.is_prefix_of(k));
                        assert(now.contains_path(s) == fc.contains_path(s.drop_first()));
                        assert(fc.contains_path(s.drop_first()) == (mc.contains_path(
                            s.drop_first(),
                        ) || s.drop_first().is_prefix_of(kc)));
                    } else {
                        if s.is_prefix_of(k) {
                            assert(s =~= k.subrange(0, s.len() as int));
                            assert(s[0] == k[0]);
                        }
                    }
                }
                assert forall|s: Seq<T>|
                    #[trigger] now.value_at(s) == (if s == k {
                        Some(value)
                    } else {
                        pre.value_at(s)
                    }) by {
                    if s.len() == 0 {
                        assert(s != k);
                    } else if s[0] == c {
                        assert(now.value_at(s) == fc.value_at(s.drop_first()));
                        assert(fc.value_at(s.drop_first()) == (if s.drop_first() == kc {
                            Some(value)
                        } else {
                            mc.value_at(s.drop_first())
                        }));
                        if s == k {
                            assert(s.drop_first() =~= kc);
                        } else {
                            if s.drop_first() == kc {
                                assert(s.len() == k.len());
                                assert forall|j: int| 0 <= j < s.len() implies s[j] == k[j] by {
                                    if j > 0 {
                                        assert(s[j] == s.drop_first()[j - 1]);
                                        assert(k[j] == k.drop_first()[j - 1]);
                                        assert(k.drop_first()[j - 1] == kc[j - 1]);
                                    }
                                }
                                assert(s =~= k);
                                assert(false);
                            }
                        }
                    } else {
                        assert(s != k);
                    }
                }
            }
        }
    }

    /// Overwrites this node's value unconditionally (last write wins).
    pub(crate) fn set_value(&mut self, value: U)
        ensures
            *final(self) == (TrieNode { value: Some(value), ..*old(self) }),
    {
        self.value = Some(value);
    }

    /// Walks the path labelled by `key[i..]` below this node and
    /// returns the node at its end, or `None` as soon as a symbol has
    /// no matching child.
    pub(crate) fn find_path(&self, key: &[T], i: usize) -> (r: Option<&TrieNode<T, U>>)
        requires
            self.wf(),
            i <= key@.len(),
            obeys_concrete_eq::<T>(),
        ensures
            match r {
                Some(n) => self.contains_path(key@.skip(i as int)) && n.wf() && n.value
                    == self.value_at(key@.skip(i as int)),
                None => !self.contains_path(key@.skip(i as int)) && self.value_at(
                    key@.skip(i as int),
                ) is None,
            },
        decreases key@.len() - i,
    {
        if i == key.len() {
            proof {
                assert(key@.skip(i as int).len() == 0);
            }
            Some(self)
        } else {
            let ghost k = key@.skip(i as int);
            let ghost kc = key@.skip(i as int + 1);
            let ghost c = key@[i as int];
            proof {
                assert(k.len() > 0 && k[0] == c);
                assert(k.drop_first() =~= kc);
            }
            match self.find(&key[i]) {
                Some(idx) => {
                    proof {
                        assert(self.child(c) == self.children[idx as int]);
                    }
                    self.children[idx].find_path(key, i + 1)
                },
                None => None,
            }
        }
    }

    /// Walks the path labelled by `key[i..]` below this node without
    /// creating nodes; overwrites the value at its last node, or
    /// reports failure if the path does not resolve.
    pub(crate) fn set_path(&mut self, key: &[T], i: usize, value: U) -> (r: Result<(), ()>)
        requires
            old(self).wf(),
            i <= key@.len(),
            obeys_concrete_eq::<T>(),
        ensures
            final(self).wf(),
            final(self).key == old(self).key,
            (r is Ok) == old(self).contains_path(key@.skip(i as int)),
            forall|s: Seq<T>|
                #[trigger] final(self).contains_path(s) == old(self).contains_path(s),
            r is Ok ==> forall|s: Seq<T>|
                #[trigger] final(self).value_at(s) == (if s == key@.skip(i as int) {
                    Some(value)
                } else {
                    old(self).value_at(s)
                }),
            r is Err ==> forall|s: Seq<T>|
                #[trigger] final(self).value_at(s) == old(self).value_at(s),
        decreases key@.len() - i,
    {
        if i == key.len() {
            self.set_value(value);
            proof {
                let k = key@.skip(i as int);
                assert(k.len() == 0);
                assert forall|s: Seq<T>|
                    #[trigger] self.value_at(s) == (if s == k {
                        Some(value)
                    } else {
                        old(self).value_at(s)
                    }) by {
                    if s.len() == 0 {
                        assert(s =~= k);
                    }
                }
            }
            Ok(())
        } else {
            let ghost pre = *self;
            let ghost k = key@.skip(i as int);
            let ghost kc = key@.skip(i as int + 1);
            let ghost c = key@[i as int];
            proof {
                assert(k.len() > 0 && k[0] == c);
                assert(k.drop_first() =~= kc);
            }
            match self.find(&key[i]) {
                Some(idx) => {
                    proof {
                        assert(pre.child(c) == pre.children[idx as int]);
                    }
                    let child = &mut self.children[idx];
                    let r = child.set_path(key, i + 1, value);
                    proof {
                        let now = *self;
                        let fc = now.children[idx as int];
                        let mc = pre.children[idx as int];
                        assert(now.children@ == pre.children@.update(idx as int, fc));
                        assert(fc.key == mc.key);
                        assert(now.wf()) by {
                            assert(forall|j: int|
                                0 <= j < now.children.len() && j != idx ==> (
                                #[trigger] now.children[j]) == pre.children[j]);
                            assert(forall|j: int|
                                0 <= j < now.children.len() ==> (#[trigger] now.children[j].key)
                                    == pre.children[j].key);
                        }
                        pre.lemma_child_update_paths(now, c, idx as int);
                        assert forall|s: Seq<T>|
                            #[trigger] now.contains_path(s) == pre.contains_path(s) by {
                            if s.len() > 0 && s[0] == c {
                                assert(now.contains_path(s) == fc.contains_path(s.drop_first()));
                                assert(pre.contains_path(s) == mc.contains_path(s.drop_first()));
                            }
                        }
                        if r is Ok {
                            assert forall|s: Seq<T>|
                                #[trigger] now.value_at(s) == (if s == k {
                                    Some(value)
                                } else {
                                    pre.value_at(s)
                                }) by {
                                if s.len() == 0 {
                                    assert(s != k);
                                } else if s[0] == c {
                                    assert(now.value_at(s) == fc.value_at(s.drop_first()));
                                    assert(pre.value_at(s) == mc.value_at(s.drop_first()));
                                    if s == k {
                                        assert(s.drop_first() =~= kc);
                                    } else {
                                        if s.drop_first() == kc {
                                            assert(s.len() == k.len());
                                            assert forall|j: int| 0 <= j < s.len() implies s[j]
                                                == k[j] by {
                                                if j > 0 {
                                                    assert(s[j] == s.drop_first()[j - 1]);
                                                    assert(k[j] == k.drop_first()[j - 1]);
                                                    assert(k.drop_first()[j - 1] == kc[j - 1]);
                                                }
                                            }
                                            assert(s =~= k);
                                            assert(false);
                                        }
                                    }
                                } else {
                                    assert(s != k);
                                }
                            }
                        } else {
                            assert forall|s: Seq<T>|
                                #[trigger] now.value_at(s) == pre.value_at(s) by {
                                if s.len() > 0 && s[0] == c {
                                    assert(now.value_at(s) == fc.value_at(s.drop_first()));
                                    assert(pre.value_at(s) == mc.value_at(s.drop_first()));
                                }
                            }
                        }
                    }
                    r
                },
                None => {
                    proof {
                        assert(!self.contains_path(k));
                    }
                    Err(())
                },
            }
        }
    }

    /// Walks the path labelled by `key[i..]` below this node without
    /// creating nodes; feeds a snapshot of the value at its last node
    /// to `f` and stores the result back, or reports failure if the
    /// path does not resolve or its last node holds no value.
    pub(crate) fn apply_path<F: FnOnce(U) -> U>(&mut self, key: &[T], i: usize, f: F) -> (r: Result<
        (),
        (),
    >)
        requires
            old(self).wf(),
            i <= key@.len(),
            obeys_concrete_eq::<T>(),
            clone_is_exact::<U>(),
            old(self).value_at(key@.skip(i as int)) is Some ==> call_requires(
                f,
                (old(self).value_at(key@.skip(i as int)).unwrap(),),
            ),
        ensures
            final(self).wf(),
            final(self).key == old(self).key,
            (r is Ok) == (old(self).value_at(key@.skip(i as int)) is Some),
            forall|s: Seq<T>|
                #[trigger] final(self).contains_path(s) == old(self).contains_path(s),
            r is Ok ==> exists|nv: U|
                call_ensures(f, (old(self).value_at(key@.skip(i as int)).unwrap(),), nv) && (forall|
                    s: Seq<T>,
                |
                    #[trigger] final(self).value_at(s) == (if s == key@.skip(i as int) {
                        Some(nv)
                    } else {
                        old(self).value_at(s)
                    })),
            r is Err ==> forall|s: Seq<T>|
                #[trigger] final(self).value_at(s) == old(self).value_at(s),
        decreases key@.len() - i,
    {
        if i == key.len() {
            proof {
                assert(key@.skip(i as int).len() == 0);
            }
            match self.get_value() {
                Some(v) => {
                    let nv = f(v);
                    let ghost wit = nv;
                    self.set_value(nv);
                    proof {
                        let k = key@.skip(i as int);
                        assert forall|s: Seq<T>|
                            #[trigger] self.value_at(s) == (if s == k {
                                Some(wit)
                            } else {
                                old(self).value_at(s)
                            }) by {
                            if s.len() == 0 {
                                assert(s =~= k);
                            }
                        }
                    }
                    Ok(())
                },
                None => Err(()),
            }
        } else {
            let ghost pre = *self;
            let ghost k = key@.skip(i as int);
            let ghost kc = key@.skip(i as int + 1);
            let ghost c = key@[i as int];
            proof {
                assert(k.len() > 0 && k[0] == c);
                assert(k.drop_first() =~= kc);
            }
            match self.find(&key[i]) {
                Some(idx) => {
                    proof {
                        assert(pre.child(c) == pre.children[idx as int]);
                        assert(pre.value_at(k) == pre.children[idx as int].value_at(kc));
                    }
                    let child = &mut self.children[idx];
                    let r = child.apply_path(key, i + 1, f);
                    proof {
                        let now = *self;
                        let fc = now.children[idx as int];
                        let mc = pre.children[idx as int];
                        assert(now.children@ == pre.children@.update(idx as int, fc));
                        assert(fc.key == mc.key);
                        assert(now.wf()) by {
                            assert(forall|j: int|
                                0 <= j < now.children.len() && j != idx ==> (
                                #[trigger] now.children[j]) == pre.children[j]);
                            assert(forall|j: int|
                                0 <= j < now.children.len() ==> (#[trigger] now.children[j].key)
                                    == pre.children[j].key);
                        }
                        pre.lemma_child_update_paths(now, c, idx as int);
                        assert forall|s: Seq<T>|
                            #[trigger] now.contains_path(s) == pre.contains_path(s) by {
                            if s.len() > 0 && s[0] == c {
                                assert(now.contains_path(s) == fc.contains_path(s.drop_first()));
                                assert(pre.contains_path(s) == mc.contains_path(s.drop_first()));
                            }
                        }
                        if r is Ok {
                            let nv = choose|nv: U|
                                call_ensures(f, (mc.value_at(kc).unwrap(),), nv) && (forall|
                                    s: Seq<T>,
                                |
                                    #[trigger] fc.value_at(s) == (if s == kc {
                                        Some(nv)
                                    } else {
                                        mc.value_at(s)
                                    }));
                            assert forall|s: Seq<T>|
                                #[trigger] now.value_at(s) == (if s == k {
                                    Some(nv)
                                } else {
                                    pre.value_at(s)
                                }) by {
                                if s.len() == 0 {
                                    assert(s != k);
                                } else if s[0] == c {
                                    assert(now.value_at(s) == fc.value_at(s.drop_first()));
                                    assert(pre.value_at(s) == mc.value_at(s.drop_first()));
                                    if s == k {
                                        assert(s.drop_first() =~= kc);
                                    } else {
                                        if s.drop_first() == kc {
                                            assert(s.len() == k.len());
                                            assert forall|j: int| 0 <= j < s.len() implies s[j]
                                                == k[j] by {
                                                if j > 0 {
                                                    assert(s[j] == s.drop_first()[j - 1]);
                                                    assert(k[j] == k.drop_first()[j - 1]);
                                                    assert(k.drop_first()[j - 1] == kc[j - 1]);
                                                }
                                            }
                                            assert(s =~= k);
                                            assert(false);
                                        }
                                    }
                                } else {
                                    assert(s != k);
                                }
                            }
                        } else {
                            assert forall|s: Seq<T>|
                                #[trigger] now.value_at(s) == pre.value_at(s) by {
                                if s.len() > 0 && s[0] == c {
                                    assert(now.value_at(s) == fc.value_at(s.drop_first()));
                                    assert(pre.value_at(s) == mc.value_at(s.drop_first()));
                                }
                            }
                        }
                    }
                    r
                },
                None => {
                    proof {
                        assert(!self.contains_path(k));
                    }
                    Err(())
                },
            }
        }
    }

    /// A snapshot of this node's value.
    pub(crate) fn get_value(&self) -> (r: Option<U>)
        requires
            clone_is_exact::<U>(),
        ensures
            r == self.value,
    {
        match &self.value {
            Some(v) => {
                let snapshot = v.clone();
                proof {
                    assert(vstd::pervasive::cloned::<U>(*v, snapshot));
                }
                Some(snapshot)
            },
            None => None,
        }
    }

    /// Whether this node marks the end of a stored key, that is,
    /// whether its value is populated.
    pub(crate) fn may_be_leaf(&self) -> (r: bool)
        ensures
            r == (self.value is Some),
    {
        self.value.is_some()
    }
}

} // verus!
