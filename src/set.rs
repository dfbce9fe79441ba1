use vstd::prelude::*;
use std::sync::Arc;
use core::cmp::Ordering;
use vstd::std_specs::cmp::{PartialEqSpec, PartialOrdSpec};

use crate::exact_clone;

verus! {

/// `a` comes strictly before `b` in `K`'s order.
pub open spec fn lt<K: PartialOrd>(a: K, b: K) -> bool {
    a.partial_cmp_spec(&b) == Some(Ordering::Less)
}

/// `K`'s `==`, `<` and `>` are a strict total order over its values, and
/// cloning a `K` gives back the same value. Keys of a tree must be of such a
/// type (integer types are: see `lemma_total_order_integers`).
pub open spec fn total_order<K: Ord + Clone>() -> bool {
    &&& K::obeys_eq_spec()
    &&& K::obeys_partial_cmp_spec()
    &&& forall|a: K, b: K| #[trigger] a.eq_spec(&b) <==> a == b
    &&& forall|a: K, b: K| #[trigger] a.partial_cmp_spec(&b) is Some
    &&& forall|a: K, b: K| (#[trigger] a.partial_cmp_spec(&b) == Some(Ordering::Equal)) <==> a == b
    &&& forall|a: K, b: K| (#[trigger] a.partial_cmp_spec(&b) == Some(Ordering::Less)) <==> b.partial_cmp_spec(&a) == Some(Ordering::Greater)
    &&& forall|a: K, b: K, c: K| #[trigger] lt(a, b) && #[trigger] lt(b, c) ==> lt(a, c)
    &&& exact_clone::<K>()
}

/// An immutable set.
pub trait PersistentSet<T: Eq>: Sized {
    /// Whether values of `T` are totally ordered (see [`total_order`]); only
    /// a set that holds something compares values.
    spec fn ordered() -> bool;

    /// The set's internal invariant.
    spec fn wf(&self) -> bool;

    /// The values in the set.
    spec fn elements(&self) -> Set<T>;

    /// Returns a set containing nothing.
    fn empty() -> (r: Self)
        ensures
            r.wf(),
            r.elements() == Set::<T>::empty(),
    ;

    /// Returns a set with `value` added to this one. Where `value` is in the
    /// set already, the set itself comes back.
    fn insert(&self, value: T) -> (r: Self)
        requires
            self.wf(),
            self.elements() != Set::<T>::empty() ==> Self::ordered(),
        ensures
            r.wf(),
            r.elements() == self.elements().insert(value),
            self.elements().contains(value) ==> r == *self,
    ;

    /// Tests whether `value` is a member of this set.
    fn member(&self, value: T) -> (r: bool)
        requires
            self.wf(),
            self.elements() != Set::<T>::empty() ==> Self::ordered(),
        ensures
            r == self.elements().contains(value),
    ;
}

/// An immutable map.
pub trait PersistentMap<K: Eq, V: Clone>: Sized {
    /// Whether keys of type `K` are totally ordered (see [`total_order`]);
    /// only a map that holds something compares keys.
    spec fn ordered() -> bool;

    /// The map's internal invariant.
    spec fn wf(&self) -> bool;

    /// The bindings of the map.
    spec fn bindings(&self) -> Map<K, V>;

    /// Returns a map containing nothing.
    fn empty_map() -> (r: Self)
        ensures
            r.wf(),
            r.bindings() == Map::<K, V>::empty(),
    ;

    /// Returns a map with `key` bound to `value`, over any earlier binding
    /// of `key`. The other bound values are kept (as clones).
    fn bind(&self, key: K, value: V) -> (r: Self)
        requires
            self.wf(),
            self.bindings() != Map::<K, V>::empty() ==> Self::ordered(),
        ensures
            r.wf(),
            rebound(self.bindings(), key, value, r.bindings()),
    ;

    /// Returns (a clone of) the value bound to `key`, or `None` if `key` is
    /// not bound.
    fn lookup(&self, key: K) -> (r: Option<V>)
        requires
            self.wf(),
            self.bindings() != Map::<K, V>::empty() ==> Self::ordered(),
        ensures
            r is Some <==> self.bindings().contains_key(key),
            r matches Some(v) ==> cloned(self.bindings()[key], v),
    ;
}

/// `r` is `m` with `key` bound to `value`; every other binding of `m` is kept,
/// its value cloned (so, where cloning is exact, `r` is `m` with the one
/// binding inserted).
pub open spec fn rebound<K, V: Clone>(m: Map<K, V>, key: K, value: V, r: Map<K, V>) -> bool {
    &&& r.dom() == m.dom().insert(key)
    &&& r[key] == value
    &&& forall|k: K| #[trigger] m.contains_key(k) && k != key ==> cloned(m[k], r[k])
    &&& exact_clone::<V>() ==> r == m.insert(key, value)
}

proof fn lemma_rebound_exact<K, V: Clone>(m: Map<K, V>, key: K, value: V, r: Map<K, V>)
    requires
        r.dom() == m.dom().insert(key),
        r[key] == value,
        forall|k: K| #[trigger] m.contains_key(k) && k != key ==> cloned(m[k], r[k]),
    ensures
        exact_clone::<V>() ==> r == m.insert(key, value),
{
    if exact_clone::<V>() {
        assert forall|j: K| #[trigger] r.contains_key(j) implies r[j] == m.insert(key, value)[j] by {
            if j != key {
                assert(cloned(m[j], r[j]));
            }
        }
        assert(r =~= m.insert(key, value));
    }
}

/// Integer keys are totally ordered.
pub proof fn lemma_total_order_integers()
    ensures
        total_order::<u8>(),
        total_order::<u16>(),
        total_order::<u32>(),
        total_order::<u64>(),
        total_order::<usize>(),
        total_order::<i8>(),
        total_order::<i16>(),
        total_order::<i32>(),
        total_order::<i64>(),
        total_order::<isize>(),
{
}

/// `x` comes strictly before every key of `m`.
pub open spec fn below_all<K: PartialOrd, V>(x: K, m: Map<K, V>) -> bool {
    forall|k: K| #[trigger] m.contains_key(k) ==> lt(x, k)
}

/// The bindings of a node: those of its two subtrees and its own.
pub open spec fn node_map<K, V>(left: Map<K, V>, key: K, value: V, right: Map<K, V>) -> Map<K, V> {
    left.union_prefer_right(right).insert(key, value)
}

/// An unbalanced binary search tree that can be used both as an immutable
/// map and as an immutable set (with `()` as the value type). Subtrees are
/// shared between versions. Nothing rebalances the tree, and every operation
/// recurses once per level it descends, so the call stack bounds the depth
/// that can be reached (keys inserted in increasing order give a depth equal
/// to their number).
#[derive(Debug, Clone)]
pub enum Tree<K: Ord + Clone, V> {
    Empty,
    Node { left: Arc<Tree<K, V>>, key: K, value: V, right: Arc<Tree<K, V>> },
}

impl<K: Ord + Clone, V> View for Tree<K, V> {
    type V = Map<K, V>;

    /// The bindings held in the tree.
    open spec fn view(&self) -> Map<K, V>
        decreases self,
    {
        match self {
            Tree::Empty => Map::empty(),
            Tree::Node { left, key, value, right } => node_map((**left)@, *key, *value, (**right)@),
        }
    }
}

impl<K: Ord + Clone, V> Tree<K, V> {
    /// The binary search tree property: at every node, each key of the left
    /// subtree is below the node's key and each key of the right subtree above it.
    pub open spec fn is_bst(&self) -> bool
        decreases self,
    {
        match self {
            Tree::Empty => true,
            Tree::Node { left, key, right, .. } => {
                &&& forall|k: K| #[trigger] (**left)@.contains_key(k) ==> lt(k, *key)
                &&& forall|k: K| #[trigger] (**right)@.contains_key(k) ==> lt(*key, k)
                &&& (**left).is_bst()
                &&& (**right).is_bst()
            },
        }
    }

    /// The number of nodes on the longest path from the root down.
    pub open spec fn height(&self) -> nat
        decreases self,
    {
        match self {
            Tree::Empty => 0,
            Tree::Node { left, right, .. } => {
                let (l, r) = ((**left).height(), (**right).height());
                1 + if l >= r { l } else { r }
            },
        }
    }

    /// One step of the view: an empty tree binds nothing; the bindings of a
    /// node are its own and those of its subtrees, which in a search tree are
    /// apart from each other and from the node's key.
    pub proof fn lemma_view_step(&self)
        requires
            *self is Node ==> total_order::<K>(),
            self.is_bst(),
        ensures
            *self is Empty ==> self@ == Map::<K, V>::empty(),
            *self matches Tree::Node { left, key, value, right } ==> {
                &&& self@ == node_map((*left)@, key, value, (*right)@)
                &&& self@.dom() == (*left)@.dom().union((*right)@.dom()).insert(key)
                &&& self@[key] == value
                &&& !(*left)@.contains_key(key)
                &&& !(*right)@.contains_key(key)
                &&& forall|k: K| #[trigger] (*left)@.contains_key(k) ==> self@[k] == (*left)@[k]
                &&& forall|k: K| #[trigger] (*right)@.contains_key(k) ==> self@[k] == (*right)@[k]
            },
    {
        match *self {
            Tree::Empty => {
                assert(self@ =~= Map::<K, V>::empty());
            },
            Tree::Node { left, key, value, right } => {
                assert(self@ == node_map((*left)@, key, value, (*right)@));
                assert(self@.dom() =~= (*left)@.dom().union((*right)@.dom()).insert(key));
                assert forall|k: K| #[trigger] (*left)@.contains_key(k) implies self@[k] == (*left)@[k] by {
                    if (*right)@.contains_key(k) {
                        assert(lt(k, key) && lt(key, k));
                    }
                }
            },
        }
    }

    /// A node binds its own key, so a tree that is a node is not empty.
    pub proof fn lemma_root_bound(&self)
        ensures
            *self matches Tree::Node { key, .. } ==> {
                &&& self@.contains_key(key)
                &&& self@ != Map::<K, V>::empty()
                &&& self@.dom() != Set::<K>::empty()
            },
    {
        if let Tree::Node { left, key, value, right } = *self {
            assert(self@ == node_map((*left)@, key, value, (*right)@));
            assert(self@.contains_key(key));
            assert(!Map::<K, V>::empty().contains_key(key));
            assert(!Set::<K>::empty().contains(key));
        }
    }

    /// Where `x` is below a node's key, `x` is below every key of the node
    /// exactly when it is below every key of its left subtree.
    proof fn lemma_below_all_left(&self, x: K)
        requires
            total_order::<K>(),
            self.is_bst(),
            *self matches Tree::Node { key, .. } && lt(x, key),
        ensures
            *self matches Tree::Node { left, .. } && (below_all(x, self@) <==> below_all(x, (*left)@)),
    {
        self.lemma_view_step();
        if let Tree::Node { left, key, right, .. } = *self {
            if below_all(x, (*left)@) {
                assert forall|k: K| #[trigger] self@.contains_key(k) implies lt(x, k) by {
                    if (*right)@.contains_key(k) {
                        assert(lt(key, k));
                    } else if k != key {
                        assert((*left)@.contains_key(k));
                    }
                }
            }
            if below_all(x, self@) {
                assert forall|k: K| #[trigger] (*left)@.contains_key(k) implies lt(x, k) by {
                    assert(self@.contains_key(k));
                }
            }
        }
    }

    /// Where `x` is not below a node's key, `x` is not below every key of the
    /// node.
    proof fn lemma_not_below_all(&self, x: K)
        requires
            total_order::<K>(),
            self.is_bst(),
            *self matches Tree::Node { key, .. } && !lt(x, key),
        ensures
            !below_all(x, self@),
    {
        self.lemma_view_step();
        if let Tree::Node { key, .. } = *self {
            assert(self@.contains_key(key));
        }
    }

    /// Returns a tree of one node, binding `key` to `value`.
    pub fn singleton(key: K, value: V) -> (r: Self)
        ensures
            r.is_bst(),
            r@ == Map::<K, V>::empty().insert(key, value),
            r.height() == 1,
    {
        let empty: Arc<Self> = Arc::new(Tree::Empty);
        assert((*empty)@ =~= Map::<K, V>::empty());
        assert((*empty).is_bst() && (*empty).height() == 0);
        let r = Tree::Node { left: empty.clone(), right: empty, key, value };
        assert(r@ =~= Map::<K, V>::empty().insert(key, value));
        r
    }

    /// Finds the value bound to `search_key` in this subtree, where
    /// `candidate_key` (bound to `candidate_value`) is the tightest key at or
    /// below `search_key` met on the way down so far. Only `<` is tested on the
    /// way down; equality is tested once, against the candidate, where the
    /// search leaves the tree.
    pub fn search_with_candidate<'a>(&'a self, search_key: K, candidate_key: &'a K, candidate_value: &'a V) -> (r: Option<&'a V>)
        requires
            total_order::<K>(),
            self.is_bst(),
        ensures
            r is Some <==> (self@.contains_key(search_key) || (search_key == *candidate_key
                && below_all(search_key, self@))),
            r matches Some(v) ==> *v == if self@.contains_key(search_key) { self@[search_key] } else { *candidate_value },
        decreases self,
    {
        proof { self.lemma_view_step(); }
        match self {
            Tree::Empty => {
                assert(below_all(search_key, self@));
                if search_key == *candidate_key {
                    Some(candidate_value)
                } else {
                    None
                }
            },
            Tree::Node { left, key, value, right } => {
                if search_key < *key {
                    proof {
                        assert(search_key != *key);
                        if (**right)@.contains_key(search_key) {
                            assert(lt(*key, search_key));
                        }
                        self.lemma_below_all_left(search_key);
                    }
                    (**left).search_with_candidate(search_key, candidate_key, candidate_value)
                } else {
                    proof {
                        if (**left)@.contains_key(search_key) {
                            assert(lt(search_key, *key));
                        }
                        self.lemma_not_below_all(search_key);
                    }
                    (**right).search_with_candidate(search_key, key, value)
                }
            },
        }
    }

    /// The tree is complete of the given depth: every path from the root
    /// down has `depth` nodes, both subtrees of a node are one and the same,
    /// and every key is a clone of `key`.
    pub open spec fn is_complete(&self, key: K, depth: nat) -> bool
        decreases depth,
    {
        if depth == 0 {
            *self is Empty
        } else {
            match self {
                Tree::Empty => false,
                Tree::Node { left, key: k, right, .. } => {
                    &&& *left == *right
                    &&& cloned(key, *k)
                    &&& (**left).is_complete(key, (depth - 1) as nat)
                },
            }
        }
    }

    /// Returns the height of the tree: the number of nodes on its longest
    /// path from the root down.
    pub fn depth(&self) -> (r: u32)
        requires
            self.height() <= u32::MAX,
        ensures
            r == self.height(),
        decreases self,
    {
        match self {
            Tree::Empty => 0,
            Tree::Node { left, right, .. } => {
                let l = (**left).depth();
                let r = (**right).depth();
                1 + if l >= r { l } else { r }
            },
        }
    }
}

impl<K: Ord + Clone, V: Clone> Tree<K, V> {
    /// Looks `search_key` up in this subtree as `search_with_candidate` does,
    /// and returns a clone of the value found.
    pub fn lookup_with_candidate(&self, search_key: K, candidate_key: &K, candidate_value: &V) -> (r: Option<V>)
        requires
            total_order::<K>(),
            self.is_bst(),
        ensures
            r is Some <==> (self@.contains_key(search_key) || (search_key == *candidate_key
                && below_all(search_key, self@))),
            r matches Some(v) ==> cloned(
                if self@.contains_key(search_key) { self@[search_key] } else { *candidate_value },
                v,
            ),
    {
        match self.search_with_candidate(search_key, candidate_key, candidate_value) {
            Some(v) => Some(v.clone()),
            None => None,
        }
    }
}

impl<K: Ord + Clone, V: Clone> PersistentMap<K, V> for Tree<K, V> {
    open spec fn ordered() -> bool {
        total_order::<K>()
    }

    open spec fn wf(&self) -> bool {
        self.is_bst()
    }

    open spec fn bindings(&self) -> Map<K, V> {
        self@
    }

    fn empty_map() -> (r: Self) {
        let r = Tree::Empty;
        assert(r@ =~= Map::<K, V>::empty());
        r
    }

    fn bind(&self, new_key: K, new_value: V) -> (r: Self)
        decreases self,
    {
        proof {
            self.lemma_root_bound();
            self.lemma_view_step();
        }
        match self {
            Tree::Empty => {
                let r = Tree::singleton(new_key, new_value);
                assert(r@.dom() =~= self@.dom().insert(new_key));
                proof { lemma_rebound_exact(self@, new_key, new_value, r@); }
                r
            },
            Tree::Node { left, key, value, right } => {
                if new_key < *key {
                    let new_left = (**left).bind(new_key, new_value);
                    let ghost nl = new_left@;
                    let key_copy = key.clone();
                    let value_copy = value.clone();
                    assert(cloned(*key, key_copy));
                    let r = Tree::Node { left: Arc::new(new_left), key: key_copy, value: value_copy, right: right.clone() };
                    proof {
                        assert forall|k: K| #[trigger] nl.contains_key(k) implies lt(k, *key) by {
                            if k != new_key {
                                assert((**left)@.contains_key(k));
                            }
                        }
                        r.lemma_view_step();
                        assert(r@.dom() =~= self@.dom().insert(new_key));
                        assert forall|k: K| #[trigger] self@.contains_key(k) && k != new_key implies cloned(self@[k], r@[k]) by {
                            if (**left)@.contains_key(k) {
                                assert(nl.contains_key(k));
                                assert(cloned((**left)@[k], nl[k]));
                            }
                        }
                        lemma_rebound_exact(self@, new_key, new_value, r@);
                    }
                    r
                } else if new_key > *key {
                    let new_right = (**right).bind(new_key, new_value);
                    let ghost nr = new_right@;
                    let key_copy = key.clone();
                    let value_copy = value.clone();
                    assert(cloned(*key, key_copy));
                    let r = Tree::Node { left: left.clone(), key: key_copy, value: value_copy, right: Arc::new(new_right) };
                    proof {
                        assert forall|k: K| #[trigger] nr.contains_key(k) implies lt(*key, k) by {
                            if k != new_key {
                                assert((**right)@.contains_key(k));
                            }
                        }
                        r.lemma_view_step();
                        assert(r@.dom() =~= self@.dom().insert(new_key));
                        assert forall|k: K| #[trigger] self@.contains_key(k) && k != new_key implies cloned(self@[k], r@[k]) by {
                            if (**right)@.contains_key(k) {
                                assert(nr.contains_key(k));
                                assert(cloned((**right)@[k], nr[k]));
                            }
                        }
                        lemma_rebound_exact(self@, new_key, new_value, r@);
                    }
                    r
                } else {
                    let r = Tree::Node { left: left.clone(), key: new_key, value: new_value, right: right.clone() };
                    proof {
                        assert(new_key.partial_cmp_spec(key) is Some);
                        assert(new_key.partial_cmp_spec(key) == Some(Ordering::Equal));
                        assert(new_key == *key);
                        r.lemma_view_step();
                        assert(r@.dom() =~= self@.dom().insert(new_key));
                        lemma_rebound_exact(self@, new_key, new_value, r@);
                    }
                    r
                }
            },
        }
    }

    fn lookup(&self, search_key: K) -> (r: Option<V>) {
        proof {
            self.lemma_root_bound();
            self.lemma_view_step();
        }
        match self {
            Tree::Empty => None,
            Tree::Node { key, value, .. } => self.lookup_with_candidate(search_key, key, value),
        }
    }
}

impl<T: Ord + Clone> Tree<T, ()> {
    /// Inserts `new_value` into this subtree, where `candidate` is the key of
    /// the last node on the way down whose right subtree was taken (or the
    /// root's key). Returns `None`, so that the caller can keep the tree it
    /// has, where `new_value` is there already.
    pub fn try_insert_with_candidate(&self, new_value: T, candidate: T) -> (r: Option<Self>)
        requires
            total_order::<T>(),
            self.is_bst(),
        ensures
            r is None <==> (self@.contains_key(new_value) || (new_value == candidate
                && below_all(new_value, self@))),
            r matches Some(t) ==> t.is_bst() && t@ == self@.insert(new_value, ()),
        decreases self,
    {
        proof { self.lemma_view_step(); }
        match self {
            Tree::Empty => {
                assert(below_all(new_value, self@));
                if new_value == candidate {
                    None
                } else {
                    let t = Tree::singleton(new_value, ());
                    assert(t@ =~= self@.insert(new_value, ()));
                    Some(t)
                }
            },
            Tree::Node { left, key, right, .. } => {
                if new_value < *key {
                    proof {
                        if (**right)@.contains_key(new_value) {
                            assert(lt(*key, new_value));
                        }
                        self.lemma_below_all_left(new_value);
                    }
                    match (**left).try_insert_with_candidate(new_value, candidate) {
                        None => None,
                        Some(new_left) => {
                            let ghost nl = new_left@;
                            let key_copy = key.clone();
                            assert(cloned(*key, key_copy));
                            let t = Tree::Node { left: Arc::new(new_left), key: key_copy, right: right.clone(), value: () };
                            proof {
                                assert forall|k: T| #[trigger] nl.contains_key(k) implies lt(k, *key) by {
                                    if k != new_value {
                                        assert((**left)@.contains_key(k));
                                    }
                                }
                                t.lemma_view_step();
                                assert(t@ =~= self@.insert(new_value, ()));
                            }
                            Some(t)
                        },
                    }
                } else if new_value > *key {
                    proof {
                        if (**left)@.contains_key(new_value) {
                            assert(lt(new_value, *key));
                        }
                        self.lemma_not_below_all(new_value);
                    }
                    let key_candidate = key.clone();
                    assert(cloned(*key, key_candidate));
                    match (**right).try_insert_with_candidate(new_value, key_candidate) {
                        None => None,
                        Some(new_right) => {
                            let ghost nr = new_right@;
                            let key_copy = key.clone();
                            assert(cloned(*key, key_copy));
                            let t = Tree::Node { left: left.clone(), key: key_copy, right: Arc::new(new_right), value: () };
                            proof {
                                assert forall|k: T| #[trigger] nr.contains_key(k) implies lt(*key, k) by {
                                    if k != new_value {
                                        assert((**right)@.contains_key(k));
                                    }
                                }
                                t.lemma_view_step();
                                assert(t@ =~= self@.insert(new_value, ()));
                            }
                            Some(t)
                        },
                    }
                } else {
                    proof {
                        assert(new_value.partial_cmp_spec(key) is Some);
                        assert(new_value.partial_cmp_spec(key) == Some(Ordering::Equal));
                        assert(new_value == *key);
                    }
                    None
                }
            },
        }
    }

    /// Returns a complete tree of the given depth whose keys are all clones
    /// of `value`; its two subtrees at every node are one shared subtree.
    /// (Such a tree is no search tree: it serves to build deep trees cheaply.)
    pub fn complete(value: T, depth: u32) -> (r: Self)
        ensures
            r.is_complete(value, depth as nat),
            r.height() == depth,
    {
        let mut tree: Self = Tree::Empty;
        let mut i: u32 = 0;
        while i < depth
            invariant
                i <= depth,
                tree.is_complete(value, i as nat),
                tree.height() == i,
            decreases depth - i,
        {
            let sub = Arc::new(tree);
            tree = Tree::Node { left: sub.clone(), key: value.clone(), right: sub, value: () };
            i = i + 1;
        }
        tree
    }
}

impl<T: Ord + Clone> PersistentSet<T> for Tree<T, ()> {
    open spec fn ordered() -> bool {
        total_order::<T>()
    }

    open spec fn wf(&self) -> bool {
        self.is_bst()
    }

    open spec fn elements(&self) -> Set<T> {
        self@.dom()
    }

    fn empty() -> (r: Self) {
        let r = Tree::Empty;
        assert(r@.dom() =~= Set::<T>::empty());
        r
    }

    fn insert(&self, new_value: T) -> (r: Self) {
        proof {
            self.lemma_root_bound();
            self.lemma_view_step();
        }
        match self {
            Tree::Empty => {
                let r = Tree::singleton(new_value, ());
                assert(r@.dom() =~= self@.dom().insert(new_value));
                r
            },
            Tree::Node { left, key, right, .. } => {
                let candidate = key.clone();
                assert(cloned(*key, candidate));
                match self.try_insert_with_candidate(new_value, candidate) {
                    Some(t) => t,
                    None => {
                        // Already there: a copy of the root, sharing both subtrees.
                        let key_copy = key.clone();
                        assert(cloned(*key, key_copy));
                        let r = Tree::Node { left: left.clone(), key: key_copy, value: (), right: right.clone() };
                        proof {
                            if new_value == *key {
                                assert(!lt(new_value, *key));
                                self.lemma_not_below_all(new_value);
                            }
                        }
                        assert(self@.dom().insert(new_value) =~= self@.dom());
                        r
                    },
                }
            },
        }
    }

    fn member(&self, search_value: T) -> (r: bool) {
        proof {
            self.lemma_root_bound();
            self.lemma_view_step();
        }
        match self {
            Tree::Empty => false,
            Tree::Node { key, value, .. } => self.search_with_candidate(search_value, key, value).is_some(),
        }
    }
}

/// Inserting values one after another into an empty set gives a set whose
/// members are exactly the values inserted: each inserted value is a member,
/// and a value never inserted is not.
pub proof fn lemma_members_are_inserted_values<T: Ord + Clone>(sets: Seq<Tree<T, ()>>, values: Seq<T>)
    requires
        sets.len() == values.len() + 1,
        sets[0].elements() == Set::<T>::empty(),
        forall|k: int| 0 <= k < values.len() ==>
            (#[trigger] sets[k + 1]).elements() == sets[k].elements().insert(values[k]),
    ensures
        forall|y: T| sets.last().elements().contains(y) <==> values.contains(y),
{
    lemma_members_prefix(sets, values, values.len() as int);
    assert(values.take(values.len() as int) =~= values);
}

proof fn lemma_members_prefix<T: Ord + Clone>(sets: Seq<Tree<T, ()>>, values: Seq<T>, k: int)
    requires
        sets.len() == values.len() + 1,
        sets[0].elements() == Set::<T>::empty(),
        forall|k: int| 0 <= k < values.len() ==>
            (#[trigger] sets[k + 1]).elements() == sets[k].elements().insert(values[k]),
        0 <= k <= values.len(),
    ensures
        forall|y: T| sets[k].elements().contains(y) <==> values.take(k).contains(y),
    decreases k,
{
    if k > 0 {
        lemma_members_prefix(sets, values, k - 1);
        let i = k - 1;
        assert((sets[i + 1]).elements() == sets[i].elements().insert(values[i]));
        assert(sets[i + 1] == sets[k]);
        assert(values.take(k) =~= values.take(k - 1).push(values[k - 1]));
        assert forall|y: T| sets[k].elements().contains(y) <==> values.take(k).contains(y) by {
            if values.take(k).contains(y) && y != values[k - 1] {
                let j = choose|j: int| 0 <= j < k && values.take(k)[j] == y;
                assert(values.take(k - 1)[j] == y);
            }
            if y == values[k - 1] {
                assert(values.take(k)[k - 1] == y);
            }
            if values.take(i).contains(y) {
                let j = choose|j: int| 0 <= j < i && #[trigger] values.take(i)[j] == y;
                assert(values.take(k)[j] == y);
            }
        }
    }
}

/// Inserting a value twice is inserting it once: the second insertion finds
/// the value there and gives back the very same tree.
pub proof fn lemma_insert_twice<T: Ord + Clone>(t: Tree<T, ()>, x: T, once: Tree<T, ()>, twice: Tree<T, ()>)
    requires
        once.elements() == t.elements().insert(x),
        twice.elements() == once.elements().insert(x),
        once.elements().contains(x) ==> twice == once,
    ensures
        twice == once,
        twice.elements() == t.elements().insert(x),
{
}

/// Binding `k` to `v1` and then again to `v2` gives two maps: the first still
/// binds `k` to `v1`, the second binds it to `v2`, and both have the same
/// keys. Where cloning values is exact, each is the map before it with the
/// one binding replaced.
pub proof fn lemma_bind_overwrites<K, V: Clone>(m: Map<K, V>, k: K, v1: V, v2: V, m1: Map<K, V>, m2: Map<K, V>)
    requires
        rebound(m, k, v1, m1),
        rebound(m1, k, v2, m2),
    ensures
        m1.contains_key(k) && m1[k] == v1,
        m2.contains_key(k) && m2[k] == v2,
        m2.dom() == m1.dom(),
        exact_clone::<V>() ==> m1 == m.insert(k, v1) && m2 == m1.insert(k, v2),
{
    assert(m2.dom() =~= m1.dom());
}

} // verus!
