//! A tree of uniquely valued nodes for RRT-style search.
//!
//! Nodes live in one vector and refer to each other by index; the root is at
//! index 0. Every node records the cost of reaching it from the root, and
//! every node's children are kept in the order in which they were attached.
use crate::child_set::{count, empty_set, push_back, remove_item, to_vec, without};
use linked_hash_set::LinkedHashSet;
use std::collections::HashMap;
use std::hash::Hash;
use vstd::prelude::*;

verus! {

/// A distance between values held in a [Tree].
pub trait Distance: Sized {
    /// What `distance` computes. Verified implementations define it; the
    /// default leaves it an unspecified function of the two values.
    closed spec fn spec_distance(&self, other: &Self) -> u64 {
        arbitrary::<spec_fn(Self, Self) -> u64>()(*self, *other)
    }

    fn distance(&self, other: &Self) -> (r: u64)
        ensures
            r == self.spec_distance(other),
    ;
}

/// Points on a line, `|a - b|` apart.
impl Distance for i32 {
    open spec fn spec_distance(&self, other: &Self) -> u64 {
        (if *self >= *other { *self - *other } else { *other - *self }) as u64
    }

    fn distance(&self, other: &Self) -> (r: u64) {
        if *self >= *other {
            (*self as i64 - *other as i64) as u64
        } else {
            (*other as i64 - *self as i64) as u64
        }
    }
}

/// The distance from `a` to `b`.
pub open spec fn dist<T: Distance>(a: T, b: T) -> u64 {
    a.spec_distance(&b)
}

/// The cost of a node whose parent costs `parent_cost` and lies `d` away;
/// it stops at `u64::MAX` instead of overflowing.
pub open spec fn step_cost(parent_cost: u64, d: u64) -> u64 {
    if parent_cost + d > u64::MAX {
        u64::MAX
    } else {
        (parent_cost + d) as u64
    }
}

/// Why an operation on a [Tree] failed.
#[derive(Debug, Clone, Copy, PartialEq, Eq, Structural)]
pub enum TreeError {
    /// The value to add is already in the tree.
    ChildAlreadyPresent,
    /// The value named as the parent is not in the tree.
    ParentNotFound,
    /// The value named as the child is not in the tree.
    ChildNotFound,
    /// The root has no parent and keeps none.
    CannotReparentRoot,
    /// The child to move has children of its own.
    ChildHasChildren,
    /// The child to move was named as its own parent.
    ParentIsChild,
    /// The value asked about is not in the tree.
    NotFound,
}

/// One node of a [Tree].
pub struct Node<T> {
    value: T,
    parent: Option<usize>,
    cost: u64,
    children: LinkedHashSet<usize>,
}

impl<T: Copy> Node<T> {
    /// A node with no children yet.
    fn new(value: T, parent: Option<usize>, cost: u64) -> (r: Self)
        ensures
            r.value == value,
            r.parent == parent,
            r.cost == cost,
            r.spec_children() == Seq::<usize>::empty(),
    {
        Node { value, parent, cost, children: empty_set() }
    }

    /// The value held.
    pub closed spec fn spec_value(&self) -> T {
        self.value
    }

    /// The stored cost.
    pub closed spec fn spec_cost(&self) -> u64 {
        self.cost
    }

    /// The children's indices, in order.
    pub closed spec fn spec_children(&self) -> Seq<usize> {
        crate::child_set::ordered_items(self.children)
    }

    /// The value of this node.
    pub fn value(&self) -> (r: &T)
        ensures
            *r == self.spec_value(),
    {
        &self.value
    }

    /// The cost of reaching this node from the root.
    pub fn cost(&self) -> (r: u64)
        ensures
            r == self.spec_cost(),
    {
        self.cost
    }

    /// How many children this node has.
    pub fn num_children(&self) -> (r: usize)
        ensures
            r == self.spec_children().len(),
    {
        count(&self.children)
    }
}

/// A tree for RRT-based search: nodes with unique values, each with its
/// cost from the root and its children in insertion order.
pub struct Tree<T> {
    /// The nodes; the root is at index 0.
    nodes: Vec<Node<T>>,
    /// Where each value is stored in `nodes`.
    nodes_map: HashMap<T, usize>,
    /// For proofs only: a rank per node that grows from parent to child,
    /// which shows that following parents ends at the root.
    rank: Ghost<Seq<nat>>,
    /// For proofs only: a bound above every rank.
    rank_bound: Ghost<nat>,
}

impl<T: Eq + Copy + Distance + Hash> Tree<T> {
    /// The number of nodes.
    pub closed spec fn spec_size(&self) -> nat {
        self.nodes@.len()
    }

    /// The value of the node at index `i`.
    pub closed spec fn value_at(&self, i: int) -> T {
        self.nodes@[i].value
    }

    /// The index of the parent of the node at index `i`.
    pub closed spec fn parent_at(&self, i: int) -> Option<usize> {
        self.nodes@[i].parent
    }

    /// The stored cost of the node at index `i`.
    pub closed spec fn cost_at(&self, i: int) -> u64 {
        self.nodes@[i].cost
    }

    /// The indices of the children of the node at index `i`, in order.
    pub closed spec fn children_at(&self, i: int) -> Seq<usize> {
        crate::child_set::ordered_items(self.nodes@[i].children)
    }

    /// Where each value of the tree is stored.
    pub closed spec fn index_map(&self) -> Map<T, usize> {
        self.nodes_map@
    }

    /// Whether `v` is in the tree.
    pub open spec fn contains(&self, v: T) -> bool {
        self.index_map().contains_key(v)
    }

    /// The index of `v`, for a value in the tree.
    pub open spec fn index_of(&self, v: T) -> int {
        self.index_map()[v] as int
    }

    /// Every value has exactly one index, and every index one value.
    #[verifier::opaque]
    pub open spec fn values_unique(&self) -> bool {
        &&& forall|i: int|
            0 <= i < self.spec_size() ==> #[trigger] self.contains(self.value_at(i))
                && self.index_of(self.value_at(i)) == i
        &&& forall|v: T|
            #[trigger] self.contains(v) ==> 0 <= self.index_of(v) < self.spec_size()
                && self.value_at(self.index_of(v)) == v
    }

    /// The root is at index 0; every other node has a parent, which lists it
    /// among its children.
    #[verifier::opaque]
    pub open spec fn parents_linked(&self) -> bool {
        &&& self.spec_size() >= 1
        &&& self.parent_at(0) is None
        &&& forall|i: int|
            0 < i < self.spec_size() ==> (#[trigger] self.parent_at(i)) is Some
                && self.parent_at(i)->0 < self.spec_size()
                && self.children_at(self.parent_at(i)->0 as int).contains(i as usize)
    }

    /// Every child listed by a node has that node as its parent, and no
    /// child is listed twice.
    #[verifier::opaque]
    pub open spec fn children_linked(&self) -> bool {
        forall|p: int|
            0 <= p < self.spec_size() ==> (#[trigger] self.children_at(p)).no_duplicates()
                && forall|j: int|
                0 <= j < self.children_at(p).len() ==> (#[trigger] self.children_at(p)[j])
                    < self.spec_size() && self.parent_at(self.children_at(p)[j] as int)
                    == Some(p as usize)
    }

    /// The root costs nothing; every other node costs its parent's cost plus
    /// its distance to the parent.
    #[verifier::opaque]
    pub open spec fn costs_consistent(&self) -> bool {
        &&& self.cost_at(0) == 0
        &&& forall|i: int|
            0 < i < self.spec_size() ==> #[trigger] self.cost_at(i) == step_cost(
                self.cost_at(self.parent_at(i)->0 as int),
                dist(self.value_at(i), self.value_at(self.parent_at(i)->0 as int)),
            )
    }

    /// Following parents from any node ends at the root.
    closed spec fn acyclic(&self) -> bool {
        &&& self.rank@.len() == self.spec_size()
        &&& forall|i: int| 0 <= i < self.spec_size() ==> #[trigger] self.rank@[i] < self.rank_bound@
        &&& forall|i: int|
            0 < i < self.spec_size() ==> self.rank@[self.parent_at(i)->0 as int] < #[trigger] self.rank@[i]
    }

    /// The depth measure of the node at index `i`: below its parent's.
    pub closed spec fn rank_at(&self, i: int) -> nat {
        self.rank@[i]
    }

    /// The tree's invariant.
    pub open spec fn wf(&self) -> bool {
        &&& self.spec_size() >= 1
        &&& self.storage_ok()
        &&& self.values_unique()
        &&& self.parents_linked()
        &&& self.children_linked()
        &&& self.costs_consistent()
    }

    /// What the storage needs beyond the public model: keys that hash and
    /// compare as values, and ranks that grow from parent to child.
    pub closed spec fn storage_ok(&self) -> bool {
        &&& vstd::std_specs::hash::obeys_key_model::<T>()
        &&& self.acyclic()
    }

    /// Construct a new tree with the specified value as the root node.
    pub fn new(val: T) -> (r: Self)
        requires
            vstd::std_specs::hash::obeys_key_model::<T>(),
        ensures
            r.wf(),
            r.spec_size() == 1,
            r.value_at(0) == val,
            r.cost_at(0) == 0,
            r.children_at(0) == Seq::<usize>::empty(),
            r.index_map() == map![val => 0usize],
    {
        proof {
            reveal(Tree::values_unique);
            reveal(Tree::parents_linked);
            reveal(Tree::children_linked);
            reveal(Tree::costs_consistent);
        }
        let mut nodes: Vec<Node<T>> = Vec::new();
        let mut nodes_map: HashMap<T, usize> = HashMap::new();
        nodes.push(Node::new(val, None, 0));
        nodes_map.insert(val, 0);
        let ghost rank = seq![0nat];
        let r = Tree { nodes, nodes_map, rank: Ghost(rank), rank_bound: Ghost(1nat) };
        assert(r.index_map() =~= map![val => 0usize]);
        r
    }

    /// `self` is `prev` with a new node holding `c` attached below the node
    /// at index `p`: the new node comes last, costs the parent's cost plus
    /// its distance to the parent, and is the parent's last child.
    pub open spec fn is_child_added(&self, prev: &Self, p: int, c: T) -> bool {
        let n = prev.spec_size() as int;
        &&& self.spec_size() == n + 1
        &&& self.value_at(n) == c
        &&& self.parent_at(n) == Some(p as usize)
        &&& self.cost_at(n) == step_cost(prev.cost_at(p), dist(c, prev.value_at(p)))
        &&& self.children_at(n) == Seq::<usize>::empty()
        &&& self.children_at(p) == prev.children_at(p).push(n as usize)
        &&& self.index_map() == prev.index_map().insert(c, n as usize)
        &&& self.index_of(c) == n
        &&& forall|i: int|
            0 <= i < n ==> #[trigger] self.value_at(i) == prev.value_at(i) && self.parent_at(i)
                == prev.parent_at(i) && self.cost_at(i) == prev.cost_at(i)
        &&& forall|i: int| 0 <= i < n && i != p ==> #[trigger] self.children_at(i) == prev.children_at(i)
    }

    /// What `set_parent(parent, child)` returns.
    pub open spec fn set_parent_outcome(&self, parent: T, child: T) -> Result<(), TreeError> {
        if !self.contains(parent) {
            Err(TreeError::ParentNotFound)
        } else if !self.contains(child) {
            Err(TreeError::ChildNotFound)
        } else if self.index_of(child) == 0 {
            Err(TreeError::CannotReparentRoot)
        } else if self.children_at(self.index_of(child)).len() > 0 {
            Err(TreeError::ChildHasChildren)
        } else if self.index_of(parent) == self.index_of(child) {
            Err(TreeError::ParentIsChild)
        } else {
            Ok(())
        }
    }

    /// Adds `child` to the children of the node holding `parent`.
    ///
    /// Fails with `ChildAlreadyPresent` if `child` is in the tree, else
    /// with `ParentNotFound` if `parent` is not; a failed call changes
    /// nothing.
    pub fn add_child(&mut self, parent: &T, child: T) -> (r: Result<(), TreeError>)
        requires
            old(self).wf(),
        ensures
            final(self).wf(),
            old(self).contains(child) ==> r == Err::<(), TreeError>(TreeError::ChildAlreadyPresent)
                && *final(self) == *old(self),
            !old(self).contains(child) && !old(self).contains(*parent) ==> r == Err::<(), TreeError>(
                TreeError::ParentNotFound,
            ) && *final(self) == *old(self),
            !old(self).contains(child) && old(self).contains(*parent) ==> r is Ok
                && final(self).is_child_added(old(self), old(self).index_of(*parent), child),
    {
        proof {
            reveal(Tree::values_unique);
            reveal(Tree::parents_linked);
            reveal(Tree::children_linked);
            reveal(Tree::costs_consistent);
        }
        if self.nodes_map.contains_key(&child) {
            return Err(TreeError::ChildAlreadyPresent);
        }
        let parent_idx: usize = match self.nodes_map.get(parent) {
            Some(i) => *i,
            None => {
                return Err(TreeError::ParentNotFound);
            },
        };
        let ghost prev = *self;
        assert(self.contains(*parent) && self.index_of(*parent) == parent_idx);
        let cost = self.nodes[parent_idx].cost.saturating_add(child.distance(parent));
        let child_idx = self.nodes.len();
        self.nodes.push(Node::new(child, Some(parent_idx), cost));
        self.nodes_map.insert(child, child_idx);
        push_back(&mut self.nodes[parent_idx].children, child_idx);
        let ghost rk = prev.rank@[parent_idx as int] + 1;
        self.rank = Ghost(prev.rank@.push(rk));
        self.rank_bound = Ghost(if rk + 1 > prev.rank_bound@ { (rk + 1) as nat } else { prev.rank_bound@ });
        proof {
            let n = prev.spec_size() as int;
            let pc = prev.children_at(parent_idx as int);
            assert(!pc.contains(child_idx)) by {
                if pc.contains(child_idx) {
                    let k = choose|k: int| 0 <= k < pc.len() && pc[k] == child_idx;
                    assert(prev.children_at(parent_idx as int)[k] < n);
                }
            }
            crate::child_set::lemma_without_absent(pc, child_idx);
            assert(self.children_at(parent_idx as int) == pc.push(child_idx));
            assert(pc.push(child_idx).no_duplicates());
            assert(self.children_at(n) == Seq::<usize>::empty());
            assert forall|i: int| 0 <= i < self.spec_size() implies #[trigger] self.contains(self.value_at(i))
                && self.index_of(self.value_at(i)) == i by {
                if i < n {
                    assert(prev.contains(prev.value_at(i)));
                }
            }
            assert forall|v: T| #[trigger] self.contains(v) implies 0 <= self.index_of(v) < self.spec_size()
                && self.value_at(self.index_of(v)) == v by {
                if v != child {
                    assert(prev.contains(v));
                }
            }
            assert(self.values_unique());
            assert forall|i: int| 0 < i < self.spec_size() implies (#[trigger] self.parent_at(i)) is Some
                && self.parent_at(i)->0 < self.spec_size()
                && self.children_at(self.parent_at(i)->0 as int).contains(i as usize) by {
                if i < n {
                    let q = prev.parent_at(i)->0 as int;
                    assert(prev.children_at(q).contains(i as usize));
                    if q == parent_idx {
                        let k = choose|k: int| 0 <= k < pc.len() && pc[k] == i as usize;
                        assert(pc.push(child_idx)[k] == i as usize);
                    }
                } else {
                    assert(pc.push(child_idx)[pc.len() as int] == child_idx);
                }
            }
            assert(self.parents_linked());
            assert forall|p: int| 0 <= p < self.spec_size() implies (#[trigger] self.children_at(p)).no_duplicates()
                && forall|j: int|
                0 <= j < self.children_at(p).len() ==> (#[trigger] self.children_at(p)[j])
                    < self.spec_size() && self.parent_at(self.children_at(p)[j] as int)
                    == Some(p as usize) by {
                if p < n && p != parent_idx {
                    assert(self.children_at(p) == prev.children_at(p));
                }
            }
            assert(self.children_linked());
            assert(prev.value_at(parent_idx as int) == *parent);
            assert forall|i: int| 0 < i < self.spec_size() implies #[trigger] self.cost_at(i) == step_cost(
                self.cost_at(self.parent_at(i)->0 as int),
                dist(self.value_at(i), self.value_at(self.parent_at(i)->0 as int)),
            ) by {
                if i < n {
                    assert(prev.cost_at(i) == step_cost(
                        prev.cost_at(prev.parent_at(i)->0 as int),
                        dist(prev.value_at(i), prev.value_at(prev.parent_at(i)->0 as int)),
                    ));
                }
            }
            assert(self.costs_consistent());
            assert(self.acyclic());
            assert(self.index_map() == prev.index_map().insert(child, child_idx));
        }
        Ok(())
    }

    /// `self` is `prev` with the node at index `c` moved below the node at
    /// index `p`: it leaves its old parent's children, becomes the last of
    /// `p`'s children, and costs `p`'s cost plus its distance to `p`.
    pub open spec fn is_reparented(&self, prev: &Self, p: int, c: int) -> bool {
        let n = prev.spec_size() as int;
        &&& self.spec_size() == n
        &&& self.index_map() == prev.index_map()
        &&& self.parent_at(c) == Some(p as usize)
        &&& self.cost_at(c) == step_cost(prev.cost_at(p), dist(prev.value_at(c), prev.value_at(p)))
        &&& forall|i: int| 0 <= i < n ==> #[trigger] self.value_at(i) == prev.value_at(i)
        &&& forall|i: int|
            0 <= i < n && i != c ==> #[trigger] self.parent_at(i) == prev.parent_at(i)
                && self.cost_at(i) == prev.cost_at(i)
        &&& forall|i: int|
            0 <= i < n ==> #[trigger] self.children_at(i) == if i == p {
                without(prev.children_at(i), c as usize).push(c as usize)
            } else {
                without(prev.children_at(i), c as usize)
            }
    }

    /// Moves the node holding `child` to be a child of the node holding
    /// `parent`, and recomputes its cost.
    ///
    /// Only a leaf can be moved, so that no cost below it goes stale and
    /// no cycle can form. Fails, changing nothing, with the first that
    /// applies of: `ParentNotFound`, `ChildNotFound`, `CannotReparentRoot`,
    /// `ChildHasChildren`, `ParentIsChild`.
    pub fn set_parent(&mut self, parent: &T, child: &T) -> (r: Result<(), TreeError>)
        requires
            old(self).wf(),
        ensures
            final(self).wf(),
            r == old(self).set_parent_outcome(*parent, *child),
            r is Err ==> *final(self) == *old(self),
            r is Ok ==> final(self).is_reparented(
                old(self),
                old(self).index_of(*parent),
                old(self).index_of(*child),
            ),
    {
        proof {
            reveal(Tree::values_unique);
            reveal(Tree::parents_linked);
        }
        let parent_idx: usize = match self.nodes_map.get(parent) {
            Some(i) => *i,
            None => {
                return Err(TreeError::ParentNotFound);
            },
        };
        let child_idx: usize = match self.nodes_map.get(child) {
            Some(i) => *i,
            None => {
                return Err(TreeError::ChildNotFound);
            },
        };
        assert(self.contains(*parent) && self.index_of(*parent) == parent_idx);
        assert(self.contains(*child) && self.index_of(*child) == child_idx);
        if child_idx == 0 {
            return Err(TreeError::CannotReparentRoot);
        }
        if count(&self.nodes[child_idx].children) > 0 {
            return Err(TreeError::ChildHasChildren);
        }
        if parent_idx == child_idx {
            return Err(TreeError::ParentIsChild);
        }
        let ghost prev = *self;
        let ghost n = self.nodes.len();
        assert(prev.parent_at(child_idx as int) is Some);
        let existing: usize = match self.nodes[child_idx].parent {
            Some(i) => i,
            None => {
                return Err(TreeError::CannotReparentRoot);
            },
        };
        remove_item(&mut self.nodes[existing].children, child_idx);
        self.nodes[child_idx].parent = Some(parent_idx);
        push_back(&mut self.nodes[parent_idx].children, child_idx);
        let cost = self.nodes[parent_idx].cost.saturating_add(child.distance(parent));
        self.nodes[child_idx].cost = cost;
        let ghost rk = prev.rank@[parent_idx as int] + 1;
        self.rank = Ghost(prev.rank@.update(child_idx as int, rk));
        self.rank_bound = Ghost(if rk + 1 > prev.rank_bound@ { (rk + 1) as nat } else { prev.rank_bound@ });
        proof {
            let c = child_idx as int;
            let p = parent_idx as int;
            assert(prev.value_at(p) == *parent);
            assert(prev.value_at(c) == *child);
            if existing == parent_idx {
                let s0 = prev.children_at(p);
                crate::child_set::lemma_without_contents(s0, child_idx);
                crate::child_set::lemma_without_absent(without(s0, child_idx), child_idx);
            }
            assert(Self::leaf_moved(prev, *self, p, c, existing as int));
            Self::lemma_reparent(prev, *self, p, c, existing as int);
        }
        Ok(())
    }

    /// `next` is `prev` after the steps of `set_parent` that move the leaf
    /// at index `c` from below `e` to below `p`.
    spec fn leaf_moved(prev: Self, next: Self, p: int, c: int, e: int) -> bool {
        &&& prev.spec_size() <= usize::MAX
        &&& 0 < c < prev.spec_size()
        &&& 0 <= p < prev.spec_size()
        &&& p != c
        &&& 0 <= e < prev.spec_size()
        &&& prev.children_at(c).len() == 0
        &&& prev.parent_at(c) == Some(e as usize)
        &&& next.spec_size() == prev.spec_size()
        &&& next.index_map() == prev.index_map()
        &&& forall|i: int| 0 <= i < prev.spec_size() ==> #[trigger] next.value_at(i) == prev.value_at(i)
        &&& forall|i: int|
            0 <= i < prev.spec_size() && i != c ==> #[trigger] next.parent_at(i) == prev.parent_at(i)
                && next.cost_at(i) == prev.cost_at(i)
        &&& next.parent_at(c) == Some(p as usize)
        &&& next.cost_at(c) == step_cost(prev.cost_at(p), dist(prev.value_at(c), prev.value_at(p)))
        &&& forall|k: int|
            0 <= k < prev.spec_size() && k != e && k != p ==> #[trigger] next.children_at(k)
                == prev.children_at(k)
        &&& e != p ==> next.children_at(e) == without(prev.children_at(e), c as usize)
        &&& next.children_at(p) == without(prev.children_at(p), c as usize).push(c as usize)
        &&& next.rank@ == prev.rank@.update(c, prev.rank@[p] + 1)
        &&& next.rank_bound@ >= prev.rank_bound@
        &&& next.rank_bound@ > prev.rank@[p] + 1
    }

    proof fn lemma_reparent_children(prev: Self, next: Self, p: int, c: int, e: int)
        requires
            prev.wf(),
            Self::leaf_moved(prev, next, p, c, e),
        ensures
            forall|k: int| 0 <= k < prev.spec_size() ==> #[trigger] next.children_at(k) == if k == p {
                without(prev.children_at(k), c as usize).push(c as usize)
            } else {
                without(prev.children_at(k), c as usize)
            },
            forall|i: int| 0 < i < prev.spec_size() ==> #[trigger] prev.parent_at(i) != Some(c as usize),
    {
        let n = prev.spec_size() as int;
        let cu = c as usize;
        reveal(Tree::children_linked);
        reveal(Tree::parents_linked);
        assert forall|k: int| 0 <= k < n implies #[trigger] next.children_at(k) == if k == p {
            without(prev.children_at(k), cu).push(cu)
        } else {
            without(prev.children_at(k), cu)
        } by {
            if k != e {
                assert(!prev.children_at(k).contains(cu)) by {
                    if prev.children_at(k).contains(cu) {
                        let j = choose|j: int| 0 <= j < prev.children_at(k).len() && prev.children_at(k)[j] == cu;
                        assert(prev.parent_at(prev.children_at(k)[j] as int) == Some(k as usize));
                    }
                }
                crate::child_set::lemma_without_absent(prev.children_at(k), cu);
            }
        }
        assert forall|i: int| 0 < i < n implies #[trigger] prev.parent_at(i) != Some(cu) by {
            if prev.parent_at(i) == Some(cu) {
                assert(prev.children_at(c).contains(i as usize));
            }
        }
    }

    proof fn lemma_reparent_parents(prev: Self, next: Self, p: int, c: int, e: int)
        requires
            prev.wf(),
            Self::leaf_moved(prev, next, p, c, e),
            forall|k: int| 0 <= k < prev.spec_size() ==> #[trigger] next.children_at(k) == if k == p {
                without(prev.children_at(k), c as usize).push(c as usize)
            } else {
                without(prev.children_at(k), c as usize)
            },
        ensures
            next.parents_linked(),
    {
        let n = prev.spec_size() as int;
        let cu = c as usize;
        reveal(Tree::parents_linked);
        assert forall|i: int| 0 < i < n implies (#[trigger] next.parent_at(i)) is Some
            && next.parent_at(i)->0 < next.spec_size()
            && next.children_at(next.parent_at(i)->0 as int).contains(i as usize) by {
            if i == c {
                let s = without(prev.children_at(p), cu);
                assert(next.children_at(p) == s.push(cu));
                assert(s.push(cu)[s.len() as int] == cu);
            } else {
                assert(next.parent_at(i) == prev.parent_at(i));
                assert(prev.parent_at(i) is Some);
                let q = prev.parent_at(i)->0 as int;
                assert(prev.children_at(q).contains(i as usize));
                crate::child_set::lemma_without_contents(prev.children_at(q), cu);
                let s = without(prev.children_at(q), cu);
                assert(s.contains(i as usize));
                if q == p {
                    let j = choose|j: int| 0 <= j < s.len() && s[j] == i as usize;
                    assert(s.push(cu)[j] == i as usize);
                }
            }
        }
    }

    proof fn lemma_reparent_links(prev: Self, next: Self, p: int, c: int, e: int)
        requires
            prev.wf(),
            Self::leaf_moved(prev, next, p, c, e),
            forall|k: int| 0 <= k < prev.spec_size() ==> #[trigger] next.children_at(k) == if k == p {
                without(prev.children_at(k), c as usize).push(c as usize)
            } else {
                without(prev.children_at(k), c as usize)
            },
        ensures
            next.children_linked(),
    {
        let n = prev.spec_size() as int;
        let cu = c as usize;
        reveal(Tree::children_linked);
        assert forall|k: int| 0 <= k < next.spec_size() implies (#[trigger] next.children_at(k)).no_duplicates()
            && forall|j: int|
            0 <= j < next.children_at(k).len() ==> (#[trigger] next.children_at(k)[j])
                < next.spec_size() && next.parent_at(next.children_at(k)[j] as int)
                == Some(k as usize) by {
            let s = without(prev.children_at(k), cu);
            crate::child_set::lemma_without_contents(prev.children_at(k), cu);
            assert(prev.children_at(k).no_duplicates());
            assert forall|j: int| 0 <= j < s.len() implies s[j] < n && next.parent_at(s[j] as int) == Some(k as usize) by {
                assert(s.contains(s[j]));
                assert(prev.children_at(k).contains(s[j]));
                let m = choose|m: int| 0 <= m < prev.children_at(k).len() && prev.children_at(k)[m] == s[j];
                assert(prev.parent_at(prev.children_at(k)[m] as int) == Some(k as usize));
            }
            if k == p {
                assert(!s.contains(cu));
                assert forall|j: int| 0 <= j < s.push(cu).len() implies s.push(cu)[j] < n && next.parent_at(s.push(cu)[j] as int) == Some(k as usize) by {
                    if j < s.len() {
                        assert(s.push(cu)[j] == s[j]);
                    }
                }
                assert(s.push(cu).no_duplicates());
            }
        }
    }

    /// Moving a leaf as `set_parent` does keeps the invariant.
    proof fn lemma_reparent(prev: Self, next: Self, p: int, c: int, e: int)
        requires
            prev.wf(),
            Self::leaf_moved(prev, next, p, c, e),
        ensures
            next.wf(),
            next.is_reparented(&prev, p, c),
    {
        Self::lemma_reparent_children(prev, next, p, c, e);
        Self::lemma_reparent_parents(prev, next, p, c, e);
        Self::lemma_reparent_links(prev, next, p, c, e);
        reveal(Tree::costs_consistent);
        reveal(Tree::values_unique);
        reveal(Tree::parents_linked);
        assert forall|i: int| 0 < i < next.spec_size() implies #[trigger] next.cost_at(i) == step_cost(
            next.cost_at(next.parent_at(i)->0 as int),
            dist(next.value_at(i), next.value_at(next.parent_at(i)->0 as int)),
        ) by {
            if i != c {
                assert(prev.cost_at(i) == step_cost(
                    prev.cost_at(prev.parent_at(i)->0 as int),
                    dist(prev.value_at(i), prev.value_at(prev.parent_at(i)->0 as int)),
                ));
                assert(prev.parent_at(i) != Some(c as usize));
                let q = prev.parent_at(i)->0 as int;
                assert(next.parent_at(i) == prev.parent_at(i));
                assert(next.parent_at(q) == prev.parent_at(q));
                assert(next.value_at(q) == prev.value_at(q));
                assert(next.value_at(i) == prev.value_at(i));
            } else {
                assert(next.parent_at(p) == prev.parent_at(p));
                assert(next.value_at(p) == prev.value_at(p));
                assert(next.value_at(c) == prev.value_at(c));
            }
        }
        assert(next.costs_consistent());
        assert(next.acyclic()) by {
            assert forall|i: int| 0 < i < next.spec_size() implies next.rank@[next.parent_at(i)->0 as int] < #[trigger] next.rank@[i] by {
                if i != c {
                    assert(prev.parent_at(i) != Some(c as usize));
                }
            }
        }
        assert forall|i: int| 0 <= i < next.spec_size() implies #[trigger] next.contains(next.value_at(i))
            && next.index_of(next.value_at(i)) == i by {
            assert(prev.contains(prev.value_at(i)));
        }
        assert forall|v: T| #[trigger] next.contains(v) implies 0 <= next.index_of(v) < next.spec_size()
            && next.value_at(next.index_of(v)) == v by {
            assert(prev.contains(v));
        }
        assert(next.values_unique());
    }

    /// Whether index `k` holds the first of the values nearest to `q`.
    pub open spec fn is_first_nearest(&self, q: T, k: int) -> bool {
        &&& 0 <= k < self.spec_size()
        &&& forall|j: int| 0 <= j < self.spec_size() ==> dist(q, self.value_at(k)) <= dist(q, #[trigger] self.value_at(j))
        &&& forall|j: int| 0 <= j < k ==> dist(q, self.value_at(k)) < dist(q, #[trigger] self.value_at(j))
    }

    /// The value of the tree nearest to `q`; of equally near values, the
    /// one stored first.
    pub open spec fn nearest(&self, q: T) -> T {
        self.value_at(choose|k: int| self.is_first_nearest(q, k))
    }

    /// The values from the root down to the node at index `i`.
    pub open spec fn path_to(&self, i: int) -> Seq<T>
        decreases self.rank_at(i),
    {
        if 0 < i < self.spec_size() && self.parent_at(i) is Some && self.rank_at(
            self.parent_at(i)->0 as int,
        ) < self.rank_at(i) {
            self.path_to(self.parent_at(i)->0 as int).push(self.value_at(i))
        } else {
            seq![self.value_at(i)]
        }
    }

    /// The neighbours of `q` within `radius`, each with its distance.
    pub open spec fn within(&self, q: T, radius: u64) -> Map<T, u64> {
        Map::new(|v: T| self.contains(v) && dist(q, v) <= radius, |v: T| dist(q, v))
    }

    /// A bound above every node's rank.
    pub closed spec fn rank_limit(&self) -> nat {
        self.rank_bound@
    }

    /// The subtree at index `i` in depth-first pre-order: the node, then
    /// the subtree of each child, children in insertion order.
    pub open spec fn preorder(&self, i: int) -> Seq<T>
        decreases self.rank_limit() - self.rank_at(i), 1int, 0int,
    {
        if self.rank_at(i) < self.rank_limit() {
            seq![self.value_at(i)] + self.preorder_list(self.children_at(i), self.rank_at(i))
        } else {
            seq![self.value_at(i)]
        }
    }

    /// The subtrees at the indices `cs`, one after the other, for children
    /// of a node of rank `r`.
    pub open spec fn preorder_list(&self, cs: Seq<usize>, r: nat) -> Seq<T>
        decreases self.rank_limit() - r, 0int, cs.len(),
    {
        if cs.len() == 0 || r >= self.rank_limit() {
            Seq::empty()
        } else if r < self.rank_at(cs[0] as int) && self.rank_at(cs[0] as int) < self.rank_limit() {
            self.preorder(cs[0] as int) + self.preorder_list(cs.drop_first(), r)
        } else {
            Seq::empty()
        }
    }

    /// The whole tree in depth-first pre-order from the root.
    pub open spec fn dfs_order(&self) -> Seq<T> {
        self.preorder(0)
    }

    /// What a depth-first walk still yields when its stack holds `st`
    /// (top last): the subtree of each entry, from the top down.
    pub open spec fn stack_order(&self, st: Seq<usize>) -> Seq<T>
        decreases st.len(),
    {
        if st.len() == 0 {
            Seq::empty()
        } else {
            self.preorder(st.last() as int) + self.stack_order(st.drop_last())
        }
    }

    /// Return the size of the tree.
    pub fn size(&self) -> (r: usize)
        ensures
            r == self.spec_size(),
    {
        self.nodes.len()
    }

    /// The value stored at index `i`.
    pub(crate) fn value_of(&self, i: usize) -> (r: &T)
        requires
            self.wf(),
            i < self.spec_size(),
        ensures
            *r == self.value_at(i as int),
            self.contains(*r),
            self.index_of(*r) == i,
    {
        proof {
            reveal(Tree::values_unique);
        }
        &self.nodes[i].value
    }

    /// The index at which `val` is stored, if it is in the tree.
    pub(crate) fn find(&self, val: &T) -> (r: Option<usize>)
        requires
            self.wf(),
        ensures
            r is Some <==> self.contains(*val),
            r matches Some(i) ==> i == self.index_of(*val) && i < self.spec_size() && self.value_at(
                i as int,
            ) == *val,
    {
        proof {
            reveal(Tree::values_unique);
        }
        match self.nodes_map.get(val) {
            Some(i) => {
                assert(self.contains(*val) && self.index_of(*val) == *i);
                Some(*i)
            },
            None => None,
        }
    }

    /// Returns a depth-first walk over the tree: the root first, and each
    /// node's children in the order in which they were attached.
    pub fn iter_depth_first(&self) -> (r: DepthFirstIterator<'_, T>)
        requires
            self.wf(),
        ensures
            r.inv(),
            r.spec_tree() == *self,
            r.remaining() == self.dfs_order(),
    {
        DepthFirstIterator::new(self)
    }

    /// Return the cost to reach a particular node.
    ///
    /// Fails with `NotFound` if the value is not in the tree.
    pub fn cost(&self, val: &T) -> (r: Result<u64, TreeError>)
        requires
            self.wf(),
        ensures
            r == if self.contains(*val) {
                Ok::<u64, TreeError>(self.cost_at(self.index_of(*val)))
            } else {
                Err::<u64, TreeError>(TreeError::NotFound)
            },
    {
        proof {
            reveal(Tree::values_unique);
        }
        let idx: usize = match self.nodes_map.get(val) {
            Some(i) => *i,
            None => {
                return Err(TreeError::NotFound);
            },
        };
        assert(self.contains(*val) && self.index_of(*val) == idx);
        Ok(self.nodes[idx].cost)
    }

    /// Returns the node holding `val`, if there is one.
    pub fn get_node(&self, val: &T) -> (r: Option<&Node<T>>)
        requires
            self.wf(),
        ensures
            r is None <==> !self.contains(*val),
            r matches Some(n) ==> n.spec_value() == *val && n.spec_cost() == self.cost_at(
                self.index_of(*val),
            ) && n.spec_children() == self.children_at(self.index_of(*val)),
    {
        proof {
            reveal(Tree::values_unique);
        }
        let idx: usize = match self.nodes_map.get(val) {
            Some(i) => *i,
            None => {
                return None;
            },
        };
        assert(self.contains(*val) && self.index_of(*val) == idx);
        Some(&self.nodes[idx])
    }

    /// Returns the value of the parent of the node holding `val`; `None`
    /// for the root and for a value not in the tree.
    pub fn get_parent(&self, val: &T) -> (r: Option<&T>)
        requires
            self.wf(),
        ensures
            r is Some <==> self.contains(*val) && self.index_of(*val) != 0,
            r matches Some(p) ==> *p == self.value_at(self.parent_at(self.index_of(*val))->0 as int),
    {
        proof {
            reveal(Tree::values_unique);
            reveal(Tree::parents_linked);
        }
        let idx: usize = match self.nodes_map.get(val) {
            Some(i) => *i,
            None => {
                return None;
            },
        };
        assert(self.contains(*val) && self.index_of(*val) == idx);
        assert(idx != 0 ==> self.parent_at(idx as int) is Some);
        match self.nodes[idx].parent {
            Some(p) => Some(&self.nodes[p].value),
            None => None,
        }
    }

    /// Returns the closest element to the specified value; of equally close
    /// elements, the one added first.
    pub fn nearest_neighbor(&self, val: &T) -> (r: &T)
        requires
            self.wf(),
        ensures
            *r == self.nearest(*val),
            self.contains(*r),
    {
        proof {
            reveal(Tree::values_unique);
            reveal(Tree::parents_linked);
        }
        let mut best: usize = 0;
        let mut best_d: u64 = val.distance(&self.nodes[0].value);
        let mut i: usize = 1;
        while i < self.nodes.len()
            invariant
                self.wf(),
                1 <= i <= self.spec_size(),
                best < i,
                best_d == dist(*val, self.value_at(best as int)),
                forall|j: int| 0 <= j < i ==> best_d <= dist(*val, #[trigger] self.value_at(j)),
                forall|j: int| 0 <= j < best ==> best_d < dist(*val, #[trigger] self.value_at(j)),
            decreases self.spec_size() - i,
        {
            let d = val.distance(&self.nodes[i].value);
            if d < best_d {
                best = i;
                best_d = d;
            }
            i += 1;
        }
        proof {
            assert(self.is_first_nearest(*val, best as int));
            let k = choose|k: int| self.is_first_nearest(*val, k);
            if k < best {
                assert(dist(*val, self.value_at(best as int)) < dist(*val, self.value_at(k)));
            } else if k > best {
                assert(dist(*val, self.value_at(k)) < dist(*val, self.value_at(best as int)));
            }
            assert(self.contains(self.value_at(best as int)));
        }
        &self.nodes[best].value
    }

    /// Finds all values within `radius` of `val`, each mapped to its
    /// distance from `val`.
    pub fn nearest_neighbors(&mut self, val: &T, radius: u64) -> (r: HashMap<T, u64>)
        requires
            old(self).wf(),
        ensures
            *final(self) == *old(self),
            r@ == old(self).within(*val, radius),
    {
        proof {
            reveal(Tree::values_unique);
        }
        let mut neighbors: HashMap<T, u64> = HashMap::new();
        let mut i: usize = 0;
        while i < self.nodes.len()
            invariant
                self.wf(),
                0 <= i <= self.spec_size(),
                neighbors@ == Map::new(
                    |v: T| self.contains(v) && self.index_of(v) < i && dist(*val, v) <= radius,
                    |v: T| dist(*val, v),
                ),
            decreases self.spec_size() - i,
        {
            proof {
                reveal(Tree::values_unique);
            }
            let v = self.nodes[i].value;
            let d = val.distance(&v);
            assert(v == self.value_at(i as int));
            assert(self.contains(self.value_at(i as int)));
            if d <= radius {
                neighbors.insert(v, d);
            }
            proof {
                assert(self.contains(v) && self.index_of(v) == i);
                assert(neighbors@ =~= Map::new(
                    |w: T| self.contains(w) && self.index_of(w) < i + 1 && dist(*val, w) <= radius,
                    |w: T| dist(*val, w),
                ));
            }
            i += 1;
        }
        proof {
            reveal(Tree::values_unique);
            assert(neighbors@ =~= self.within(*val, radius));
        }
        neighbors
    }

    /// Returns the values on the way from the root to `end`, root first.
    ///
    /// Fails with `NotFound` if `end` is not in the tree.
    pub fn path(&self, end: &T) -> (r: Result<Vec<T>, TreeError>)
        requires
            self.wf(),
        ensures
            r matches Ok(p) ==> self.contains(*end) && p@ == self.path_to(self.index_of(*end)),
            r is Err <==> !self.contains(*end),
            r matches Err(e) ==> e == TreeError::NotFound,
    {
        proof {
            reveal(Tree::values_unique);
            reveal(Tree::parents_linked);
        }
        let idx: usize = match self.nodes_map.get(end) {
            Some(i) => *i,
            None => {
                return Err(TreeError::NotFound);
            },
        };
        assert(self.contains(*end) && self.index_of(*end) == idx);
        let mut back: Vec<T> = Vec::new();
        let mut cur: usize = idx;
        loop
            invariant_except_break
                self.path_to(idx as int) == self.path_to(cur as int) + reversed(back@),
            invariant
                self.wf(),
                idx < self.spec_size(),
                cur < self.spec_size(),
            ensures
                self.path_to(idx as int) == reversed(back@),
            decreases self.rank_at(cur as int),
        {
            proof {
                reveal(Tree::parents_linked);
            }
            back.push(self.nodes[cur].value);
            match self.nodes[cur].parent {
                Some(p) => {
                    proof {
                        assert(self.parent_at(cur as int) == Some(p));
                        assert(cur != 0);
                        assert(self.parent_at(cur as int) is Some);
                        assert(self.storage_ok());
                        assert(self.rank_at(p as int) < self.rank_at(cur as int));
                        assert(self.path_to(cur as int) == self.path_to(p as int).push(self.value_at(cur as int)));
                        assert(self.path_to(p as int).push(self.value_at(cur as int)) + reversed(back@.drop_last()) =~= self.path_to(p as int) + reversed(back@));
                    }
                    cur = p;
                },
                None => {
                    proof {
                        assert(self.path_to(cur as int) == seq![self.value_at(cur as int)]);
                        assert(seq![self.value_at(cur as int)] + reversed(back@.drop_last()) =~= reversed(back@));
                    }
                    break;
                },
            }
        }
        let mut path: Vec<T> = Vec::new();
        let mut k: usize = back.len();
        while k > 0
            invariant
                k <= back.len(),
                path@ == reversed(back@).take(back.len() - k),
            decreases k,
        {
            k -= 1;
            path.push(back[k]);
            proof {
                assert(path@ =~= reversed(back@).take(back.len() - k));
            }
        }
        proof {
            assert(path@ =~= reversed(back@));
        }
        Ok(path)
    }
}

/// A depth-first walk over a [Tree], root first, each node's children in
/// insertion order.
pub struct DepthFirstIterator<'a, T> {
    tree: &'a Tree<T>,
    stack: Vec<usize>,
}

impl<'a, T: Eq + Copy + Distance + Hash> DepthFirstIterator<'a, T> {
    /// The tree being walked.
    pub closed spec fn spec_tree(&self) -> Tree<T> {
        *self.tree
    }

    /// The values the walk has yet to yield, in order.
    pub closed spec fn remaining(&self) -> Seq<T> {
        self.tree.stack_order(self.stack@)
    }

    /// The walk's invariant.
    pub closed spec fn inv(&self) -> bool {
        &&& self.tree.wf()
        &&& forall|j: int| 0 <= j < self.stack@.len() ==> #[trigger] self.stack@[j] < self.tree.spec_size()
    }

    /// Starts a walk at the root of `tree`.
    pub fn new(tree: &'a Tree<T>) -> (r: Self)
        requires
            tree.wf(),
        ensures
            r.inv(),
            r.spec_tree() == *tree,
            r.remaining() == tree.dfs_order(),
    {
        let mut stack: Vec<usize> = Vec::new();
        stack.push(0);
        let r = DepthFirstIterator { tree, stack };
        proof {
            assert(r.stack@.drop_last() =~= Seq::<usize>::empty());
            assert(r.stack@.last() == 0);
            assert(tree.stack_order(r.stack@) == tree.preorder(0) + tree.stack_order(Seq::<usize>::empty()));
            assert(tree.stack_order(r.stack@) =~= tree.preorder(0));
        }
        r
    }

    /// Yields the next value of the walk, or `None` once it is over.
    pub fn next(&mut self) -> (r: Option<T>)
        requires
            old(self).inv(),
        ensures
            final(self).inv(),
            final(self).spec_tree() == old(self).spec_tree(),
            match r {
                None => old(self).remaining().len() == 0 && final(self).remaining().len() == 0,
                Some(v) => old(self).remaining() == seq![v] + final(self).remaining(),
            },
    {
        match self.stack.pop() {
            None => {
                proof {
                    assert(old(self).stack@ =~= Seq::<usize>::empty());
                }
                None
            },
            Some(index) => {
                let ghost rest = self.stack@;
                proof {
                    assert(old(self).stack@ == rest.push(index));
                    self.tree.lemma_pop_push(rest, index);
                }
                let children = to_vec(&self.tree.nodes[index].children);
                proof {
                    reveal(Tree::children_linked);
                    assert(children@ == self.tree.children_at(index as int));
                }
                let mut k: usize = children.len();
                while k > 0
                    invariant
                        self.tree.wf(),
                        self.tree == old(self).tree,
                        k <= children@.len(),
                        children@ == self.tree.children_at(index as int),
                        index < self.tree.spec_size(),
                        forall|j: int| 0 <= j < children@.len() ==> #[trigger] children@[j] < self.tree.spec_size(),
                        self.stack@ == rest + reversed(children@.subrange(k as int, children@.len() as int)),
                        forall|j: int| 0 <= j < rest.len() ==> #[trigger] rest[j] < self.tree.spec_size(),
                    decreases k,
                {
                    k -= 1;
                    self.stack.push(children[k]);
                    proof {
                        assert(self.stack@ =~= rest + reversed(children@.subrange(k as int, children@.len() as int)));
                    }
                }
                proof {
                    assert(children@.subrange(0, children@.len() as int) =~= children@);
                    assert forall|j: int| 0 <= j < self.stack@.len() implies #[trigger] self.stack@[j] < self.tree.spec_size() by {
                        if j >= rest.len() {
                            let m = children@.len() - 1 - (j - rest.len());
                            assert(self.stack@[j] == children@[m]);
                        }
                    }
                }
                Some(self.tree.nodes[index].value)
            },
        }
    }
}

/// `s` back to front.
pub open spec fn reversed<T>(s: Seq<T>) -> Seq<T> {
    Seq::new(s.len(), |i: int| s[s.len() - 1 - i])
}

} // verus!

verus! {

/// Taking `v` out of `s` after appending `v` is taking it out of `s`.
proof fn lemma_without_push_same(s: Seq<usize>, v: usize)
    ensures
        without(s.push(v), v) == without(s, v),
{
    reveal(Seq::filter);
    assert(s.push(v).drop_last() =~= s);
}

impl<T: Eq + Copy + Distance + Hash> Tree<T> {
    /// Every node but the root costs its parent's cost plus its distance
    /// to the parent (stopping at `u64::MAX`).
    pub proof fn lemma_costs(&self)
        requires
            self.wf(),
        ensures
            self.cost_at(0) == 0,
            forall|i: int|
                0 < i < self.spec_size() ==> #[trigger] self.cost_at(i) == step_cost(
                    self.cost_at(self.parent_at(i)->0 as int),
                    dist(self.value_at(i), self.value_at(self.parent_at(i)->0 as int)),
                ),
    {
        reveal(Tree::costs_consistent);
    }

    /// No value is stored twice; every node but the root has a parent that
    /// lists it among its children, and no other node lists it; the root
    /// has no parent and is nobody's child.
    pub proof fn lemma_structure(&self)
        requires
            self.wf(),
        ensures
            forall|i: int, j: int|
                0 <= i < self.spec_size() && 0 <= j < self.spec_size() && #[trigger] self.value_at(i)
                    == #[trigger] self.value_at(j) ==> i == j,
            self.parent_at(0) is None,
            forall|i: int|
                0 < i < self.spec_size() ==> (#[trigger] self.parent_at(i)) is Some
                    && self.children_at(self.parent_at(i)->0 as int).contains(i as usize),
            forall|k: int, i: int|
                0 <= k < self.spec_size() && #[trigger] self.children_at(k).contains(i as usize) && 0 <= i
                    < self.spec_size() ==> i != 0 && self.parent_at(i) == Some(k as usize),
            forall|k: int| 0 <= k < self.spec_size() ==> (#[trigger] self.children_at(k)).no_duplicates(),
    {
        reveal(Tree::values_unique);
        reveal(Tree::parents_linked);
        reveal(Tree::children_linked);
        assert forall|i: int, j: int|
            0 <= i < self.spec_size() && 0 <= j < self.spec_size() && #[trigger] self.value_at(i)
                == #[trigger] self.value_at(j) implies i == j by {
            assert(self.contains(self.value_at(i)));
            assert(self.contains(self.value_at(j)));
        }
        assert forall|k: int, i: int|
            0 <= k < self.spec_size() && #[trigger] self.children_at(k).contains(i as usize) && 0 <= i
                < self.spec_size() implies i != 0 && self.parent_at(i) == Some(k as usize) by {
            let j = choose|j: int| 0 <= j < self.children_at(k).len() && self.children_at(k)[j] == i as usize;
            assert(self.parent_at(self.children_at(k)[j] as int) == Some(k as usize));
        }
    }

    /// The path to any node starts at the root and ends at the node; the
    /// path to the root is the root alone.
    pub proof fn lemma_path_ends(&self, v: T)
        requires
            self.wf(),
            self.contains(v),
        ensures
            self.path_to(self.index_of(v)).len() >= 1,
            self.path_to(self.index_of(v))[0] == self.value_at(0),
            self.path_to(self.index_of(v)).last() == v,
            self.path_to(0) == seq![self.value_at(0)],
            self.index_of(self.value_at(0)) == 0,
    {
        reveal(Tree::values_unique);
        assert(self.contains(self.value_at(0)));
        self.lemma_path_from_root(self.index_of(v));
    }

    proof fn lemma_path_from_root(&self, i: int)
        requires
            self.wf(),
            0 <= i < self.spec_size(),
        ensures
            self.path_to(i).len() >= 1,
            self.path_to(i)[0] == self.value_at(0),
            self.path_to(i).last() == self.value_at(i),
        decreases self.rank_at(i),
    {
        reveal(Tree::parents_linked);
        if i > 0 {
            let p = self.parent_at(i)->0 as int;
            assert(self.storage_ok());
            assert(self.rank_at(p) < self.rank_at(i));
            self.lemma_path_from_root(p);
        }
    }

    /// Adding `c` below `p` makes the path to `c` the path to `p` followed
    /// by `c`: one longer, and ending at `c`.
    pub proof fn lemma_add_child_path(prev: &Self, next: &Self, p: T, c: T)
        requires
            prev.wf(),
            next.wf(),
            prev.contains(p),
            !prev.contains(c),
            next.is_child_added(prev, prev.index_of(p), c),
        ensures
            next.contains(c),
            next.path_to(next.index_of(c)) == prev.path_to(prev.index_of(p)).push(c),
            next.path_to(next.index_of(c)).len() == prev.path_to(prev.index_of(p)).len() + 1,
            next.path_to(next.index_of(c)).last() == c,
    {
        reveal(Tree::values_unique);
        reveal(Tree::parents_linked);
        let n = prev.spec_size() as int;
        let pi = prev.index_of(p);
        assert(next.index_map()[c] == n as usize);
        assert(next.index_of(c) == n);
        assert(next.storage_ok());
        assert(next.rank_at(pi) < next.rank_at(n));
        Self::lemma_paths_kept(prev, next, pi);
        assert(next.path_to(n) == next.path_to(pi).push(c));
    }

    /// A node that was already there keeps its path when a node is added.
    proof fn lemma_paths_kept(prev: &Self, next: &Self, i: int)
        requires
            prev.wf(),
            next.wf(),
            0 <= i < prev.spec_size(),
            next.spec_size() == prev.spec_size() + 1,
            forall|j: int|
                0 <= j < prev.spec_size() ==> #[trigger] next.value_at(j) == prev.value_at(j)
                    && next.parent_at(j) == prev.parent_at(j),
        ensures
            next.path_to(i) == prev.path_to(i),
        decreases prev.rank_at(i),
    {
        reveal(Tree::parents_linked);
        assert(next.value_at(i) == prev.value_at(i));
        if i > 0 {
            let p = prev.parent_at(i)->0 as int;
            assert(prev.storage_ok());
            assert(next.storage_ok());
            assert(next.parent_at(i) == prev.parent_at(i));
            Self::lemma_paths_kept(prev, next, p);
        }
    }

    /// Moving a node below the parent it already has keeps it there, lists
    /// it once among that parent's children with the same children as
    /// before, and a second such move changes nothing more.
    pub proof fn lemma_set_parent_idempotent(t0: &Self, t1: &Self, t2: &Self, p: T, c: T)
        requires
            t0.wf(),
            t1.wf(),
            t0.contains(p),
            t0.contains(c),
            t0.parent_at(t0.index_of(c)) == Some(t0.index_of(p) as usize),
            t1.is_reparented(t0, t0.index_of(p), t0.index_of(c)),
            t2.is_reparented(t1, t1.index_of(p), t1.index_of(c)),
        ensures
            t1.parent_at(t0.index_of(c)) == t0.parent_at(t0.index_of(c)),
            t1.children_at(t0.index_of(p)).no_duplicates(),
            forall|x: usize|
                #[trigger] t1.children_at(t0.index_of(p)).contains(x) <==> t0.children_at(
                    t0.index_of(p),
                ).contains(x),
            t2.spec_size() == t1.spec_size(),
            t2.index_map() == t1.index_map(),
            forall|i: int|
                0 <= i < t1.spec_size() ==> #[trigger] t2.value_at(i) == t1.value_at(i)
                    && t2.parent_at(i) == t1.parent_at(i) && t2.cost_at(i) == t1.cost_at(i)
                    && t2.children_at(i) == t1.children_at(i),
    {
        reveal(Tree::children_linked);
        reveal(Tree::parents_linked);
        reveal(Tree::values_unique);
        let pi = t0.index_of(p);
        let ci = t0.index_of(c);
        let cu = ci as usize;
        assert(t0.contains(t0.value_at(ci)));
        assert(ci > 0);
        assert(t0.children_at(pi).contains(cu));
        crate::child_set::lemma_without_contents(t0.children_at(pi), cu);
        let s = without(t0.children_at(pi), cu);
        assert(t1.children_at(pi) == s.push(cu));
        assert(!s.contains(cu));
        assert(s.push(cu).no_duplicates());
        assert forall|x: usize| #[trigger] t1.children_at(pi).contains(x) <==> t0.children_at(pi).contains(x) by {
            if t1.children_at(pi).contains(x) && x != cu {
                let j = choose|j: int| 0 <= j < s.push(cu).len() && s.push(cu)[j] == x;
                assert(s[j] == x);
                assert(s.contains(x));
            }
            if t0.children_at(pi).contains(x) && x != cu {
                assert(s.contains(x));
                let j = choose|j: int| 0 <= j < s.len() && s[j] == x;
                assert(s.push(cu)[j] == x);
            }
            if x == cu {
                assert(s.push(cu)[s.len() as int] == cu);
            }
        }
        assert(t1.index_of(p) == pi && t1.index_of(c) == ci);
        lemma_without_push_same(s, cu);
        crate::child_set::lemma_without_absent(s, cu);
        assert forall|i: int| 0 <= i < t1.spec_size() implies #[trigger] t2.value_at(i) == t1.value_at(i)
            && t2.parent_at(i) == t1.parent_at(i) && t2.cost_at(i) == t1.cost_at(i)
            && t2.children_at(i) == t1.children_at(i) by {
            if i != pi {
                assert(t1.children_at(i) == without(t0.children_at(i), cu));
                crate::child_set::lemma_without_contents(t0.children_at(i), cu);
                crate::child_set::lemma_without_absent(t1.children_at(i), cu);
            }
            if i == ci {
                assert(t0.storage_ok());
                assert(t0.rank@[t0.parent_at(ci)->0 as int] < t0.rank@[ci]);
                assert(pi != ci);
                assert(t1.parent_at(pi) == t0.parent_at(pi));
                assert(t1.value_at(pi) == t0.value_at(pi));
                assert(t1.cost_at(pi) == t0.cost_at(pi));
            }
        }
    }

    /// In a tree that holds only its root, the path to the root is the
    /// root alone and the root is nearest to every value.
    pub proof fn lemma_root_only(&self, q: T)
        requires
            self.wf(),
            self.spec_size() == 1,
        ensures
            self.path_to(0) == seq![self.value_at(0)],
            self.nearest(q) == self.value_at(0),
    {
        assert(self.is_first_nearest(q, 0));
        let k = choose|k: int| self.is_first_nearest(q, k);
        assert(k == 0);
    }

    /// For a distance that is zero exactly between equal values, the
    /// neighbours of `q` within radius zero are `q` itself if it is in the
    /// tree, and nothing otherwise.
    pub proof fn lemma_zero_radius(&self, q: T)
        requires
            self.wf(),
            forall|a: T, b: T| #[trigger] dist(a, b) == 0 <==> a == b,
        ensures
            self.within(q, 0) == if self.contains(q) {
                map![q => 0u64]
            } else {
                Map::<T, u64>::empty()
            },
    {
        assert(dist(q, q) == 0);
        if self.contains(q) {
            assert(self.within(q, 0) =~= map![q => 0u64]);
        } else {
            assert(self.within(q, 0) =~= Map::<T, u64>::empty());
        }
    }

    /// Every child of a node is a node of higher rank.
    proof fn lemma_children_ranks(&self, i: int)
        requires
            self.wf(),
            0 <= i < self.spec_size(),
            i <= usize::MAX,
        ensures
            self.rank_at(i) < self.rank_limit(),
            forall|j: int|
                0 <= j < self.children_at(i).len() ==> (#[trigger] self.children_at(i)[j]) < self.spec_size()
                    && self.rank_at(i) < self.rank_at(self.children_at(i)[j] as int),
    {
        reveal(Tree::children_linked);
        reveal(Tree::parents_linked);
        assert(self.storage_ok());
        let cs = self.children_at(i);
        assert forall|j: int| 0 <= j < cs.len() implies (#[trigger] cs[j]) < self.spec_size() && self.rank_at(i) < self.rank_at(cs[j] as int) by {
            assert(self.parent_at(cs[j] as int) == Some(i as usize));
            assert(self.rank@[self.parent_at(cs[j] as int)->0 as int] < self.rank@[cs[j] as int]);
        }
    }

    /// Pushing children in reverse onto a stack yields their subtrees in
    /// order, ahead of what the stack held.
    proof fn lemma_push_children(&self, rest: Seq<usize>, cs: Seq<usize>, r: nat)
        requires
            self.wf(),
            r < self.rank_limit(),
            forall|j: int|
                0 <= j < cs.len() ==> (#[trigger] cs[j]) < self.spec_size() && r < self.rank_at(
                    cs[j] as int,
                ),
        ensures
            self.stack_order(rest + reversed(cs)) == self.preorder_list(cs, r) + self.stack_order(rest),
        decreases cs.len(),
    {
        assert(self.storage_ok());
        if cs.len() == 0 {
            assert(rest + reversed(cs) =~= rest);
            assert(self.preorder_list(cs, r) + self.stack_order(rest) =~= self.stack_order(rest));
        } else {
            let tail = cs.drop_first();
            assert forall|j: int| 0 <= j < tail.len() implies (#[trigger] tail[j]) < self.spec_size() && r < self.rank_at(tail[j] as int) by {
                assert(tail[j] == cs[j + 1]);
            }
            self.lemma_push_children(rest, tail, r);
            let whole = rest + reversed(cs);
            assert(whole.drop_last() =~= rest + reversed(tail));
            assert(whole.last() == cs[0]);
            assert(cs[0] < self.spec_size());
            assert(self.rank_at(cs[0] as int) < self.rank_limit());
            assert(self.preorder_list(cs, r) == self.preorder(cs[0] as int) + self.preorder_list(tail, r));
            assert(self.stack_order(whole) =~= self.preorder_list(cs, r) + self.stack_order(rest));
        }
    }

    /// Popping `x` off a stack and pushing its children in reverse yields
    /// the same values after `x`'s own.
    proof fn lemma_pop_push(&self, rest: Seq<usize>, xu: usize)
        requires
            self.wf(),
            xu < self.spec_size(),
        ensures
            self.stack_order(rest.push(xu)) == seq![self.value_at(xu as int)] + self.stack_order(
                rest + reversed(self.children_at(xu as int)),
            ),
    {
        let x = xu as int;
        let cs = self.children_at(x);
        self.lemma_children_ranks(x);
        self.lemma_push_children(rest, cs, self.rank_at(x));
        assert(rest.push(xu).drop_last() =~= rest);
        assert(rest.push(xu).last() == xu);
        assert(self.preorder(x) == seq![self.value_at(x)] + self.preorder_list(cs, self.rank_at(x)));
        assert(self.stack_order(rest.push(xu)) == self.preorder(x) + self.stack_order(rest));
        assert(self.stack_order(rest.push(xu)) =~= seq![self.value_at(x)] + self.stack_order(
            rest + reversed(cs),
        ));
    }

    /// Whether `a` and `b` hold the same values at the same indices with the
    /// same children in the same order.
    pub open spec fn same_shape(a: &Self, b: &Self) -> bool {
        &&& a.spec_size() == b.spec_size()
        &&& a.index_map() == b.index_map()
        &&& forall|i: int|
            0 <= i < a.spec_size() ==> #[trigger] a.value_at(i) == b.value_at(i) && a.children_at(i)
                == b.children_at(i) && a.parent_at(i) == b.parent_at(i) && a.cost_at(i) == b.cost_at(i)
    }

    /// Trees of the same shape have the same depth-first order.
    pub proof fn lemma_same_shape_same_dfs(a: &Self, b: &Self)
        requires
            a.wf(),
            b.wf(),
            Self::same_shape(a, b),
        ensures
            a.dfs_order() == b.dfs_order(),
    {
        Self::lemma_same_preorder(a, b, 0);
    }

    proof fn lemma_same_preorder(a: &Self, b: &Self, i: int)
        requires
            a.wf(),
            b.wf(),
            Self::same_shape(a, b),
            0 <= i < a.spec_size(),
            i <= usize::MAX,
        ensures
            a.preorder(i) == b.preorder(i),
        decreases a.rank_limit() - a.rank_at(i), 1int, 0int,
    {
        assert(a.value_at(i) == b.value_at(i));
        let cs = a.children_at(i);
        a.lemma_children_ranks(i);
        b.lemma_children_ranks(i);
        assert(b.children_at(i) == cs);
        Self::lemma_same_preorder_list(a, b, cs, a.rank_at(i), b.rank_at(i));
    }

    proof fn lemma_same_preorder_list(a: &Self, b: &Self, cs: Seq<usize>, ra: nat, rb: nat)
        requires
            a.wf(),
            b.wf(),
            Self::same_shape(a, b),
            ra < a.rank_limit(),
            rb < b.rank_limit(),
            forall|j: int|
                0 <= j < cs.len() ==> (#[trigger] cs[j]) < a.spec_size() && ra < a.rank_at(cs[j] as int)
                    && rb < b.rank_at(cs[j] as int),
        ensures
            a.preorder_list(cs, ra) == b.preorder_list(cs, rb),
        decreases a.rank_limit() - ra, 0int, cs.len(),
    {
        assert(a.storage_ok() && b.storage_ok());
        if cs.len() > 0 {
            let c = cs[0] as int;
            assert(a.rank_at(c) < a.rank_limit());
            assert(b.rank_at(c) < b.rank_limit());
            Self::lemma_same_preorder(a, b, c);
            let tail = cs.drop_first();
            assert forall|j: int| 0 <= j < tail.len() implies (#[trigger] tail[j]) < a.spec_size() && ra < a.rank_at(tail[j] as int)
                && rb < b.rank_at(tail[j] as int) by {
                assert(tail[j] == cs[j + 1]);
            }
            Self::lemma_same_preorder_list(a, b, tail, ra, rb);
        }
    }

    /// Adding the same child below the same parent to trees of the same
    /// shape gives trees of the same shape; with the lemma above, trees
    /// built by the same sequence of `add_child` calls walk alike.
    pub proof fn lemma_add_child_same_shape(a0: &Self, b0: &Self, a1: &Self, b1: &Self, p: T, c: T)
        requires
            a0.wf(),
            b0.wf(),
            Self::same_shape(a0, b0),
            a0.contains(p),
            a1.is_child_added(a0, a0.index_of(p), c),
            b1.is_child_added(b0, b0.index_of(p), c),
        ensures
            Self::same_shape(a1, b1),
    {
        reveal(Tree::values_unique);
        let n = a0.spec_size() as int;
        let pi = a0.index_of(p);
        assert(b0.index_of(p) == pi);
        assert(a0.value_at(pi) == b0.value_at(pi));
        assert(a0.cost_at(pi) == b0.cost_at(pi));
        assert forall|i: int| 0 <= i < a1.spec_size() implies #[trigger] a1.value_at(i) == b1.value_at(i) && a1.children_at(i)
            == b1.children_at(i) && a1.parent_at(i) == b1.parent_at(i) && a1.cost_at(i) == b1.cost_at(i) by {
            if i < n {
                assert(a0.value_at(i) == b0.value_at(i));
                assert(a1.value_at(i) == a0.value_at(i));
                assert(b1.value_at(i) == b0.value_at(i));
                if i != pi {
                    assert(a1.children_at(i) == a0.children_at(i));
                    assert(b1.children_at(i) == b0.children_at(i));
                }
            }
        }
    }
}

} // verus!
