use vstd::prelude::*;
use std::collections::HashMap;
use crate::model::is_min_entry;
use crate::node::Node;

verus! {

broadcast use vstd::std_specs::hash::group_hash_axioms;

/// Why `decrease_key` refused to change a key.
#[derive(Clone, Copy, Debug, PartialEq, Eq, Structural)]
pub enum HeapError {
    /// No element with the given value is in the heap.
    NotFound,
    /// The new key is greater than the element's current key.
    InvalidDecrease,
}

/// A Fibonacci heap: a min-priority queue of `(key, value)` pairs with
/// amortised O(1) `insert` and `decrease_key` and amortised O(log n)
/// `extract_min`. Values identify elements and are unique in the heap.
///
/// The nodes live in an arena and refer to each other by position. Each
/// node carries, as ghost state, the path of arena positions from the root
/// of its tree down to its parent; heap order is stated along those paths.
pub struct FibonacciHeap {
    nodes: Vec<Node>,
    roots: Vec<usize>,
    index: HashMap<u64, usize>,
    min: Option<usize>,
    size: usize,
    /// Arena positions of extracted nodes, reused by `insert`.
    free: Vec<usize>,
    paths: Ghost<Seq<Seq<usize>>>,
    /// For each node, how many children it lost since it last became a
    /// child.
    lost: Ghost<Seq<nat>>,
}

impl View for FibonacciHeap {
    type V = Map<u64, u64>;

    /// The elements of the heap: each value mapped to its key.
    closed spec fn view(&self) -> Map<u64, u64> {
        Map::new(
            |v: u64| self.index@.contains_key(v),
            |v: u64| self.nodes@[self.index@[v] as int].key,
        )
    }
}

impl FibonacciHeap {
    // ---------------------------------------------------------------
    // The representation invariant, in parts.
    // ---------------------------------------------------------------

    spec fn live(&self, i: int) -> bool {
        0 <= i < self.nodes@.len() && self.nodes@[i].live
    }

    spec fn key_at(&self, i: int) -> u64 {
        self.nodes@[i].key
    }

    spec fn deg(&self, i: int) -> int {
        self.nodes@[i].children@.len() as int
    }

    spec fn is_root(&self, i: int) -> bool {
        self.live(i) && self.nodes@[i].parent is None
    }

    /// Parent and child links agree, and roots are never marked.
    spec fn links_ok(&self) -> bool {
        &&& forall|i: int|
            #![trigger self.live(i)]
            self.live(i) ==> match self.nodes@[i].parent {
                Some(p) => {
                    &&& self.live(p as int)
                    &&& self.nodes@[i].slot < self.deg(p as int)
                    &&& self.nodes@[p as int].children@[self.nodes@[i].slot as int] == i
                },
                None => !self.nodes@[i].marked,
            }
        &&& forall|p: int, j: int|
            #![trigger self.nodes@[p].children@[j]]
            self.live(p) && 0 <= j < self.deg(p) ==> {
                let c = self.nodes@[p].children@[j] as int;
                &&& self.live(c)
                &&& self.nodes@[c].parent == Some(p as usize)
                &&& self.nodes@[c].slot == j
            }
    }

    /// Each live node's path runs from the root of its tree to its parent;
    /// every node on it has a key no larger than the node's own, and its own
    /// path is the matching prefix.
    spec fn paths_ok(&self) -> bool {
        &&& self.paths@.len() == self.nodes@.len()
        &&& forall|i: int|
            #![trigger self.paths@[i]]
            self.live(i) ==> match self.nodes@[i].parent {
                Some(p) => self.paths@[i] == self.paths@[p as int].push(p),
                None => self.paths@[i].len() == 0,
            }
        &&& forall|i: int, j: int|
            #![trigger self.paths@[i][j]]
            self.live(i) && 0 <= j < self.paths@[i].len() ==> {
                let a = self.paths@[i][j] as int;
                &&& self.live(a)
                &&& self.key_at(a) <= self.key_at(i)
                &&& self.paths@[a] == self.paths@[i].subrange(0, j)
            }
    }

    /// The tree structure, apart from the root list.
    spec fn tree_ok(&self) -> bool {
        self.links_ok() && self.paths_ok()
    }

    /// The root list holds exactly the live nodes without a parent, each at
    /// its slot.
    spec fn roots_ok(&self) -> bool {
        &&& forall|i: int|
            #![trigger self.is_root(i)]
            self.is_root(i) ==> {
                &&& self.nodes@[i].slot < self.roots@.len()
                &&& self.roots@[self.nodes@[i].slot as int] == i
            }
        &&& forall|j: int|
            #![trigger self.roots@[j]]
            0 <= j < self.roots@.len() ==> {
                let r = self.roots@[j] as int;
                &&& self.is_root(r)
                &&& self.nodes@[r].slot == j
            }
    }

    /// The index maps the value of each live node to its position.
    spec fn index_ok(&self) -> bool {
        &&& forall|v: u64|
            #![trigger self.index@[v]]
            self.index@.contains_key(v) ==> {
                &&& self.live(self.index@[v] as int)
                &&& self.nodes@[self.index@[v] as int].value == v
            }
        &&& forall|i: int|
            #![trigger self.live(i)]
            self.live(i) ==> {
                &&& self.index@.contains_key(self.nodes@[i].value)
                &&& self.index@[self.nodes@[i].value] == i
            }
        &&& self.size == self.index@.len()
    }

    /// `min` is a root whose key is the smallest in the heap.
    spec fn min_ok(&self) -> bool {
        match self.min {
            Some(m) => {
                &&& self.is_root(m as int)
                &&& forall|i: int| #![trigger self.live(i)] self.live(i) ==> self.key_at(m as int) <= self.key_at(i)
            },
            None => forall|i: int| #![trigger self.live(i)] !self.live(i),
        }
    }

    /// What a mark means at node `i`: a non-root has lost at most one child
    /// since it became a child, and is marked exactly when it lost one.
    spec fn mark_ok_at(&self, i: int) -> bool {
        self.live(i) && self.nodes@[i].parent is Some ==> {
            &&& self.lost@[i] <= 1
            &&& (self.nodes@[i].marked <==> self.lost@[i] == 1)
        }
    }

    /// Marks mean what `mark_ok_at` says at every node but `y`.
    spec fn marks_ok_except(&self, y: int) -> bool {
        &&& self.lost@.len() == self.nodes@.len()
        &&& forall|i: int| #![trigger self.mark_ok_at(i)] i != y ==> self.mark_ok_at(i)
    }

    /// Marks mean what `mark_ok_at` says everywhere.
    spec fn marks_ok(&self) -> bool {
        self.marks_ok_except(-1)
    }

    /// The node `y` has just lost a child, on top of what its mark records.
    spec fn just_lost(&self, y: int) -> bool {
        self.live(y) && self.nodes@[y].parent is Some ==> self.lost@[y] == if self.nodes@[y].marked {
            2nat
        } else {
            1nat
        }
    }

    /// `mark_ok_at(i)` depends on the liveness, parent, mark and loss count
    /// of `i` alone.
    proof fn lemma_mark_same(&self, before: &FibonacciHeap, i: int)
        requires
            before.mark_ok_at(i),
            self.live(i) ==> before.live(i),
            self.live(i) ==> self.nodes@[i].parent == before.nodes@[i].parent,
            self.live(i) ==> self.nodes@[i].marked == before.nodes@[i].marked,
            self.live(i) ==> self.lost@[i] == before.lost@[i],
        ensures
            self.mark_ok_at(i),
    {
    }

    /// The free list holds distinct positions of dead nodes.
    spec fn free_ok(&self) -> bool {
        &&& forall|j: int|
            #![trigger self.free@[j]]
            0 <= j < self.free@.len() ==> {
                &&& self.free@[j] < self.nodes@.len()
                &&& !self.nodes@[self.free@[j] as int].live
            }
        &&& forall|a: int, b: int|
            0 <= a < b < self.free@.len() ==> #[trigger] self.free@[a] != #[trigger] self.free@[b]
    }

    /// The heap is well formed: links agree, keys do not decrease down any
    /// path, the root list and the index are exact, `min` holds a smallest
    /// key, freed slots are dead, and a non-root is marked exactly when it
    /// has lost one child since it last became a child (roots are unmarked).
    pub closed spec fn wf(&self) -> bool {
        &&& self.tree_ok()
        &&& self.roots_ok()
        &&& self.index_ok()
        &&& self.min_ok()
        &&& self.free_ok()
        &&& self.marks_ok()
    }

    /// The pair at the node that `min` designates: the one `minimum` reports
    /// and `extract_min` removes.
    pub closed spec fn min_pair(&self) -> Option<(u64, u64)> {
        match self.min {
            Some(m) => Some((self.nodes@[m as int].key, self.nodes@[m as int].value)),
            None => None,
        }
    }

    /// The links of the element with value `v`, told by values: its
    /// parent's value (`None` for a root), its children's values, and its mark.
    pub closed spec fn links_of(&self, v: u64) -> (Option<u64>, Seq<u64>, bool) {
        let n = self.nodes@[self.index@[v] as int];
        (
            match n.parent {
                Some(p) => Some(self.nodes@[p as int].value),
                None => None,
            },
            n.children@.map_values(|c: usize| self.nodes@[c as int].value),
            n.marked,
        )
    }

    /// The values of the roots, in root-list order.
    pub closed spec fn root_values(&self) -> Seq<u64> {
        self.roots@.map_values(|r: usize| self.nodes@[r as int].value)
    }

    /// Lowering the key of `value` to `key` breaks heap order with its
    /// parent, so that the element must be cut.
    pub closed spec fn cut_needed(&self, value: u64, key: u64) -> bool {
        let n = self.nodes@[self.index@[value] as int];
        n.parent is Some && key < self.nodes@[n.parent->0 as int].key
    }

    /// Every parent's key is at most each of its children's keys.
    pub closed spec fn heap_ordered(&self) -> bool {
        forall|i: int|
            #![trigger self.live(i)]
            self.live(i) && self.nodes@[i].parent is Some ==>
                self.key_at(self.nodes@[i].parent->0 as int) <= self.key_at(i)
    }

    /// No two roots have the same degree.
    spec fn degrees_distinct(&self) -> bool {
        forall|a: int, b: int|
            0 <= a < b < self.roots@.len() ==>
                self.deg(#[trigger] self.roots@[a] as int) != self.deg(#[trigger] self.roots@[b] as int)
    }

    // ---------------------------------------------------------------
    // Lemmas on the invariant.
    // ---------------------------------------------------------------

    proof fn lemma_view_dom(&self)
        ensures
            self@.dom() == self.index@.dom(),
            self@.dom().finite(),
            self@.len() == self.index@.len(),
    {
        assert(self@.dom() =~= self.index@.dom());
    }

    /// Every live node has a root whose key is no larger.
    proof fn lemma_root_below(&self, i: int) -> (r: int)
        requires
            self.tree_ok(),
            self.live(i),
        ensures
            self.is_root(r),
            self.key_at(r) <= self.key_at(i),
    {
        if self.nodes@[i].parent is None {
            i
        } else {
            assert(self.paths@[i].len() > 0);
            let a = self.paths@[i][0] as int;
            assert(self.paths@[a] =~= self.paths@[i].subrange(0, 0));
            assert(self.live(a));
            if self.nodes@[a].parent is Some {
                assert(self.paths@[a].len() > 0);
            }
            a
        }
    }

    /// A well-formed heap holds finitely many elements.
    pub proof fn lemma_view_finite(&self)
        requires
            self.wf(),
        ensures
            self@.dom().finite(),
    {
        self.lemma_view_dom();
    }

    /// A well-formed heap is heap ordered.
    pub proof fn lemma_wf_heap_ordered(&self)
        requires
            self.wf(),
        ensures
            self.heap_ordered(),
    {
        assert forall|i: int| #![trigger self.live(i)]
            self.live(i) && self.nodes@[i].parent is Some implies
                self.key_at(self.nodes@[i].parent->0 as int) <= self.key_at(i) by {
            let p = self.nodes@[i].parent->0;
            assert(self.paths@[i] == self.paths@[p as int].push(p));
            assert(self.paths@[i][self.paths@[i].len() - 1] == p);
        }
    }

    /// With no live node there is no element.
    proof fn lemma_empty(&self)
        requires
            self.index_ok(),
            forall|i: int| #![trigger self.live(i)] !self.live(i),
        ensures
            self@ == Map::<u64, u64>::empty(),
            self@.len() == 0,
    {
        assert forall|v: u64| !self.index@.contains_key(v) by {
            if self.index@.contains_key(v) {
                assert(self.live(self.index@[v] as int));
            }
        }
        assert(self@ =~= Map::<u64, u64>::empty());
    }

    /// The key of `min` is the smallest of the view.
    proof fn lemma_min_entry(&self)
        requires
            self.wf(),
            self.min is Some,
        ensures
            is_min_entry(
                self@,
                self.key_at(self.min->0 as int),
                self.nodes@[self.min->0 as int].value,
            ),
    {
        let m = self.min->0 as int;
        assert(self.live(m));
        assert forall|w: u64| #[trigger] self@.contains_key(w) implies self.key_at(m) <= self@[w] by {
            assert(self.live(self.index@[w] as int));
        }
    }

    /// `i` lies in the tree under `x`: it is `x` or `x` is on its path.
    spec fn in_subtree(&self, x: int, i: int) -> bool {
        ||| i == x
        ||| {
            &&& self.paths@[x].len() < self.paths@[i].len()
            &&& self.paths@[i][self.paths@[x].len() as int] == x
        }
    }

    /// Keys, values and liveness of all nodes are those of `pre`.
    spec fn same_elements(&self, pre: &FibonacciHeap) -> bool {
        &&& self.nodes@.len() == pre.nodes@.len()
        &&& forall|i: int|
            #![trigger self.nodes@[i]]
            0 <= i < self.nodes@.len() ==> {
                &&& self.nodes@[i].key == pre.nodes@[i].key
                &&& self.nodes@[i].value == pre.nodes@[i].value
                &&& self.nodes@[i].live == pre.nodes@[i].live
            }
        &&& self.index == pre.index
        &&& self.size == pre.size
        &&& self.min == pre.min
        &&& self.free == pre.free
    }

    /// Every root of `pre` is still a root.
    spec fn keeps_roots(&self, pre: &FibonacciHeap) -> bool {
        forall|i: int| #![trigger self.is_root(i)] pre.is_root(i) ==> self.is_root(i)
    }

    /// The path of the parent of `i` is one shorter than that of `i`.
    proof fn lemma_parent_path(&self, i: int)
        requires
            self.paths_ok(),
            self.live(i),
            self.nodes@[i].parent is Some,
        ensures
            self.paths@[self.nodes@[i].parent->0 as int].len() + 1 == self.paths@[i].len(),
    {
        assert(self.paths@[i] == self.paths@[self.nodes@[i].parent->0 as int].push(
            self.nodes@[i].parent->0,
        ));
    }

    /// A node is not on its own path.
    proof fn lemma_not_own_ancestor(&self, i: int, j: int)
        requires
            self.paths_ok(),
            self.live(i),
            0 <= j < self.paths@[i].len(),
        ensures
            self.paths@[i][j] != i,
    {
        let a = self.paths@[i][j] as int;
        assert(self.paths@[a] == self.paths@[i].subrange(0, j));
    }

    /// Paths stay valid when `x` becomes a root and every path through `x`
    /// loses the part above `x`.
    proof fn lemma_paths_after_cut(&self, pre: &FibonacciHeap, x: int)
        requires
            pre.paths_ok(),
            pre.live(x),
            self.nodes@.len() == pre.nodes@.len(),
            forall|i: int|
                #![trigger self.nodes@[i]]
                0 <= i < self.nodes@.len() ==> {
                    &&& self.nodes@[i].key == pre.nodes@[i].key
                    &&& self.nodes@[i].live == pre.nodes@[i].live
                    &&& i != x ==> self.nodes@[i].parent == pre.nodes@[i].parent
                },
            self.nodes@[x].parent is None,
            self.paths@.len() == pre.paths@.len(),
            forall|i: int|
                #![trigger self.paths@[i]]
                0 <= i < self.paths@.len() ==> self.paths@[i] == if pre.in_subtree(x, i) {
                    pre.paths@[i].subrange(pre.paths@[x].len() as int, pre.paths@[i].len() as int)
                } else {
                    pre.paths@[i]
                },
        ensures
            self.paths_ok(),
    {
        let l = pre.paths@[x].len() as int;
        assert forall|i: int| #![trigger self.paths@[i]] self.live(i) implies match self.nodes@[i].parent {
            Some(p) => self.paths@[i] == self.paths@[p as int].push(p),
            None => self.paths@[i].len() == 0,
        } by {
            assert(self.nodes@[i] == self.nodes@[i]);
            assert(pre.live(i));
            if i == x {
            } else {
                assert(self.nodes@[i].parent == pre.nodes@[i].parent);
                match pre.nodes@[i].parent {
                    Some(p) => {
                        let p = p as int;
                        assert(pre.paths@[i] == pre.paths@[p].push(p as usize));
                        assert(pre.live(p)) by {
                            assert(pre.paths@[i][pre.paths@[i].len() - 1] == p);
                        }
                        if pre.in_subtree(x, i) {
                            if pre.paths@[i].len() == l + 1 {
                                assert(p == x);
                                assert(self.paths@[i] =~= self.paths@[p].push(p as usize));
                            } else {
                                assert(pre.paths@[p][l] == x);
                                assert(pre.in_subtree(x, p));
                                assert(self.paths@[i] =~= self.paths@[p].push(p as usize));
                            }
                        } else {
                            if pre.in_subtree(x, p) {
                                if p == x {
                                    assert(pre.paths@[i][l] == x);
                                } else {
                                    assert(pre.paths@[i][l] == pre.paths@[p][l]);
                                }
                            }
                        }
                    },
                    None => {
                        assert(pre.paths@[i].len() == 0);
                    },
                }
            }
        }
        assert forall|i: int, j: int|
            #![trigger self.paths@[i][j]]
            self.live(i) && 0 <= j < self.paths@[i].len() implies {
                let a = self.paths@[i][j] as int;
                &&& self.live(a)
                &&& self.key_at(a) <= self.key_at(i)
                &&& self.paths@[a] == self.paths@[i].subrange(0, j)
            } by {
            assert(self.nodes@[i] == self.nodes@[i]);
            assert(pre.live(i));
            if pre.in_subtree(x, i) {
                let a = pre.paths@[i][l + j] as int;
                assert(self.paths@[i][j] == a);
                assert(pre.paths@[a] == pre.paths@[i].subrange(0, l + j));
                assert(pre.live(a) && pre.key_at(a) <= pre.key_at(i));
                assert(self.nodes@[a] == self.nodes@[a]);
                if j == 0 {
                    assert(a == x);
                    assert(self.paths@[a] =~= self.paths@[i].subrange(0, j));
                } else {
                    assert(pre.paths@[a][l] == x);
                    assert(pre.in_subtree(x, a));
                    assert(self.paths@[a] =~= self.paths@[i].subrange(0, j));
                }
            } else {
                let a = pre.paths@[i][j] as int;
                assert(pre.paths@[a] == pre.paths@[i].subrange(0, j));
                assert(pre.live(a) && pre.key_at(a) <= pre.key_at(i));
                assert(self.nodes@[a] == self.nodes@[a]);
                if pre.in_subtree(x, a) {
                    if a == x {
                        assert(pre.paths@[i][l] == x);
                    } else {
                        assert(pre.paths@[i][l] == pre.paths@[a][l]);
                    }
                }
            }
        }
    }

    /// Links stay consistent when only the key or the mark of the node at
    /// `k` changed, and a root stayed unmarked.
    proof fn lemma_frame_links(&self, before: &FibonacciHeap, k: int)
        requires
            before.links_ok(),
            self.nodes@.len() == before.nodes@.len(),
            forall|i: int| #![trigger self.nodes@[i]]
                0 <= i < self.nodes@.len() && i != k ==> self.nodes@[i] == before.nodes@[i],
            0 <= k < self.nodes@.len(),
            self.nodes@[k].parent == before.nodes@[k].parent,
            self.nodes@[k].parent is Some ==> self.nodes@[k].slot == before.nodes@[k].slot,
            self.nodes@[k].children == before.nodes@[k].children,
            self.nodes@[k].live == before.nodes@[k].live,
            self.nodes@[k].parent is None ==> !self.nodes@[k].marked,
        ensures
            self.links_ok(),
    {
        assert forall|i: int| #![trigger self.live(i)] self.live(i) implies match self.nodes@[i].parent {
            Some(p) => {
                &&& self.live(p as int)
                &&& self.nodes@[i].slot < self.deg(p as int)
                &&& self.nodes@[p as int].children@[self.nodes@[i].slot as int] == i
            },
            None => !self.nodes@[i].marked,
        } by {
            assert(self.nodes@[i] == self.nodes@[i]);
            assert(before.live(i));
            if let Some(p) = self.nodes@[i].parent {
                assert(self.nodes@[p as int] == self.nodes@[p as int]);
            }
        }
        assert forall|p: int, j: int|
            #![trigger self.nodes@[p].children@[j]]
            self.live(p) && 0 <= j < self.deg(p) implies {
                let c = self.nodes@[p].children@[j] as int;
                &&& self.live(c)
                &&& self.nodes@[c].parent == Some(p as usize)
                &&& self.nodes@[c].slot == j
            } by {
            assert(self.nodes@[p] == self.nodes@[p]);
            assert(before.live(p));
            let c = before.nodes@[p].children@[j] as int;
            assert(self.nodes@[c] == self.nodes@[c]);
        }
    }

    /// Marking the non-root `k` keeps the whole structure.
    proof fn lemma_frame(&self, before: &FibonacciHeap, k: int)
        requires
            before.tree_ok(),
            before.roots_ok(),
            self.roots == before.roots,
            self.paths == before.paths,
            self.nodes@.len() == before.nodes@.len(),
            forall|i: int| #![trigger self.nodes@[i]]
                0 <= i < self.nodes@.len() && i != k ==> self.nodes@[i] == before.nodes@[i],
            0 <= k < self.nodes@.len(),
            self.nodes@[k].parent == before.nodes@[k].parent,
            self.nodes@[k].slot == before.nodes@[k].slot,
            self.nodes@[k].children == before.nodes@[k].children,
            self.nodes@[k].live == before.nodes@[k].live,
            self.nodes@[k].key == before.nodes@[k].key,
            self.nodes@[k].value == before.nodes@[k].value,
            self.nodes@[k].parent is Some,
            self.index == before.index,
            self.size == before.size,
            self.min == before.min,
            self.free == before.free,
        ensures
            self.tree_ok(),
            self.roots_ok(),
            self.same_elements(before),
            forall|i: int| #![trigger self.is_root(i)] self.is_root(i) == before.is_root(i),
    {
        self.lemma_frame_links(before, k);
        assert forall|i: int| #![trigger self.is_root(i)] self.is_root(i) == before.is_root(i) by {
            if 0 <= i < self.nodes@.len() {
                assert(self.nodes@[i] == self.nodes@[i]);
            }
        }
        assert forall|i: int| #![trigger self.live(i)] self.live(i) == before.live(i) by {
            if 0 <= i < self.nodes@.len() {
                assert(self.nodes@[i] == self.nodes@[i]);
            }
        }
        assert forall|i: int| #![trigger self.key_at(i)] 0 <= i < self.nodes@.len() ==> self.key_at(i) == before.key_at(i) by {
            assert(self.nodes@[i] == self.nodes@[i]);
        }
        assert(self.paths_ok());
        assert forall|i: int| #[trigger] self.is_root(i) implies {
            &&& self.nodes@[i].slot < self.roots@.len()
            &&& self.roots@[self.nodes@[i].slot as int] == i
        } by {
            assert(before.is_root(i));
            assert(self.nodes@[i] == self.nodes@[i]);
        }
        assert forall|j: int| 0 <= j < self.roots@.len() implies {
            let r = #[trigger] self.roots@[j] as int;
            &&& self.is_root(r)
            &&& self.nodes@[r].slot == j
        } by {
            let r = self.roots@[j] as int;
            assert(before.is_root(r));
            assert(self.nodes@[r] == self.nodes@[r]);
        }
    }

    /// The index and the minimum stay valid when no key, value or liveness
    /// changed and every root stayed a root.
    proof fn lemma_kept(&self, pre: &FibonacciHeap)
        requires
            pre.index_ok(),
            pre.min_ok(),
            self.same_elements(pre),
            self.keeps_roots(pre),
        ensures
            self.index_ok(),
            self.min_ok(),
            self@ == pre@,
    {
        assert forall|i: int| #![trigger self.live(i)] self.live(i) == pre.live(i) by {
            if 0 <= i < self.nodes@.len() {
                assert(self.nodes@[i] == self.nodes@[i]);
            }
        }
        assert forall|i: int| #![trigger self.key_at(i)] 0 <= i < self.nodes@.len() ==> self.key_at(i) == pre.key_at(i) by {
            assert(self.nodes@[i] == self.nodes@[i]);
        }
        assert forall|v: u64| #![trigger self.index@[v]] self.index@.contains_key(v) implies {
            &&& self.live(self.index@[v] as int)
            &&& self.nodes@[self.index@[v] as int].value == v
        } by {
            let i = self.index@[v] as int;
            assert(pre.live(i));
            assert(self.nodes@[i] == self.nodes@[i]);
        }
        assert forall|i: int| #![trigger self.live(i)] self.live(i) implies {
            &&& self.index@.contains_key(self.nodes@[i].value)
            &&& self.index@[self.nodes@[i].value] == i
        } by {
            assert(pre.live(i));
            assert(self.nodes@[i] == self.nodes@[i]);
        }
        if let Some(m) = self.min {
            assert(pre.is_root(m as int));
        }
        assert(self@ =~= pre@);
    }

    /// Detaches `x` from its parent `y` and makes it an unmarked root.
    fn cut(&mut self, x: usize, y: usize)
        requires
            old(self).tree_ok(),
            old(self).roots_ok(),
            old(self).live(x as int),
            old(self).nodes@[x as int].parent == Some(y),
        ensures
            final(self).tree_ok(),
            final(self).roots_ok(),
            final(self).same_elements(old(self)),
            final(self).keeps_roots(old(self)),
            final(self).is_root(x as int),
            final(self).deg(y as int) == old(self).deg(y as int) - 1,
            final(self).lost@ == old(self).lost@.update(y as int, old(self).lost@[y as int] + 1).update(x as int, 0),
            forall|i: int|
                #![trigger final(self).nodes@[i]]
                0 <= i < final(self).nodes@.len() && i != x ==> {
                    &&& final(self).nodes@[i].parent == old(self).nodes@[i].parent
                    &&& final(self).nodes@[i].marked == old(self).nodes@[i].marked
                },
            forall|i: int|
                #![trigger final(self).paths@[i]]
                0 <= i < final(self).nodes@.len() && !old(self).in_subtree(x as int, i)
                    ==> final(self).paths@[i] == old(self).paths@[i],
    {
        let ghost pre = *self;
        proof {
            assert(pre.live(y as int));
        }
        let s = self.nodes[x].slot;
        let _ = self.nodes[y].children.swap_remove(s);
        if s < self.nodes[y].children.len() {
            let c = self.nodes[y].children[s];
            self.nodes[c].slot = s;
        }
        let r = self.roots.len();
        self.nodes[x].parent = None;
        self.nodes[x].slot = r;
        self.nodes[x].marked = false;
        self.roots.push(x);
        self.lost = Ghost(self.lost@.update(y as int, self.lost@[y as int] + 1).update(x as int, 0));
        let ghost l = pre.paths@[x as int].len() as int;
        self.paths = Ghost(
            Seq::new(
                pre.paths@.len(),
                |i: int|
                    if pre.in_subtree(x as int, i) {
                        pre.paths@[i].subrange(l, pre.paths@[i].len() as int)
                    } else {
                        pre.paths@[i]
                    },
            ),
        );
        proof {
            assert(pre.nodes@.len() == pre.nodes.len());
            let last = pre.deg(y as int) - 1;
            let moved = pre.nodes@[y as int].children@[last] as int;
            assert(pre.live(moved));
            assert(self.nodes@[y as int].children@ == pre.nodes@[y as int].children@.update(
                s as int,
                pre.nodes@[y as int].children@.last(),
            ).drop_last());
            assert forall|i: int|
                #![trigger self.nodes@[i]]
                0 <= i < self.nodes@.len() && i != x implies {
                    &&& self.nodes@[i].parent == pre.nodes@[i].parent
                    &&& self.nodes@[i].marked == pre.nodes@[i].marked
                } by {}
            self.lemma_paths_after_cut(&pre, x as int);
            assert forall|i: int| #![trigger self.live(i)] self.live(i) implies match self.nodes@[i].parent {
                Some(p) => {
                    &&& self.live(p as int)
                    &&& self.nodes@[i].slot < self.deg(p as int)
                    &&& self.nodes@[p as int].children@[self.nodes@[i].slot as int] == i
                },
                None => !self.nodes@[i].marked,
            } by {
                assert(pre.live(i));
                if i != x {
                    if let Some(p) = pre.nodes@[i].parent {
                        assert(pre.live(p as int));
                        if p == y && i == moved {
                            assert(pre.nodes@[i].slot == last);
                        } else if p == y {
                            assert(pre.nodes@[i].slot != s);
                            assert(pre.nodes@[i].slot != last);
                        }
                    }
                }
            }
            assert forall|p: int, j: int|
                #![trigger self.nodes@[p].children@[j]]
                self.live(p) && 0 <= j < self.deg(p) implies {
                    let c = self.nodes@[p].children@[j] as int;
                    &&& self.live(c)
                    &&& self.nodes@[c].parent == Some(p as usize)
                    &&& self.nodes@[c].slot == j
                } by {
                assert(pre.live(p));
                if p == y {
                    if j == s {
                        assert(pre.nodes@[p].children@[last] == moved);
                    } else {
                        assert(pre.nodes@[p].children@[j] == self.nodes@[p].children@[j]);
                        assert(pre.nodes@[p].children@[j] != x);
                    }
                } else {
                    let c = pre.nodes@[p].children@[j] as int;
                    assert(c == self.nodes@[p].children@[j]);
                    assert(pre.nodes@[c].parent == Some(p as usize));
                    assert(c != x);
                }
            }
            assert forall|i: int| #[trigger] self.is_root(i) implies {
                &&& self.nodes@[i].slot < self.roots@.len()
                &&& self.roots@[self.nodes@[i].slot as int] == i
            } by {
                if i != x {
                    assert(pre.is_root(i));
                }
            }
            assert forall|j: int| 0 <= j < self.roots@.len() implies {
                let q = #[trigger] self.roots@[j] as int;
                &&& self.is_root(q)
                &&& self.nodes@[q].slot == j
            } by {
                if j < pre.roots@.len() {
                    assert(pre.roots@[j] == self.roots@[j]);
                    assert(pre.is_root(self.roots@[j] as int));
                }
            }
            assert forall|i: int| #![trigger self.is_root(i)] pre.is_root(i) implies self.is_root(i) by {}
        }
    }

    /// After `y` is cut from `z`, the mark record is off only at `z`, which
    /// has just lost a child.
    proof fn lemma_marks_after_cut(&self, before: &FibonacciHeap, y: int, z: int)
        requires
            before.marks_ok_except(y),
            before.live(z),
            before.live(y),
            y != z,
            self.nodes@.len() == before.nodes@.len(),
            self.lost@ == before.lost@.update(z, before.lost@[z] + 1).update(y, 0),
            forall|i: int|
                #![trigger self.nodes@[i]]
                0 <= i < self.nodes@.len() ==> self.nodes@[i].live == before.nodes@[i].live,
            forall|i: int|
                #![trigger self.nodes@[i]]
                0 <= i < self.nodes@.len() && i != y ==> {
                    &&& self.nodes@[i].parent == before.nodes@[i].parent
                    &&& self.nodes@[i].marked == before.nodes@[i].marked
                },
            self.nodes@[y].parent is None,
        ensures
            self.marks_ok_except(z),
            self.just_lost(z),
    {
        assert(before.mark_ok_at(z));
        assert(self.nodes@[z] == self.nodes@[z]);
        assert forall|i: int| #![trigger self.mark_ok_at(i)] i != z implies self.mark_ok_at(i) by {
            if 0 <= i < self.nodes@.len() && i != y {
                assert(self.nodes@[i] == self.nodes@[i]);
                assert(before.mark_ok_at(i));
                self.lemma_mark_same(before, i);
            }
        }
    }

    /// Where the cascade that starts at `y` stops: the first node on the way
    /// up from `y`, `y` included, that is a root or unmarked.
    spec fn cascade_top(&self, y: int) -> int
        decreases self.paths@[y].len(),
    {
        match self.nodes@[y].parent {
            Some(p) => if self.nodes@[y].marked && self.paths@[p as int].len() < self.paths@[y].len() {
                self.cascade_top(p as int)
            } else {
                y
            },
            None => y,
        }
    }

    /// The nodes that the cascade from `y` cuts: the marked non-roots from
    /// `y` upward, below `cascade_top(y)`.
    spec fn cascade_chain(&self, y: int) -> Seq<int>
        decreases self.paths@[y].len(),
    {
        match self.nodes@[y].parent {
            Some(p) => if self.nodes@[y].marked && self.paths@[p as int].len() < self.paths@[y].len() {
                seq![y] + self.cascade_chain(p as int)
            } else {
                Seq::empty()
            },
            None => Seq::empty(),
        }
    }

    /// The cascade from `y` cuts at most as many nodes as `y` has ancestors.
    proof fn lemma_chain_len(&self, y: int)
        ensures
            self.cascade_chain(y).len() <= self.paths@[y].len(),
        decreases self.paths@[y].len(),
    {
        if let Some(p) = self.nodes@[y].parent {
            if self.nodes@[y].marked && self.paths@[p as int].len() < self.paths@[y].len() {
                self.lemma_chain_len(p as int);
            }
        }
    }

    /// Walks up from `y`, the former parent of a cut node: cuts each marked
    /// non-root on the way and marks the first unmarked non-root.
    #[verifier::rlimit(60)]
    fn cascading_cut(&mut self, y: usize)
        requires
            old(self).tree_ok(),
            old(self).roots_ok(),
            old(self).live(y as int),
            old(self).marks_ok_except(y as int),
            old(self).just_lost(y as int),
        ensures
            final(self).tree_ok(),
            final(self).roots_ok(),
            final(self).marks_ok(),
            final(self).same_elements(old(self)),
            final(self).keeps_roots(old(self)),
            old(self).nodes@[y as int].parent is None ==> *final(self) == *old(self),
            old(self).cascade_chain(y as int).len() <= old(self).paths@[y as int].len(),
            forall|k: int|
                0 <= k < old(self).cascade_chain(y as int).len() ==> {
                    let c = #[trigger] old(self).cascade_chain(y as int)[k];
                    &&& final(self).is_root(c)
                    &&& !final(self).nodes@[c].marked
                },
            ({
                let t = old(self).cascade_top(y as int);
                &&& final(self).nodes@[t].parent == old(self).nodes@[t].parent
                &&& final(self).nodes@[t].marked == (old(self).nodes@[t].parent is Some)
            }),
            forall|i: int|
                #![trigger final(self).nodes@[i]]
                0 <= i < final(self).nodes@.len() && !old(self).cascade_chain(y as int).contains(i)
                    && i != old(self).cascade_top(y as int) ==> {
                    &&& final(self).nodes@[i].parent == old(self).nodes@[i].parent
                    &&& final(self).nodes@[i].marked == old(self).nodes@[i].marked
                },
    {
        let ghost pre = *self;
        let ghost y0 = y as int;
        proof {
            pre.lemma_chain_len(y0);
        }
        if self.nodes[y].parent.is_none() {
            proof {
                assert(self.nodes@[y as int] == self.nodes@[y as int]);
                assert forall|i: int| #![trigger self.mark_ok_at(i)] i != -1 implies self.mark_ok_at(i) by {
                    if i != y {
                        assert(pre.mark_ok_at(i));
                    }
                }
            }
            return;
        }
        let mut y = y;
        let ghost mut done: Seq<int> = Seq::empty();
        loop
            invariant_except_break
                self.marks_ok_except(y as int),
                self.just_lost(y as int),
                forall|i: int|
                    #![trigger self.nodes@[i]]
                    0 <= i < self.nodes@.len() && !done.contains(i) ==> {
                        &&& self.nodes@[i].parent == pre.nodes@[i].parent
                        &&& self.nodes@[i].marked == pre.nodes@[i].marked
                    },
            invariant
                self.tree_ok(),
                self.roots_ok(),
                self.live(y as int),
                self.same_elements(&pre),
                self.keeps_roots(&pre),
                pre.tree_ok(),
                pre.live(y as int),
                pre.cascade_chain(y0) == done + pre.cascade_chain(y as int),
                pre.cascade_top(y0) == pre.cascade_top(y as int),
                forall|k: int| 0 <= k < done.len() ==> {
                    let c = #[trigger] done[k];
                    &&& self.is_root(c)
                    &&& !self.nodes@[c].marked
                    &&& pre.paths@[c].len() > pre.paths@[y as int].len()
                },
            ensures
                self.tree_ok(),
                self.roots_ok(),
                self.marks_ok(),
                self.same_elements(&pre),
                self.keeps_roots(&pre),
                pre.cascade_chain(y0) == done,
                pre.cascade_top(y0) == y as int,
                forall|k: int| 0 <= k < done.len() ==> {
                    let c = #[trigger] done[k];
                    &&& self.is_root(c)
                    &&& !self.nodes@[c].marked
                },
                self.nodes@[y as int].parent == pre.nodes@[y as int].parent,
                self.nodes@[y as int].marked == (pre.nodes@[y as int].parent is Some),
                forall|i: int|
                    #![trigger self.nodes@[i]]
                    0 <= i < self.nodes@.len() && !done.contains(i) && i != y ==> {
                        &&& self.nodes@[i].parent == pre.nodes@[i].parent
                        &&& self.nodes@[i].marked == pre.nodes@[i].marked
                    },
            decreases self.paths@[y as int].len(),
        {
            proof {
                assert(self.nodes@[y as int] == self.nodes@[y as int]);
            }
            match self.nodes[y].parent {
                None => {
                    proof {
                        assert(pre.cascade_chain(y as int) =~= Seq::<int>::empty());
                        assert(pre.cascade_chain(y0) =~= done);
                        assert(self.live(y as int));
                        assert forall|i: int| #![trigger self.mark_ok_at(i)] i != -1 implies self.mark_ok_at(i) by {
                            if i != y {
                                assert(self.mark_ok_at(i));
                            }
                        }
                    }
                    break;
                },
                Some(z) => {
                    if !self.nodes[y].marked {
                        let ghost before = *self;
                        self.nodes[y].marked = true;
                        proof {
                            self.lemma_frame(&before, y as int);
                            assert(before.lost@[y as int] == 1);
                            assert forall|i: int| #![trigger self.mark_ok_at(i)] i != -1 implies self.mark_ok_at(i) by {
                                if 0 <= i < self.nodes@.len() && i != y {
                                    assert(self.nodes@[i] == self.nodes@[i]);
                                    assert(before.mark_ok_at(i));
                                    self.lemma_mark_same(&before, i);
                                }
                            }
                            assert(pre.cascade_chain(y as int) =~= Seq::<int>::empty());
                            assert(pre.cascade_chain(y0) =~= done);
                            assert forall|i: int|
                                #![trigger self.nodes@[i]]
                                0 <= i < self.nodes@.len() && !done.contains(i) && i != y implies {
                                    &&& self.nodes@[i].parent == pre.nodes@[i].parent
                                    &&& self.nodes@[i].marked == pre.nodes@[i].marked
                                } by {
                                assert(before.nodes@[i] == self.nodes@[i]);
                            }
                            assert forall|k: int| 0 <= k < done.len() implies {
                                let c = #[trigger] done[k];
                                &&& self.is_root(c)
                                &&& !self.nodes@[c].marked
                                &&& pre.paths@[c].len() > pre.paths@[y as int].len()
                            } by {
                                let c = done[k];
                                assert(before.is_root(c));
                                assert(c != y);
                            }
                        }
                        break;
                    }
                    let ghost before = *self;
                    proof {
                        before.lemma_parent_path(y as int);
                        pre.lemma_parent_path(y as int);
                        assert(!before.in_subtree(y as int, z as int));
                        assert(pre.cascade_chain(y as int) == seq![y as int] + pre.cascade_chain(z as int));
                    }
                    self.cut(y, z);
                    proof {
                        assert(self.nodes@[z as int] == self.nodes@[z as int]);
                        let done2 = done.push(y as int);
                        assert(pre.cascade_chain(y0) =~= done2 + pre.cascade_chain(z as int));
                        assert(pre.live(z as int)) by {
                            assert(pre.nodes@[z as int] == pre.nodes@[z as int]);
                            assert(self.nodes@[z as int] == self.nodes@[z as int]);
                        }
                        assert forall|k: int| 0 <= k < done2.len() implies {
                            let c = #[trigger] done2[k];
                            &&& self.is_root(c)
                            &&& !self.nodes@[c].marked
                            &&& pre.paths@[c].len() > pre.paths@[z as int].len()
                        } by {
                            if k < done.len() {
                                let c = done[k];
                                assert(done2[k] == c);
                                assert(before.is_root(c));
                                assert(c != y);
                                assert(self.nodes@[c] == self.nodes@[c]);
                            }
                        }
                        assert forall|i: int|
                            #![trigger self.nodes@[i]]
                            0 <= i < self.nodes@.len() && !done2.contains(i) implies {
                                &&& self.nodes@[i].parent == pre.nodes@[i].parent
                                &&& self.nodes@[i].marked == pre.nodes@[i].marked
                            } by {
                            assert(done2[done.len() as int] == y as int);
                            if done.contains(i) {
                                let k = choose|k: int| 0 <= k < done.len() && done[k] == i;
                                assert(done2[k] == i);
                            }
                            assert(before.nodes@[i] == before.nodes@[i]);
                        }
                        done = done2;
                        self.lemma_marks_after_cut(&before, y as int, z as int);
                    }
                    y = z;
                }
            }
        }
        proof {
            assert forall|i: int|
                #![trigger self.nodes@[i]]
                0 <= i < self.nodes@.len() && !pre.cascade_chain(y0).contains(i)
                    && i != pre.cascade_top(y0) implies {
                    &&& self.nodes@[i].parent == pre.nodes@[i].parent
                    &&& self.nodes@[i].marked == pre.nodes@[i].marked
                } by {}
            assert forall|k: int| 0 <= k < pre.cascade_chain(y0).len() implies {
                let c = #[trigger] pre.cascade_chain(y0)[k];
                &&& self.is_root(c)
                &&& !self.nodes@[c].marked
            } by {
                assert(pre.cascade_chain(y0)[k] == done[k]);
            }
        }
    }

    /// Paths stay valid when the tree under the root `y` is hung below the
    /// root `x`.
    proof fn lemma_paths_after_link(&self, pre: &FibonacciHeap, y: int, x: int)
        requires
            pre.paths_ok(),
            pre.nodes@.len() <= usize::MAX,
            pre.is_root(x),
            pre.is_root(y),
            x != y,
            pre.key_at(x) <= pre.key_at(y),
            self.nodes@.len() == pre.nodes@.len(),
            forall|i: int|
                #![trigger self.nodes@[i]]
                0 <= i < self.nodes@.len() ==> {
                    &&& self.nodes@[i].key == pre.nodes@[i].key
                    &&& self.nodes@[i].live == pre.nodes@[i].live
                    &&& i != y ==> self.nodes@[i].parent == pre.nodes@[i].parent
                },
            self.nodes@[y].parent == Some(x as usize),
            self.paths@.len() == pre.paths@.len(),
            forall|i: int|
                #![trigger self.paths@[i]]
                0 <= i < self.paths@.len() ==> self.paths@[i] == if pre.in_subtree(y, i) {
                    seq![x as usize] + pre.paths@[i]
                } else {
                    pre.paths@[i]
                },
        ensures
            self.paths_ok(),
    {
        assert(pre.paths@[y].len() == 0);
        assert(pre.paths@[x].len() == 0);
        assert(!pre.in_subtree(y, x));
        assert forall|i: int| #![trigger self.paths@[i]] self.live(i) implies match self.nodes@[i].parent {
            Some(p) => self.paths@[i] == self.paths@[p as int].push(p),
            None => self.paths@[i].len() == 0,
        } by {
            assert(self.nodes@[i] == self.nodes@[i]);
            assert(pre.live(i));
            if i == y {
                assert(self.paths@[i] =~= self.paths@[x].push(x as usize));
            } else {
                match pre.nodes@[i].parent {
                    Some(p) => {
                        let p = p as int;
                        assert(pre.paths@[i] == pre.paths@[p].push(p as usize));
                        assert(pre.paths@[i][pre.paths@[i].len() - 1] == p);
                        if pre.in_subtree(y, i) {
                            if pre.paths@[i].len() == 1 {
                                assert(p == y);
                            } else {
                                assert(pre.paths@[p][0] == y);
                            }
                            assert(self.paths@[i] =~= self.paths@[p].push(p as usize));
                        } else {
                            if pre.in_subtree(y, p) {
                                if p == y {
                                    assert(pre.paths@[i][0] == y);
                                } else {
                                    assert(pre.paths@[i][0] == pre.paths@[p][0]);
                                }
                            }
                        }
                    },
                    None => {
                        assert(pre.paths@[i].len() == 0);
                    },
                }
            }
        }
        assert forall|i: int, j: int|
            #![trigger self.paths@[i][j]]
            self.live(i) && 0 <= j < self.paths@[i].len() implies {
                let a = self.paths@[i][j] as int;
                &&& self.live(a)
                &&& self.key_at(a) <= self.key_at(i)
                &&& self.paths@[a] == self.paths@[i].subrange(0, j)
            } by {
            assert(self.nodes@[i] == self.nodes@[i]);
            assert(pre.live(i));
            if pre.in_subtree(y, i) {
                if j == 0 {
                    assert(self.paths@[i][j] == x);
                    assert(self.nodes@[x] == self.nodes@[x]);
                    if i != y {
                        assert(pre.paths@[i][0] == y);
                        assert(pre.key_at(y) <= pre.key_at(i));
                    }
                    assert(self.paths@[x] =~= self.paths@[i].subrange(0, j));
                } else {
                    let a = pre.paths@[i][j - 1] as int;
                    assert(self.paths@[i][j] == a);
                    assert(pre.paths@[a] == pre.paths@[i].subrange(0, j - 1));
                    assert(pre.live(a) && pre.key_at(a) <= pre.key_at(i));
                    assert(self.nodes@[a] == self.nodes@[a]);
                    if j - 1 == 0 {
                        assert(a == y);
                    } else {
                        assert(pre.paths@[a][0] == y);
                    }
                    assert(pre.in_subtree(y, a));
                    assert(self.paths@[a] =~= self.paths@[i].subrange(0, j));
                }
            } else {
                let a = pre.paths@[i][j] as int;
                assert(pre.paths@[a] == pre.paths@[i].subrange(0, j));
                assert(pre.live(a) && pre.key_at(a) <= pre.key_at(i));
                assert(self.nodes@[a] == self.nodes@[a]);
                if pre.in_subtree(y, a) {
                    if a == y {
                        assert(pre.paths@[i][0] == y);
                    } else {
                        assert(pre.paths@[i][0] == pre.paths@[a][0]);
                    }
                }
            }
        }
    }

    /// Makes the root `y` a child of the root `x`. The root list is left
    /// alone: consolidation rebuilds it.
    fn heap_link(&mut self, y: usize, x: usize)
        requires
            old(self).tree_ok(),
            old(self).is_root(x as int),
            old(self).is_root(y as int),
            x != y,
            old(self).key_at(x as int) <= old(self).key_at(y as int),
        ensures
            final(self).tree_ok(),
            final(self).same_elements(old(self)),
            final(self).roots == old(self).roots,
            final(self).nodes@[y as int].parent == Some(x),
            !final(self).nodes@[y as int].marked,
            final(self).deg(x as int) == old(self).deg(x as int) + 1,
            final(self).nodes@[x as int].children@ == old(self).nodes@[x as int].children@.push(y),
            final(self).lost@ == old(self).lost@.update(y as int, 0),
            forall|i: int|
                #![trigger final(self).nodes@[i]]
                0 <= i < final(self).nodes@.len() ==> {
                    &&& i != y ==> final(self).nodes@[i].parent == old(self).nodes@[i].parent
                    &&& i != y ==> final(self).nodes@[i].slot == old(self).nodes@[i].slot
                    &&& i != x ==> final(self).nodes@[i].children == old(self).nodes@[i].children
                    &&& i != y ==> final(self).nodes@[i].marked == old(self).nodes@[i].marked
                },
    {
        let ghost pre = *self;
        let d = self.nodes[x].children.len();
        self.nodes[x].children.push(y);
        self.nodes[y].parent = Some(x);
        self.nodes[y].slot = d;
        self.nodes[y].marked = false;
        self.lost = Ghost(self.lost@.update(y as int, 0));
        self.paths = Ghost(
            Seq::new(
                pre.paths@.len(),
                |i: int|
                    if pre.in_subtree(y as int, i) {
                        seq![x] + pre.paths@[i]
                    } else {
                        pre.paths@[i]
                    },
            ),
        );
        proof {
            assert(pre.nodes@.len() == pre.nodes.len());
            self.lemma_paths_after_link(&pre, y as int, x as int);
            assert forall|i: int| #![trigger self.live(i)] self.live(i) implies match self.nodes@[i].parent {
                Some(p) => {
                    &&& self.live(p as int)
                    &&& self.nodes@[i].slot < self.deg(p as int)
                    &&& self.nodes@[p as int].children@[self.nodes@[i].slot as int] == i
                },
                None => !self.nodes@[i].marked,
            } by {
                assert(pre.live(i));
                if i != y {
                    if let Some(p) = pre.nodes@[i].parent {
                        assert(pre.live(p as int));
                    }
                }
            }
            assert forall|p: int, j: int|
                #![trigger self.nodes@[p].children@[j]]
                self.live(p) && 0 <= j < self.deg(p) implies {
                    let c = self.nodes@[p].children@[j] as int;
                    &&& self.live(c)
                    &&& self.nodes@[c].parent == Some(p as usize)
                    &&& self.nodes@[c].slot == j
                } by {
                assert(pre.live(p));
                if p == x && j == d {
                } else {
                    let c = pre.nodes@[p].children@[j] as int;
                    assert(c == self.nodes@[p].children@[j]);
                    assert(pre.nodes@[c].parent == Some(p as usize));
                    assert(c != y);
                }
            }
        }
    }

    /// Links two roots: the one with the larger key becomes a child of the
    /// other, and on equal keys `x` stays on top. Returns the root on top.
    fn link_roots(&mut self, x: usize, y: usize) -> (top: usize)
        requires
            old(self).tree_ok(),
            old(self).is_root(x as int),
            old(self).is_root(y as int),
            x != y,
        ensures
            top == if old(self).key_at(y as int) < old(self).key_at(x as int) { y } else { x },
            ({
                let below = if top == x { y } else { x };
                &&& final(self).tree_ok()
                &&& final(self).same_elements(old(self))
                &&& final(self).roots == old(self).roots
                &&& final(self).nodes@[below as int].parent == Some(top)
                &&& !final(self).nodes@[below as int].marked
                &&& final(self).lost@ == old(self).lost@.update(below as int, 0)
                &&& final(self).deg(top as int) == old(self).deg(top as int) + 1
                &&& forall|i: int|
                    #![trigger final(self).nodes@[i]]
                    0 <= i < final(self).nodes@.len() ==> {
                        &&& i != below ==> final(self).nodes@[i].parent == old(self).nodes@[i].parent
                        &&& i != below ==> final(self).nodes@[i].slot == old(self).nodes@[i].slot
                        &&& i != top ==> final(self).nodes@[i].children == old(self).nodes@[i].children
                        &&& i != below ==> final(self).nodes@[i].marked == old(self).nodes@[i].marked
                    }
            }),
    {
        let (top, below) = if self.nodes[y].key < self.nodes[x].key {
            (y, x)
        } else {
            (x, y)
        };
        proof {
            assert(self.nodes@.len() == self.nodes.len());
        }
        self.heap_link(below, top);
        top
    }

    /// Merges roots of equal degree until no two roots share a degree, then
    /// rebuilds the root list and finds the minimum among the roots.
    ///
    /// The table of roots by degree grows as degrees are met; in a Fibonacci
    /// heap of n nodes no degree exceeds log_phi(n), so it stays small.
    fn consolidate(&mut self) -> (merges: Ghost<nat>)
        requires
            old(self).tree_ok(),
            old(self).roots_ok(),
            old(self).index_ok(),
            old(self).free_ok(),
            old(self).marks_ok(),
            old(self).roots@.len() > 0,
        ensures
            final(self).wf(),
            final(self).degrees_distinct(),
            forall|a: int, b: int|
                0 <= a < b < final(self).roots@.len() ==>
                    final(self).deg(#[trigger] final(self).roots@[a] as int) < final(self).deg(#[trigger] final(self).roots@[b] as int),
            // Among roots of equal smallest key, the first in the root list
            // (the one of lowest degree) becomes the minimum.
            ({
                let m = final(self).min->0 as int;
                forall|j: int| #![trigger final(self).roots@[j]]
                    0 <= j < final(self).nodes@[m].slot ==> final(self).key_at(m) < final(self).key_at(final(self).roots@[j] as int)
            }),
            final(self).nodes@.len() == old(self).nodes@.len(),
            forall|i: int|
                #![trigger final(self).nodes@[i]]
                0 <= i < final(self).nodes@.len() ==> {
                    &&& final(self).nodes@[i].key == old(self).nodes@[i].key
                    &&& final(self).nodes@[i].value == old(self).nodes@[i].value
                    &&& final(self).nodes@[i].live == old(self).nodes@[i].live
                },
            final(self).index == old(self).index,
            final(self).size == old(self).size,
            final(self).free == old(self).free,
            // Each merge hangs one tree below another.
            final(self).roots@.len() + merges@ == old(self).roots@.len(),
            merges@ < old(self).roots@.len(),
    {
        let ghost pre = *self;
        let ghost mut merges: nat = 0;
        proof {
            assert(pre.nodes@.len() == pre.nodes.len());
            pre.lemma_root_count();
        }
        let mut pending: Vec<usize> = Vec::new();
        std::mem::swap(&mut pending, &mut self.roots);
        proof {
            self.lemma_tree_same(&pre);
            assert(self.root_set() =~= pre.root_set());
            assert forall|i: int| #![trigger self.mark_ok_at(i)] i != -1 implies self.mark_ok_at(i) by {
                    if 0 <= i < self.nodes@.len() {
                        assert(self.nodes@[i] == self.nodes@[i]);
                        assert(pre.mark_ok_at(i));
                        self.lemma_mark_same(&pre, i);
                    }
                }
            assert forall|n: int| #![trigger self.is_root(n)] self.is_root(n) == pre.is_root(n) by {}
        }
        let mut by_degree: Vec<Option<usize>> = Vec::new();
        let mut i: usize = 0;
        while i < pending.len()
            invariant
                self.tree_ok(),
                self.nodes@.len() == pre.nodes@.len(),
                forall|n: int|
                    #![trigger self.nodes@[n]]
                    0 <= n < self.nodes@.len() ==> {
                        &&& self.nodes@[n].key == pre.nodes@[n].key
                        &&& self.nodes@[n].value == pre.nodes@[n].value
                        &&& self.nodes@[n].live == pre.nodes@[n].live
                    },
                self.index == pre.index,
                self.size == pre.size,
                self.free == pre.free,
                self.marks_ok(),
                self.root_set().finite(),
                self.root_set().len() + merges == pre.roots@.len(),
                pending@ == pre.roots@,
                self.roots@.len() == 0,
                0 <= i <= pending@.len(),
                forall|n: int|
                    #![trigger self.is_root(n)]
                    self.is_root(n) ==> self.nodes@[n].slot < pending@.len()
                        && pending@[self.nodes@[n].slot as int] == n,
                forall|j: int|
                    #![trigger pending@[j]]
                    i <= j < pending@.len() ==> self.is_root(pending@[j] as int)
                        && self.nodes@[pending@[j] as int].slot == j,
                forall|k: int|
                    #![trigger by_degree@[k]]
                    0 <= k < by_degree@.len() && by_degree@[k] is Some ==> {
                        let r = by_degree@[k]->0 as int;
                        &&& self.is_root(r)
                        &&& self.deg(r) == k
                        &&& self.nodes@[r].slot < i
                    },
                forall|n: int|
                    #![trigger self.is_root(n)]
                    self.is_root(n) && self.nodes@[n].slot < i ==> self.deg(n) < by_degree@.len()
                        && by_degree@[self.deg(n)] == Some(n as usize),
            decreases pending@.len() - i,
        {
            let mut x = pending[i];
            let mut d = self.nodes[x].children.len();
            loop
                invariant
                    self.tree_ok(),
                    self.nodes@.len() == pre.nodes@.len(),
                    forall|n: int|
                        #![trigger self.nodes@[n]]
                        0 <= n < self.nodes@.len() ==> {
                            &&& self.nodes@[n].key == pre.nodes@[n].key
                            &&& self.nodes@[n].value == pre.nodes@[n].value
                            &&& self.nodes@[n].live == pre.nodes@[n].live
                        },
                    self.index == pre.index,
                    self.size == pre.size,
                    self.free == pre.free,
                    self.marks_ok(),
                    self.root_set().finite(),
                    self.root_set().len() + merges == pre.roots@.len(),
                self.root_set().finite(),
                self.root_set().len() + merges == pre.roots@.len(),
                    pending@ == pre.roots@,
                    self.roots@.len() == 0,
                    0 <= i < pending@.len(),
                    self.is_root(x as int),
                    self.nodes@[x as int].slot <= i,
                    d == self.deg(x as int),
                    forall|n: int|
                        #![trigger self.is_root(n)]
                        self.is_root(n) ==> self.nodes@[n].slot < pending@.len()
                            && pending@[self.nodes@[n].slot as int] == n,
                    forall|j: int|
                        #![trigger pending@[j]]
                        i < j < pending@.len() ==> self.is_root(pending@[j] as int)
                            && self.nodes@[pending@[j] as int].slot == j,
                    forall|k: int|
                        #![trigger by_degree@[k]]
                        0 <= k < by_degree@.len() && by_degree@[k] is Some ==> {
                            let r = by_degree@[k]->0 as int;
                            &&& self.is_root(r)
                            &&& self.deg(r) == k
                            &&& self.nodes@[r].slot < i
                            &&& r != x
                        },
                    forall|n: int|
                        #![trigger self.is_root(n)]
                        self.is_root(n) && self.nodes@[n].slot <= i && n != x ==> self.deg(n)
                            < by_degree@.len() && by_degree@[self.deg(n)] == Some(n as usize),
                ensures
                    d >= by_degree@.len() || by_degree@[d as int] is None,
                decreases by_degree@.len() - d,
            {
                if d >= by_degree.len() {
                    break;
                }
                let y = match by_degree[d] {
                    None => break,
                    Some(y) => y,
                };
                let ghost before = *self;
                let ghost slots_before = by_degree@;
                by_degree.set(d, None);
                let top = self.link_roots(x, y);
                let ghost below = if top == x { y } else { x };
                proof {
                    assert forall|i: int| #![trigger self.mark_ok_at(i)] i != -1 implies self.mark_ok_at(i) by {
                    if 0 <= i < self.nodes@.len() && i != below {
                        assert(self.nodes@[i] == self.nodes@[i]);
                        assert(before.mark_ok_at(i));
                        self.lemma_mark_same(&before, i);
                    }
                }
                }
                proof {
                    assert forall|n: int| #![trigger self.is_root(n)]
                        self.is_root(n) <==> before.is_root(n) && n != below by {
                        if 0 <= n < self.nodes@.len() {
                            assert(self.nodes@[n] == self.nodes@[n]);
                        }
                    }
                    assert(self.root_set() =~= before.root_set().remove(below));
                    assert(before.root_set().contains(below));
                    merges = merges + 1;
                    assert forall|n: int| #![trigger self.deg(n)]
                        0 <= n < self.nodes@.len() && n != top implies self.deg(n) == before.deg(n) by {
                        assert(self.nodes@[n] == self.nodes@[n]);
                    }
                    assert forall|n: int| #![trigger self.nodes@[n].slot]
                        0 <= n < self.nodes@.len() && n != below implies self.nodes@[n].slot == before.nodes@[n].slot by {
                        assert(self.nodes@[n] == self.nodes@[n]);
                    }
                    assert forall|k: int|
                        #![trigger by_degree@[k]]
                        0 <= k < by_degree@.len() && by_degree@[k] is Some implies {
                            let r = by_degree@[k]->0 as int;
                            &&& self.is_root(r)
                            &&& self.deg(r) == k
                            &&& self.nodes@[r].slot < i
                            &&& r != top
                        } by {
                        assert(slots_before[k] == by_degree@[k]);
                        let r = by_degree@[k]->0 as int;
                        assert(before.is_root(r));
                        assert(r != y);
                    }
                    assert forall|n: int|
                        #![trigger self.is_root(n)]
                        self.is_root(n) && self.nodes@[n].slot <= i && n != top implies self.deg(n)
                            < by_degree@.len() && by_degree@[self.deg(n)] == Some(n as usize) by {
                        assert(before.is_root(n));
                        assert(n != x && n != y);
                        assert(slots_before[before.deg(n)] == Some(n as usize));
                    }
                    assert forall|j: int|
                        #![trigger pending@[j]]
                        i < j < pending@.len() implies self.is_root(pending@[j] as int)
                            && self.nodes@[pending@[j] as int].slot == j by {
                        let q = pending@[j] as int;
                        assert(before.is_root(q));
                        assert(q != x && q != y);
                    }
                }
                x = top;
                d = self.nodes[x].children.len();
            }
            let ghost slots_before = by_degree@;
            place(&mut by_degree, d, x);
            proof {
                assert(self.nodes@.len() == self.nodes.len());
                assert forall|k: int|
                    #![trigger by_degree@[k]]
                    0 <= k < by_degree@.len() && by_degree@[k] is Some implies {
                        let r = by_degree@[k]->0 as int;
                        &&& self.is_root(r)
                        &&& self.deg(r) == k
                        &&& self.nodes@[r].slot < i + 1
                    } by {
                    if k != d {
                        assert(slots_before[k] == by_degree@[k]);
                    }
                }
                assert forall|n: int|
                    #![trigger self.is_root(n)]
                    self.is_root(n) && self.nodes@[n].slot < i + 1 implies self.deg(n) < by_degree@.len()
                        && by_degree@[self.deg(n)] == Some(n as usize) by {
                    if n != x {
                        assert(slots_before[self.deg(n)] == Some(n as usize));
                    }
                }
                assert forall|j: int|
                    #![trigger pending@[j]]
                    i + 1 <= j < pending@.len() implies self.is_root(pending@[j] as int)
                        && self.nodes@[pending@[j] as int].slot == j by {
                    assert(i < j);
                }
            }
            i = i + 1;
        }
        let ghost before = *self;
        self.min = None;
        proof {
            self.lemma_tree_same(&before);
            assert(self.root_set() =~= before.root_set());
            assert forall|i: int| #![trigger self.mark_ok_at(i)] i != -1 implies self.mark_ok_at(i) by {
                    if 0 <= i < self.nodes@.len() {
                        assert(self.nodes@[i] == self.nodes@[i]);
                        assert(before.mark_ok_at(i));
                        self.lemma_mark_same(&before, i);
                    }
                }
            assert forall|n: int| #![trigger self.is_root(n)] self.is_root(n) == before.is_root(n) by {}
        }
        let mut k: usize = 0;
        while k < by_degree.len()
            invariant
                self.tree_ok(),
                self.nodes@.len() == pre.nodes@.len(),
                forall|n: int|
                    #![trigger self.nodes@[n]]
                    0 <= n < self.nodes@.len() ==> {
                        &&& self.nodes@[n].key == pre.nodes@[n].key
                        &&& self.nodes@[n].value == pre.nodes@[n].value
                        &&& self.nodes@[n].live == pre.nodes@[n].live
                    },
                self.index == pre.index,
                self.size == pre.size,
                self.free == pre.free,
                self.marks_ok(),
                self.root_set().finite(),
                self.root_set().len() + merges == pre.roots@.len(),
                0 <= k <= by_degree@.len(),
                forall|q: int|
                    #![trigger by_degree@[q]]
                    0 <= q < by_degree@.len() && by_degree@[q] is Some ==> {
                        let r = by_degree@[q]->0 as int;
                        &&& self.is_root(r)
                        &&& self.deg(r) == q
                    },
                forall|j: int|
                    #![trigger self.roots@[j]]
                    0 <= j < self.roots@.len() ==> {
                        let r = self.roots@[j] as int;
                        &&& self.is_root(r)
                        &&& self.nodes@[r].slot == j
                        &&& self.deg(r) < k
                    },
                forall|a: int, b: int|
                    0 <= a < b < self.roots@.len() ==>
                        self.deg(#[trigger] self.roots@[a] as int) < self.deg(#[trigger] self.roots@[b] as int),
                forall|n: int|
                    #![trigger self.is_root(n)]
                    self.is_root(n) ==> {
                        ||| self.nodes@[n].slot < self.roots@.len() && self.roots@[self.nodes@[n].slot as int] == n
                        ||| k <= self.deg(n) < by_degree@.len() && by_degree@[self.deg(n)] == Some(n as usize)
                    },
                match self.min {
                    Some(m) => {
                        &&& self.is_root(m as int)
                        &&& forall|j: int| #![trigger self.roots@[j]]
                            0 <= j < self.roots@.len() ==> self.key_at(m as int) <= self.key_at(self.roots@[j] as int)
                        &&& self.nodes@[m as int].slot < self.roots@.len()
                        &&& self.roots@[self.nodes@[m as int].slot as int] == m
                        &&& forall|j: int| #![trigger self.roots@[j]]
                            0 <= j < self.nodes@[m as int].slot ==> self.key_at(m as int) < self.key_at(self.roots@[j] as int)
                    },
                    None => self.roots@.len() == 0,
                },
            decreases by_degree@.len() - k,
        {
            if let Some(r) = by_degree[k] {
                let ghost before = *self;
                proof {
                    assert(self.nodes@.len() == self.nodes.len());
                }
                let slot = self.roots.len();
                self.nodes[r].slot = slot;
                self.roots.push(r);
                let better = match self.min {
                    Some(m) => self.nodes[r].key < self.nodes[m].key,
                    None => true,
                };
                if better {
                    self.min = Some(r);
                }
                proof {
                    assert(forall|n: int| #![trigger self.nodes@[n]]
                        0 <= n < self.nodes@.len() && n != r ==> self.nodes@[n] == before.nodes@[n]);
                    self.lemma_frame_links(&before, r as int);
                    assert(self.root_set() =~= before.root_set()) by {
                        assert forall|n: usize| self.is_root(n as int) == before.is_root(n as int) by {
                            if (n as int) < self.nodes@.len() {
                                assert(self.nodes@[n as int] == self.nodes@[n as int]);
                            }
                        }
                    }
                    assert forall|i: int| #![trigger self.mark_ok_at(i)] i != -1 implies self.mark_ok_at(i) by {
                    if 0 <= i < self.nodes@.len() {
                        assert(self.nodes@[i] == self.nodes@[i]);
                        assert(before.mark_ok_at(i));
                        self.lemma_mark_same(&before, i);
                    }
                }
                    assert forall|n: int| #![trigger self.is_root(n)] self.is_root(n) == before.is_root(n) by {
                        if 0 <= n < self.nodes@.len() {
                            assert(self.nodes@[n] == self.nodes@[n]);
                        }
                    }
                    assert forall|n: int| #![trigger self.deg(n)]
                        0 <= n < self.nodes@.len() implies self.deg(n) == before.deg(n) by {
                        assert(self.nodes@[n] == self.nodes@[n]);
                    }
                    assert forall|n: int| #![trigger self.key_at(n)]
                        0 <= n < self.nodes@.len() implies self.key_at(n) == before.key_at(n) by {
                        assert(self.nodes@[n] == self.nodes@[n]);
                    }
                    assert(self.paths_ok());
                    assert forall|j: int|
                        #![trigger self.roots@[j]]
                        0 <= j < self.roots@.len() implies {
                            let q = self.roots@[j] as int;
                            &&& self.is_root(q)
                            &&& self.nodes@[q].slot == j
                            &&& self.deg(q) < k + 1
                        } by {
                        if j < slot {
                            assert(before.roots@[j] == self.roots@[j]);
                            assert(self.roots@[j] != r);
                        }
                    }
                    assert forall|a: int, b: int|
                        0 <= a < b < self.roots@.len() implies
                            self.deg(#[trigger] self.roots@[a] as int) < self.deg(#[trigger] self.roots@[b] as int) by {
                        assert(before.roots@[a] == self.roots@[a]);
                        if b < slot {
                            assert(before.roots@[b] == self.roots@[b]);
                        }
                    }
                    assert forall|n: int|
                        #![trigger self.is_root(n)]
                        self.is_root(n) implies {
                            ||| self.nodes@[n].slot < self.roots@.len() && self.roots@[self.nodes@[n].slot as int] == n
                            ||| k + 1 <= self.deg(n) < by_degree@.len() && by_degree@[self.deg(n)] == Some(n as usize)
                        } by {
                        if n != r {
                            assert(before.is_root(n));
                            if before.nodes@[n].slot < before.roots@.len() && before.roots@[before.nodes@[n].slot as int] == n {
                            } else {
                                assert(self.deg(n) != k);
                            }
                        }
                    }
                    if let Some(m) = self.min {
                        assert forall|j: int| #![trigger self.roots@[j]]
                            0 <= j < self.roots@.len() implies self.key_at(m as int) <= self.key_at(self.roots@[j] as int) by {
                            if j < slot {
                                assert(before.roots@[j] == self.roots@[j]);
                            }
                        }
                        assert forall|j: int| #![trigger self.roots@[j]]
                            0 <= j < self.nodes@[m as int].slot implies self.key_at(m as int) < self.key_at(self.roots@[j] as int) by {
                            assert(before.roots@[j] == self.roots@[j]);
                        }
                    }
                }
            } else {
                proof {
                    assert forall|n: int|
                        #![trigger self.is_root(n)]
                        self.is_root(n) implies {
                            ||| self.nodes@[n].slot < self.roots@.len() && self.roots@[self.nodes@[n].slot as int] == n
                            ||| k + 1 <= self.deg(n) < by_degree@.len() && by_degree@[self.deg(n)] == Some(n as usize)
                        } by {
                        if self.deg(n) == k {
                            assert(by_degree@[k as int] is None);
                        }
                    }
                }
            }
            k = k + 1;
        }
        proof {
            assert(self.roots_ok());
            self.lemma_index_same(&pre);
            let p0 = pre.roots@[0] as int;
            assert(pre.is_root(p0));
            assert(self.nodes@[p0] == self.nodes@[p0]);
            let r0 = self.lemma_root_below(p0);
            assert(self.roots@.len() > 0);
            let m = self.min->0 as int;
            assert forall|n: int| #![trigger self.live(n)] self.live(n) implies self.key_at(m) <= self.key_at(n) by {
                let r = self.lemma_root_below(n);
                assert(self.roots@[self.nodes@[r].slot as int] == r);
            }
            assert(self.min_ok());
            assert(self.degrees_distinct());
            self.lemma_free_kept(&pre);
            assert(self.nodes@.len() == self.nodes.len());
            self.lemma_root_count();
        }
        Ghost(merges)
    }

    /// Dropping the childless root `z` from the arena, the root list and
    /// the index leaves a valid structure.
    proof fn lemma_after_removal(&self, before: &FibonacciHeap, z: int)
        requires
            before.tree_ok(),
            before.roots_ok(),
            before.index_ok(),
            before.nodes@.len() <= usize::MAX,
            before.is_root(z),
            before.deg(z) == 0,
            self.paths == before.paths,
            self.nodes@.len() == before.nodes@.len(),
            self.nodes@[z].live == false,
            forall|i: int| #![trigger self.nodes@[i]]
                0 <= i < self.nodes@.len() && i != z ==> {
                    &&& self.nodes@[i].key == before.nodes@[i].key
                    &&& self.nodes@[i].value == before.nodes@[i].value
                    &&& self.nodes@[i].live == before.nodes@[i].live
                    &&& self.nodes@[i].parent == before.nodes@[i].parent
                    &&& self.nodes@[i].children == before.nodes@[i].children
                    &&& self.nodes@[i].marked == before.nodes@[i].marked
                    &&& !(before.nodes@[z].slot < self.roots@.len()
                        && i == self.roots@[before.nodes@[z].slot as int])
                        ==> self.nodes@[i].slot == before.nodes@[i].slot
                },
            before.nodes@[z].slot < self.roots@.len() ==>
                self.nodes@[self.roots@[before.nodes@[z].slot as int] as int].slot == before.nodes@[z].slot,
            self.roots@ == before.roots@.update(
                before.nodes@[z].slot as int,
                before.roots@.last(),
            ).drop_last(),
            self.index@ == before.index@.remove(before.nodes@[z].value),
            self.size + 1 == before.size,
        ensures
            self.tree_ok(),
            self.roots_ok(),
            self.index_ok(),
    {
        let s = before.nodes@[z].slot as int;
        let last = before.roots@.len() - 1;
        assert(before.roots@[s] == z);
        // No live node has `z` as its parent or on its path.
        assert forall|i: int| #![trigger self.live(i)] self.live(i) implies
            self.nodes@[i].parent != Some(z as usize) by {
            assert(self.nodes@[i] == self.nodes@[i]);
            assert(before.live(i));
            if self.nodes@[i].parent == Some(z as usize) {
                assert(before.live(z));
            }
        }
        assert forall|i: int, j: int|
            #![trigger before.paths@[i][j]]
            self.live(i) && 0 <= j < before.paths@[i].len() implies before.paths@[i][j] != z by {
            assert(self.nodes@[i] == self.nodes@[i]);
            assert(before.live(i));
            if before.paths@[i][j] == z {
                let w = if j + 1 < before.paths@[i].len() { before.paths@[i][j + 1] as int } else { i };
                if j + 1 < before.paths@[i].len() {
                    assert(before.paths@[w] == before.paths@[i].subrange(0, j + 1));
                } else {
                    assert(before.paths@[i] =~= before.paths@[i].subrange(0, j + 1));
                }
                assert(before.live(w));
                assert(before.paths@[w].len() > 0);
                let p = before.nodes@[w].parent->0;
                assert(before.paths@[w] == before.paths@[p as int].push(p));
                assert(before.paths@[w][j] == z);
                assert(before.nodes@[w] == before.nodes@[w]);
                assert(before.live(z));
            }
        }
        assert forall|i: int| #![trigger self.live(i)] self.live(i) implies match self.nodes@[i].parent {
            Some(p) => {
                &&& self.live(p as int)
                &&& self.nodes@[i].slot < self.deg(p as int)
                &&& self.nodes@[p as int].children@[self.nodes@[i].slot as int] == i
            },
            None => !self.nodes@[i].marked,
        } by {
            assert(self.nodes@[i] == self.nodes@[i]);
            assert(before.live(i));
            if let Some(p) = self.nodes@[i].parent {
                assert(before.live(p as int));
                assert(self.nodes@[p as int] == self.nodes@[p as int]);
            }
        }
        assert forall|p: int, j: int|
            #![trigger self.nodes@[p].children@[j]]
            self.live(p) && 0 <= j < self.deg(p) implies {
                let c = self.nodes@[p].children@[j] as int;
                &&& self.live(c)
                &&& self.nodes@[c].parent == Some(p as usize)
                &&& self.nodes@[c].slot == j
            } by {
            assert(self.nodes@[p] == self.nodes@[p]);
            assert(before.live(p));
            let c = before.nodes@[p].children@[j] as int;
            assert(before.nodes@[c].parent == Some(p as usize));
            assert(self.nodes@[c] == self.nodes@[c]);
        }
        assert(self.links_ok());
        assert forall|i: int| #![trigger self.paths@[i]] self.live(i) implies match self.nodes@[i].parent {
            Some(p) => self.paths@[i] == self.paths@[p as int].push(p),
            None => self.paths@[i].len() == 0,
        } by {
            assert(self.nodes@[i] == self.nodes@[i]);
            assert(before.live(i));
        }
        assert forall|i: int, j: int|
            #![trigger self.paths@[i][j]]
            self.live(i) && 0 <= j < self.paths@[i].len() implies {
                let a = self.paths@[i][j] as int;
                &&& self.live(a)
                &&& self.key_at(a) <= self.key_at(i)
                &&& self.paths@[a] == self.paths@[i].subrange(0, j)
            } by {
            assert(self.nodes@[i] == self.nodes@[i]);
            assert(before.live(i));
            let a = before.paths@[i][j] as int;
            assert(before.live(a));
            assert(a != z);
            assert(self.nodes@[a] == self.nodes@[a]);
        }
        assert(self.paths_ok());
        assert forall|i: int| #[trigger] self.is_root(i) implies {
            &&& self.nodes@[i].slot < self.roots@.len()
            &&& self.roots@[self.nodes@[i].slot as int] == i
        } by {
            assert(self.nodes@[i] == self.nodes@[i]);
            assert(before.is_root(i));
            let t = before.nodes@[i].slot as int;
            assert(before.roots@[t] == i);
            assert(before.roots@[s] == z);
            if t == last {
                assert(t != s);
                assert(self.roots@[s] == i);
            } else {
                assert(t != s);
                assert(self.roots@[t] == i);
                assert(before.roots@[last] != i);
            }
        }
        assert forall|j: int| 0 <= j < self.roots@.len() implies {
            let r = #[trigger] self.roots@[j] as int;
            &&& self.is_root(r)
            &&& self.nodes@[r].slot == j
        } by {
            let r = self.roots@[j] as int;
            if j == s {
                assert(r == before.roots@[last]);
            } else {
                assert(r == before.roots@[j]);
            }
            assert(before.is_root(r));
            assert(r != z);
            assert(self.nodes@[r] == self.nodes@[r]);
        }
        assert forall|v: u64| #![trigger self.index@[v]] self.index@.contains_key(v) implies {
            &&& self.live(self.index@[v] as int)
            &&& self.nodes@[self.index@[v] as int].value == v
        } by {
            let i = self.index@[v] as int;
            assert(before.live(i));
            assert(i != z);
            assert(self.nodes@[i] == self.nodes@[i]);
        }
        assert forall|i: int| #![trigger self.live(i)] self.live(i) implies {
            &&& self.index@.contains_key(self.nodes@[i].value)
            &&& self.index@[self.nodes@[i].value] == i
        } by {
            assert(self.nodes@[i] == self.nodes@[i]);
            assert(before.live(i));
            assert(before.live(z));
        }
        assert(before.index@.contains_key(before.nodes@[z].value));
    }

    /// The free list stays valid when no node changed liveness.
    proof fn lemma_free_kept(&self, pre: &FibonacciHeap)
        requires
            pre.free_ok(),
            self.free == pre.free,
            self.nodes@.len() == pre.nodes@.len(),
            forall|n: int| #![trigger self.nodes@[n]]
                0 <= n < self.nodes@.len() ==> self.nodes@[n].live == pre.nodes@[n].live,
        ensures
            self.free_ok(),
    {
        assert forall|j: int| #![trigger self.free@[j]] 0 <= j < self.free@.len() implies {
            &&& self.free@[j] < self.nodes@.len()
            &&& !self.nodes@[self.free@[j] as int].live
        } by {
            assert(pre.free@[j] == self.free@[j]);
            assert(self.nodes@[self.free@[j] as int] == self.nodes@[self.free@[j] as int]);
        }
    }

    /// The positions of the roots.
    spec fn root_set(&self) -> Set<usize> {
        Set::new(|i: usize| self.is_root(i as int))
    }

    /// The root list holds each root once, so its length counts the roots.
    proof fn lemma_root_count(&self)
        requires
            self.roots_ok(),
            self.nodes@.len() <= usize::MAX,
        ensures
            self.root_set().finite(),
            self.roots@.len() == self.root_set().len(),
    {
        assert(self.roots@.no_duplicates()) by {
            assert forall|a: int, b: int| 0 <= a < self.roots@.len() && 0 <= b < self.roots@.len() && a != b
                implies self.roots@[a] != self.roots@[b] by {
                assert(self.nodes@[self.roots@[a] as int].slot == a);
                assert(self.nodes@[self.roots@[b] as int].slot == b);
            }
        }
        self.roots@.unique_seq_to_set();
        assert(self.roots@.to_set() =~= self.root_set()) by {
            assert forall|n: usize| #[trigger] self.root_set().contains(n) implies self.roots@.to_set().contains(n) by {
                assert(self.is_root(n as int));
                assert(self.roots@[self.nodes@[n as int].slot as int] == n);
            }
            assert forall|n: usize| #[trigger] self.roots@.to_set().contains(n) implies self.root_set().contains(n) by {
                let j = choose|j: int| 0 <= j < self.roots@.len() && self.roots@[j] == n;
                assert(self.roots@[j] == n);
            }
        }
        vstd::seq_lib::seq_to_set_is_finite(self.roots@);
    }

    /// The tree structure depends on the nodes and paths alone.
    proof fn lemma_tree_same(&self, pre: &FibonacciHeap)
        requires
            pre.tree_ok(),
            self.nodes == pre.nodes,
            self.paths == pre.paths,
        ensures
            self.tree_ok(),
    {
        assert forall|i: int| #![trigger self.live(i)] self.live(i) == pre.live(i) by {}
        assert forall|i: int| #![trigger self.key_at(i)] self.key_at(i) == pre.key_at(i) by {}
    }

    /// The index stays valid when no value or liveness changed.
    proof fn lemma_index_same(&self, pre: &FibonacciHeap)
        requires
            pre.index_ok(),
            self.nodes@.len() == pre.nodes@.len(),
            forall|n: int|
                #![trigger self.nodes@[n]]
                0 <= n < self.nodes@.len() ==> {
                    &&& self.nodes@[n].value == pre.nodes@[n].value
                    &&& self.nodes@[n].live == pre.nodes@[n].live
                },
            self.index == pre.index,
            self.size == pre.size,
        ensures
            self.index_ok(),
    {
        assert forall|v: u64| #![trigger self.index@[v]] self.index@.contains_key(v) implies {
            &&& self.live(self.index@[v] as int)
            &&& self.nodes@[self.index@[v] as int].value == v
        } by {
            let i = self.index@[v] as int;
            assert(pre.live(i));
            assert(self.nodes@[i] == self.nodes@[i]);
        }
        assert forall|i: int| #![trigger self.live(i)] self.live(i) implies {
            &&& self.index@.contains_key(self.nodes@[i].value)
            &&& self.index@[self.nodes@[i].value] == i
        } by {
            assert(self.nodes@[i] == self.nodes@[i]);
            assert(pre.live(i));
        }
    }

    // ---------------------------------------------------------------
    // Public operations.
    // ---------------------------------------------------------------

    /// Creates an empty heap.
    pub fn new() -> (h: FibonacciHeap)
        ensures
            h.wf(),
            h@ == Map::<u64, u64>::empty(),
    {
        let h = FibonacciHeap {
            nodes: Vec::new(),
            roots: Vec::new(),
            index: HashMap::new(),
            min: None,
            size: 0,
            free: Vec::new(),
            paths: Ghost(Seq::empty()),
            lost: Ghost(Seq::empty()),
        };
        proof {
            h.lemma_empty();
        }
        h
    }

    /// The number of elements in the heap.
    pub fn size(&self) -> (n: usize)
        requires
            self.wf(),
        ensures
            n == self@.len(),
    {
        proof {
            self.lemma_view_dom();
        }
        self.size
    }

    /// Adds `value` with priority `key` as a new root.
    pub fn insert(&mut self, key: u64, value: u64)
        requires
            old(self).wf(),
            !old(self)@.contains_key(value),
            old(self)@.len() < usize::MAX,
        ensures
            final(self).wf(),
            final(self)@ == old(self)@.insert(value, key),
            final(self)@.len() == old(self)@.len() + 1,
            final(self).min_pair() == if old(self).min_pair() is None || key < (old(self).min_pair()->0).0 {
                Some((key, value))
            } else {
                old(self).min_pair()
            },
            final(self).links_of(value) == (None::<u64>, Seq::<u64>::empty(), false),
            final(self).root_values() == old(self).root_values().push(value),
            forall|v: u64| #[trigger] old(self)@.contains_key(v) ==> final(self).links_of(v) == old(self).links_of(v),
    {
        proof {
            self.lemma_view_dom();
        }
        let ghost pre = *self;
        let node = Node::new_root(key, value, self.roots.len());
        let n = match self.free.pop() {
            Some(slot) => {
                proof {
                    assert(pre.free@[pre.free@.len() - 1] == slot);
                }
                self.nodes.set(slot, node);
                self.paths = Ghost(self.paths@.update(slot as int, Seq::empty()));
                self.lost = Ghost(self.lost@.update(slot as int, 0));
                slot
            },
            None => {
                let slot = self.nodes.len();
                self.nodes.push(node);
                self.paths = Ghost(self.paths@.push(Seq::empty()));
                self.lost = Ghost(self.lost@.push(0));
                slot
            },
        };
        self.roots.push(n);
        self.index.insert(value, n);
        self.size = self.size + 1;
        let new_min = match self.min {
            Some(m) => key < self.nodes[m].key,
            None => true,
        };
        if new_min {
            self.min = Some(n);
        }
        proof {
            assert(!pre.live(n as int));
            assert forall|i: int| #![trigger self.mark_ok_at(i)] i != -1 implies self.mark_ok_at(i) by {
                if i != n && 0 <= i < self.nodes@.len() {
                    assert(self.nodes@[i] == pre.nodes@[i]);
                    self.lemma_mark_same(&pre, i);
                }
            }
            assert(forall|i: int| 0 <= i < pre.nodes@.len() && i != n ==> self.nodes@[i] == pre.nodes@[i]);
            assert(forall|i: int| #![trigger self.live(i)] self.live(i) && i != n ==> pre.live(i));
            assert(forall|i: int| 0 <= i < pre.nodes@.len() && i != n ==> self.paths@[i] == pre.paths@[i]);
            assert(self.links_ok());
            assert(self.paths_ok());
            assert forall|i: int| #[trigger] self.is_root(i) implies {
                &&& self.nodes@[i].slot < self.roots@.len()
                &&& self.roots@[self.nodes@[i].slot as int] == i
            } by {
                if i != n {
                    assert(pre.is_root(i));
                }
            }
            assert forall|j: int| 0 <= j < self.roots@.len() implies {
                let r = #[trigger] self.roots@[j] as int;
                &&& self.is_root(r)
                &&& self.nodes@[r].slot == j
            } by {
                if j < pre.roots@.len() {
                    assert(pre.roots@[j] == self.roots@[j]);
                }
            }
            assert(self.roots_ok());
            assert(self.index_ok());
            assert(self.min_ok());
            assert(self@ =~= pre@.insert(value, key));
            self.lemma_view_dom();
            pre.lemma_view_dom();
            assert(self.links_of(value).1 =~= Seq::<u64>::empty());
            assert(self.root_values() =~= pre.root_values().push(value));
            assert forall|v: u64| #[trigger] pre@.contains_key(v) implies self.links_of(v) == pre.links_of(v) by {
                let i = pre.index@[v] as int;
                assert(pre.live(i));
                assert(self.index@[v] == i);
                if let Some(p) = pre.nodes@[i].parent {
                    assert(pre.live(p as int));
                }
                assert forall|j: int| 0 <= j < pre.nodes@[i].children@.len() implies
                    pre.live(#[trigger] pre.nodes@[i].children@[j] as int) by {}
                assert(self.links_of(v).1 =~= pre.links_of(v).1);
            }
        }
    }

    /// Lowers the key of `value` to `key`, cutting it from its parent when
    /// heap order would break, then cascading up the marked ancestors.
    #[verifier::rlimit(60)]
    pub fn decrease_key(&mut self, value: u64, key: u64) -> (r: Result<(), HeapError>)
        requires
            old(self).wf(),
        ensures
            final(self).wf(),
            final(self).heap_ordered(),
            r == Err::<(), HeapError>(HeapError::NotFound) <==> !old(self)@.contains_key(value),
            r == Err::<(), HeapError>(HeapError::InvalidDecrease) <==> old(self)@.contains_key(value)
                && key > old(self)@[value],
            r is Ok <==> old(self)@.contains_key(value) && key <= old(self)@[value],
            r is Ok ==> final(self)@ == old(self)@.insert(value, key),
            r is Ok ==> final(self)@.len() == old(self)@.len(),
            r is Ok && !old(self).cut_needed(value, key) ==> final(self).root_values() == old(self).root_values(),
            r is Ok && !old(self).cut_needed(value, key) ==> forall|v: u64| #[trigger] old(self)@.contains_key(v)
                ==> final(self).links_of(v) == old(self).links_of(v),
            r is Ok && old(self).cut_needed(value, key) ==> final(self).links_of(value).0 is None
                && !final(self).links_of(value).2,
            r is Ok ==> old(self).min_pair() is Some && final(self).min_pair() == if key < (old(self).min_pair()->0).0 {
                Some((key, value))
            } else {
                old(self).min_pair()
            },
            r is Err ==> *final(self) == *old(self),
    {
        let ghost pre = *self;
        let x = match self.index.get(&value) {
            None => {
                proof {
                    self.lemma_wf_heap_ordered();
                }
                return Err(HeapError::NotFound);
            },
            Some(i) => *i,
        };
        proof {
            assert(self.live(x as int));
        }
        if key > self.nodes[x].key {
            proof {
                self.lemma_wf_heap_ordered();
            }
            return Err(HeapError::InvalidDecrease);
        }
        match self.nodes[x].parent {
            Some(p) => {
                proof {
                    assert(self.live(p as int));
                }
                if key < self.nodes[p].key {
                    let ghost before_cut = *self;
                    proof {
                        before_cut.lemma_parent_path(x as int);
                        assert forall|i: int| #![trigger before_cut.mark_ok_at(i)] i != x implies before_cut.mark_ok_at(i) by {
                            if i != -1 {
                                assert(before_cut.mark_ok_at(i));
                            }
                        }
                    }
                    self.cut(x, p);
                    proof {
                        self.lemma_marks_after_cut(&before_cut, x as int, p as int);
                    }
                    self.cascading_cut(p);
                    proof {
                        assert(self.is_root(x as int));
                    }
                }
            },
            None => {},
        }
        let ghost mid = *self;
        proof {
            assert(mid.nodes@[x as int] == mid.nodes@[x as int]);
            assert(mid.nodes@[x as int].parent is None
                || key >= mid.key_at(mid.nodes@[x as int].parent->0 as int));
            assert(mid.keeps_roots(&pre)) by {
                assert forall|i: int| #![trigger mid.is_root(i)] pre.is_root(i) implies mid.is_root(i) by {}
            }
            mid.lemma_kept(&pre);
        }
        self.nodes[x].key = key;
        proof {
            assert(mid.live(x as int));
        }
        let m = self.min.unwrap();
        if key < self.nodes[m].key {
            self.min = Some(x);
        }
        proof {
            self.lemma_frame_links(&mid, x as int);
            assert forall|i: int, j: int|
                #![trigger self.paths@[i][j]]
                self.live(i) && 0 <= j < self.paths@[i].len() implies {
                    let a = self.paths@[i][j] as int;
                    &&& self.live(a)
                    &&& self.key_at(a) <= self.key_at(i)
                    &&& self.paths@[a] == self.paths@[i].subrange(0, j)
                } by {
                assert(mid.live(i));
                let a = mid.paths@[i][j] as int;
                assert(mid.live(a));
                if i == x {
                    let p = mid.nodes@[i].parent->0 as int;
                    assert(mid.paths@[i] == mid.paths@[p].push(p as usize));
                    assert(mid.paths@[i][mid.paths@[i].len() - 1] == p);
                    if j < mid.paths@[i].len() - 1 {
                        assert(mid.paths@[p][j] == a);
                    }
                } else if a == x {
                    mid.lemma_not_own_ancestor(i, j);
                }
            }
            assert(self.paths_ok());
            assert forall|i: int| #[trigger] self.is_root(i) implies {
                &&& self.nodes@[i].slot < self.roots@.len()
                &&& self.roots@[self.nodes@[i].slot as int] == i
            } by {
                assert(mid.is_root(i));
            }
            assert(self.roots_ok());
            assert forall|v: u64| #![trigger self.index@[v]] self.index@.contains_key(v) implies {
                &&& self.live(self.index@[v] as int)
                &&& self.nodes@[self.index@[v] as int].value == v
            } by {
                let i = self.index@[v] as int;
                assert(mid.live(i));
                assert(self.nodes@[i] == self.nodes@[i]);
            }
            assert forall|i: int| #![trigger self.live(i)] self.live(i) implies {
                &&& self.index@.contains_key(self.nodes@[i].value)
                &&& self.index@[self.nodes@[i].value] == i
            } by {
                assert(mid.live(i));
                assert(self.nodes@[i] == self.nodes@[i]);
            }
            assert(self.index_ok());
            let m0 = mid.min->0 as int;
            assert(mid.live(m0));
            if self.min == Some(x) {
                assert(mid.nodes@[x as int].parent is None) by {
                    if let Some(p) = mid.nodes@[x as int].parent {
                        assert(mid.live(p as int));
                    }
                }
            }
            assert forall|i: int| #![trigger self.live(i)] self.live(i) implies
                self.key_at(self.min->0 as int) <= self.key_at(i) by {
                assert(mid.live(i));
                assert(self.nodes@[i] == self.nodes@[i]);
            }
            assert(self.min_ok());
            assert(mid.marks_ok());
            assert(self.nodes@[x as int] == self.nodes@[x as int]);
            assert(mid.nodes@[x as int] == mid.nodes@[x as int]);
            assert forall|i: int| #![trigger self.mark_ok_at(i)] i != -1 implies self.mark_ok_at(i) by {
                if 0 <= i < self.nodes@.len() {
                    assert(self.nodes@[i] == self.nodes@[i]);
                    assert(mid.mark_ok_at(i));
                    self.lemma_mark_same(&mid, i);
                }
            }
            assert(self@ =~= pre@.insert(value, key));
            self.lemma_wf_heap_ordered();
        }
        Ok(())
    }

    /// Removes and returns the pair with the smallest key, or `None` when
    /// the heap is empty.
    pub fn extract_min(&mut self) -> (r: Option<(u64, u64)>)
        requires
            old(self).wf(),
        ensures
            final(self).wf(),
            r is None <==> old(self)@.len() == 0,
            r is None ==> final(self)@ == old(self)@,
            r matches Some((k, v)) ==> is_min_entry(old(self)@, k, v) && final(self)@ == old(self)@.remove(v),
            r is Some ==> final(self)@.len() + 1 == old(self)@.len(),
            r == old(self).min_pair(),
    {
        let ghost pre = *self;
        proof {
            pre.lemma_view_dom();
        }
        let z = match self.min {
            None => {
                proof {
                    self.lemma_empty();
                }
                return None;
            },
            Some(z) => z,
        };
        proof {
            self.lemma_min_entry();
            assert(self@.contains_key(self.nodes@[z as int].value));
        }
        while self.nodes[z].children.len() > 0
            invariant
                self.wf(),
                self.min == Some(z),
                self@ == pre@,
                self.nodes@[z as int].key == pre.nodes@[z as int].key,
                self.nodes@[z as int].value == pre.nodes@[z as int].value,
            decreases self.deg(z as int),
        {
            let ghost before = *self;
            proof {
                assert(self.live(z as int));
            }
            let last = self.nodes[z].children.len() - 1;
            let c = self.nodes[z].children[last];
            self.cut(c, z);
            proof {
                self.lemma_kept(&before);
                assert(self.nodes@[z as int] == self.nodes@[z as int]);
                assert(self.is_root(z as int));
                assert(self.nodes@[c as int] == self.nodes@[c as int]);
                assert forall|i: int| #![trigger self.mark_ok_at(i)] i != -1 implies self.mark_ok_at(i) by {
                    if 0 <= i < self.nodes@.len() && i != c && i != z {
                        assert(self.nodes@[i] == self.nodes@[i]);
                        assert(before.mark_ok_at(i));
                        self.lemma_mark_same(&before, i);
                    }
                }
            }
        }
        let key = self.nodes[z].key;
        let value = self.nodes[z].value;
        let ghost before = *self;
        proof {
            assert(self.live(z as int));
            assert(self.nodes@.len() == self.nodes.len());
        }
        // Take `z` out of the root list, moving the last root into its slot.
        let s = self.nodes[z].slot;
        let _ = self.roots.swap_remove(s);
        if s < self.roots.len() {
            let moved = self.roots[s];
            proof {
                assert(before.roots@[before.roots@.len() - 1] == moved);
                assert(before.is_root(moved as int));
            }
            self.nodes[moved].slot = s;
        }
        self.nodes[z].live = false;
        self.free.push(z);
        let _ = self.index.remove(&value);
        self.size = self.size - 1;
        proof {
            self.lemma_after_removal(&before, z as int);
            assert forall|i: int| #![trigger self.mark_ok_at(i)] i != -1 implies self.mark_ok_at(i) by {
                if 0 <= i < self.nodes@.len() && i != z {
                    assert(self.nodes@[i] == self.nodes@[i]);
                    assert(before.mark_ok_at(i));
                    self.lemma_mark_same(&before, i);
                }
            }
            assert forall|j: int| #![trigger self.free@[j]] 0 <= j < self.free@.len() implies {
                &&& self.free@[j] < self.nodes@.len()
                &&& !self.nodes@[self.free@[j] as int].live
            } by {
                if j < before.free@.len() {
                    assert(before.free@[j] == self.free@[j]);
                    assert(before.free@[j] != z);
                }
            }
            assert forall|a: int, b: int| 0 <= a < b < self.free@.len() implies
                #[trigger] self.free@[a] != #[trigger] self.free@[b] by {
                assert(before.free@[a] == self.free@[a]);
                if b < before.free@.len() {
                    assert(before.free@[b] == self.free@[b]);
                } else {
                    assert(before.live(z as int));
                }
            }
        }
        if self.roots.len() == 0 {
            let ghost emptied = *self;
            self.min = None;
            proof {
                self.lemma_tree_same(&emptied);
                assert forall|i: int| #![trigger self.live(i)] !self.live(i) by {
                    if self.live(i) {
                        let r = self.lemma_root_below(i);
                        assert(emptied.is_root(r));
                    }
                }
                assert(self.min_ok());
            }
        } else {
            let _ = self.consolidate();
        }
        proof {
            assert(self@ =~= pre@.remove(value));
            pre.lemma_view_dom();
            self.lemma_view_dom();
        }
        Some((key, value))
    }

    /// The pair with the smallest key, or `None` when the heap is empty.
    pub fn minimum(&self) -> (r: Option<(u64, u64)>)
        requires
            self.wf(),
        ensures
            r is None <==> self@.len() == 0,
            r is None ==> self@ == Map::<u64, u64>::empty(),
            r matches Some((k, v)) ==> is_min_entry(self@, k, v),
            r == self.min_pair(),
    {
        match self.min {
            Some(m) => {
                proof {
                    self.lemma_min_entry();
                    self.lemma_view_dom();
                    let v = self.nodes@[m as int].value;
                    assert(self@.dom().contains(v));
                }
                Some((self.nodes[m].key, self.nodes[m].value))
            },
            None => {
                proof {
                    self.lemma_empty();
                }
                None
            },
        }
    }
}

/// Stores `x` at position `d` of `slots`, first growing it with empty
/// entries where it is too short.
fn place(slots: &mut Vec<Option<usize>>, d: usize, x: usize)
    ensures
        final(slots)@.len() == if d < old(slots)@.len() { old(slots)@.len() as int } else { d + 1 },
        final(slots)@[d as int] == Some(x),
        forall|k: int|
            #![trigger final(slots)@[k]]
            0 <= k < final(slots)@.len() && k != d ==> final(slots)@[k] == if k < old(slots)@.len() {
                old(slots)@[k]
            } else {
                None::<usize>
            },
{
    let ghost pre = slots@;
    while slots.len() <= d
        invariant
            pre.len() <= slots@.len() <= if d < pre.len() { pre.len() as int } else { d + 1 },
            forall|k: int|
                #![trigger slots@[k]]
                0 <= k < slots@.len() ==> slots@[k] == if k < pre.len() {
                    pre[k]
                } else {
                    None::<usize>
                },
        decreases d + 1 - slots@.len(),
    {
        slots.push(None);
    }
    slots.set(d, Some(x));
}

} // verus!
