use vstd::prelude::*;

verus! {

/// The drawable and naming part of a scene node.
///
/// An `index_count` of `-1` or less marks a node without geometry: it only
/// groups its children under a common transform.
pub struct SceneNode {
    pub name: String,
    pub vao_id: u32,
    pub index_count: i32,
}

/// One step of a propagation pass: the node whose world transform is
/// computed, and the position in the pass of the step that computed its
/// parent's (none for the node the pass starts from).
#[derive(PartialEq, Eq, Structural, Clone, Copy, Debug)]
pub struct Step {
    pub node: usize,
    pub parent_step: Option<usize>,
}

/// The nodes that a sequence of steps visits, in order.
pub open spec fn nodes_of(steps: Seq<Step>) -> Seq<usize> {
    steps.map_values(|s: Step| s.node)
}

/// Why a node could not be attached below another one.
#[derive(PartialEq, Eq, Structural, Clone, Copy, Debug)]
pub enum GraphError {
    /// One of the two indices names no node of the graph.
    NoSuchNode,
    /// The child already has a parent.
    AlreadyOwned,
    /// The child is the parent itself or one of its ancestors.
    WouldCycle,
}

/// A forest of scene nodes stored in an arena.
///
/// Nodes are addressed by their index, which never changes once the node is
/// created. Every node has at most one parent, the parent links contain no
/// cycle, and the children of a node are kept in the order in which they were
/// attached.
pub struct SceneGraph {
    nodes: Vec<SceneNode>,
    parents: Vec<Option<usize>>,
    children: Vec<Vec<usize>>,
    /// Distance of each node from the root of its tree.
    depth: Ghost<Seq<nat>>,
    /// Root of the tree that holds each node.
    root: Ghost<Seq<nat>>,
    /// A strict upper bound of every depth.
    bound: Ghost<nat>,
}

impl SceneGraph {
    /// Number of nodes in the arena.
    pub closed spec fn node_count(self) -> nat {
        self.nodes@.len()
    }

    /// The node stored at index `i`.
    pub closed spec fn node_at(self, i: int) -> SceneNode {
        self.nodes@[i]
    }

    /// The parent of node `i`, if it has one.
    pub closed spec fn parent(self, i: int) -> Option<usize> {
        self.parents@[i]
    }

    /// The children of node `i`, in the order in which they were attached.
    pub closed spec fn children(self, i: int) -> Seq<usize> {
        self.children@[i]@
    }

    /// The root of the tree that holds node `i`: `i` itself when it has no
    /// parent, else the root of its parent.
    pub closed spec fn root_of(self, i: int) -> int {
        self.root@[i] as int
    }

    /// How far below node `i` the trees may still reach.
    pub closed spec fn height_left(self, i: int) -> int {
        self.bound@ - self.depth@[i]
    }

    /// The arena describes a forest.
    pub closed spec fn wf(self) -> bool {
        let n = self.nodes@.len();
        &&& n <= usize::MAX
        &&& self.parents@.len() == n
        &&& self.children@.len() == n
        &&& self.depth@.len() == n
        &&& self.root@.len() == n
        &&& self.bound@ > 0
        &&& forall|i: int| 0 <= i < n ==> #[trigger] self.depth@[i] < self.bound@
        &&& forall|i: int| 0 <= i < n ==> #[trigger] self.root@[i] < n
        &&& forall|i: int|
            0 <= i < n && (#[trigger] self.parents@[i]) is None ==> self.depth@[i] == 0
                && self.root@[i] == i
        &&& forall|i: int|
            0 <= i < n && (#[trigger] self.parents@[i]) is Some ==> {
                let p = self.parents@[i]->0 as int;
                &&& p < n
                &&& self.depth@[i] == self.depth@[p] + 1
                &&& self.root@[i] == self.root@[p]
            }
        &&& forall|p: int, k: int|
            0 <= p < n && 0 <= k < self.children@[p]@.len() ==> {
                let c = #[trigger] self.children@[p]@[k] as int;
                &&& c < n
                &&& self.parents@[c] is Some
                &&& self.parents@[c]->0 as int == p
            }
        &&& forall|p: int, a: int, b: int|
            0 <= p < n && 0 <= a < b < self.children@[p]@.len() ==> #[trigger] self.children@[p]@[a]
                != #[trigger] self.children@[p]@[b]
    }

    /// The nodes of the subtree rooted at `n`, depth first: a node comes
    /// before its children, and children come in the order in which they were
    /// attached.
    pub closed spec fn subtree(self, n: int) -> Seq<usize>
        decreases self.height_left(n), self.children(n).len() + 1,
    {
        if self.wf() && 0 <= n < self.node_count() {
            seq![n as usize] + self.forest(n, 0)
        } else {
            Seq::empty()
        }
    }

    /// The subtrees of the children of `n` from the `k`-th on, one after the
    /// other.
    pub closed spec fn forest(self, n: int, k: int) -> Seq<usize>
        decreases self.height_left(n), self.children(n).len() - k,
    {
        if self.wf() && 0 <= n < self.node_count() && 0 <= k < self.children@[n]@.len() {
            let c = self.children@[n]@[k] as int;
            proof {
                assert(self.parents@[c] is Some);
                assert(self.depth@[c] == self.depth@[n] + 1);
                assert(self.depth@[c] < self.bound@);
            }
            self.subtree(c) + self.forest(n, k + 1)
        } else {
            Seq::empty()
        }
    }

    /// A depth-first listing starts with the node itself and then lists the
    /// subtrees of its children one after the other, in the order in which
    /// the children were attached.
    pub proof fn lemma_depth_first(self, n: int)
        requires
            self.wf(),
            0 <= n < self.node_count(),
        ensures
            self.subtree(n) == seq![n as usize] + self.forest(n, 0),
            self.forest(n, self.children(n).len() as int) == Seq::<usize>::empty(),
            forall|k: int|
                0 <= k < self.children(n).len() ==> #[trigger] self.forest(n, k) == self.subtree(
                    self.children(n)[k] as int,
                ) + self.forest(n, k + 1),
    {
        assert forall|k: int| 0 <= k < self.children(n).len() implies #[trigger] self.forest(
            n,
            k,
        ) == self.subtree(self.children(n)[k] as int) + self.forest(n, k + 1) by {}
    }

    /// Every node of a subtree is a node of the arena.
    pub proof fn lemma_subtree_in_bounds(self, n: int)
        requires
            self.wf(),
            0 <= n < self.node_count(),
        ensures
            forall|i: int|
                0 <= i < self.subtree(n).len() ==> #[trigger] self.subtree(n)[i]
                    < self.node_count(),
        decreases self.height_left(n), self.children(n).len() + 1,
    {
        self.lemma_forest_in_bounds(n, 0);
        self.lemma_depth_first(n);
    }

    proof fn lemma_forest_in_bounds(self, n: int, k: int)
        requires
            self.wf(),
            0 <= n < self.node_count(),
            0 <= k <= self.children(n).len(),
        ensures
            forall|i: int|
                0 <= i < self.forest(n, k).len() ==> #[trigger] self.forest(n, k)[i]
                    < self.node_count(),
        decreases self.height_left(n), self.children(n).len() - k,
    {
        self.lemma_depth_first(n);
        if k < self.children(n).len() {
            let c = self.children@[n]@[k] as int;
            assert(self.parents@[c] is Some);
            self.lemma_subtree_in_bounds(c);
            self.lemma_forest_in_bounds(n, k + 1);
            let a = self.subtree(c);
            let b = self.forest(n, k + 1);
            assert forall|i: int| 0 <= i < (a + b).len() implies #[trigger] (a + b)[i]
                < self.node_count() by {
                if i < a.len() {
                    assert((a + b)[i] == a[i]);
                } else {
                    assert((a + b)[i] == b[i - a.len()]);
                }
            }
        }
    }

    /// Two arenas that agree on the children of every node but `p` list
    /// the same subtree below a node `x` that cannot reach `p`.
    proof fn lemma_subtree_stable(self, other: SceneGraph, p: int, x: int)
        requires
            self.wf(),
            other.wf(),
            other.node_count() == self.node_count(),
            0 <= x < self.node_count(),
            forall|m: int|
                0 <= m < self.node_count() && m != p ==> #[trigger] other.children(m)
                    == self.children(m),
            0 <= p < self.node_count() ==> (self.root@[p] != self.root@[x] || self.depth@[p]
                < self.depth@[x]),
        ensures
            other.subtree(x) == self.subtree(x),
        decreases self.height_left(x), self.children(x).len() + 1,
    {
        self.lemma_forest_stable(other, p, x, 0);
        self.lemma_depth_first(x);
        other.lemma_depth_first(x);
    }

    proof fn lemma_forest_stable(self, other: SceneGraph, p: int, x: int, k: int)
        requires
            self.wf(),
            other.wf(),
            other.node_count() == self.node_count(),
            0 <= x < self.node_count(),
            0 <= k <= self.children(x).len(),
            forall|m: int|
                0 <= m < self.node_count() && m != p ==> #[trigger] other.children(m)
                    == self.children(m),
            0 <= p < self.node_count() ==> (self.root@[p] != self.root@[x] || self.depth@[p]
                < self.depth@[x]),
        ensures
            other.forest(x, k) == self.forest(x, k),
        decreases self.height_left(x), self.children(x).len() - k,
    {
        assert(x != p);
        assert(other.children(x) == self.children(x));
        self.lemma_depth_first(x);
        other.lemma_depth_first(x);
        if k < self.children(x).len() {
            let c = self.children@[x]@[k] as int;
            assert(self.parents@[c] is Some);
            self.lemma_subtree_stable(other, p, c);
            self.lemma_forest_stable(other, p, x, k + 1);
        }
    }

    proof fn lemma_forest_extended(self, other: SceneGraph, p: usize, c: usize, k: int)
        requires
            self.wf(),
            other.wf(),
            other.node_count() == self.node_count(),
            p < self.node_count(),
            c < self.node_count(),
            self.parent(c as int) is None,
            self.root_of(p as int) != c,
            other.children(p as int) == self.children(p as int).push(c),
            forall|m: int|
                0 <= m < self.node_count() && m != p ==> #[trigger] other.children(m)
                    == self.children(m),
            0 <= k <= self.children(p as int).len(),
        ensures
            other.forest(p as int, k) == self.forest(p as int, k) + self.subtree(c as int),
        decreases self.children(p as int).len() - k,
    {
        let n = self.children(p as int).len() as int;
        let f1 = self.forest(p as int, k);
        let f2 = other.forest(p as int, k);
        if k == n {
            other.lemma_depth_first(p as int);
            self.lemma_depth_first(p as int);
            self.lemma_subtree_stable(other, p as int, c as int);
            assert(f2 == other.subtree(c as int) + other.forest(p as int, n + 1));
            assert(f2 =~= f1 + self.subtree(c as int));
        } else {
            let x = self.children(p as int)[k] as int;
            assert(self.parents@[x] is Some);
            self.lemma_subtree_stable(other, p as int, x);
            self.lemma_forest_extended(other, p, c, k + 1);
            self.lemma_depth_first(p as int);
            other.lemma_depth_first(p as int);
            assert(f1 == self.subtree(x) + self.forest(p as int, k + 1));
            assert(f2 == other.subtree(x) + other.forest(p as int, k + 1));
            assert(f2 =~= f1 + self.subtree(c as int));
        }
    }

    /// Attaching `c` as the last child of `p` (what a successful `add_child`
    /// does) extends the depth-first listing of `p` by the listing of `c`:
    /// the order of a traversal is the order in which children were attached.
    pub proof fn lemma_add_child_order(self, other: SceneGraph, p: usize, c: usize)
        requires
            self.wf(),
            other.wf(),
            other.node_count() == self.node_count(),
            p < self.node_count(),
            c < self.node_count(),
            self.parent(c as int) is None,
            self.root_of(p as int) != c,
            other.children(p as int) == self.children(p as int).push(c),
            forall|m: int|
                0 <= m < self.node_count() && m != p ==> #[trigger] other.children(m)
                    == self.children(m),
        ensures
            other.subtree(p as int) == self.subtree(p as int) + self.subtree(c as int),
    {
        self.lemma_forest_extended(other, p, c, 0);
        self.lemma_depth_first(p as int);
        other.lemma_depth_first(p as int);
        assert(other.subtree(p as int) =~= self.subtree(p as int) + self.subtree(c as int));
    }

    /// The ancestor of `m` at depth `d` (`m` itself when it is not deeper).
    spec fn ancestor(self, m: int, d: int) -> int
        decreases self.depth@[m],
    {
        if self.wf() && 0 <= m < self.node_count() && self.depth@[m] > d && self.parents@[m] is Some {
            let q = self.parents@[m]->0 as int;
            proof {
                assert(self.depth@[m] == self.depth@[q] + 1);
            }
            self.ancestor(q, d)
        } else {
            m
        }
    }

    proof fn lemma_ancestor_of_ancestor(self, m: int, d1: int, d2: int)
        requires
            self.wf(),
            0 <= m < self.node_count(),
            0 <= d2 <= d1,
        ensures
            self.ancestor(self.ancestor(m, d1), d2) == self.ancestor(m, d2),
            0 <= self.ancestor(m, d1) < self.node_count(),
        decreases self.depth@[m],
    {
        if self.depth@[m] > d1 {
            assert(self.parents@[m] is Some);
            let q = self.parents@[m]->0 as int;
            self.lemma_ancestor_of_ancestor(q, d1, d2);
        }
    }

    proof fn lemma_subtree_facts(self, x: int)
        requires
            self.wf(),
            0 <= x < self.node_count(),
        ensures
            self.subtree(x).no_duplicates(),
            forall|i: int|
                0 <= i < self.subtree(x).len() ==> {
                    let m = #[trigger] self.subtree(x)[i] as int;
                    &&& 0 <= m < self.node_count()
                    &&& self.depth@[m] >= self.depth@[x]
                    &&& self.ancestor(m, self.depth@[x] as int) == x
                },
        decreases self.height_left(x), self.children(x).len() + 1,
    {
        self.lemma_depth_first(x);
        self.lemma_forest_facts(x, 0);
        let f = self.forest(x, 0);
        let s = self.subtree(x);
        let d = self.depth@[x] as int;
        assert(s == seq![x as usize] + f);
        assert(self.ancestor(x, d) == x);
        assert forall|i: int| 0 <= i < s.len() implies {
            let m = #[trigger] s[i] as int;
            &&& 0 <= m < self.node_count()
            &&& self.depth@[m] >= self.depth@[x]
            &&& self.ancestor(m, d) == x
        } by {
            if i > 0 {
                assert(s[i] == f[i - 1]);
                let m = f[i - 1] as int;
                let j = choose|j: int|
                    0 <= j < self.children(x).len() && self.children(x)[j] == self.ancestor(
                        m,
                        d + 1,
                    );
                let c = self.children@[x]@[j] as int;
                assert(self.parents@[c] is Some);
                self.lemma_ancestor_of_ancestor(m, d + 1, d);
                assert(self.ancestor(x, d) == x);
                assert(self.ancestor(c, d) == self.ancestor(x, d));
            }
        }
        assert forall|a: int, b: int| 0 <= a < s.len() && 0 <= b < s.len() && a != b implies s[a]
            != s[b] by {
            if a > 0 && b > 0 {
                assert(s[a] == f[a - 1]);
                assert(s[b] == f[b - 1]);
            } else if a == 0 {
                assert(s[b] == f[b - 1]);
            } else {
                assert(s[a] == f[a - 1]);
            }
        }
    }

    proof fn lemma_forest_facts(self, x: int, k: int)
        requires
            self.wf(),
            0 <= x < self.node_count(),
            0 <= k <= self.children(x).len(),
        ensures
            self.forest(x, k).no_duplicates(),
            forall|i: int|
                0 <= i < self.forest(x, k).len() ==> {
                    let m = #[trigger] self.forest(x, k)[i] as int;
                    &&& 0 <= m < self.node_count()
                    &&& self.depth@[m] > self.depth@[x]
                    &&& exists|j: int|
                        k <= j < self.children(x).len() && self.children(x)[j] == self.ancestor(
                            m,
                            (self.depth@[x] + 1) as int,
                        )
                },
        decreases self.height_left(x), self.children(x).len() - k,
    {
        self.lemma_depth_first(x);
        if k < self.children(x).len() {
            let c = self.children@[x]@[k] as int;
            assert(self.parents@[c] is Some);
            assert(self.depth@[c] == self.depth@[x] + 1);
            self.lemma_subtree_facts(c);
            self.lemma_forest_facts(x, k + 1);
            let a = self.subtree(c);
            let b = self.forest(x, k + 1);
            let f = self.forest(x, k);
            assert(f == a + b);
            assert forall|i: int| 0 <= i < f.len() implies {
                let m = #[trigger] f[i] as int;
                &&& 0 <= m < self.node_count()
                &&& self.depth@[m] > self.depth@[x]
                &&& exists|j: int|
                    k <= j < self.children(x).len() && self.children(x)[j] == self.ancestor(
                        m,
                        (self.depth@[x] + 1) as int,
                    )
            } by {
                if i < a.len() {
                    assert(f[i] == a[i]);
                    assert(self.children(x)[k] == c);
                } else {
                    assert(f[i] == b[i - a.len()]);
                }
            }
            assert forall|p: int, q: int| 0 <= p < f.len() && 0 <= q < f.len() && p != q implies f[p]
                != f[q] by {
                if p < a.len() && q >= a.len() {
                    assert(f[p] == a[p]);
                    assert(f[q] == b[q - a.len()]);
                    let m = b[q - a.len()] as int;
                    let j = choose|j: int|
                        k + 1 <= j < self.children(x).len() && self.children(x)[j]
                            == self.ancestor(m, (self.depth@[x] + 1) as int);
                    assert(self.children@[x]@[k] != self.children@[x]@[j]);
                } else if q < a.len() && p >= a.len() {
                    assert(f[q] == a[q]);
                    assert(f[p] == b[p - a.len()]);
                    let m = b[p - a.len()] as int;
                    let j = choose|j: int|
                        k + 1 <= j < self.children(x).len() && self.children(x)[j]
                            == self.ancestor(m, (self.depth@[x] + 1) as int);
                    assert(self.children@[x]@[k] != self.children@[x]@[j]);
                } else if p < a.len() {
                    assert(f[p] == a[p]);
                    assert(f[q] == a[q]);
                } else {
                    assert(f[p] == b[p - a.len()]);
                    assert(f[q] == b[q - a.len()]);
                }
            }
        }
    }

    /// A depth-first listing visits each node of the subtree once.
    pub proof fn lemma_subtree_distinct(self, n: int)
        requires
            self.wf(),
            0 <= n < self.node_count(),
        ensures
            self.subtree(n).no_duplicates(),
    {
        self.lemma_subtree_facts(n);
    }

    /// The root of a node's tree is a node without a parent.
    pub proof fn lemma_root_of(self, i: int)
        requires
            self.wf(),
            0 <= i < self.node_count(),
        ensures
            0 <= self.root_of(i) < self.node_count(),
            self.parent(self.root_of(i)) is None,
    {
        self.lemma_root_is_root(i);
    }

    proof fn lemma_root_is_root(self, i: int)
        requires
            self.wf(),
            0 <= i < self.node_count(),
        ensures
            self.parents@[self.root@[i] as int] is None,
        decreases self.depth@[i],
    {
        if self.parents@[i] is Some {
            self.lemma_root_is_root(self.parents@[i]->0 as int);
        }
    }

    /// An empty arena.
    pub fn new() -> (r: SceneGraph)
        ensures
            r.wf(),
            r.node_count() == 0,
    {
        SceneGraph {
            nodes: Vec::new(),
            parents: Vec::new(),
            children: Vec::new(),
            depth: Ghost(Seq::empty()),
            root: Ghost(Seq::empty()),
            bound: Ghost(1),
        }
    }

    /// Number of nodes in the arena.
    pub fn len(&self) -> (r: usize)
        requires
            self.wf(),
        ensures
            r == self.node_count(),
    {
        self.nodes.len()
    }

    /// Adds a detached node and returns its index.
    pub fn add_node(&mut self, node: SceneNode) -> (r: usize)
        requires
            old(self).wf(),
        ensures
            final(self).wf(),
            r == old(self).node_count(),
            final(self).node_count() == old(self).node_count() + 1,
            final(self).node_at(r as int) == node,
            final(self).parent(r as int) is None,
            final(self).children(r as int) == Seq::<usize>::empty(),
            final(self).root_of(r as int) == r,
            forall|i: int|
                0 <= i < old(self).node_count() ==> {
                    &&& final(self).node_at(i) == old(self).node_at(i)
                    &&& final(self).parent(i) == old(self).parent(i)
                    &&& final(self).children(i) == old(self).children(i)
                    &&& final(self).root_of(i) == old(self).root_of(i)
                },
    {
        let r: usize = self.nodes.len();
        self.nodes.push(node);
        let _count: usize = self.nodes.len();
        self.parents.push(None);
        self.children.push(Vec::new());
        proof {
            self.depth@ = self.depth@.push(0);
            self.root@ = self.root@.push(r as nat);
            assert forall|q: int, k: int|
                0 <= q < self.nodes@.len() && 0 <= k < self.children@[q]@.len() implies {
                let x = #[trigger] self.children@[q]@[k] as int;
                &&& x < self.nodes@.len()
                &&& self.parents@[x] is Some
                &&& self.parents@[x]->0 as int == q
            } by {
                assert(q < r);
                assert(self.children@[q] == old(self).children@[q]);
            }
        }
        r
    }

    /// Adds a node without geometry: a pure transform grouping.
    pub fn new_node(&mut self) -> (r: usize)
        requires
            old(self).wf(),
        ensures
            final(self).wf(),
            r == old(self).node_count(),
            final(self).node_count() == old(self).node_count() + 1,
            final(self).node_at(r as int).name@ == Seq::<char>::empty(),
            final(self).node_at(r as int).vao_id == 0,
            final(self).node_at(r as int).index_count == -1,
            final(self).parent(r as int) is None,
            final(self).children(r as int) == Seq::<usize>::empty(),
            final(self).root_of(r as int) == r,
            forall|i: int|
                0 <= i < old(self).node_count() ==> {
                    &&& final(self).node_at(i) == old(self).node_at(i)
                    &&& final(self).parent(i) == old(self).parent(i)
                    &&& final(self).children(i) == old(self).children(i)
                    &&& final(self).root_of(i) == old(self).root_of(i)
                },
    {
        self.add_node(SceneNode { name: String::new(), vao_id: 0, index_count: -1 })
    }

    /// Adds a drawable node for the geometry `vao_id` with `index_count`
    /// triangles.
    pub fn from_vao(&mut self, vao_id: u32, index_count: i32, name: String) -> (r: usize)
        requires
            old(self).wf(),
        ensures
            final(self).wf(),
            r == old(self).node_count(),
            final(self).node_count() == old(self).node_count() + 1,
            final(self).node_at(r as int) == (SceneNode { name, vao_id, index_count }),
            final(self).parent(r as int) is None,
            final(self).children(r as int) == Seq::<usize>::empty(),
            final(self).root_of(r as int) == r,
            forall|i: int|
                0 <= i < old(self).node_count() ==> {
                    &&& final(self).node_at(i) == old(self).node_at(i)
                    &&& final(self).parent(i) == old(self).parent(i)
                    &&& final(self).children(i) == old(self).children(i)
                    &&& final(self).root_of(i) == old(self).root_of(i)
                },
    {
        self.add_node(SceneNode { name, vao_id, index_count })
    }

    /// The node stored at index `i`.
    pub fn node(&self, i: usize) -> (r: &SceneNode)
        requires
            self.wf(),
            i < self.node_count(),
        ensures
            *r == self.node_at(i as int),
    {
        &self.nodes[i]
    }

    /// The parent of node `i`, if it has one.
    pub fn parent_of(&self, i: usize) -> (r: Option<usize>)
        requires
            self.wf(),
            i < self.node_count(),
        ensures
            r == self.parent(i as int),
    {
        self.parents[i]
    }

    /// The children of node `i`, in the order in which they were attached.
    pub fn children_of(&self, i: usize) -> (r: &Vec<usize>)
        requires
            self.wf(),
            i < self.node_count(),
        ensures
            r@ == self.children(i as int),
    {
        &self.children[i]
    }

    /// The root of the tree that holds node `n`, found by following the
    /// parent links.
    pub fn find_root(&self, n: usize) -> (r: usize)
        requires
            self.wf(),
            n < self.node_count(),
        ensures
            r == self.root_of(n as int),
            r < self.node_count(),
            self.parent(r as int) is None,
    {
        let mut cur: usize = n;
        loop
            invariant
                self.wf(),
                cur < self.node_count(),
                self.root@[cur as int] == self.root@[n as int],
            decreases self.depth@[cur as int],
        {
            match self.parents[cur] {
                None => {
                    return cur;
                },
                Some(q) => {
                    cur = q;
                },
            }
        }
    }

    /// Makes `child` the last child of `parent`.
    ///
    /// The child must be detached, and must not be `parent` itself or one of
    /// its ancestors; nothing changes when the call fails.
    pub fn add_child(&mut self, parent: usize, child: usize) -> (r: Result<(), GraphError>)
        requires
            old(self).wf(),
        ensures
            final(self).wf(),
            final(self).node_count() == old(self).node_count(),
            r == Err::<(), GraphError>(GraphError::NoSuchNode) <==> (parent >= old(self).node_count()
                || child >= old(self).node_count()),
            r == Err::<(), GraphError>(GraphError::AlreadyOwned) <==> (parent < old(self).node_count()
                && child < old(self).node_count() && old(self).parent(child as int) is Some),
            r == Err::<(), GraphError>(GraphError::WouldCycle) <==> (parent < old(self).node_count()
                && child < old(self).node_count() && old(self).parent(child as int) is None
                && old(self).root_of(parent as int) == child),
            r is Ok <==> (parent < old(self).node_count() && child < old(self).node_count()
                && old(self).parent(child as int) is None && old(self).root_of(parent as int)
                != child),
            r is Err ==> *final(self) == *old(self),
            r is Ok ==> {
                &&& final(self).parent(child as int) == Some(parent)
                &&& final(self).children(parent as int) == old(self).children(
                    parent as int,
                ).push(child)
                &&& forall|i: int|
                    0 <= i < old(self).node_count() ==> #[trigger] final(self).node_at(i) == old(self).node_at(
                        i,
                    )
                &&& forall|i: int|
                    0 <= i < old(self).node_count() && i != child ==> #[trigger] final(self).parent(i)
                        == old(self).parent(i)
                &&& forall|i: int|
                    0 <= i < old(self).node_count() && i != parent ==> #[trigger] final(self).children(
                        i,
                    ) == old(self).children(i)
                &&& final(self).subtree(parent as int) == old(self).subtree(parent as int) + old(
                    self,
                ).subtree(child as int)
                &&& forall|i: int|
                    0 <= i < old(self).node_count() ==> #[trigger] final(self).root_of(i) == if old(
                        self,
                    ).root_of(i) == child {
                        old(self).root_of(parent as int)
                    } else {
                        old(self).root_of(i)
                    }
            },
    {
        if parent >= self.nodes.len() || child >= self.nodes.len() {
            return Err(GraphError::NoSuchNode);
        }
        if self.parents[child].is_some() {
            return Err(GraphError::AlreadyOwned);
        }
        let top: usize = self.find_root(parent);
        if top == child {
            return Err(GraphError::WouldCycle);
        }
        let ghost g0 = *self;
        let ghost old_depth = self.depth@;
        let ghost old_root = self.root@;
        let ghost old_bound = self.bound@;
        let ghost old_children = self.children@;
        let ghost old_parents = self.parents@;
        let ghost n = self.nodes@.len();
        let ghost c = child as int;
        let ghost p = parent as int;

        self.parents.set(child, Some(parent));
        let mut list: Vec<usize> = Vec::new();
        self.children.set_and_swap(parent, &mut list);
        list.push(child);
        self.children.set_and_swap(parent, &mut list);
        proof {
            let shift = old_depth[p] + 1;
            self.depth@ = Seq::new(
                n,
                |j: int|
                    if old_root[j] == c {
                        old_depth[j] + shift
                    } else {
                        old_depth[j]
                    },
            );
            self.root@ = Seq::new(
                n,
                |j: int|
                    if old_root[j] == c {
                        old_root[p]
                    } else {
                        old_root[j]
                    },
            );
            self.bound@ = old_bound + old_bound;
            assert(old_root[c] == c);
            assert(old_root[p] != c);
            assert forall|i: int| 0 <= i < n implies #[trigger] self.depth@[i]
                < self.bound@ by {
                assert(old_depth[i] < old_bound);
                assert(old_depth[p] < old_bound);
            }
            assert forall|i: int|
                0 <= i < n && #[trigger] self.parents@[i] is None implies self.depth@[i] == 0
                && self.root@[i] == i by {
                assert(i != c);
                assert(old_parents[i] is None);
            }
            assert forall|i: int| 0 <= i < n && #[trigger] self.parents@[i] is Some implies {
                let q = self.parents@[i]->0 as int;
                &&& q < n
                &&& self.depth@[i] == self.depth@[q] + 1
                &&& self.root@[i] == self.root@[q]
            } by {
                if i != c {
                    assert(old_parents[i] is Some);
                }
            }
            assert forall|q: int, k: int| 0 <= q < n && 0 <= k < self.children@[q]@.len() implies {
                let x = #[trigger] self.children@[q]@[k] as int;
                &&& x < n
                &&& self.parents@[x] is Some
                &&& self.parents@[x]->0 as int == q
            } by {
                if q == p && k == old_children[p]@.len() {
                } else {
                    let x = old_children[q]@[k] as int;
                    assert(old_parents[x] is Some);
                }
            }
            assert forall|m: int| 0 <= m < n && m != p implies #[trigger] self.children(m)
                == g0.children(m) by {}
            assert(self.children(p) =~= g0.children(p).push(child));
            g0.lemma_add_child_order(*self, parent, child);
        }
        Ok(())
    }

    /// Step `i` of `steps` names the step that computes the world transform
    /// of its node's parent, and that step comes earlier.
    pub open spec fn links_to_parent(self, steps: Seq<Step>, i: int) -> bool {
        &&& steps[i].parent_step is Some
        &&& 0 <= steps[i].parent_step->0 < i
        &&& self.parent(steps[i].node as int) == Some(steps[steps[i].parent_step->0 as int].node)
    }

    proof fn lemma_links_kept(self, mid: Seq<Step>, out: Seq<Step>, start: int)
        requires
            mid.len() <= out.len(),
            forall|i: int| 0 <= i < mid.len() ==> #[trigger] out[i] == mid[i],
            forall|i: int| start < i < mid.len() ==> #[trigger] self.links_to_parent(mid, i),
        ensures
            forall|i: int| start < i < mid.len() ==> #[trigger] self.links_to_parent(out, i),
    {
        assert forall|i: int| start < i < mid.len() implies #[trigger] self.links_to_parent(
            out,
            i,
        ) by {
            assert(self.links_to_parent(mid, i));
            let j = mid[i].parent_step->0 as int;
            assert(out[j] == mid[j]);
            assert(out[i] == mid[i]);
        }
    }

    fn collect_steps(&self, n: usize, from: Option<usize>, out: &mut Vec<Step>)
        requires
            self.wf(),
            n < self.node_count(),
            from is Some ==> from->0 < old(out)@.len(),
        ensures
            final(out)@.len() == old(out)@.len() + self.subtree(n as int).len(),
            forall|i: int| 0 <= i < old(out)@.len() ==> #[trigger] final(out)@[i] == old(out)@[i],
            nodes_of(final(out)@) == nodes_of(old(out)@) + self.subtree(n as int),
            final(out)@[old(out)@.len() as int].parent_step == from,
            forall|i: int|
                old(out)@.len() < i < final(out)@.len() ==> #[trigger] self.links_to_parent(
                    final(out)@,
                    i,
                ),
        decreases self.height_left(n as int),
    {
        let ghost before = out@;
        let start: usize = out.len();
        out.push(Step { node: n, parent_step: from });
        proof {
            self.lemma_depth_first(n as int);
            assert(nodes_of(out@) + self.forest(n as int, 0) =~= nodes_of(before) + self.subtree(
                n as int,
            ));
        }
        let mut k: usize = 0;
        while k < self.children[n].len()
            invariant
                self.wf(),
                n < self.node_count(),
                start == before.len(),
                start < out@.len(),
                k <= self.children(n as int).len(),
                forall|i: int| 0 <= i < start ==> #[trigger] out@[i] == before[i],
                out@[start as int] == (Step { node: n, parent_step: from }),
                nodes_of(out@) + self.forest(n as int, k as int) == nodes_of(before) + self.subtree(
                    n as int,
                ),
                forall|i: int| start < i < out@.len() ==> #[trigger] self.links_to_parent(out@, i),
            decreases self.children(n as int).len() - k,
        {
            let c: usize = self.children[n][k];
            let ghost mid = out@;
            proof {
                self.lemma_depth_first(n as int);
                assert(self.parents@[c as int] is Some);
            }
            self.collect_steps(c, Some(start), out);
            proof {
                self.lemma_depth_first(c as int);
                let len_mid = mid.len() as int;
                self.lemma_links_kept(mid, out@, start as int);
                assert(out@[start as int] == mid[start as int]);
                assert(nodes_of(out@)[len_mid] == c);
                assert(self.links_to_parent(out@, len_mid));
                assert(nodes_of(out@) + self.forest(n as int, k + 1) =~= nodes_of(before)
                    + self.subtree(n as int)) by {
                    assert(nodes_of(mid) + (self.subtree(c as int) + self.forest(n as int, k + 1))
                        =~= nodes_of(out@) + self.forest(n as int, k + 1));
                }
            }
            k = k + 1;
        }
        proof {
            self.lemma_depth_first(n as int);
            assert(nodes_of(out@) =~= nodes_of(before) + self.subtree(n as int));
        }
    }

    /// `steps` is a propagation pass over the subtree of `root`: its nodes
    /// depth first, each with the step of its parent. The root's world
    /// transform comes from the caller's inherited transform, every other
    /// node's from its parent's, which is computed earlier in the pass.
    pub open spec fn is_propagation_plan(self, root: int, steps: Seq<Step>) -> bool {
        &&& nodes_of(steps) == self.subtree(root)
        &&& steps.len() > 0
        &&& steps[0].parent_step is None
        &&& forall|i: int| 0 < i < steps.len() ==> #[trigger] self.links_to_parent(steps, i)
    }

    /// A propagation pass is determined by the graph and its root: two passes
    /// over the same tree visit the same nodes in the same order, each fed by
    /// the same parent step.
    pub proof fn lemma_propagation_plan_unique(self, root: int, a: Seq<Step>, b: Seq<Step>)
        requires
            self.wf(),
            0 <= root < self.node_count(),
            self.is_propagation_plan(root, a),
            self.is_propagation_plan(root, b),
        ensures
            a == b,
    {
        self.lemma_subtree_distinct(root);
        let s = self.subtree(root);
        assert(a.len() == s.len() && b.len() == s.len()) by {
            assert(nodes_of(a).len() == a.len());
            assert(nodes_of(b).len() == b.len());
        }
        assert forall|i: int| 0 <= i < a.len() implies a[i] == b[i] by {
            assert(nodes_of(a)[i] == a[i].node);
            assert(nodes_of(b)[i] == b[i].node);
            if i > 0 {
                assert(self.links_to_parent(a, i));
                assert(self.links_to_parent(b, i));
                let ja = a[i].parent_step->0 as int;
                let jb = b[i].parent_step->0 as int;
                assert(nodes_of(a)[ja] == a[ja].node);
                assert(nodes_of(b)[jb] == b[jb].node);
                assert(s[ja] == s[jb]);
            }
        }
        assert(a =~= b);
    }

    /// The propagation pass over the subtree of `root`.
    pub fn propagation_plan(&self, root: usize) -> (r: Vec<Step>)
        requires
            self.wf(),
            root < self.node_count(),
        ensures
            self.is_propagation_plan(root as int, r@),
            nodes_of(r@).no_duplicates(),
    {
        let mut out: Vec<Step> = Vec::new();
        self.collect_steps(root, None, &mut out);
        proof {
            assert(nodes_of(Seq::<Step>::empty()) + self.subtree(root as int) =~= self.subtree(
                root as int,
            ));
            self.lemma_depth_first(root as int);
            self.lemma_subtree_distinct(root as int);
        }
        out
    }
}

} // verus!
