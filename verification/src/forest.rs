//! A collection of trees whose nodes carry data. Each node knows its parent
//! and its first child, and siblings are linked to each other in a circle.

use vstd::prelude::*;

verus! {

/// A node of a `Forest`. It stays meaningful until its tree is deleted.
#[derive(Clone, Copy, Debug, PartialEq, Eq, Hash, Structural)]
pub struct NodeIndex(usize);

impl NodeIndex {
    /// Where the node is kept: nodes made later are kept further on.
    pub closed spec fn slot(self) -> nat {
        self.0 as nat
    }
}

/// The links of a node in a doubly-linked-list representation of a tree.
/// Every node stores its parent (except roots, which have none). Parents
/// store only their first child. Siblings are linked to each other in a circle.
#[derive(Clone, Copy)]
struct Links {
    parent: Option<NodeIndex>,
    /// The first child, if any.
    child: Option<NodeIndex>,
    /// Previous sibling, going in a circle.
    prev: NodeIndex,
    /// Next sibling, going in a circle.
    next: NodeIndex,
}

/// The shape of a forest: the links of each slot (`None` for a deleted
/// node), the stand-in node, and the children and depth of each node.
struct Shape {
    links: Seq<Option<Links>>,
    dummy: NodeIndex,
    kids: Map<NodeIndex, Seq<NodeIndex>>,
    depth: Map<NodeIndex, nat>,
}

impl Shape {
    spec fn live(self, n: NodeIndex) -> bool {
        n.0 < self.links.len() && self.links[n.0 as int] is Some
    }

    spec fn lk(self, n: NodeIndex) -> Links {
        self.links[n.0 as int]->0
    }

    /// Child `k` of `p` is linked to its neighbours and to `p`.
    spec fn sib_ok(self, p: NodeIndex, cs: Seq<NodeIndex>, k: int) -> bool {
        let c = cs[k];
        &&& self.live(c)
        &&& self.lk(c).parent == Some(p)
        &&& self.lk(c).next == cs[succ(k, cs.len() as int)]
        &&& self.lk(c).prev == cs[pred(k, cs.len() as int)]
    }

    /// The children of `p` are linked in a circle, the first one from `p`.
    spec fn ring_ok(self, p: NodeIndex) -> bool {
        let cs = self.kids[p];
        &&& self.lk(p).child == (if cs.len() == 0 {
            None
        } else {
            Some(cs[0])
        })
        &&& cs.no_duplicates()
        &&& forall|k: int| 0 <= k < cs.len() ==> #[trigger] self.sib_ok(p, cs, k)
    }

    /// A node is a lone root, or one of its parent's children one deeper.
    spec fn up_ok(self, n: NodeIndex) -> bool {
        match self.lk(n).parent {
            None => self.lk(n).next == n && self.lk(n).prev == n && self.depth[n] == 0,
            Some(p) => self.live(p) && self.kids[p].contains(n) && self.depth[n] == self.depth[p] + 1,
        }
    }

    /// The links agree with each other and with the children lists and
    /// depths (the stand-in node may be in the middle of a swap).
    spec fn coherent(self) -> bool {
        &&& self.live(self.dummy)
        &&& self.kids[self.dummy].len() == 0
        &&& forall|n: NodeIndex| self.live(n) <==> #[trigger] self.kids.dom().contains(n)
        &&& forall|n: NodeIndex| self.live(n) <==> #[trigger] self.depth.dom().contains(n)
        &&& forall|n: NodeIndex| #[trigger] self.live(n) ==> self.ring_ok(n) && self.up_ok(n)
    }

    /// Coherent, with the stand-in node set aside as a root.
    spec fn wf(self) -> bool {
        &&& self.coherent()
        &&& self.lk(self.dummy).parent is None
    }

    /// The `k`th ancestor of `n` (stopping at a root).
    spec fn anc(self, n: NodeIndex, k: nat) -> NodeIndex
        decreases k,
    {
        if k == 0 {
            n
        } else {
            match self.lk(n).parent {
                Some(p) => self.anc(p, (k - 1) as nat),
                None => n,
            }
        }
    }

    /// `n` is `x` or a descendant of `x`.
    spec fn within(self, n: NodeIndex, x: NodeIndex) -> bool {
        self.depth[n] >= self.depth[x] && self.anc(n, (self.depth[n] - self.depth[x]) as nat) == x
    }

    /// A node below `x` is within `x` exactly when its parent is.
    proof fn lemma_within_step(self, n: NodeIndex, x: NodeIndex)
        requires
            self.coherent(),
            self.live(n),
            self.live(x),
            n != x,
            self.lk(n).parent is Some,
        ensures
            self.within(n, x) == self.within(self.lk(n).parent->0, x),
    {
        let p = self.lk(n).parent->0;
        assert(self.up_ok(n));
        if self.depth[n] > self.depth[x] {
            assert(self.anc(n, (self.depth[n] - self.depth[x]) as nat) == self.anc(
                p,
                (self.depth[p] - self.depth[x]) as nat,
            ));
        }
    }

    /// A root is within only itself.
    proof fn lemma_within_root(self, n: NodeIndex, x: NodeIndex)
        requires
            self.coherent(),
            self.live(n),
            self.lk(n).parent is None,
        ensures
            self.within(n, x) == (n == x),
    {
        assert(self.up_ok(n));
    }
}

/// What a forest holds: for each node, its children in order, its parent,
/// its depth (0 for a root) and its data.
pub struct ForestV<D> {
    pub children: Map<NodeIndex, Seq<NodeIndex>>,
    pub parent: Map<NodeIndex, Option<NodeIndex>>,
    pub depth: Map<NodeIndex, nat>,
    pub data: Map<NodeIndex, D>,
}

/// The `k`th ancestor of `n` (stopping at a root).
pub open spec fn ancestor<D>(v: ForestV<D>, n: NodeIndex, k: nat) -> NodeIndex
    decreases k,
{
    if k == 0 {
        n
    } else {
        match v.parent[n] {
            Some(p) => ancestor(v, p, (k - 1) as nat),
            None => n,
        }
    }
}

/// The root of the tree `n` belongs to.
pub open spec fn root_of<D>(v: ForestV<D>, n: NodeIndex) -> NodeIndex {
    ancestor(v, n, v.depth[n])
}

/// `n` is `x` or a descendant of `x`.
pub open spec fn within<D>(v: ForestV<D>, n: NodeIndex, x: NodeIndex) -> bool {
    v.depth[n] >= v.depth[x] && ancestor(v, n, (v.depth[n] - v.depth[x]) as nat) == x
}

/// The position after `k` in a circle of `n`.
pub open spec fn succ(k: int, n: int) -> int {
    if k + 1 < n {
        k + 1
    } else {
        0
    }
}

/// The position before `k` in a circle of `n`.
pub open spec fn pred(k: int, n: int) -> int {
    if k > 0 {
        k - 1
    } else {
        n - 1
    }
}

/// A collection of trees. Every node in a tree has additional data `D`.
///
/// Deleting the root of a tree deletes all of its nodes.
///
/// The forest keeps parent/child links and sibling links in agreement,
/// accounts for every tree, and has no cycles.
pub struct Forest<D> {
    links: Vec<Option<Links>>,
    /// The data of each node (`None` for a deleted node).
    values: Vec<Option<D>>,
    /// Exists solely for `swap()`: it stands in for a node while the two
    /// nodes change places.
    swap_dummy: NodeIndex,
    /// The children of every node, in order.
    kids: Ghost<Map<NodeIndex, Seq<NodeIndex>>>,
    /// How far every node is from its root.
    depth: Ghost<Map<NodeIndex, nat>>,
}

impl<D> Forest<D> {
    closed spec fn shape(self) -> Shape {
        Shape { links: self.links@, dummy: self.swap_dummy, kids: self.kids@, depth: self.depth@ }
    }

    #[verifier::inline]
    closed spec fn live(self, n: NodeIndex) -> bool {
        self.shape().live(n)
    }

    #[verifier::inline]
    closed spec fn lk(self, n: NodeIndex) -> Links {
        self.shape().lk(n)
    }

    #[verifier::inline]
    closed spec fn sib_ok(self, p: NodeIndex, cs: Seq<NodeIndex>, k: int) -> bool {
        self.shape().sib_ok(p, cs, k)
    }

    #[verifier::inline]
    closed spec fn ring_ok(self, p: NodeIndex) -> bool {
        self.shape().ring_ok(p)
    }

    #[verifier::inline]
    closed spec fn up_ok(self, n: NodeIndex) -> bool {
        self.shape().up_ok(n)
    }

    /// The forest's links agree with each other and with its children lists
    /// and depths, and exactly its nodes have data.
    pub closed spec fn wf(self) -> bool {
        &&& self.shape().wf()
        &&& self.values@.len() == self.links@.len()
        &&& forall|i: int| 0 <= i < self.links@.len() ==> (#[trigger] self.values@[i] is Some) == (
        self.links@[i] is Some)
    }

    /// `n` is a node of the forest (its tree has not been deleted).
    pub closed spec fn valid(self, n: NodeIndex) -> bool {
        self.live(n) && n != self.swap_dummy
    }
}

/// Taking position `k` out of a circle: the node before it now links to the
/// node after it, and every other link is kept.
proof fn lemma_ring_remove(cs: Seq<NodeIndex>, k: int, j: int)
    requires
        0 <= k < cs.len(),
        cs.len() >= 2,
        0 <= j < cs.len() - 1,
    ensures
        ({
            let n = cs.len() as int;
            let r = cs.remove(k);
            let i = if j < k { j } else { j + 1 };
            &&& r[j] == cs[i]
            &&& i == pred(k, n) ==> cs[succ(k, n)] == r[succ(j, n - 1)]
            &&& i != pred(k, n) ==> cs[succ(i, n)] == r[succ(j, n - 1)]
            &&& i == succ(k, n) ==> cs[pred(k, n)] == r[pred(j, n - 1)]
            &&& i != succ(k, n) ==> cs[pred(i, n)] == r[pred(j, n - 1)]
        }),
{
}

/// Putting a node into a circle at position `k`: it links to the nodes
/// around it, they link to it, and every other link is kept.
proof fn lemma_ring_insert(cs: Seq<NodeIndex>, k: int, x: NodeIndex, i: int)
    requires
        0 <= k <= cs.len(),
        cs.len() >= 1,
        0 <= i < cs.len(),
    ensures
        cs.insert(k, x)[k] == x,
        cs.insert(k, x)[if i < k { i } else { i + 1 }] == cs[i],
        cs.insert(k, x)[succ(k, cs.len() + 1 as int)] == (if k < cs.len() { cs[k] } else { cs[0] }),
        cs.insert(k, x)[pred(k, cs.len() + 1 as int)] == cs[pred(k, cs.len() as int)],
        i == pred(k, cs.len() as int) ==> cs.insert(k, x)[succ(
            if i < k { i } else { i + 1 },
            cs.len() + 1 as int,
        )] == x,
        i != pred(k, cs.len() as int) ==> cs.insert(k, x)[succ(
            if i < k { i } else { i + 1 },
            cs.len() + 1 as int,
        )] == cs[succ(i, cs.len() as int)],
        i == (if k < cs.len() { k } else { 0 }) ==> cs.insert(k, x)[pred(
            if i < k { i } else { i + 1 },
            cs.len() + 1 as int,
        )] == x,
        i != (if k < cs.len() { k } else { 0 }) ==> cs.insert(k, x)[pred(
            if i < k { i } else { i + 1 },
            cs.len() + 1 as int,
        )] == cs[pred(i, cs.len() as int)],
{
    let n = cs.len() as int;
    let r = cs.insert(k, x);
    assert(r.len() == n + 1);
    if i < k {
        if i > 0 {
            assert(r[i - 1] == cs[i - 1]);
        } else if k < n {
            assert(r[n] == cs[n - 1]);
        }
        if i + 1 < k {
            assert(r[i + 1] == cs[i + 1]);
        }
    } else {
        assert(r[i + 1] == cs[i]);
        if i > k {
            assert(r[i] == cs[i - 1]);
        }
        if i + 2 < n + 1 {
            assert(r[i + 2] == cs[i + 1]);
        }
    }
    if k > 0 {
        assert(r[k - 1] == cs[k - 1]);
    } else {
        assert(r[n] == cs[n - 1]);
    }
    if k + 1 < n + 1 {
        assert(r[k + 1] == cs[k]);
    } else {
        assert(r[0] == cs[0]);
    }
}

/// Distinct nodes whose positions are all below `m` number at most `m`.
proof fn lemma_distinct_bounded(cs: Seq<NodeIndex>, m: nat)
    requires
        cs.no_duplicates(),
        forall|k: int| 0 <= k < cs.len() ==> (#[trigger] cs[k]).0 < m,
    ensures
        cs.len() <= m,
    decreases m,
{
    if m == 0 {
        if cs.len() > 0 {
            assert(cs[0].0 < 0);
        }
    } else {
        let top = NodeIndex((m - 1) as usize);
        if cs.contains(top) {
            let k = cs.index_of(top);
            let rest = cs.remove(k);
            assert forall|j: int| 0 <= j < rest.len() implies (#[trigger] rest[j]).0 < (m - 1) as nat by {
                let i = if j < k { j } else { j + 1 };
                assert(rest[j] == cs[i]);
                if rest[j].0 == m - 1 {
                    assert(cs[i] == top);
                }
            }
            assert(rest.no_duplicates()) by {
                assert forall|a: int, b: int| 0 <= a < rest.len() && 0 <= b < rest.len() && a != b implies rest[a]
                    != rest[b] by {
                    let ia = if a < k { a } else { a + 1 };
                    let ib = if b < k { b } else { b + 1 };
                    assert(rest[a] == cs[ia] && rest[b] == cs[ib]);
                }
            }
            lemma_distinct_bounded(rest, (m - 1) as nat);
        } else {
            assert forall|j: int| 0 <= j < cs.len() implies (#[trigger] cs[j]).0 < (m - 1) as nat by {
                if cs[j].0 == m - 1 {
                    assert(cs[j] == top);
                }
            }
            lemma_distinct_bounded(cs, (m - 1) as nat);
        }
    }
}

impl Shape {
    /// Taking `x` out of its parent `p`'s children (where it is child `k`)
    /// keeps the shape coherent, when the links change as `unlink` changes them.
    /// `new` is `self` with `x` taken out of its parent `p`'s children, where
    /// it was child `k`, links changed as `unlink` changes them.
    spec fn unlinked(self, new: Shape, x: NodeIndex, p: NodeIndex, k: int) -> bool {
        &&& self.coherent()
        &&& self.live(x)
        &&& self.lk(x).parent == Some(p)
        &&& k == self.kids[p].index_of(x)
        &&& new.links.len() == self.links.len()
        &&& new.dummy == self.dummy
        &&& forall|n: NodeIndex| new.live(n) == self.live(n)
        &&& new.kids == self.kids.insert(p, self.kids[p].remove(k))
        &&& new.depth == Map::new(
            |n: NodeIndex| self.live(n),
            |n: NodeIndex|
                if self.within(n, x) {
                    (self.depth[n] - self.depth[x]) as nat
                } else {
                    self.depth[n]
                },
        )
        &&& forall|n: NodeIndex| #[trigger]
            self.live(n) ==> new.lk(n) == ({
                let cs = self.kids[p];
                let len = cs.len() as int;
                let o = self.lk(n);
                Links {
                    parent: if n == x {
                        None
                    } else {
                        o.parent
                    },
                    child: if n == p {
                        if len == 1 {
                            None
                        } else if k == 0 {
                            Some(cs[1])
                        } else {
                            o.child
                        }
                    } else {
                        o.child
                    },
                    prev: if n == x {
                        x
                    } else if len >= 2 && n == cs[succ(k, len)] {
                        cs[pred(k, len)]
                    } else {
                        o.prev
                    },
                    next: if n == x {
                        x
                    } else if len >= 2 && n == cs[pred(k, len)] {
                        cs[succ(k, len)]
                    } else {
                        o.next
                    },
                }
            })
    }

    proof fn lemma_unlink_coherent(self, new: Shape, x: NodeIndex, p: NodeIndex, k: int)
        requires
            self.unlinked(new, x, p, k),
        ensures
            new.coherent(),
    {
        let cs = self.kids[p];
        let len = cs.len() as int;
        let r = cs.remove(k);
        assert(self.up_ok(x));
        assert(self.ring_ok(p));
        assert(0 <= k < len && cs[k] == x);
        assert(self.sib_ok(p, cs, k));
        assert(p != self.dummy);
        assert forall|n: NodeIndex| new.live(n) <==> #[trigger] new.kids.dom().contains(n) by {
            assert(self.live(n) <==> self.kids.dom().contains(n));
        }
        assert forall|n: NodeIndex| new.live(n) <==> #[trigger] new.depth.dom().contains(n) by {}
        assert(r.no_duplicates()) by {
            assert forall|a: int, b: int| 0 <= a < r.len() && 0 <= b < r.len() && a != b implies r[a]
                != r[b] by {
                let ia = if a < k { a } else { a + 1 };
                let ib = if b < k { b } else { b + 1 };
                assert(r[a] == cs[ia] && r[b] == cs[ib]);
            }
        }
        assert forall|n: NodeIndex| #[trigger] new.live(n) implies new.ring_ok(n) && new.up_ok(n) by {
            assert(self.live(n));
            assert(self.ring_ok(n) && self.up_ok(n));
            // Children lists.
            if n == p {
                assert forall|j: int| 0 <= j < r.len() implies #[trigger] new.sib_ok(p, r, j) by {
                    lemma_ring_remove(cs, k, j);
                    let i = if j < k { j } else { j + 1 };
                    assert(self.sib_ok(p, cs, i));
                    assert(cs[i] != x);
                    if cs[i] == cs[pred(k, len)] {
                        assert(i == pred(k, len));
                    }
                    if cs[i] == cs[succ(k, len)] {
                        assert(i == succ(k, len));
                    }
                }
                if len > 1 && k != 0 {
                    assert(r[0] == cs[0]);
                }
            } else {
                let ns = self.kids[n];
                assert(new.kids[n] == ns);
                assert forall|j: int| 0 <= j < ns.len() implies #[trigger] new.sib_ok(n, ns, j) by {
                    assert(self.sib_ok(n, ns, j));
                    let c = ns[j];
                    assert(c != x);
                    if len >= 2 {
                        assert(self.sib_ok(p, cs, succ(k, len)));
                        assert(self.sib_ok(p, cs, pred(k, len)));
                    }
                }
            }
            // Parents and depths.
            if n == x {
                assert(self.within(x, x));
            } else {
                match self.lk(n).parent {
                    None => {
                        self.lemma_within_root(n, x);
                        if len >= 2 {
                            assert(self.sib_ok(p, cs, succ(k, len)));
                            assert(self.sib_ok(p, cs, pred(k, len)));
                        }
                    },
                    Some(q) => {
                        self.lemma_within_step(n, x);
                        if q == p {
                            let i = cs.index_of(n);
                            assert(cs[i] == n);
                            assert(i != k);
                            let j = if i < k { i } else { i - 1 };
                            assert(r[j] == n);
                        }
                        if self.within(q, x) {
                            assert(self.depth[q] >= self.depth[x]);
                        }
                    },
                }
            }
        }
    }
}

impl Shape {
    /// Putting the root `x` among `p`'s children at position `k` keeps the
    /// shape coherent, when the links change as `fill` changes them.
    /// `new` is `self` with the root `x` put among `p`'s children at
    /// position `k`, links changed as `fill` changes them.
    spec fn linked(self, new: Shape, x: NodeIndex, p: NodeIndex, k: int) -> bool {
        &&& self.coherent()
        &&& self.live(x)
        &&& self.lk(x).parent is None
        &&& self.live(p)
        &&& p != self.dummy
        &&& !self.within(p, x)
        &&& 0 <= k <= self.kids[p].len()
        &&& new.links.len() == self.links.len()
        &&& new.dummy == self.dummy
        &&& forall|n: NodeIndex| new.live(n) == self.live(n)
        &&& new.kids == self.kids.insert(p, self.kids[p].insert(k, x))
        &&& new.depth == Map::new(
            |n: NodeIndex| self.live(n),
            |n: NodeIndex|
                if self.within(n, x) {
                    self.depth[n] + self.depth[p] + 1
                } else {
                    self.depth[n]
                },
        )
        &&& forall|n: NodeIndex| #[trigger]
            self.live(n) ==> new.lk(n) == ({
                let cs = self.kids[p];
                let len = cs.len() as int;
                let o = self.lk(n);
                let before = cs[pred(k, len)];
                let after = if k < len { cs[k] } else { cs[0] };
                Links {
                    parent: if n == x {
                        Some(p)
                    } else {
                        o.parent
                    },
                    child: if n == p && k == 0 {
                        Some(x)
                    } else {
                        o.child
                    },
                    prev: if n == x {
                        if len == 0 {
                            x
                        } else {
                            before
                        }
                    } else if len > 0 && n == after {
                        x
                    } else {
                        o.prev
                    },
                    next: if n == x {
                        if len == 0 {
                            x
                        } else {
                            after
                        }
                    } else if len > 0 && n == before {
                        x
                    } else {
                        o.next
                    },
                }
            })
    }

    /// Facts about the place where `x` is put.
    proof fn lemma_link_basics(self, new: Shape, x: NodeIndex, p: NodeIndex, k: int)
        requires
            self.linked(new, x, p, k),
        ensures
            !self.kids[p].contains(x),
            x != p,
            self.kids[p].insert(k, x).no_duplicates(),
            self.kids[p].len() > 0 ==> self.sib_ok(p, self.kids[p], pred(k, self.kids[p].len() as int))
                && self.sib_ok(
                p,
                self.kids[p],
                if k < self.kids[p].len() {
                    k
                } else {
                    0
                },
            ),
    {
        let cs = self.kids[p];
        let len = cs.len() as int;
        let r = cs.insert(k, x);
        assert(self.up_ok(x));
        assert(self.ring_ok(p));
        assert(!cs.contains(x)) by {
            if cs.contains(x) {
                let i = cs.index_of(x);
                assert(self.sib_ok(p, cs, i));
            }
        }
        assert(x != p) by {
            if x == p {
                assert(self.within(p, x));
            }
        }
        if len > 0 {
            assert(self.sib_ok(p, cs, pred(k, len)));
            assert(self.sib_ok(p, cs, if k < len { k } else { 0 }));
        }
        assert(r.no_duplicates()) by {
            assert forall|a: int, b: int| 0 <= a < r.len() && 0 <= b < r.len() && a != b implies r[a]
                != r[b] by {
                if a != k && b != k {
                    let ia = if a < k { a } else { a - 1 };
                    let ib = if b < k { b } else { b - 1 };
                    assert(r[a] == cs[ia] && r[b] == cs[ib]);
                } else if a == k {
                    let ib = if b < k { b } else { b - 1 };
                    assert(r[b] == cs[ib]);
                } else {
                    let ia = if a < k { a } else { a - 1 };
                    assert(r[a] == cs[ia]);
                }
            }
        }
    }

    /// After `x` is put in, the children of `p` are linked in a circle.
    proof fn lemma_link_ring_p(self, new: Shape, x: NodeIndex, p: NodeIndex, k: int)
        requires
            self.linked(new, x, p, k),
        ensures
            new.ring_ok(p),
    {
        self.lemma_link_basics(new, x, p, k);
        let cs = self.kids[p];
        let len = cs.len() as int;
        let r = cs.insert(k, x);
        let before = cs[pred(k, len)];
        let after = if k < len { cs[k] } else { cs[0] };
        assert(self.ring_ok(p));
        assert(new.kids[p] == r);
        assert forall|j: int| 0 <= j < r.len() implies #[trigger] new.sib_ok(p, r, j) by {
            if len == 0 {
                assert(r =~= seq![x]);
            } else if j == k {
                lemma_ring_insert(cs, k, x, 0);
            } else {
                let i = if j < k { j } else { j - 1 };
                lemma_ring_insert(cs, k, x, i);
                assert(self.sib_ok(p, cs, i));
                assert(cs[i] != x);
                if cs[i] == before {
                    assert(i == pred(k, len));
                }
                if cs[i] == after {
                    assert(i == (if k < len { k } else { 0 }));
                }
            }
        }
        if k != 0 && len > 0 {
            assert(r[0] == cs[0]);
        }
    }

    /// After `x` is put in, every other node's children are linked as before.
    proof fn lemma_link_ring_other(self, new: Shape, x: NodeIndex, p: NodeIndex, k: int, n: NodeIndex)
        requires
            self.linked(new, x, p, k),
            self.live(n),
            n != p,
        ensures
            new.ring_ok(n),
    {
        self.lemma_link_basics(new, x, p, k);
        assert(self.ring_ok(n));
        let ns = self.kids[n];
        assert(new.kids[n] == ns);
        assert forall|j: int| 0 <= j < ns.len() implies #[trigger] new.sib_ok(n, ns, j) by {
            assert(self.sib_ok(n, ns, j));
            assert(ns[j] != x) by {
                assert(self.up_ok(x));
            }
        }
    }

    /// After `x` is put in, every node is a lone root or one deeper than its parent.
    proof fn lemma_link_up(self, new: Shape, x: NodeIndex, p: NodeIndex, k: int, n: NodeIndex)
        requires
            self.linked(new, x, p, k),
            self.live(n),
        ensures
            new.up_ok(n),
    {
        self.lemma_link_basics(new, x, p, k);
        let cs = self.kids[p];
        let r = cs.insert(k, x);
        assert(self.up_ok(n));
        if n == x {
            assert(self.within(x, x));
            assert(r[k] == x);
        } else {
            match self.lk(n).parent {
                None => {
                    self.lemma_within_root(n, x);
                },
                Some(q) => {
                    self.lemma_within_step(n, x);
                    if q == p {
                        let i = cs.index_of(n);
                        assert(cs[i] == n);
                        let j = if i < k { i } else { i + 1 };
                        assert(r[j] == n);
                    }
                },
            }
        }
    }

    /// Putting the root `x` among `p`'s children at position `k` keeps the
    /// shape coherent, when the links change as `fill` changes them.
    proof fn lemma_link_coherent(self, new: Shape, x: NodeIndex, p: NodeIndex, k: int)
        requires
            self.linked(new, x, p, k),
        ensures
            new.coherent(),
    {
        assert forall|n: NodeIndex| new.live(n) <==> #[trigger] new.kids.dom().contains(n) by {
            assert(self.live(n) <==> self.kids.dom().contains(n));
        }
        assert forall|n: NodeIndex| new.live(n) <==> #[trigger] new.depth.dom().contains(n) by {}
        assert forall|n: NodeIndex| #[trigger] new.live(n) implies new.ring_ok(n) && new.up_ok(n) by {
            if n == p {
                self.lemma_link_ring_p(new, x, p, k);
            } else {
                self.lemma_link_ring_other(new, x, p, k, n);
            }
            self.lemma_link_up(new, x, p, k, n);
        }
    }
}

/// A place in a forest where a root node can be put: nowhere (it stays a
/// root), as the only child of `parent`, or among `parent`'s children
/// between `prev` and `next` (first, if `is_first`).
enum Crack {
    Root,
    WithoutSiblings { parent: NodeIndex },
    WithSiblings { parent: NodeIndex, prev: NodeIndex, next: NodeIndex, is_first: bool },
}

/// The crack is position `k` among its parent's children.
spec fn crack_at(sh: Shape, c: Crack, k: int) -> bool {
    match c {
        Crack::Root => true,
        Crack::WithoutSiblings { parent } => sh.live(parent) && parent != sh.dummy
            && sh.kids[parent].len() == 0 && k == 0,
        Crack::WithSiblings { parent, prev, next, is_first } => {
            let cs = sh.kids[parent];
            let len = cs.len() as int;
            &&& sh.live(parent)
            &&& parent != sh.dummy
            &&& 0 < len
            &&& 0 <= k <= len
            &&& prev == cs[pred(k, len)]
            &&& next == (if k < len { cs[k] } else { cs[0] })
            &&& is_first == (k == 0)
        },
    }
}

/// The parent a crack is under, if any.
spec fn crack_parent(c: Crack) -> Option<NodeIndex> {
    match c {
        Crack::Root => None,
        Crack::WithoutSiblings { parent } => Some(parent),
        Crack::WithSiblings { parent, .. } => Some(parent),
    }
}

impl Shape {
    proof fn lemma_anc_root(self, n: NodeIndex, b: nat)
        requires
            self.lk(n).parent is None,
        ensures
            self.anc(n, b) == n,
    {
    }

    /// Going up `a` then `b` steps is going up `a + b` steps.
    proof fn lemma_anc_compose(self, n: NodeIndex, a: nat, b: nat)
        ensures
            self.anc(n, a + b) == self.anc(self.anc(n, a), b),
        decreases a,
    {
        if a > 0 {
            match self.lk(n).parent {
                Some(q) => {
                    self.lemma_anc_compose(q, (a - 1) as nat, b);
                    assert((a + b - 1) as nat == (a - 1) as nat + b);
                },
                None => {
                    self.lemma_anc_root(n, b);
                    self.lemma_anc_root(n, a + b);
                },
            }
        }
    }

    /// Going up `j` steps, at most the depth, reaches a node `j` shallower.
    proof fn lemma_anc_depth(self, n: NodeIndex, j: nat)
        requires
            self.coherent(),
            self.live(n),
            j <= self.depth[n],
        ensures
            self.live(self.anc(n, j)),
            self.depth[self.anc(n, j)] == self.depth[n] - j,
        decreases j,
    {
        if j > 0 {
            assert(self.up_ok(n));
            let q = self.lk(n).parent->0;
            self.lemma_anc_depth(q, (j - 1) as nat);
        }
    }

    /// Going up as far as the depth, or further, reaches the root.
    proof fn lemma_anc_past_depth(self, n: NodeIndex, j: nat)
        requires
            self.coherent(),
            self.live(n),
            j >= self.depth[n],
        ensures
            self.anc(n, j) == self.anc(n, self.depth[n]),
            self.lk(self.anc(n, self.depth[n])).parent is None,
    {
        self.lemma_anc_depth(n, self.depth[n]);
        let r = self.anc(n, self.depth[n]);
        assert(self.up_ok(r));
        if self.lk(r).parent is Some {
            assert(self.depth[r] >= 1);
        }
        self.lemma_anc_compose(n, self.depth[n], (j - self.depth[n]) as nat);
        self.lemma_anc_root(r, (j - self.depth[n]) as nat);
    }

    /// Within is transitive.
    proof fn lemma_within_trans(self, n: NodeIndex, y: NodeIndex, z: NodeIndex)
        requires
            self.within(n, y),
            self.within(y, z),
        ensures
            self.within(n, z),
    {
        self.lemma_anc_compose(
            n,
            (self.depth[n] - self.depth[y]) as nat,
            (self.depth[y] - self.depth[z]) as nat,
        );
        assert((self.depth[n] - self.depth[y]) as nat + (self.depth[y] - self.depth[z]) as nat == (
        self.depth[n] - self.depth[z]) as nat);
    }

    /// A node reached by going up from `n` has `n` within it.
    proof fn lemma_anc_within(self, n: NodeIndex, j: nat)
        requires
            self.coherent(),
            self.live(n),
        ensures
            self.within(n, self.anc(n, j)),
    {
        if j <= self.depth[n] {
            self.lemma_anc_depth(n, j);
            assert((self.depth[n] - self.depth[self.anc(n, j)]) as nat == j);
        } else {
            self.lemma_anc_past_depth(n, j);
            let r = self.anc(n, self.depth[n]);
            self.lemma_anc_depth(n, self.depth[n]);
            assert(self.depth[r] == 0);
        }
    }

    /// Only a node itself is within a node that has no children.
    proof fn lemma_within_childless(self, n: NodeIndex, r: NodeIndex)
        requires
            self.coherent(),
            self.live(n),
            self.live(r),
            self.kids[r].len() == 0,
            self.within(n, r),
        ensures
            n == r,
    {
        if n != r {
            let d = (self.depth[n] - self.depth[r]) as nat;
            if d == 0 {
                assert(self.anc(n, 0) == n);
            } else {
                let m = self.anc(n, (d - 1) as nat);
                self.lemma_anc_depth(n, (d - 1) as nat);
                assert(self.up_ok(m));
                self.lemma_anc_compose(n, (d - 1) as nat, 1);
                assert(((d - 1) as nat + 1) as nat == d);
                let q = self.lk(m).parent->0;
                assert(self.anc(q, 0) == q);
                assert(self.anc(m, 1) == q);
                assert(self.kids[r].contains(m));
            }
        }
    }

    /// Changing the links within `x`'s tree only (as `unlink` and `fill`
    /// do): going up from a node outside `x`'s tree is unchanged.
    proof fn lemma_anc_outside(self, new: Shape, x: NodeIndex, n: NodeIndex, j: nat)
        requires
            self.coherent(),
            self.live(n),
            self.live(x),
            !self.within(n, x),
            forall|m: NodeIndex| #[trigger] self.live(m) && m != x ==> new.lk(m).parent == self.lk(
                m,
            ).parent,
        ensures
            new.anc(n, j) == self.anc(n, j),
        decreases j,
    {
        if j > 0 {
            assert(n != x) by {
                if n == x {
                    assert(self.within(x, x));
                }
            }
            match self.lk(n).parent {
                Some(q) => {
                    self.lemma_within_step(n, x);
                    assert(self.up_ok(n));
                    self.lemma_anc_outside(new, x, q, (j - 1) as nat);
                },
                None => {},
            }
        }
    }

    /// After `x` is taken out or put in, what a node outside `x`'s tree is
    /// within is unchanged.
    proof fn lemma_within_outside(self, new: Shape, x: NodeIndex, n: NodeIndex, y: NodeIndex)
        requires
            self.coherent(),
            self.live(n),
            self.live(x),
            self.live(y),
            !self.within(n, x),
            forall|m: NodeIndex| #[trigger] self.live(m) && m != x ==> new.lk(m).parent == self.lk(
                m,
            ).parent,
            new.depth[n] == self.depth[n],
            !self.within(y, x) ==> new.depth[y] == self.depth[y],
        ensures
            new.within(n, y) == self.within(n, y),
    {
        if self.within(y, x) {
            if self.within(n, y) {
                self.lemma_within_trans(n, y, x);
            }
            if new.within(n, y) {
                let j = (new.depth[n] - new.depth[y]) as nat;
                self.lemma_anc_outside(new, x, n, j);
                self.lemma_anc_within(n, j);
                self.lemma_within_trans(n, y, x);
            }
        } else {
            if self.depth[n] >= self.depth[y] {
                self.lemma_anc_outside(new, x, n, (self.depth[n] - self.depth[y]) as nat);
            }
        }
    }
}

/// The node `c`, with `a` and `b` exchanged.
pub open spec fn swapped(c: NodeIndex, a: NodeIndex, b: NodeIndex) -> NodeIndex {
    if c == a {
        b
    } else if c == b {
        a
    } else {
        c
    }
}

/// The depth of `n` once the subtrees at `a` and `b` have changed places:
/// a node within one of them moves by the difference of their depths.
pub open spec fn swapped_depth<D>(v: ForestV<D>, n: NodeIndex, a: NodeIndex, b: NodeIndex) -> nat {
    if within(v, n, a) {
        (v.depth[n] - v.depth[a] + v.depth[b]) as nat
    } else if within(v, n, b) {
        (v.depth[n] - v.depth[b] + v.depth[a]) as nat
    } else {
        v.depth[n]
    }
}

/// `v1` and `r` are what swapping `node_1` and `node_2` in `v0` gives: if
/// they are the same node, or neither is within the other, the swap is done
/// (`r` is `true`) and the two subtrees have exchanged places; otherwise
/// nothing changes and `r` is `false`.
pub open spec fn swap_done<D>(
    v0: ForestV<D>,
    v1: ForestV<D>,
    node_1: NodeIndex,
    node_2: NodeIndex,
    r: bool,
) -> bool {
    &&& r == (node_1 == node_2 || !(within(v0, node_1, node_2) || within(v0, node_2, node_1)))
    &&& !r || node_1 == node_2 ==> v1 == v0
    &&& v1.data == v0.data
    &&& r && node_1 != node_2 ==> {
        &&& v1.children == Map::new(
            |q: NodeIndex| v0.children.dom().contains(q),
            |q: NodeIndex| v0.children[q].map_values(|c: NodeIndex| swapped(c, node_1, node_2)),
        )
        &&& v1.parent == v0.parent.insert(node_1, v0.parent[node_2]).insert(
            node_2,
            v0.parent[node_1],
        )
        &&& v1.depth == Map::new(
            |n: NodeIndex| v0.children.dom().contains(n),
            |n: NodeIndex| swapped_depth(v0, n, node_1, node_2),
        )
    }
}

/// In a sequence without duplicates, a member's index is where it is.
proof fn lemma_index_of_unique(s: Seq<NodeIndex>, i: int)
    requires
        s.no_duplicates(),
        0 <= i < s.len(),
    ensures
        s.index_of(s[i]) == i,
{
    assert(s.contains(s[i]));
}

/// Taking out position `k` and putting `v` there replaces the item at `k`.
proof fn lemma_remove_insert(s: Seq<NodeIndex>, k: int, v: NodeIndex)
    requires
        0 <= k < s.len(),
    ensures
        s.remove(k).insert(k, v) == s.update(k, v),
{
    assert(s.remove(k).insert(k, v) =~= s.update(k, v));
}

impl Shape {
    /// A node's parent is not within it.
    proof fn lemma_parent_not_within(self, n: NodeIndex)
        requires
            self.coherent(),
            self.live(n),
            self.lk(n).parent is Some,
        ensures
            !self.within(self.lk(n).parent->0, n),
            self.within(n, self.lk(n).parent->0),
    {
        let q = self.lk(n).parent->0;
        assert(self.up_ok(n));
        assert(self.anc(q, 0) == q);
        assert(self.anc(n, 1) == q);
    }
}

impl<D> View for Forest<D> {
    type V = ForestV<D>;

    closed spec fn view(&self) -> ForestV<D> {
        ForestV {
            children: Map::new(|n: NodeIndex| self.valid(n), |n: NodeIndex| self.kids@[n]),
            parent: Map::new(|n: NodeIndex| self.valid(n), |n: NodeIndex| self.lk(n).parent),
            depth: Map::new(|n: NodeIndex| self.valid(n), |n: NodeIndex| self.depth@[n]),
            data: Map::new(|n: NodeIndex| self.valid(n), |n: NodeIndex| self.values@[n.0 as int]->0),
        }
    }
}

impl<D> Forest<D> {
    /// Create a new empty forest. The `dummy_data` is never used.
    pub fn new(dummy_data: D) -> (f: Forest<D>)
        ensures
            f.wf(),
            f@.children =~= Map::empty(),
            f@.parent =~= Map::empty(),
            f@.depth =~= Map::empty(),
            f@.data =~= Map::empty(),
    {
        let swap_dummy = NodeIndex(0);
        let mut links: Vec<Option<Links>> = Vec::new();
        links.push(Some(Links { parent: None, child: None, prev: swap_dummy, next: swap_dummy }));
        let mut values: Vec<Option<D>> = Vec::new();
        values.push(Some(dummy_data));
        let f = Forest {
            links,
            values,
            swap_dummy,
            kids: Ghost(Map::empty().insert(swap_dummy, Seq::empty())),
            depth: Ghost(Map::empty().insert(swap_dummy, 0nat)),
        };
        assert forall|n: NodeIndex| f.live(n) <==> #[trigger] f.kids@.dom().contains(n) by {
            if f.live(n) {
                assert(n.0 == 0);
            }
        }
        assert forall|n: NodeIndex| f.live(n) <==> #[trigger] f.depth@.dom().contains(n) by {
            if f.live(n) {
                assert(n.0 == 0);
            }
        }
        assert forall|n: NodeIndex| #[trigger] f.live(n) implies f.ring_ok(n) && f.up_ok(n) by {
            assert(n.0 == 0);
            assert(n == swap_dummy);
        }
        f
    }
}

impl<D> Forest<D> {
    /// Create a new root node containing the given data.
    pub fn new_node(&mut self, data: D) -> (n: NodeIndex)
        requires
            old(self).wf(),
        ensures
            final(self).wf(),
            !old(self)@.children.dom().contains(n),
            final(self)@.children == old(self)@.children.insert(n, Seq::empty()),
            final(self)@.parent == old(self)@.parent.insert(n, None),
            final(self)@.depth == old(self)@.depth.insert(n, 0),
            final(self)@.data == old(self)@.data.insert(n, data),
            forall|m: NodeIndex| old(self)@.children.dom().contains(m) ==> m.slot() < n.slot(),
    {
        let n = NodeIndex(self.links.len());
        let ghost old_f = *self;
        self.links.push(Some(Links { parent: None, child: None, prev: n, next: n }));
        self.values.push(Some(data));
        proof {
            self.kids@ = self.kids@.insert(n, Seq::empty());
            self.depth@ = self.depth@.insert(n, 0nat);
            assert forall|m: NodeIndex| old_f.live(m) implies self.live(m) && self.lk(m) == old_f.lk(
                m,
            ) && m != n by {
                assert(self.links@[m.0 as int] == old_f.links@[m.0 as int]);
            }
            assert(!old_f.live(n));
            assert forall|m: NodeIndex| self.live(m) <==> #[trigger] self.kids@.dom().contains(m) by {
                if self.live(m) && m != n {
                    assert(self.links@[m.0 as int] == old_f.links@[m.0 as int]);
                }
            }
            assert forall|m: NodeIndex| self.live(m) <==> #[trigger] self.depth@.dom().contains(m) by {
                if self.live(m) && m != n {
                    assert(self.links@[m.0 as int] == old_f.links@[m.0 as int]);
                }
            }
            assert forall|m: NodeIndex| #[trigger] self.live(m) implies self.ring_ok(m) && self.up_ok(m) by {
                if m != n {
                    assert(self.links@[m.0 as int] == old_f.links@[m.0 as int]);
                    assert(old_f.live(m));
                    let cs = self.kids@[m];
                    assert(cs == old_f.kids@[m]);
                    assert forall|k: int| 0 <= k < cs.len() implies #[trigger] self.sib_ok(m, cs, k) by {
                        assert(old_f.sib_ok(m, cs, k));
                    }
                    match self.lk(m).parent {
                        Some(p) => {
                            assert(old_f.live(p));
                        },
                        None => {},
                    }
                }
            }
            assert(self@.children =~= old_f@.children.insert(n, Seq::empty()));
            assert(self@.parent =~= old_f@.parent.insert(n, None));
            assert(self@.depth =~= old_f@.depth.insert(n, 0));
            assert(self@.data =~= old_f@.data.insert(n, self.values@[n.0 as int]->0));
        }
        n
    }
}

/// Where `n` stands among its siblings.
pub open spec fn sibling_pos<D>(v: ForestV<D>, n: NodeIndex) -> int {
    match v.parent[n] {
        Some(p) => v.children[p].index_of(n),
        None => 0,
    }
}

/// The siblings of `n`, itself included (just `n` for a root).
pub open spec fn siblings<D>(v: ForestV<D>, n: NodeIndex) -> Seq<NodeIndex> {
    match v.parent[n] {
        Some(p) => v.children[p],
        None => seq![n],
    }
}

impl<D> Forest<D> {
    /// The links of a node agree with the children lists, seen from the node.
    proof fn lemma_node(self, n: NodeIndex)
        requires
            self.wf(),
            self.live(n),
        ensures
            self.lk(n).parent matches Some(p) ==> {
                let cs = self.kids@[p];
                let k = cs.index_of(n);
                &&& self.live(p)
                &&& p != self.swap_dummy
                &&& 0 <= k < cs.len()
                &&& cs[k] == n
                &&& self.lk(n).next == cs[succ(k, cs.len() as int)]
                &&& self.lk(n).prev == cs[pred(k, cs.len() as int)]
                &&& self.lk(p).child == Some(cs[0])
                &&& self.sib_ok(p, cs, k)
            },
            self.lk(n).parent is None ==> self.lk(n).next == n && self.lk(n).prev == n,
            forall|k: int| 0 <= k < self.kids@[n].len() ==> self.sib_ok(n, self.kids@[n], k),
            self.ring_ok(n),
            self.up_ok(n),
            self.kids@.dom().contains(n),
            self.depth@.dom().contains(n),
            self.kids@[n].len() <= self.links@.len(),
    {
        assert(self.live(n));
        assert forall|k: int| 0 <= k < self.kids@[n].len() implies (#[trigger] self.kids@[n][k]).0
            < self.links@.len() by {
            assert(self.ring_ok(n));
            assert(self.sib_ok(n, self.kids@[n], k));
        }
        lemma_distinct_bounded(self.kids@[n], self.links@.len());
        assert(self.kids@.dom().contains(n));
        assert(self.depth@.dom().contains(n));
        match self.lk(n).parent {
            Some(p) => {
                let cs = self.kids@[p];
                assert(self.ring_ok(p));
                assert(cs.contains(n));
                let k = cs.index_of(n);
                assert(self.sib_ok(p, cs, k));
                if p == self.swap_dummy {
                    assert(cs.len() == 0);
                }
            },
            None => {},
        }
    }

    /// A node of the forest's children are nodes of the forest.
    proof fn lemma_children_valid(self, n: NodeIndex, k: int)
        requires
            self.wf(),
            self.live(n),
            0 <= k < self.kids@[n].len(),
        ensures
            self.valid(self.kids@[n][k]),
            self.lk(self.kids@[n][k]).parent == Some(n),
    {
        self.lemma_node(n);
        assert(self.sib_ok(n, self.kids@[n], k));
        let c = self.kids@[n][k];
        if c == self.swap_dummy {
            assert(self.lk(c).parent is None);
        }
    }

    /// Whether `n` is a node of the forest (its tree has not been deleted).
    pub fn is_valid(&self, n: NodeIndex) -> (b: bool)
        requires
            self.wf(),
        ensures
            b == self@.children.dom().contains(n),
    {
        n.0 < self.links.len() && self.links[n.0].is_some() && n != self.swap_dummy
    }

    /// The parent of `n`, or `None` if it's a root.
    pub fn parent(&self, n: NodeIndex) -> (r: Option<NodeIndex>)
        requires
            self.wf(),
            self@.children.dom().contains(n),
        ensures
            r == self@.parent[n],
    {
        match self.links[n.0] {
            Some(l) => l.parent,
            None => unreached(),
        }
    }

    /// The first child of `n`, or `None` if it has no children.
    pub fn first_child(&self, n: NodeIndex) -> (r: Option<NodeIndex>)
        requires
            self.wf(),
            self@.children.dom().contains(n),
        ensures
            r == (if self@.children[n].len() == 0 {
                None
            } else {
                Some(self@.children[n][0])
            }),
    {
        proof {
            self.lemma_node(n);
        }
        match self.links[n.0] {
            Some(l) => l.child,
            None => unreached(),
        }
    }

    /// The data stored inside `n`.
    pub fn data(&self, n: NodeIndex) -> (r: &D)
        requires
            self.wf(),
            self@.children.dom().contains(n),
        ensures
            *r == self@.data[n],
    {
        match &self.values[n.0] {
            Some(d) => d,
            None => unreached(),
        }
    }
}

impl<D> Forest<D> {
    /// The view of a node of the forest, seen from its links.
    /// The view's maps all have the nodes of the forest as their domain.
    proof fn lemma_view_dom(self)
        ensures
            self@.parent.dom() == self@.children.dom(),
            self@.depth.dom() == self@.children.dom(),
            self@.data.dom() == self@.children.dom(),
    {
        assert(self@.parent.dom() =~= self@.children.dom());
        assert(self@.depth.dom() =~= self@.children.dom());
        assert(self@.data.dom() =~= self@.children.dom());
    }

    proof fn lemma_view_node(self, n: NodeIndex)
        requires
            self.wf(),
            self.valid(n),
        ensures
            self@.children.dom().contains(n),
            self@.parent[n] == self.lk(n).parent,
            self@.children[n] == self.kids@[n],
            self@.depth[n] == self.depth@[n],
            self.lk(n).parent matches Some(p) ==> self.valid(p) && self@.children.dom().contains(p)
                && self@.children[p] == self.kids@[p] && siblings(self@, n) == self.kids@[p]
                && sibling_pos(self@, n) == self.kids@[p].index_of(n) && self@.depth[p]
                == self.depth@[p],
            self.lk(n).parent is None ==> siblings(self@, n) == seq![n] && sibling_pos(self@, n) == 0,
    {
        self.lemma_node(n);
    }

    fn get_next(&self, n: NodeIndex) -> (r: NodeIndex)
        requires
            self.live(n),
        ensures
            r == self.lk(n).next,
    {
        match self.links[n.0] {
            Some(l) => l.next,
            None => unreached(),
        }
    }

    fn get_prev(&self, n: NodeIndex) -> (r: NodeIndex)
        requires
            self.live(n),
        ensures
            r == self.lk(n).prev,
    {
        match self.links[n.0] {
            Some(l) => l.prev,
            None => unreached(),
        }
    }

    fn get_parent(&self, n: NodeIndex) -> (r: Option<NodeIndex>)
        requires
            self.live(n),
        ensures
            r == self.lk(n).parent,
    {
        match self.links[n.0] {
            Some(l) => l.parent,
            None => unreached(),
        }
    }

    fn get_child(&self, n: NodeIndex) -> (r: Option<NodeIndex>)
        requires
            self.live(n),
        ensures
            r == self.lk(n).child,
    {
        match self.links[n.0] {
            Some(l) => l.child,
            None => unreached(),
        }
    }

    /// The root of the tree that `n` belongs to (the node reached by taking
    /// `parent` repeatedly).
    pub fn root(&self, n: NodeIndex) -> (r: NodeIndex)
        requires
            self.wf(),
            self@.children.dom().contains(n),
        ensures
            r == root_of(self@, n),
            self@.children.dom().contains(r),
            self@.parent[r] is None,
    {
        let mut a = n;
        loop
            invariant
                self.wf(),
                self.valid(a),
                root_of(self@, n) == root_of(self@, a),
            decreases self.depth@[a],
        {
            proof {
                self.lemma_view_node(a);
            }
            match self.get_parent(a) {
                Some(p) => {
                    a = p;
                },
                None => {
                    return a;
                },
            }
        }
    }

    /// The `i`th child of `n`, if it has that many.
    pub fn nth_child(&self, n: NodeIndex, i: usize) -> (r: Option<NodeIndex>)
        requires
            self.wf(),
            self@.children.dom().contains(n),
        ensures
            r == (if i < self@.children[n].len() {
                Some(self@.children[n][i as int])
            } else {
                None
            }),
    {
        proof {
            self.lemma_view_node(n);
        }
        let ghost cs = self.kids@[n];
        match self.get_child(n) {
            None => None,
            Some(first) => {
                let mut child = first;
                let mut j: usize = 0;
                while j < i
                    invariant
                        self.wf(),
                        self.live(n),
                        cs == self.kids@[n],
                        cs.len() > 0,
                        first == cs[0],
                        j <= i,
                        j < cs.len(),
                        child == cs[j as int],
                    decreases i - j,
                {
                    proof {
                        self.lemma_node(n);
                        assert(self.sib_ok(n, cs, j as int));
                    }
                    child = self.get_next(child);
                    if child == first {
                        return None;
                    }
                    j = j + 1;
                }
                Some(child)
            },
        }
    }

    /// How many children `n` has.
    pub fn num_children(&self, n: NodeIndex) -> (r: usize)
        requires
            self.wf(),
            self@.children.dom().contains(n),
        ensures
            r == self@.children[n].len(),
    {
        proof {
            self.lemma_view_node(n);
        }
        let ghost cs = self.kids@[n];
        match self.get_child(n) {
            None => 0,
            Some(child) => {
                let total = self.links.len();
                let mut num_children: usize = 1;
                proof {
                    self.lemma_node(n);
                    assert(self.sib_ok(n, cs, 0));
                }
                let mut other_child = self.get_next(child);
                while other_child != child
                    invariant
                        self.wf(),
                        self.live(n),
                        cs == self.kids@[n],
                        cs.len() > 0,
                        child == cs[0],
                        1 <= num_children <= cs.len(),
                        cs.len() <= self.links@.len(),
                        total == self.links@.len(),
                        other_child == (if num_children < cs.len() {
                            cs[num_children as int]
                        } else {
                            cs[0]
                        }),
                    decreases cs.len() - num_children,
                {
                    proof {
                        self.lemma_node(n);
                        assert(self.sib_ok(n, cs, num_children as int));
                    }
                    num_children = num_children + 1;
                    other_child = self.get_next(other_child);
                }
                proof {
                    self.lemma_node(n);
                    if num_children < cs.len() {
                        assert(cs[num_children as int] != cs[0]);
                    }
                }
                num_children
            },
        }
    }

    /// Whether `n` is first among its siblings (true for a root).
    pub fn is_first(&self, n: NodeIndex) -> (b: bool)
        requires
            self.wf(),
            self@.children.dom().contains(n),
        ensures
            b == (sibling_pos(self@, n) == 0),
    {
        proof {
            self.lemma_view_node(n);
            self.lemma_node(n);
        }
        match self.get_parent(n) {
            Some(p) => {
                proof {
                    self.lemma_node(p);
                    let cs = self.kids@[p];
                    let k = cs.index_of(n);
                    if cs[0] == n {
                        assert(k == 0);
                    }
                }
                match self.get_child(p) {
                    Some(c) => c == n,
                    None => unreached(),
                }
            },
            None => true,
        }
    }

    /// Whether `n` is last among its siblings (true for a root).
    pub fn is_last(&self, n: NodeIndex) -> (b: bool)
        requires
            self.wf(),
            self@.children.dom().contains(n),
        ensures
            b == (sibling_pos(self@, n) == siblings(self@, n).len() - 1),
    {
        proof {
            self.lemma_view_node(n);
            self.lemma_node(n);
        }
        match self.get_parent(n) {
            Some(p) => {
                proof {
                    self.lemma_node(p);
                    let cs = self.kids@[p];
                    let k = cs.index_of(n);
                    if succ(k, cs.len() as int) != 0 {
                        assert(cs[succ(k, cs.len() as int)] != cs[0]);
                    }
                }
                let next = self.get_next(n);
                match self.get_child(p) {
                    Some(c) => c == next,
                    None => unreached(),
                }
            },
            None => true,
        }
    }

    /// The sibling before `n`, if any.
    pub fn prev(&self, n: NodeIndex) -> (r: Option<NodeIndex>)
        requires
            self.wf(),
            self@.children.dom().contains(n),
        ensures
            r == (if sibling_pos(self@, n) == 0 {
                None
            } else {
                Some(siblings(self@, n)[sibling_pos(self@, n) - 1])
            }),
    {
        proof {
            self.lemma_view_node(n);
            self.lemma_node(n);
        }
        if self.is_first(n) {
            None
        } else {
            Some(self.get_prev(n))
        }
    }

    /// The sibling after `n`, if any.
    pub fn next(&self, n: NodeIndex) -> (r: Option<NodeIndex>)
        requires
            self.wf(),
            self@.children.dom().contains(n),
        ensures
            r == (if sibling_pos(self@, n) == siblings(self@, n).len() - 1 {
                None
            } else {
                Some(siblings(self@, n)[sibling_pos(self@, n) + 1])
            }),
    {
        proof {
            self.lemma_view_node(n);
            self.lemma_node(n);
        }
        if self.is_last(n) {
            None
        } else {
            Some(self.get_next(n))
        }
    }

    /// The first of `n`'s siblings (which could be itself).
    pub fn first_sibling(&self, n: NodeIndex) -> (r: NodeIndex)
        requires
            self.wf(),
            self@.children.dom().contains(n),
        ensures
            r == siblings(self@, n)[0],
    {
        proof {
            self.lemma_view_node(n);
            self.lemma_node(n);
        }
        match self.get_parent(n) {
            Some(p) => match self.get_child(p) {
                Some(c) => c,
                None => unreached(),
            },
            None => n,
        }
    }

    /// The last of `n`'s siblings (which could be itself).
    pub fn last_sibling(&self, n: NodeIndex) -> (r: NodeIndex)
        requires
            self.wf(),
            self@.children.dom().contains(n),
        ensures
            r == siblings(self@, n).last(),
    {
        proof {
            self.lemma_view_node(n);
            self.lemma_node(n);
        }
        match self.get_parent(n) {
            Some(p) => match self.get_child(p) {
                Some(c) => {
                    proof {
                        self.lemma_node(p);
                        assert(self.sib_ok(p, self.kids@[p], 0));
                    }
                    self.get_prev(c)
                },
                None => unreached(),
            },
            None => n,
        }
    }

    /// Where `n` stands among its siblings, counting from 0.
    pub fn sibling_index(&self, n: NodeIndex) -> (r: usize)
        requires
            self.wf(),
            self@.children.dom().contains(n),
        ensures
            r == sibling_pos(self@, n),
    {
        proof {
            self.lemma_view_node(n);
            self.lemma_node(n);
        }
        let mut sibling = self.first_sibling(n);
        let mut sibling_index: usize = 0;
        let total = self.links.len();
        let ghost sibs = siblings(self@, n);
        let ghost k = sibling_pos(self@, n);
        proof {
            match self.lk(n).parent {
                Some(p) => self.lemma_node(p),
                None => {},
            }
        }
        while sibling != n
            invariant
                self.wf(),
                self.valid(n),
                sibs == siblings(self@, n),
                k == sibling_pos(self@, n),
                0 <= k < sibs.len(),
                sibs[k] == n,
                sibs.no_duplicates(),
                sibling_index <= k,
                sibs.len() <= self.links@.len(),
                total == self.links@.len(),
                sibling == sibs[sibling_index as int],
                self.lk(n).parent matches Some(p) ==> sibs == self.kids@[p] && self.live(p),
                self.lk(n).parent is None ==> sibs == seq![n],
            decreases k - sibling_index,
        {
            proof {
                if sibling_index == k {
                    assert(false);
                }
                match self.lk(n).parent {
                    Some(p) => {
                        self.lemma_node(p);
                        assert(self.sib_ok(p, sibs, sibling_index as int));
                    },
                    None => {},
                }
            }
            sibling = self.get_next(sibling);
            sibling_index = sibling_index + 1;
        }
        proof {
            if sibling_index != k {
                assert(sibs[sibling_index as int] == sibs[k]);
            }
        }
        sibling_index
    }
}

impl<D> Forest<D> {
    /// The data stored inside `n`, to be changed.
    pub fn data_mut(&mut self, n: NodeIndex) -> (r: &mut D)
        requires
            old(self).wf(),
            old(self)@.children.dom().contains(n),
        ensures
            *r == old(self)@.data[n],
            final(self).wf(),
            final(self)@.children == old(self)@.children,
            final(self)@.parent == old(self)@.parent,
            final(self)@.depth == old(self)@.depth,
            final(self)@.data == old(self)@.data.insert(n, *final(r)),
    {
        match &mut self.values[n.0] {
            Some(d) => d,
            None => unreached(),
        }
    }
}

impl<D> Forest<D> {
    /// The data of the forest is kept for exactly its nodes.
    closed spec fn values_ok(self) -> bool {
        &&& self.values@.len() == self.links@.len()
        &&& forall|i: int| 0 <= i < self.links@.len() ==> (#[trigger] self.values@[i] is Some) == (
        self.links@[i] is Some)
    }

    fn read_links(&self, n: NodeIndex) -> (l: Links)
        requires
            self.live(n),
        ensures
            l == self.lk(n),
    {
        match self.links[n.0] {
            Some(l) => l,
            None => unreached(),
        }
    }

    fn set_links(&mut self, n: NodeIndex, l: Links)
        requires
            n.0 < old(self).links@.len(),
        ensures
            final(self).links@ == old(self).links@.update(n.0 as int, Some(l)),
            final(self).values@ == old(self).values@,
            final(self).swap_dummy == old(self).swap_dummy,
            final(self).kids@ == old(self).kids@,
            final(self).depth@ == old(self).depth@,
    {
        self.links.set(n.0, Some(l));
    }

    /// Take `x` out of its parent's children; it becomes the root of a tree
    /// of its own, with its descendants.
    fn unlink(&mut self, x: NodeIndex)
        requires
            old(self).shape().coherent(),
            old(self).values_ok(),
            old(self).live(x),
            old(self).lk(x).parent is Some,
        ensures
            final(self).shape().coherent(),
            final(self).values_ok(),
            final(self).values@ == old(self).values@,
            final(self).swap_dummy == old(self).swap_dummy,
            final(self).links@.len() == old(self).links@.len(),
            forall|n: NodeIndex| final(self).live(n) == old(self).live(n),
            final(self).kids@ == old(self).kids@.insert(
                old(self).lk(x).parent->0,
                old(self).kids@[old(self).lk(x).parent->0].remove(
                    old(self).kids@[old(self).lk(x).parent->0].index_of(x),
                ),
            ),
            final(self).depth@ == Map::new(
                |n: NodeIndex| old(self).live(n),
                |n: NodeIndex|
                    if old(self).shape().within(n, x) {
                        (old(self).depth@[n] - old(self).depth@[x]) as nat
                    } else {
                        old(self).depth@[n]
                    },
            ),
            final(self).lk(x).parent is None,
            forall|n: NodeIndex| #[trigger] old(self).live(n) && n != x ==> final(self).lk(n).parent
                == old(self).lk(n).parent,
            old(self).shape().unlinked(
                final(self).shape(),
                x,
                old(self).lk(x).parent->0,
                old(self).kids@[old(self).lk(x).parent->0].index_of(x),
            ),
    {
        let ghost old_f = *self;
        let ghost sh = old_f.shape();
        let lx = self.read_links(x);
        let p = match lx.parent {
            Some(p) => p,
            None => unreached(),
        };
        let ghost cs = sh.kids[p];
        let ghost len = cs.len() as int;
        let ghost k = cs.index_of(x);
        proof {
            assert(sh.up_ok(x));
            assert(sh.ring_ok(p));
            assert(0 <= k < len && cs[k] == x);
            assert(sh.sib_ok(p, cs, k));
            if len >= 2 {
                assert(cs[succ(k, len)] != x);
                assert(cs[pred(k, len)] != x);
                assert(sh.sib_ok(p, cs, succ(k, len)));
                assert(sh.sib_ok(p, cs, pred(k, len)));
                assert(sh.up_ok(p));
            } else {
                assert(succ(k, len) == k);
            }
        }
        if lx.next == x {
            let mut lp = self.read_links(p);
            lp.child = None;
            self.set_links(p, lp);
        } else {
            let pv = lx.prev;
            let nx = lx.next;
            let mut lpv = self.read_links(pv);
            lpv.next = nx;
            self.set_links(pv, lpv);
            let mut lnx = self.read_links(nx);
            lnx.prev = pv;
            self.set_links(nx, lnx);
            let mut lp = self.read_links(p);
            let is_first = match lp.child {
                Some(c) => c == x,
                None => false,
            };
            if is_first {
                lp.child = Some(nx);
                self.set_links(p, lp);
            }
        }
        let mut lx2 = self.read_links(x);
        lx2.parent = None;
        lx2.prev = x;
        lx2.next = x;
        self.set_links(x, lx2);
        proof {
            self.kids@ = sh.kids.insert(p, cs.remove(k));
            self.depth@ = Map::new(
                |n: NodeIndex| sh.live(n),
                |n: NodeIndex|
                    if sh.within(n, x) {
                        (sh.depth[n] - sh.depth[x]) as nat
                    } else {
                        sh.depth[n]
                    },
            );
            let new = self.shape();
            assert forall|n: NodeIndex| new.live(n) == sh.live(n) by {
                if n.0 < sh.links.len() {
                    assert(new.links[n.0 as int] is Some == sh.links[n.0 as int] is Some);
                }
            }
            sh.lemma_unlink_coherent(new, x, p, k);
            assert forall|i: int| 0 <= i < self.links@.len() implies (#[trigger] self.values@[i] is Some)
                == (self.links@[i] is Some) by {
                assert(old_f.values@[i] is Some == old_f.links@[i] is Some);
            }
        }
    }
}

impl<D> Forest<D> {
    /// Put the root `x` into the crack (position `k` among the crack's
    /// parent's children). A `Root` crack leaves `x` a root.
    fn fill(&mut self, crack: Crack, x: NodeIndex, Ghost(k): Ghost<int>)
        requires
            old(self).shape().coherent(),
            old(self).values_ok(),
            old(self).live(x),
            old(self).lk(x).parent is None,
            crack_at(old(self).shape(), crack, k),
            crack_parent(crack) matches Some(p) ==> !old(self).shape().within(p, x),
        ensures
            final(self).shape().coherent(),
            final(self).values_ok(),
            final(self).values@ == old(self).values@,
            final(self).swap_dummy == old(self).swap_dummy,
            final(self).links@.len() == old(self).links@.len(),
            forall|n: NodeIndex| final(self).live(n) == old(self).live(n),
            crack_parent(crack) is None ==> final(self).shape() == old(self).shape(),
            crack_parent(crack) matches Some(p) ==> {
                &&& final(self).kids@ == old(self).kids@.insert(p, old(self).kids@[p].insert(k, x))
                &&& final(self).depth@ == Map::new(
                    |n: NodeIndex| old(self).live(n),
                    |n: NodeIndex|
                        if old(self).shape().within(n, x) {
                            old(self).depth@[n] + old(self).depth@[p] + 1
                        } else {
                            old(self).depth@[n]
                        },
                )
                &&& final(self).lk(x).parent == Some(p)
                &&& forall|n: NodeIndex| #[trigger] old(self).live(n) && n != x ==> final(self).lk(
                    n,
                ).parent == old(self).lk(n).parent
                &&& old(self).shape().linked(final(self).shape(), x, p, k)
            },
    {
        let ghost old_f = *self;
        let ghost sh = old_f.shape();
        match crack {
            Crack::Root => {},
            Crack::WithoutSiblings { parent } => {
                proof {
                    assert(sh.ring_ok(parent));
                    assert(x != parent) by {
                        if x == parent {
                            assert(sh.within(parent, x));
                        }
                    }
                }
                let mut lx = self.read_links(x);
                lx.parent = Some(parent);
                lx.prev = x;
                lx.next = x;
                self.set_links(x, lx);
                let mut lp = self.read_links(parent);
                lp.child = Some(x);
                self.set_links(parent, lp);
                proof {
                    self.kids@ = sh.kids.insert(parent, sh.kids[parent].insert(k, x));
                    self.depth@ = Map::new(
                        |n: NodeIndex| sh.live(n),
                        |n: NodeIndex|
                            if sh.within(n, x) {
                                sh.depth[n] + sh.depth[parent] + 1
                            } else {
                                sh.depth[n]
                            },
                    );
                    let new = self.shape();
                    assert forall|n: NodeIndex| new.live(n) == sh.live(n) by {
                        if n.0 < sh.links.len() {
                            assert(new.links[n.0 as int] is Some == sh.links[n.0 as int] is Some);
                        }
                    }
                    sh.lemma_link_coherent(new, x, parent, k);
                }
            },
            Crack::WithSiblings { parent, prev, next, is_first } => {
                proof {
                    let cs = sh.kids[parent];
                    let len = cs.len() as int;
                    assert(sh.ring_ok(parent));
                    assert(sh.up_ok(parent));
                    assert(sh.sib_ok(parent, cs, pred(k, len)));
                    assert(sh.sib_ok(parent, cs, if k < len { k } else { 0 }));
                    assert(sh.up_ok(prev));
                    assert(sh.up_ok(next));
                    assert(x != parent) by {
                        if x == parent {
                            assert(sh.within(parent, x));
                        }
                    }
                }
                let mut lx = self.read_links(x);
                lx.parent = Some(parent);
                lx.prev = prev;
                lx.next = next;
                self.set_links(x, lx);
                if is_first {
                    let mut lp = self.read_links(parent);
                    lp.child = Some(x);
                    self.set_links(parent, lp);
                }
                let mut lpv = self.read_links(prev);
                lpv.next = x;
                self.set_links(prev, lpv);
                let mut lnx = self.read_links(next);
                lnx.prev = x;
                self.set_links(next, lnx);
                proof {
                    self.kids@ = sh.kids.insert(parent, sh.kids[parent].insert(k, x));
                    self.depth@ = Map::new(
                        |n: NodeIndex| sh.live(n),
                        |n: NodeIndex|
                            if sh.within(n, x) {
                                sh.depth[n] + sh.depth[parent] + 1
                            } else {
                                sh.depth[n]
                            },
                    );
                    let new = self.shape();
                    assert forall|n: NodeIndex| new.live(n) == sh.live(n) by {
                        if n.0 < sh.links.len() {
                            assert(new.links[n.0 as int] is Some == sh.links[n.0 as int] is Some);
                        }
                    }
                    sh.lemma_link_coherent(new, x, parent, k);
                }
            },
        }
        proof {
            assert forall|i: int| 0 <= i < self.links@.len() implies (#[trigger] self.values@[i] is Some)
                == (self.links@[i] is Some) by {
                assert(old_f.values@[i] is Some == old_f.links@[i] is Some);
            }
        }
    }
}

impl<D> Forest<D> {
    /// Ancestors of nodes of the forest are nodes of the forest, the same
    /// seen from the view or from the links.
    proof fn lemma_view_ancestor(self, n: NodeIndex, k: nat)
        requires
            self.wf(),
            self.valid(n),
        ensures
            ancestor(self@, n, k) == self.shape().anc(n, k),
            self.valid(self.shape().anc(n, k)),
        decreases k,
    {
        self.lemma_node(n);
        if k > 0 {
            match self.lk(n).parent {
                Some(p) => self.lemma_view_ancestor(p, (k - 1) as nat),
                None => {},
            }
        }
    }

    /// Whether one node is within another, seen from the view or from the links.
    proof fn lemma_view_within(self, n: NodeIndex, x: NodeIndex)
        requires
            self.wf(),
            self.valid(n),
            self.valid(x),
        ensures
            within(self@, n, x) == self.shape().within(n, x),
    {
        self.lemma_node(n);
        self.lemma_node(x);
        if self.depth@[n] >= self.depth@[x] {
            self.lemma_view_ancestor(n, (self.depth@[n] - self.depth@[x]) as nat);
        }
    }

    /// After links change around `x` only, the view of the forest is as the
    /// children, parents and depths say.
    proof fn lemma_view_after(self, new: Self, x: NodeIndex)
        requires
            self.wf(),
            new.shape().coherent(),
            new.values_ok(),
            new.values@ == self.values@,
            new.swap_dummy == self.swap_dummy,
            forall|n: NodeIndex| new.live(n) == self.live(n),
            self.valid(x),
            forall|n: NodeIndex| #[trigger] self.live(n) && n != x ==> new.lk(n).parent == self.lk(
                n,
            ).parent,
        ensures
            new.wf(),
            new@.data == self@.data,
            new@.children.dom() == self@.children.dom(),
            new@.parent == self@.parent.insert(x, new.lk(x).parent),
            forall|n: NodeIndex| #[trigger] new@.children.dom().contains(n) ==> new@.children[n]
                == new.kids@[n] && new@.depth[n] == new.depth@[n],
    {
        assert(self.live(self.swap_dummy));
        assert(new.lk(self.swap_dummy).parent == self.lk(self.swap_dummy).parent);
        assert(new@.data =~= self@.data);
        assert(new@.children.dom() =~= self@.children.dom());
        assert(new@.parent =~= self@.parent.insert(x, new.lk(x).parent));
    }

    /// Remove `x` (and its descendants) from its place in the tree, making
    /// it the root of a new tree. Does nothing if `x` is a root.
    pub fn detach(&mut self, x: NodeIndex)
        requires
            old(self).wf(),
            old(self)@.children.dom().contains(x),
        ensures
            final(self).wf(),
            final(self)@.data == old(self)@.data,
            old(self)@.parent[x] is None ==> final(self)@ == old(self)@,
            old(self)@.parent[x] matches Some(p) ==> {
                &&& final(self)@.children == old(self)@.children.insert(
                    p,
                    old(self)@.children[p].remove(old(self)@.children[p].index_of(x)),
                )
                &&& final(self)@.parent == old(self)@.parent.insert(x, None)
                &&& final(self)@.depth == Map::new(
                    |n: NodeIndex| old(self)@.children.dom().contains(n),
                    |n: NodeIndex|
                        if within(old(self)@, n, x) {
                            (old(self)@.depth[n] - old(self)@.depth[x]) as nat
                        } else {
                            old(self)@.depth[n]
                        },
                )
            },
    {
        let ghost old_f = *self;
        proof {
            old_f.lemma_view_node(x);
        }
        if self.get_parent(x).is_some() {
            self.unlink(x);
            proof {
                let p = old_f.lk(x).parent->0;
                old_f.lemma_node(x);
                old_f.lemma_view_after(*self, x);
                assert(self@.children =~= old_f@.children.insert(
                    p,
                    old_f@.children[p].remove(old_f@.children[p].index_of(x)),
                ));
                assert forall|n: NodeIndex| #[trigger] old_f@.children.dom().contains(n) implies within(
                    old_f@,
                    n,
                    x,
                ) == old_f.shape().within(n, x) by {
                    old_f.lemma_view_within(n, x);
                }
                assert(self@.depth =~= Map::new(
                    |n: NodeIndex| old_f@.children.dom().contains(n),
                    |n: NodeIndex|
                        if within(old_f@, n, x) {
                            (old_f@.depth[n] - old_f@.depth[x]) as nat
                        } else {
                            old_f@.depth[n]
                        },
                ));
            }
        }
    }
}

impl<D> Forest<D> {
    /// Put the root `node` at position `k` among the children of `p`, given
    /// the crack for that place.
    fn insert_at(&mut self, crack: Crack, node: NodeIndex, Ghost(p): Ghost<NodeIndex>, Ghost(k): Ghost<int>)
        requires
            old(self).wf(),
            old(self)@.children.dom().contains(node),
            old(self)@.parent[node] is None,
            old(self)@.children.dom().contains(p),
            crack_parent(crack) == Some(p),
            crack_at(old(self).shape(), crack, k),
            !within(old(self)@, p, node),
        ensures
            final(self).wf(),
            final(self)@.data == old(self)@.data,
            final(self)@.children == old(self)@.children.insert(p, old(self)@.children[p].insert(k, node)),
            final(self)@.parent == old(self)@.parent.insert(node, Some(p)),
            final(self)@.depth == Map::new(
                |n: NodeIndex| old(self)@.children.dom().contains(n),
                |n: NodeIndex|
                    if within(old(self)@, n, node) {
                        old(self)@.depth[n] + old(self)@.depth[p] + 1
                    } else {
                        old(self)@.depth[n]
                    },
            ),
    {
        let ghost old_f = *self;
        proof {
            old_f.lemma_view_node(node);
            old_f.lemma_view_node(p);
            old_f.lemma_view_within(p, node);
        }
        self.fill(crack, node, Ghost(k));
        proof {
            old_f.lemma_view_after(*self, node);
            assert(self@.children =~= old_f@.children.insert(p, old_f@.children[p].insert(k, node)));
            assert(self@.parent =~= old_f@.parent.insert(node, Some(p)));
            assert forall|n: NodeIndex| #[trigger] old_f@.children.dom().contains(n) implies within(
                old_f@,
                n,
                node,
            ) == old_f.shape().within(n, node) by {
                old_f.lemma_view_within(n, node);
            }
            assert(self@.depth =~= Map::new(
                |n: NodeIndex| old_f@.children.dom().contains(n),
                |n: NodeIndex|
                    if within(old_f@, n, node) {
                        old_f@.depth[n] + old_f@.depth[p] + 1
                    } else {
                        old_f@.depth[n]
                    },
            ));
        }
    }

    /// Insert the root node `node` before `at`, so that `node` becomes its
    /// previous sibling. `at` must not be a root, nor in `node`'s tree.
    pub fn insert_before(&mut self, at: NodeIndex, node: NodeIndex)
        requires
            old(self).wf(),
            old(self)@.children.dom().contains(at),
            old(self)@.children.dom().contains(node),
            old(self)@.parent[at] is Some,
            old(self)@.parent[node] is None,
            !within(old(self)@, at, node),
        ensures
            final(self).wf(),
            final(self)@.data == old(self)@.data,
            ({
                let p = old(self)@.parent[at]->0;
                let k = sibling_pos(old(self)@, at);
                &&& final(self)@.children == old(self)@.children.insert(
                    p,
                    old(self)@.children[p].insert(k, node),
                )
                &&& final(self)@.parent == old(self)@.parent.insert(node, Some(p))
                &&& final(self)@.depth == Map::new(
                    |n: NodeIndex| old(self)@.children.dom().contains(n),
                    |n: NodeIndex|
                        if within(old(self)@, n, node) {
                            old(self)@.depth[n] + old(self)@.depth[p] + 1
                        } else {
                            old(self)@.depth[n]
                        },
                )
            }),
    {
        proof {
            self.lemma_view_node(at);
            self.lemma_node(at);
            self.lemma_view_within(at, node);
        }
        let p = match self.get_parent(at) {
            Some(p) => p,
            None => unreached(),
        };
        proof {
            self.lemma_node(p);
            self.shape().lemma_within_step(at, node);
            self.lemma_view_within(p, node);
        }
        let prev = self.get_prev(at);
        let is_first = match self.get_child(p) {
            Some(c) => c == at,
            None => false,
        };
        proof {
            let cs = self.kids@[p];
            let k = cs.index_of(at);
            if cs[0] == at {
                assert(k == 0);
            }
        }
        let crack = Crack::WithSiblings { parent: p, prev, next: at, is_first };
        self.insert_at(crack, node, Ghost(p), Ghost(sibling_pos(self@, at)));
    }

    /// Insert the root node `node` after `at`, so that `node` becomes its
    /// next sibling. `at` must not be a root, nor in `node`'s tree.
    pub fn insert_after(&mut self, at: NodeIndex, node: NodeIndex)
        requires
            old(self).wf(),
            old(self)@.children.dom().contains(at),
            old(self)@.children.dom().contains(node),
            old(self)@.parent[at] is Some,
            old(self)@.parent[node] is None,
            !within(old(self)@, at, node),
        ensures
            final(self).wf(),
            final(self)@.data == old(self)@.data,
            ({
                let p = old(self)@.parent[at]->0;
                let k = sibling_pos(old(self)@, at) + 1;
                &&& final(self)@.children == old(self)@.children.insert(
                    p,
                    old(self)@.children[p].insert(k, node),
                )
                &&& final(self)@.parent == old(self)@.parent.insert(node, Some(p))
                &&& final(self)@.depth == Map::new(
                    |n: NodeIndex| old(self)@.children.dom().contains(n),
                    |n: NodeIndex|
                        if within(old(self)@, n, node) {
                            old(self)@.depth[n] + old(self)@.depth[p] + 1
                        } else {
                            old(self)@.depth[n]
                        },
                )
            }),
    {
        proof {
            self.lemma_view_node(at);
            self.lemma_node(at);
            self.lemma_view_within(at, node);
        }
        let p = match self.get_parent(at) {
            Some(p) => p,
            None => unreached(),
        };
        proof {
            self.lemma_node(p);
            self.shape().lemma_within_step(at, node);
            self.lemma_view_within(p, node);
        }
        let next = self.get_next(at);
        let crack = Crack::WithSiblings { parent: p, prev: at, next, is_first: false };
        self.insert_at(crack, node, Ghost(p), Ghost(sibling_pos(self@, at) + 1));
    }

    /// Insert the root node `node` as the first child of `parent`, which
    /// must not be in `node`'s tree.
    pub fn insert_first_child(&mut self, parent: NodeIndex, node: NodeIndex)
        requires
            old(self).wf(),
            old(self)@.children.dom().contains(parent),
            old(self)@.children.dom().contains(node),
            old(self)@.parent[node] is None,
            !within(old(self)@, parent, node),
        ensures
            final(self).wf(),
            final(self)@.data == old(self)@.data,
            final(self)@.children == old(self)@.children.insert(
                parent,
                old(self)@.children[parent].insert(0, node),
            ),
            final(self)@.parent == old(self)@.parent.insert(node, Some(parent)),
            final(self)@.depth == Map::new(
                |n: NodeIndex| old(self)@.children.dom().contains(n),
                |n: NodeIndex|
                    if within(old(self)@, n, node) {
                        old(self)@.depth[n] + old(self)@.depth[parent] + 1
                    } else {
                        old(self)@.depth[n]
                    },
            ),
    {
        proof {
            self.lemma_view_node(parent);
            self.lemma_node(parent);
        }
        let crack = match self.get_child(parent) {
            Some(first) => {
                proof {
                    assert(self.sib_ok(parent, self.kids@[parent], 0));
                }
                Crack::WithSiblings { parent, prev: self.get_prev(first), next: first, is_first: true }
            },
            None => Crack::WithoutSiblings { parent },
        };
        self.insert_at(crack, node, Ghost(parent), Ghost(0));
    }

    /// Insert the root node `node` as the last child of `parent`, which
    /// must not be in `node`'s tree.
    pub fn insert_last_child(&mut self, parent: NodeIndex, node: NodeIndex)
        requires
            old(self).wf(),
            old(self)@.children.dom().contains(parent),
            old(self)@.children.dom().contains(node),
            old(self)@.parent[node] is None,
            !within(old(self)@, parent, node),
        ensures
            final(self).wf(),
            final(self)@.data == old(self)@.data,
            final(self)@.children == old(self)@.children.insert(
                parent,
                old(self)@.children[parent].push(node),
            ),
            final(self)@.parent == old(self)@.parent.insert(node, Some(parent)),
            final(self)@.depth == Map::new(
                |n: NodeIndex| old(self)@.children.dom().contains(n),
                |n: NodeIndex|
                    if within(old(self)@, n, node) {
                        old(self)@.depth[n] + old(self)@.depth[parent] + 1
                    } else {
                        old(self)@.depth[n]
                    },
            ),
    {
        proof {
            self.lemma_view_node(parent);
            self.lemma_node(parent);
        }
        let ghost cs = self.kids@[parent];
        let crack = match self.get_child(parent) {
            Some(first) => {
                proof {
                    assert(self.sib_ok(parent, cs, 0));
                }
                Crack::WithSiblings { parent, prev: self.get_prev(first), next: first, is_first: false }
            },
            None => Crack::WithoutSiblings { parent },
        };
        self.insert_at(crack, node, Ghost(parent), Ghost(cs.len() as int));
        proof {
            assert(cs.insert(cs.len() as int, node) =~= cs.push(node));
        }
    }
}

impl<D> Forest<D> {
    /// Whether `potential_ancestor` is `node` or one of its ancestors.
    fn is_ancestor_of(&self, potential_ancestor: NodeIndex, node: NodeIndex) -> (b: bool)
        requires
            self.shape().coherent(),
            self.live(potential_ancestor),
            self.live(node),
        ensures
            b == self.shape().within(node, potential_ancestor),
    {
        let ghost sh = self.shape();
        if node == potential_ancestor {
            proof {
                assert(sh.anc(node, 0) == node);
            }
            return true;
        }
        let mut ancestor = node;
        loop
            invariant
                sh == self.shape(),
                sh.coherent(),
                sh.live(ancestor),
                sh.live(potential_ancestor),
                ancestor != potential_ancestor,
                sh.within(node, potential_ancestor) == sh.within(ancestor, potential_ancestor),
            decreases sh.depth[ancestor],
        {
            proof {
                assert(sh.up_ok(ancestor));
            }
            match self.get_parent(ancestor) {
                Some(parent) => {
                    proof {
                        sh.lemma_within_step(ancestor, potential_ancestor);
                    }
                    if parent == potential_ancestor {
                        proof {
                            assert(sh.anc(parent, 0) == parent);
                        }
                        return true;
                    }
                    ancestor = parent;
                },
                None => {
                    proof {
                        sh.lemma_within_root(ancestor, potential_ancestor);
                    }
                    return false;
                },
            }
        }
    }

    /// Whether one of the nodes is within the other.
    fn overlaps(&self, node_1: NodeIndex, node_2: NodeIndex) -> (b: bool)
        requires
            self.shape().coherent(),
            self.live(node_1),
            self.live(node_2),
        ensures
            b == (self.shape().within(node_2, node_1) || self.shape().within(node_1, node_2)),
    {
        self.is_ancestor_of(node_1, node_2) || self.is_ancestor_of(node_2, node_1)
    }

    /// Take `x` out of its place, giving the crack it leaves (`Root` if it
    /// was a root, which stays where it is).
    fn take_out(&mut self, x: NodeIndex) -> (crack: Crack)
        requires
            old(self).shape().coherent(),
            old(self).values_ok(),
            old(self).live(x),
        ensures
            final(self).shape().coherent(),
            final(self).values_ok(),
            final(self).values@ == old(self).values@,
            old(self).lk(x).parent is None ==> crack == Crack::Root && final(self).shape() == old(
                self,
            ).shape(),
            old(self).lk(x).parent matches Some(p) ==> {
                let k = old(self).kids@[p].index_of(x);
                &&& crack_parent(crack) == Some(p)
                &&& crack_at(final(self).shape(), crack, k)
                &&& old(self).shape().unlinked(final(self).shape(), x, p, k)
            },
    {
        let ghost sh = self.shape();
        let lx = self.read_links(x);
        match lx.parent {
            None => Crack::Root,
            Some(p) => {
                let ghost cs = sh.kids[p];
                let ghost len = cs.len() as int;
                let ghost k = cs.index_of(x);
                proof {
                    assert(sh.up_ok(x));
                    assert(sh.ring_ok(p));
                    assert(0 <= k < len && cs[k] == x);
                    assert(sh.sib_ok(p, cs, k));
                    if len >= 2 {
                        assert(cs[succ(k, len)] != x);
                    } else {
                        assert(succ(k, len) == k);
                    }
                }
                let crack = if lx.next == x {
                    Crack::WithoutSiblings { parent: p }
                } else {
                    let lp = self.read_links(p);
                    let is_first = match lp.child {
                        Some(c) => c == x,
                        None => false,
                    };
                    proof {
                        if cs[0] == x {
                            assert(k == 0);
                        }
                    }
                    Crack::WithSiblings { parent: p, prev: lx.prev, next: lx.next, is_first }
                };
                self.unlink(x);
                proof {
                    let r = cs.remove(k);
                    assert(self.kids@[p] == r);
                    if len >= 2 {
                        if k > 0 {
                            assert(r[k - 1] == cs[k - 1]);
                        } else {
                            assert(r[len - 2] == cs[len - 1]);
                        }
                        if k < len - 1 {
                            assert(r[k] == cs[k + 1]);
                        } else {
                            assert(r[0] == cs[0]);
                        }
                    }
                }
                crack
            },
        }
    }
}

impl<D> Forest<D> {
    /// The roots of all the trees, in the order their nodes were made.
    pub fn all_roots(&self) -> (r: Vec<NodeIndex>)
        requires
            self.wf(),
        ensures
            forall|n: NodeIndex|
                r@.contains(n) <==> self@.children.dom().contains(n) && self@.parent[n] is None,
            forall|i: int, j: int| 0 <= i < j < r@.len() ==> r@[i].slot() < r@[j].slot(),
    {
        let mut r: Vec<NodeIndex> = Vec::new();
        let mut i: usize = 0;
        while i < self.links.len()
            invariant
                self.wf(),
                i <= self.links@.len(),
                forall|n: NodeIndex|
                    r@.contains(n) <==> n.0 < i && self@.children.dom().contains(n)
                        && self@.parent[n] is None,
                forall|a: int, b: int| 0 <= a < b < r@.len() ==> r@[a].0 < r@[b].0,
                forall|a: int| 0 <= a < r@.len() ==> r@[a].0 < i,
            decreases self.links@.len() - i,
        {
            let n = NodeIndex(i);
            let ghost r0 = r@;
            let take = self.is_valid(n) && self.parent(n).is_none();
            if take {
                r.push(n);
            }
            proof {
                assert forall|m: NodeIndex| r@.contains(m) <==> m.0 < i + 1
                    && self@.children.dom().contains(m) && self@.parent[m] is None by {
                    if m.0 == i {
                        assert(m == n);
                    }
                    if take && m != n {
                        assert(r@.contains(m) ==> r0.contains(m)) by {
                            if r@.contains(m) {
                                let k = r@.index_of(m);
                                assert(r0[k] == m);
                            }
                        }
                        assert(r0.contains(m) ==> r@.contains(m)) by {
                            if r0.contains(m) {
                                let k = r0.index_of(m);
                                assert(r@[k] == m);
                            }
                        }
                    }
                    if take && m == n {
                        assert(r@[r@.len() - 1] == n);
                    }
                }
            }
            i += 1;
        }
        r
    }

    /// The number of nodes in the forest.
    pub fn num_nodes(&self) -> (r: usize)
        requires
            self.wf(),
        ensures
            r == self@.children.dom().len(),
    {
        let mut count: usize = 0;
        let mut i: usize = 0;
        assert(Set::new(|n: NodeIndex| n.0 < i && self@.children.dom().contains(n)) =~= Set::empty());
        while i < self.links.len()
            invariant
                self.wf(),
                i <= self.links@.len(),
                count <= i,
                Set::new(|n: NodeIndex| n.0 < i && self@.children.dom().contains(n)).finite(),
                count == Set::new(|n: NodeIndex| n.0 < i && self@.children.dom().contains(n)).len(),
            decreases self.links@.len() - i,
        {
            let n = NodeIndex(i);
            let ghost before = Set::new(|m: NodeIndex| m.0 < i && self@.children.dom().contains(m));
            let ghost after = Set::new(
                |m: NodeIndex| m.0 < i + 1 && self@.children.dom().contains(m),
            );
            proof {
                assert forall|m: NodeIndex| m.0 == i implies m == n by {}
            }
            if self.is_valid(n) {
                assert(after =~= before.insert(n));
                count += 1;
            } else {
                assert(after =~= before);
            }
            i += 1;
        }
        proof {
            assert forall|n: NodeIndex| self@.children.dom().contains(n) implies n.0 < i by {
                self.lemma_valid_slot(n);
            }
            assert(Set::new(|n: NodeIndex| n.0 < i && self@.children.dom().contains(n))
                =~= self@.children.dom());
        }
        count
    }

    /// A node of the forest has a slot of its own.
    proof fn lemma_valid_slot(self, n: NodeIndex)
        requires
            self.wf(),
            self@.children.dom().contains(n),
        ensures
            n.0 < self.links@.len(),
    {
    }
}

/// `n` is a node of `v` that is not within `root`: it stays when the tree
/// of `root` is deleted.
pub open spec fn outlives<D>(v: ForestV<D>, root: NodeIndex, n: NodeIndex) -> bool {
    v.children.dom().contains(n) && !within(v, n, root)
}

impl<D> Forest<D> {
    /// Delete the tree rooted at `root`: all of its nodes stop being valid,
    /// and the other trees are left as they were.
    pub fn delete_root(&mut self, root: NodeIndex)
        requires
            old(self).wf(),
            old(self)@.children.dom().contains(root),
            old(self)@.parent[root] is None,
        ensures
            final(self).wf(),
            final(self)@.children == Map::new(
                |n: NodeIndex| outlives(old(self)@, root, n),
                |n: NodeIndex| old(self)@.children[n],
            ),
            final(self)@.parent == Map::new(
                |n: NodeIndex| outlives(old(self)@, root, n),
                |n: NodeIndex| old(self)@.parent[n],
            ),
            final(self)@.depth == Map::new(
                |n: NodeIndex| outlives(old(self)@, root, n),
                |n: NodeIndex| old(self)@.depth[n],
            ),
            final(self)@.data == Map::new(
                |n: NodeIndex| outlives(old(self)@, root, n),
                |n: NodeIndex| old(self)@.data[n],
            ),
    {
        let ghost f0 = *self;
        let ghost s0 = self.shape();
        let len = self.links.len();
        // First mark the nodes of the tree, then delete them.
        let mut doomed: Vec<bool> = Vec::new();
        let mut i: usize = 0;
        while i < len
            invariant
                *self == f0,
                s0 == f0.shape(),
                f0.wf(),
                f0.live(root),
                len == f0.links@.len(),
                i <= len,
                doomed@.len() == i,
                forall|j: int|
                    0 <= j < i ==> #[trigger] doomed@[j] == (s0.live(NodeIndex(j as usize))
                        && s0.within(NodeIndex(j as usize), root)),
            decreases len - i,
        {
            let d = match self.links[i] {
                Some(_) => self.is_ancestor_of(root, NodeIndex(i)),
                None => false,
            };
            doomed.push(d);
            i += 1;
        }
        let mut i: usize = 0;
        while i < len
            invariant
                self.swap_dummy == f0.swap_dummy,
                self.kids@ == f0.kids@,
                self.depth@ == f0.depth@,
                self.links@.len() == len,
                self.values@.len() == len,
                len == f0.links@.len(),
                len == f0.values@.len(),
                i <= len,
                doomed@.len() == len,
                forall|j: int|
                    0 <= j < len ==> #[trigger] doomed@[j] == (s0.live(NodeIndex(j as usize))
                        && s0.within(NodeIndex(j as usize), root)),
                forall|j: int|
                    0 <= j < len ==> #[trigger] self.links@[j] == (if j < i && doomed@[j] {
                        None
                    } else {
                        f0.links@[j]
                    }),
                forall|j: int|
                    0 <= j < len ==> #[trigger] self.values@[j] == (if j < i && doomed@[j] {
                        None
                    } else {
                        f0.values@[j]
                    }),
            decreases len - i,
        {
            if doomed[i] {
                self.links.set(i, None);
                self.values.set(i, None);
            }
            i += 1;
        }
        proof {
            let keep = Set::new(|n: NodeIndex| s0.live(n) && !s0.within(n, root));
            self.kids@ = f0.kids@.restrict(keep);
            self.depth@ = f0.depth@.restrict(keep);
            lemma_delete_tree(f0, *self, root);
        }
    }
}

/// After the nodes within `root` are taken out of the forest, it is whole,
/// and holds the other nodes as before.
proof fn lemma_delete_tree<D>(f0: Forest<D>, f1: Forest<D>, root: NodeIndex)
    requires
        f0.wf(),
        f0.valid(root),
        f0.lk(root).parent is None,
        f1.swap_dummy == f0.swap_dummy,
        f1.links@.len() == f0.links@.len(),
        f1.values@.len() == f0.values@.len(),
        forall|j: int|
            0 <= j < f0.links@.len() ==> #[trigger] f1.links@[j] == (if f0.live(NodeIndex(j as usize))
                && f0.shape().within(NodeIndex(j as usize), root) {
                None
            } else {
                f0.links@[j]
            }),
        forall|j: int|
            0 <= j < f0.links@.len() ==> #[trigger] f1.values@[j] == (if f0.live(
                NodeIndex(j as usize),
            ) && f0.shape().within(NodeIndex(j as usize), root) {
                None
            } else {
                f0.values@[j]
            }),
        f1.kids@ == f0.kids@.restrict(
            Set::new(|n: NodeIndex| f0.live(n) && !f0.shape().within(n, root)),
        ),
        f1.depth@ == f0.depth@.restrict(
            Set::new(|n: NodeIndex| f0.live(n) && !f0.shape().within(n, root)),
        ),
    ensures
        f1.wf(),
        f1@.children == Map::new(
            |n: NodeIndex| outlives(f0@, root, n),
            |n: NodeIndex| f0@.children[n],
        ),
        f1@.parent == Map::new(
            |n: NodeIndex| outlives(f0@, root, n),
            |n: NodeIndex| f0@.parent[n],
        ),
        f1@.depth == Map::new(|n: NodeIndex| outlives(f0@, root, n), |n: NodeIndex| f0@.depth[n]),
        f1@.data == Map::new(|n: NodeIndex| outlives(f0@, root, n), |n: NodeIndex| f0@.data[n]),
{
    let s0 = f0.shape();
    let s1 = f1.shape();
    // A node stays exactly when it is live and not within the tree.
    assert forall|n: NodeIndex| #[trigger] s1.live(n) == (s0.live(n) && !s0.within(n, root)) by {
        if n.0 < f0.links@.len() {
            assert(n == NodeIndex(n.0 as usize));
            assert(f1.links@[n.0 as int] == (if s0.live(n) && s0.within(n, root) {
                None
            } else {
                f0.links@[n.0 as int]
            }));
        }
    }
    assert forall|n: NodeIndex| #[trigger] s1.live(n) implies s1.lk(n) == s0.lk(n) by {
        assert(n == NodeIndex(n.0 as usize));
        assert(f1.links@[n.0 as int] == f0.links@[n.0 as int]);
    }
    let dummy = s0.dummy;
    assert(s0.up_ok(dummy));
    s0.lemma_within_root(dummy, root);
    assert(s1.live(dummy));
    assert forall|n: NodeIndex| #[trigger] s1.live(n) implies s1.ring_ok(n) && s1.up_ok(n) by {
        assert(s0.ring_ok(n) && s0.up_ok(n));
        let cs = s0.kids[n];
        assert(s1.kids[n] == cs);
        assert forall|k: int| 0 <= k < cs.len() implies #[trigger] s1.sib_ok(n, cs, k) by {
            assert(s0.sib_ok(n, cs, k));
            let c = cs[k];
            if c == root {
                assert(s0.up_ok(root));
            }
            s0.lemma_within_step(c, root);
            assert(s1.live(c));
        }
        match s0.lk(n).parent {
            Some(p) => {
                if n == root {
                    assert(s0.anc(root, 0) == root);
                }
                s0.lemma_within_step(n, root);
                assert(s1.live(p));
            },
            None => {},
        }
    }
    assert(s1.coherent());
    assert forall|i: int| 0 <= i < f1.links@.len() implies (#[trigger] f1.values@[i] is Some) == (
    f1.links@[i] is Some) by {
        assert(f1.links@[i] == (if f0.live(NodeIndex(i as usize)) && s0.within(
            NodeIndex(i as usize),
            root,
        ) {
            None
        } else {
            f0.links@[i]
        }));
        assert(f1.values@[i] == (if f0.live(NodeIndex(i as usize)) && s0.within(
            NodeIndex(i as usize),
            root,
        ) {
            None
        } else {
            f0.values@[i]
        }));
    }
    assert forall|n: NodeIndex| #[trigger] f0@.children.dom().contains(n) implies (outlives(
        f0@,
        root,
        n,
    ) == f1.valid(n)) by {
        f0.lemma_view_within(n, root);
    }
    assert forall|n: NodeIndex| f1.valid(n) implies f0.valid(n) && #[trigger] f1.values@[n.0 as int]
        == f0.values@[n.0 as int] by {
        assert(n == NodeIndex(n.0 as usize));
    }
    assert(f1@.children =~= Map::new(
        |n: NodeIndex| outlives(f0@, root, n),
        |n: NodeIndex| f0@.children[n],
    ));
    assert(f1@.parent =~= Map::new(
        |n: NodeIndex| outlives(f0@, root, n),
        |n: NodeIndex| f0@.parent[n],
    ));
    assert(f1@.depth =~= Map::new(
        |n: NodeIndex| outlives(f0@, root, n),
        |n: NodeIndex| f0@.depth[n],
    ));
    assert(f1@.data =~= Map::new(
        |n: NodeIndex| outlives(f0@, root, n),
        |n: NodeIndex| f0@.data[n],
    ));
}

impl<D> Forest<D> {
    /// Swap the positions of two nodes (and their descendants). The two
    /// nodes may be in the same tree or in different trees, but they must
    /// not overlap: neither may be within the other, unless they are the
    /// same node, which is a no-op. If they overlap, returns `false` and
    /// does nothing.
    #[verifier::spinoff_prover]
    #[verifier::rlimit(40)]
    pub fn swap(&mut self, node_1: NodeIndex, node_2: NodeIndex) -> (r: bool)
        requires
            old(self).wf(),
            old(self)@.children.dom().contains(node_1),
            old(self)@.children.dom().contains(node_2),
        ensures
            final(self).wf(),
            r == (node_1 == node_2 || !(within(old(self)@, node_1, node_2) || within(
                old(self)@,
                node_2,
                node_1,
            ))),
            !r || node_1 == node_2 ==> final(self)@ == old(self)@,
            final(self)@.data == old(self)@.data,
            r && node_1 != node_2 ==> {
                &&& final(self)@.children == Map::new(
                    |q: NodeIndex| old(self)@.children.dom().contains(q),
                    |q: NodeIndex|
                        old(self)@.children[q].map_values(
                            |c: NodeIndex| swapped(c, node_1, node_2),
                        ),
                )
                &&& final(self)@.parent == old(self)@.parent.insert(
                    node_1,
                    old(self)@.parent[node_2],
                ).insert(node_2, old(self)@.parent[node_1])
                &&& final(self)@.depth == Map::new(
                    |n: NodeIndex| old(self)@.children.dom().contains(n),
                    |n: NodeIndex| swapped_depth(old(self)@, n, node_1, node_2),
                )
            },
    {
        if node_1 == node_2 {
            return true;
        }
        let ghost f0 = *self;
        let ghost s0 = self.shape();
        proof {
            f0.lemma_view_within(node_1, node_2);
            f0.lemma_view_within(node_2, node_1);
            f0.lemma_node(node_1);
            f0.lemma_node(node_2);
        }
        if self.overlaps(node_1, node_2) {
            return false;
        }
        let dummy = self.swap_dummy;
        let ghost p1 = s0.lk(node_1).parent;
        let ghost p2 = s0.lk(node_2).parent;
        let ghost k1 = match p1 {
            Some(p) => s0.kids[p].index_of(node_1),
            None => 0,
        };
        proof {
            assert(s0.live(dummy));
            assert(s0.up_ok(dummy));
            assert(node_1 != dummy && node_2 != dummy);
            match p1 {
                Some(p) => {
                    s0.lemma_parent_not_within(node_1);
                    assert(p != dummy);
                },
                None => {},
            }
            match p2 {
                Some(p) => {
                    s0.lemma_parent_not_within(node_2);
                    assert(p != dummy);
                },
                None => {},
            }
        }
        // Put the dummy in node_1's place.
        let crack_1 = self.take_out(node_1);
        let ghost s1 = self.shape();
        proof {
            assert(s1.live(dummy) && s1.lk(dummy).parent is None);
            assert(s1.kids[dummy].len() == 0);
            match p1 {
                Some(p) => {
                    if s1.within(p, dummy) {
                        s1.lemma_within_childless(p, dummy);
                    }
                },
                None => {},
            }
        }
        self.fill(crack_1, dummy, Ghost(k1));
        let ghost s2 = self.shape();
        proof {
            assert(s2.lk(node_2).parent == p2);
            assert(s2.lk(node_1).parent is None);
            assert(s2.live(node_2));
        }
        // Put node_1 in node_2's place.
        let ghost k2 = match p2 {
            Some(p) => s2.kids[p].index_of(node_2),
            None => 0,
        };
        let crack_2 = self.take_out(node_2);
        let ghost s3 = self.shape();
        proof {
            match p2 {
                Some(p) => {
                    lemma_swap_step_2(s0, s1, s2, s3, node_1, node_2, p);
                },
                None => {},
            }
            assert(s3.lk(node_1).parent is None);
        }
        self.fill(crack_2, node_1, Ghost(k2));
        let ghost s4 = self.shape();
        // Put node_2 in the dummy's place, which was node_1's.
        let ghost kb = match p1 {
            Some(p) => s4.kids[p].index_of(dummy),
            None => 0,
        };
        proof {
            assert(s4.lk(dummy).parent == p1);
        }
        let crack_1_again = self.take_out(dummy);
        let ghost s5 = self.shape();
        proof {
            assert(s5.lk(node_2).parent is None);
            match p1 {
                Some(p) => {
                    lemma_swap_step_3(s0, s1, s2, s3, s4, s5, node_1, node_2, p);
                },
                None => {},
            }
        }
        self.fill(crack_1_again, node_2, Ghost(kb));
        proof {
            let s6 = self.shape();
            lemma_swap_children(s0, s1, s2, s3, s4, s5, s6, node_1, node_2);
            lemma_swap_parents(s0, s1, s2, s3, s4, s5, s6, node_1, node_2);
            lemma_swap_view(f0, *self, node_1, node_2);
            assert(self@.children.dom() =~= f0@.children.dom());
            lemma_swap_depths(f0, *self, node_1, node_2);
        }
        true
    }
}

/// The view after a swap, from what the swap did to the shape.
proof fn lemma_swap_view<D>(f0: Forest<D>, f6: Forest<D>, node_1: NodeIndex, node_2: NodeIndex)
    requires
        f0.shape().coherent(),
        f0.live(node_1),
        f0.live(node_2),
        node_1 != f0.swap_dummy,
        node_2 != f0.swap_dummy,
        f6.swap_dummy == f0.swap_dummy,
        f6.values@ == f0.values@,
        f6.links@.len() == f0.links@.len(),
        forall|n: NodeIndex| f6.live(n) == f0.live(n),
        forall|q: NodeIndex| #[trigger] f0.live(q) ==> f6.kids@[q] == f0.kids@[q].map_values(
            |c: NodeIndex| swapped(c, node_1, node_2),
        ),
        forall|n: NodeIndex| #[trigger]
            f0.live(n) ==> f6.lk(n).parent == (if n == node_1 {
                f0.lk(node_2).parent
            } else if n == node_2 {
                f0.lk(node_1).parent
            } else {
                f0.lk(n).parent
            }),
    ensures
        f6@.data == f0@.data,
        f6@.parent == f0@.parent.insert(node_1, f0@.parent[node_2]).insert(
            node_2,
            f0@.parent[node_1],
        ),
        f6@.children == Map::new(
            |q: NodeIndex| f0@.children.dom().contains(q),
            |q: NodeIndex| f0@.children[q].map_values(|c: NodeIndex| swapped(c, node_1, node_2)),
        ),
{
    assert(f6@.data =~= f0@.data);
    assert(f6@.parent =~= f0@.parent.insert(node_1, f0@.parent[node_2]).insert(
        node_2,
        f0@.parent[node_1],
    ));
    assert(f6@.children =~= Map::new(
        |q: NodeIndex| f0@.children.dom().contains(q),
        |q: NodeIndex| f0@.children[q].map_values(|c: NodeIndex| swapped(c, node_1, node_2)),
    ));
}

/// A step up from a node other than `x` stays within `x` exactly when the
/// node is within `x`; a root is within only itself.
proof fn lemma_view_within_step<D>(f: Forest<D>, n: NodeIndex, x: NodeIndex)
    requires
        f.wf(),
        f@.children.dom().contains(n),
        f@.children.dom().contains(x),
    ensures
        within(f@, x, x),
        f@.parent[n] is None ==> (within(f@, n, x) == (n == x)),
        f@.parent[n] matches Some(p) ==> (n != x ==> f@.children.dom().contains(p) && within(
            f@,
            n,
            x,
        ) == within(f@, p, x)),
{
    f.lemma_view_node(n);
    f.lemma_view_within(n, x);
    f.lemma_view_within(x, x);
    if f@.parent[n] is None {
        f.shape().lemma_within_root(n, x);
    } else if n != x {
        let p = f@.parent[n]->0;
        f.lemma_view_within(p, x);
        f.shape().lemma_within_step(n, x);
    }
}

/// In a forest, the depths follow from the parents: a map that gives each
/// root zero and each child one more than its parent gives every node its
/// depth.
proof fn lemma_depth_unique<D>(f: Forest<D>, d: Map<NodeIndex, nat>, n: NodeIndex)
    requires
        f.wf(),
        f@.children.dom().contains(n),
        forall|m: NodeIndex| #[trigger]
            f@.children.dom().contains(m) ==> match f@.parent[m] {
                None => d[m] == 0,
                Some(p) => d[m] == d[p] + 1,
            },
    ensures
        d[n] == f@.depth[n],
    decreases f@.depth[n],
{
    lemma_parents_and_children_agree(f, n, n);
    match f@.parent[n] {
        Some(p) => {
            lemma_parents_and_children_agree(f, n, p);
            lemma_depth_unique(f, d, p);
        },
        None => {},
    }
}

/// The parent of a node `a`, when neither of `a` and `b` is within the
/// other, is within neither.
proof fn lemma_parent_outside<D>(f0: Forest<D>, a: NodeIndex, b: NodeIndex)
    requires
        f0.wf(),
        f0@.children.dom().contains(a),
        f0@.children.dom().contains(b),
        a != b,
        !within(f0@, a, b),
        !within(f0@, b, a),
    ensures
        f0@.parent[a] matches Some(q) ==> {
            &&& f0@.children.dom().contains(q)
            &&& !within(f0@, q, a)
            &&& !within(f0@, q, b)
            &&& f0@.depth[a] == f0@.depth[q] + 1
        },
{
    let v = f0@;
    match v.parent[a] {
        Some(q) => {
            lemma_parents_and_children_agree(f0, a, a);
            lemma_parents_and_children_agree(f0, a, q);
            lemma_view_within_step(f0, a, a);
            lemma_view_within_step(f0, a, b);
            if within(v, q, a) {
                f0.lemma_view_within(q, a);
                f0.lemma_view_node(a);
                f0.lemma_view_node(q);
            }
        },
        None => {},
    }
}

/// The depths after a swap: the nodes within each of the two move by the
/// difference of their depths.
proof fn lemma_swap_depths<D>(f0: Forest<D>, f6: Forest<D>, node_1: NodeIndex, node_2: NodeIndex)
    requires
        f0.wf(),
        f6.wf(),
        f0@.children.dom().contains(node_1),
        f0@.children.dom().contains(node_2),
        node_1 != node_2,
        !within(f0@, node_1, node_2),
        !within(f0@, node_2, node_1),
        f6@.children.dom() == f0@.children.dom(),
        f6@.parent == f0@.parent.insert(node_1, f0@.parent[node_2]).insert(
            node_2,
            f0@.parent[node_1],
        ),
    ensures
        f6@.depth == Map::new(
            |n: NodeIndex| f0@.children.dom().contains(n),
            |n: NodeIndex| swapped_depth(f0@, n, node_1, node_2),
        ),
{
    let v = f0@;
    let d = Map::new(
        |n: NodeIndex| v.children.dom().contains(n),
        |n: NodeIndex| swapped_depth(v, n, node_1, node_2),
    );
    lemma_parent_outside(f0, node_1, node_2);
    lemma_parent_outside(f0, node_2, node_1);
    assert forall|m: NodeIndex| #[trigger] f6@.children.dom().contains(m) implies match f6@.parent[m] {
        None => d[m] == 0,
        Some(p) => d[m] == d[p] + 1,
    } by {
        lemma_view_within_step(f0, m, node_1);
        lemma_view_within_step(f0, m, node_2);
        lemma_parents_and_children_agree(f0, m, m);
        if m == node_1 {
            match v.parent[node_2] {
                Some(q) => {
                    assert(v.parent[node_2] matches Some(q2));
                },
                None => {
                    lemma_parents_and_children_agree(f0, node_2, node_2);
                },
            }
        } else if m == node_2 {
            match v.parent[node_1] {
                Some(q) => {
                    assert(v.parent[node_1] matches Some(q1));
                },
                None => {
                    lemma_parents_and_children_agree(f0, node_1, node_1);
                },
            }
        } else {
            match v.parent[m] {
                Some(p) => {
                    lemma_parents_and_children_agree(f0, m, p);
                    lemma_view_within_step(f0, p, node_1);
                    lemma_view_within_step(f0, p, node_2);
                },
                None => {},
            }
        }
    }
    assert forall|n: NodeIndex| f6@.children.dom().contains(n) implies #[trigger] f6@.depth[n]
        == d[n] by {
        lemma_depth_unique(f6, d, n);
    }
    assert(f6@.depth =~= d);
}

/// The parents after a swap: `node_1` and `node_2` exchanged theirs.
proof fn lemma_swap_parents(
    s0: Shape,
    s1: Shape,
    s2: Shape,
    s3: Shape,
    s4: Shape,
    s5: Shape,
    s6: Shape,
    node_1: NodeIndex,
    node_2: NodeIndex,
)
    requires
        s0.coherent(),
        s0.live(node_1),
        s0.live(node_2),
        node_1 != node_2,
        node_1 != s0.dummy,
        node_2 != s0.dummy,
        s0.lk(s0.dummy).parent is None,
        s0.lk(node_1).parent is None ==> s1 == s0 && s2 == s1,
        s0.lk(node_1).parent matches Some(p1) ==> s0.unlinked(
            s1,
            node_1,
            p1,
            s0.kids[p1].index_of(node_1),
        ) && s1.linked(s2, s0.dummy, p1, s0.kids[p1].index_of(node_1)),
        s0.lk(node_2).parent is None ==> s3 == s2 && s4 == s3,
        s0.lk(node_2).parent matches Some(p2) ==> s2.unlinked(
            s3,
            node_2,
            p2,
            s2.kids[p2].index_of(node_2),
        ) && s3.linked(s4, node_1, p2, s2.kids[p2].index_of(node_2)),
        s0.lk(node_1).parent is None ==> s5 == s4 && s6 == s5,
        s0.lk(node_1).parent matches Some(p1) ==> s4.unlinked(
            s5,
            s0.dummy,
            p1,
            s4.kids[p1].index_of(s0.dummy),
        ) && s5.linked(s6, node_2, p1, s4.kids[p1].index_of(s0.dummy)),
    ensures
        forall|n: NodeIndex| #[trigger]
            s0.live(n) ==> s6.lk(n).parent == (if n == node_1 {
                s0.lk(node_2).parent
            } else if n == node_2 {
                s0.lk(node_1).parent
            } else {
                s0.lk(n).parent
            }),
{
    assert forall|n: NodeIndex| #[trigger] s0.live(n) implies s6.lk(n).parent == (if n
        == node_1 {
        s0.lk(node_2).parent
    } else if n == node_2 {
        s0.lk(node_1).parent
    } else {
        s0.lk(n).parent
    }) by {
        assert(s1.live(n) && s2.live(n) && s3.live(n) && s4.live(n) && s5.live(n));
    }
}

/// In the middle of a swap: `node_2`'s parent is not within `node_1`.
proof fn lemma_swap_step_2(
    s0: Shape,
    s1: Shape,
    s2: Shape,
    s3: Shape,
    node_1: NodeIndex,
    node_2: NodeIndex,
    p: NodeIndex,
)
    requires
        s0.coherent(),
        s0.live(node_1),
        s0.live(node_2),
        node_1 != node_2,
        node_1 != s0.dummy,
        node_2 != s0.dummy,
        s0.lk(node_2).parent == Some(p),
        !s0.within(node_1, node_2),
        !s0.within(node_2, node_1),
        s0.lk(s0.dummy).parent is None,
        s0.lk(node_1).parent is None ==> s1 == s0 && s2 == s1,
        s0.lk(node_1).parent matches Some(p1) ==> s0.unlinked(
            s1,
            node_1,
            p1,
            s0.kids[p1].index_of(node_1),
        ) && s1.linked(s2, s0.dummy, p1, s0.kids[p1].index_of(node_1)),
        s2.unlinked(s3, node_2, p, s2.kids[p].index_of(node_2)),
    ensures
        !s3.within(p, node_1),
{
    let dummy = s0.dummy;
    s0.lemma_parent_not_within(node_2);
    assert(s0.up_ok(node_2));
    // Not within node_1 to begin with.
    assert(!s0.within(p, node_1)) by {
        if s0.within(p, node_1) {
            s0.lemma_within_trans(node_2, p, node_1);
        }
    }
    match s0.lk(node_1).parent {
        Some(p1) => {
            s0.lemma_within_outside(s1, node_1, p, node_1);
            assert(s1.live(dummy) && s1.kids[dummy].len() == 0);
            assert(s1.live(p));
            assert(!s1.within(p, dummy)) by {
                if s1.within(p, dummy) {
                    s1.lemma_within_childless(p, dummy);
                }
            }
            assert(!s1.within(node_1, dummy)) by {
                if s1.within(node_1, dummy) {
                    s1.lemma_within_childless(node_1, dummy);
                }
            }
            s1.lemma_within_outside(s2, dummy, p, node_1);
        },
        None => {},
    }
    assert(!s2.within(p, node_1));
    assert(s2.live(p) && s2.live(node_1));
    s2.lemma_parent_not_within(node_2);
    assert(s2.lk(node_1).parent is None);
    s2.lemma_within_root(node_1, node_2);
    s2.lemma_within_outside(s3, node_2, p, node_1);
}

/// At the end of a swap: `node_1`'s old parent is not within `node_2`.
proof fn lemma_swap_step_3(
    s0: Shape,
    s1: Shape,
    s2: Shape,
    s3: Shape,
    s4: Shape,
    s5: Shape,
    node_1: NodeIndex,
    node_2: NodeIndex,
    p: NodeIndex,
)
    requires
        s0.coherent(),
        s0.live(node_1),
        s0.live(node_2),
        node_1 != node_2,
        node_1 != s0.dummy,
        node_2 != s0.dummy,
        s0.lk(node_1).parent == Some(p),
        !s0.within(node_1, node_2),
        !s0.within(node_2, node_1),
        s0.lk(s0.dummy).parent is None,
        s0.unlinked(s1, node_1, p, s0.kids[p].index_of(node_1)),
        s1.linked(s2, s0.dummy, p, s0.kids[p].index_of(node_1)),
        s0.lk(node_2).parent is None ==> s3 == s2 && s4 == s3,
        s0.lk(node_2).parent matches Some(p2) ==> s2.unlinked(
            s3,
            node_2,
            p2,
            s2.kids[p2].index_of(node_2),
        ) && s3.linked(s4, node_1, p2, s2.kids[p2].index_of(node_2)),
        s4.unlinked(s5, s0.dummy, p, s4.kids[p].index_of(s0.dummy)),
    ensures
        !s5.within(p, node_2),
{
    let dummy = s0.dummy;
    s0.lemma_parent_not_within(node_1);
    assert(s0.up_ok(node_1));
    assert(!s0.within(p, node_2)) by {
        if s0.within(p, node_2) {
            s0.lemma_within_trans(node_1, p, node_2);
        }
    }
    // Step 1: node_1 taken out.
    s0.lemma_within_outside(s1, node_1, p, node_2);
    s0.lemma_within_outside(s1, node_1, p, node_1);
    assert(!s1.within(p, node_1));
    // Step 2: the dummy put in.
    assert(s1.live(dummy) && s1.kids[dummy].len() == 0);
    assert(!s1.within(p, dummy)) by {
        if s1.within(p, dummy) {
            s1.lemma_within_childless(p, dummy);
        }
    }
    assert(!s1.within(node_1, dummy)) by {
        if s1.within(node_1, dummy) {
            s1.lemma_within_childless(node_1, dummy);
        }
    }
    assert(!s1.within(node_2, dummy)) by {
        if s1.within(node_2, dummy) {
            s1.lemma_within_childless(node_2, dummy);
        }
    }
    s1.lemma_within_outside(s2, dummy, p, node_2);
    s1.lemma_within_outside(s2, dummy, p, node_1);
    assert(!s2.within(p, node_2) && !s2.within(p, node_1));
    // Steps 3 and 4: node_2 taken out, node_1 put in.
    match s0.lk(node_2).parent {
        Some(p2) => {
            assert(s2.lk(node_1).parent is None);
            s2.lemma_within_root(node_1, node_2);
            s2.lemma_within_outside(s3, node_2, p, node_1);
            s2.lemma_within_outside(s3, node_2, p, node_2);
            assert(!s3.within(p, node_1));
            assert(s3.lk(node_2).parent is None);
            s3.lemma_within_root(node_2, node_1);
            s3.lemma_within_outside(s4, node_1, p, node_2);
        },
        None => {},
    }
    assert(!s4.within(p, node_2));
    // Step 5: the dummy taken out.
    assert(s4.live(dummy) && s4.kids[dummy].len() == 0);
    assert(!s4.within(p, dummy)) by {
        if s4.within(p, dummy) {
            s4.lemma_within_childless(p, dummy);
        }
    }
    assert(!s4.within(node_2, dummy)) by {
        if s4.within(node_2, dummy) {
            s4.lemma_within_childless(node_2, dummy);
        }
    }
    s4.lemma_within_outside(s5, dummy, p, node_2);
}

/// The children lists after a swap: `node_1` and `node_2` exchanged.
#[verifier::spinoff_prover]
#[verifier::rlimit(40)]
proof fn lemma_swap_children(
    s0: Shape,
    s1: Shape,
    s2: Shape,
    s3: Shape,
    s4: Shape,
    s5: Shape,
    s6: Shape,
    node_1: NodeIndex,
    node_2: NodeIndex,
)
    requires
        s0.coherent(),
        s2.coherent(),
        s4.coherent(),
        s0.live(node_1),
        s0.live(node_2),
        node_1 != node_2,
        node_1 != s0.dummy,
        node_2 != s0.dummy,
        s0.lk(s0.dummy).parent is None,
        s0.lk(node_1).parent is None ==> s1 == s0 && s2 == s1,
        s0.lk(node_1).parent matches Some(p1) ==> s0.unlinked(
            s1,
            node_1,
            p1,
            s0.kids[p1].index_of(node_1),
        ) && s1.linked(s2, s0.dummy, p1, s0.kids[p1].index_of(node_1)),
        s0.lk(node_2).parent is None ==> s3 == s2 && s4 == s3,
        s0.lk(node_2).parent matches Some(p2) ==> s2.unlinked(
            s3,
            node_2,
            p2,
            s2.kids[p2].index_of(node_2),
        ) && s3.linked(s4, node_1, p2, s2.kids[p2].index_of(node_2)),
        s0.lk(node_1).parent is None ==> s5 == s4 && s6 == s5,
        s0.lk(node_1).parent matches Some(p1) ==> s4.unlinked(
            s5,
            s0.dummy,
            p1,
            s4.kids[p1].index_of(s0.dummy),
        ) && s5.linked(s6, node_2, p1, s4.kids[p1].index_of(s0.dummy)),
    ensures
        forall|q: NodeIndex| #[trigger] s0.live(q) ==> s6.kids[q] == s0.kids[q].map_values(
            |c: NodeIndex| swapped(c, node_1, node_2),
        ),
{
    let dummy = s0.dummy;
    let p1 = s0.lk(node_1).parent;
    let p2 = s0.lk(node_2).parent;
    assert(s0.up_ok(node_1) && s0.up_ok(node_2) && s0.up_ok(dummy));
    // Where the two nodes are, to begin with.
    let k1 = match p1 {
        Some(p) => s0.kids[p].index_of(node_1),
        None => 0,
    };
    let j2 = match p2 {
        Some(p) => s0.kids[p].index_of(node_2),
        None => 0,
    };
    match p1 {
        Some(p) => {
            assert(s0.ring_ok(p));
            lemma_remove_insert(s0.kids[p], k1, dummy);
        },
        None => {},
    }
    match p2 {
        Some(p) => {
            assert(s0.ring_ok(p));
            assert(s0.kids[p][j2] == node_2);
        },
        None => {},
    }
    // After the dummy takes node_1's place.
    assert forall|q: NodeIndex| #[trigger] s0.live(q) implies s2.kids[q] == (if p1 == Some(q) {
        s0.kids[q].update(k1, dummy)
    } else {
        s0.kids[q]
    }) by {}
    // Where node_2 is then.
    match p2 {
        Some(p) => {
            assert(s2.kids[p][j2] == node_2);
            assert(s2.ring_ok(p));
            lemma_index_of_unique(s2.kids[p], j2);
            lemma_remove_insert(s2.kids[p], j2, node_1);
        },
        None => {},
    }
    assert forall|q: NodeIndex| #[trigger] s0.live(q) implies s4.kids[q] == (if p2 == Some(q) {
        s2.kids[q].update(j2, node_1)
    } else {
        s2.kids[q]
    }) by {}
    // Where the dummy is then.
    match p1 {
        Some(p) => {
            assert(s4.kids[p][k1] == dummy);
            assert(s4.ring_ok(p));
            lemma_index_of_unique(s4.kids[p], k1);
            lemma_remove_insert(s4.kids[p], k1, node_2);
        },
        None => {},
    }
    assert forall|q: NodeIndex| #[trigger] s0.live(q) implies s6.kids[q] == s0.kids[q].map_values(
        |c: NodeIndex| swapped(c, node_1, node_2),
    ) by {
        let cs = s0.kids[q];
        assert(s0.ring_ok(q));
        let expected = cs.map_values(|c: NodeIndex| swapped(c, node_1, node_2));
        assert forall|i: int| 0 <= i < cs.len() implies s6.kids[q][i] == expected[i] by {
            assert(s0.sib_ok(q, cs, i));
            if cs[i] == node_1 {
                assert(i == k1);
            }
            if cs[i] == node_2 {
                assert(i == j2);
            }
        }
        assert(s6.kids[q] =~= expected);
    }
}

/// In a forest, parents and children agree: `p` is the parent of `n`
/// exactly when `n` is among the children of `p`; a child is one deeper than
/// its parent and a root has depth zero; no node is listed twice among the
/// children of a node.
pub proof fn lemma_parents_and_children_agree<D>(f: Forest<D>, n: NodeIndex, p: NodeIndex)
    requires
        f.wf(),
        f@.children.dom().contains(n),
        f@.children.dom().contains(p),
    ensures
        (f@.parent[n] == Some(p)) == f@.children[p].contains(n),
        f@.parent[n] == Some(p) ==> f@.depth[n] == f@.depth[p] + 1,
        f@.parent[n] is None ==> f@.depth[n] == 0,
        f@.parent[n] matches Some(q) ==> f@.children.dom().contains(q),
        f@.children[p].no_duplicates(),
        forall|k: int|
            0 <= k < f@.children[p].len() ==> f@.children.dom().contains(
                #[trigger] f@.children[p][k],
            ),
{
    f.lemma_view_node(n);
    f.lemma_view_node(p);
    f.lemma_node(n);
    f.lemma_node(p);
    assert forall|k: int| 0 <= k < f@.children[p].len() implies f@.children.dom().contains(
        #[trigger] f@.children[p][k],
    ) by {
        f.lemma_children_valid(p, k);
    }
    if f@.children[p].contains(n) {
        let k = f@.children[p].index_of(n);
        f.lemma_children_valid(p, k);
    }
    assert(f.up_ok(n));
}

/// There are no cycles: going up from a node, every step leads to a node
/// of the forest one closer to the root, so no node is its own ancestor,
/// and the top is a root.
pub proof fn lemma_no_cycles<D>(f: Forest<D>, n: NodeIndex, k: nat)
    requires
        f.wf(),
        f@.children.dom().contains(n),
        k <= f@.depth[n],
    ensures
        f@.children.dom().contains(ancestor(f@, n, k)),
        f@.depth[ancestor(f@, n, k)] == f@.depth[n] - k,
        k > 0 ==> ancestor(f@, n, k) != n,
        f@.children.dom().contains(root_of(f@, n)),
        f@.parent[root_of(f@, n)] is None,
    decreases k,
{
    f.lemma_view_node(n);
    f.lemma_node(n);
    assert(f.up_ok(n));
    if k > 0 {
        match f@.parent[n] {
            Some(p) => {
                lemma_no_cycles(f, p, (k - 1) as nat);
            },
            None => {},
        }
    }
    lemma_root_is_top(f, n);
}

/// Going up a node's depth in steps ends at a root.
proof fn lemma_root_is_top<D>(f: Forest<D>, n: NodeIndex)
    requires
        f.wf(),
        f@.children.dom().contains(n),
    ensures
        f@.children.dom().contains(root_of(f@, n)),
        f@.depth[root_of(f@, n)] == 0,
        f@.parent[root_of(f@, n)] is None,
    decreases f@.depth[n],
{
    f.lemma_view_node(n);
    f.lemma_node(n);
    assert(f.up_ok(n));
    match f@.parent[n] {
        Some(p) => {
            f.lemma_view_node(p);
            lemma_root_is_top(f, p);
        },
        None => {},
    }
    let r = root_of(f@, n);
    f.lemma_view_node(r);
    f.lemma_node(r);
    assert(f.up_ok(r));
}

/// Swapping two nodes twice puts the children and the parents back.
proof fn lemma_swap_twice<D>(
    v0: ForestV<D>,
    v1: ForestV<D>,
    v2: ForestV<D>,
    node_1: NodeIndex,
    node_2: NodeIndex,
)
    requires
        v0.children.dom().contains(node_1),
        v0.children.dom().contains(node_2),
        v0.parent.dom() == v0.children.dom(),
        v1.children == Map::new(
            |q: NodeIndex| v0.children.dom().contains(q),
            |q: NodeIndex| v0.children[q].map_values(|c: NodeIndex| swapped(c, node_1, node_2)),
        ),
        v1.parent == v0.parent.insert(node_1, v0.parent[node_2]).insert(node_2, v0.parent[node_1]),
        v2.children == Map::new(
            |q: NodeIndex| v1.children.dom().contains(q),
            |q: NodeIndex| v1.children[q].map_values(|c: NodeIndex| swapped(c, node_1, node_2)),
        ),
        v2.parent == v1.parent.insert(node_1, v1.parent[node_2]).insert(node_2, v1.parent[node_1]),
    ensures
        v2.children == v0.children,
        v2.parent == v0.parent,
{
    assert forall|q: NodeIndex| #[trigger] v0.children.dom().contains(q) implies v2.children[q]
        == v0.children[q] by {
        assert(v2.children[q] =~= v0.children[q]);
    }
    assert(v2.children =~= v0.children);
    if node_1 == node_2 {
        assert(v2.parent =~= v0.parent);
    } else {
        assert(v2.parent =~= v0.parent);
    }
}

/// Going up from a node outside both swapped subtrees goes the same way
/// after the swap, and stays outside both.
proof fn lemma_swap_chain_outside<D>(
    f0: Forest<D>,
    f1: Forest<D>,
    node_1: NodeIndex,
    node_2: NodeIndex,
    x: NodeIndex,
    k: nat,
)
    requires
        f0.wf(),
        f0@.children.dom().contains(node_1),
        f0@.children.dom().contains(node_2),
        f0@.children.dom().contains(x),
        !within(f0@, x, node_1),
        !within(f0@, x, node_2),
        f1@.parent == f0@.parent.insert(node_1, f0@.parent[node_2]).insert(
            node_2,
            f0@.parent[node_1],
        ),
    ensures
        ancestor(f1@, x, k) == ancestor(f0@, x, k),
        f0@.children.dom().contains(ancestor(f0@, x, k)),
        !within(f0@, ancestor(f0@, x, k), node_1),
        !within(f0@, ancestor(f0@, x, k), node_2),
    decreases k,
{
    lemma_view_within_step(f0, x, node_1);
    lemma_view_within_step(f0, x, node_2);
    lemma_view_within_step(f0, node_1, node_1);
    lemma_view_within_step(f0, node_2, node_2);
    if k > 0 {
        assert(x != node_1 && x != node_2);
        assert(f1@.parent[x] == f0@.parent[x]);
        match f0@.parent[x] {
            Some(p) => {
                lemma_swap_chain_outside(f0, f1, node_1, node_2, p, (k - 1) as nat);
            },
            None => {},
        }
    }
}

/// After a swap of two nodes neither of which is within the other, `b` is
/// still not within `a`.
proof fn lemma_swap_keeps_apart<D>(
    f0: Forest<D>,
    f1: Forest<D>,
    a: NodeIndex,
    b: NodeIndex,
)
    requires
        f0.wf(),
        f0@.children.dom().contains(a),
        f0@.children.dom().contains(b),
        a != b,
        !within(f0@, a, b),
        !within(f0@, b, a),
        f1@.parent == f0@.parent.insert(a, f0@.parent[b]).insert(b, f0@.parent[a]),
        f1@.depth[a] == f0@.depth[b],
        f1@.depth[b] == f0@.depth[a],
    ensures
        !within(f1@, b, a),
{
    let v0 = f0@;
    let v1 = f1@;
    lemma_parent_outside(f0, a, b);
    lemma_view_within_step(f0, a, a);
    if v1.depth[b] >= v1.depth[a] {
        let k = (v1.depth[b] - v1.depth[a]) as nat;
        if k > 0 {
            assert(v1.parent[b] == v0.parent[a]);
            match v0.parent[a] {
                Some(p) => {
                    lemma_swap_chain_outside(f0, f1, a, b, p, (k - 1) as nat);
                    assert(ancestor(v1, b, k) == ancestor(v1, p, (k - 1) as nat));
                },
                None => {},
            }
        }
    }
}

/// Swapping the same two nodes twice gives back the whole forest, and the
/// second swap succeeds exactly when the first did.
pub proof fn lemma_swap_twice_restores<D>(
    f0: Forest<D>,
    f1: Forest<D>,
    f2: Forest<D>,
    node_1: NodeIndex,
    node_2: NodeIndex,
    r1: bool,
    r2: bool,
)
    requires
        f0.wf(),
        f1.wf(),
        f2.wf(),
        f0@.children.dom().contains(node_1),
        f0@.children.dom().contains(node_2),
        swap_done(f0@, f1@, node_1, node_2, r1),
        swap_done(f1@, f2@, node_1, node_2, r2),
    ensures
        r2 == r1,
        f2@ == f0@,
{
    let v0 = f0@;
    let v1 = f1@;
    let v2 = f2@;
    if !r1 || node_1 == node_2 {
        assert(v1 == v0);
        assert(v2 == v1);
    } else {
        lemma_swap_twice_done(f0, f1, f2, node_1, node_2, r2);
    }
}

/// Swapping twice, when the first swap was done.
proof fn lemma_swap_twice_done<D>(
    f0: Forest<D>,
    f1: Forest<D>,
    f2: Forest<D>,
    node_1: NodeIndex,
    node_2: NodeIndex,
    r2: bool,
)
    requires
        f0.wf(),
        f1.wf(),
        f2.wf(),
        f0@.children.dom().contains(node_1),
        f0@.children.dom().contains(node_2),
        node_1 != node_2,
        swap_done(f0@, f1@, node_1, node_2, true),
        swap_done(f1@, f2@, node_1, node_2, r2),
    ensures
        r2,
        f2@ == f0@,
{
    let v0 = f0@;
    let v1 = f1@;
    let v2 = f2@;
    // The first swap was done: the two are still apart.
    lemma_view_within_step(f0, node_1, node_1);
    lemma_view_within_step(f0, node_2, node_2);
    assert(v1.children.dom() =~= v0.children.dom());
    assert(v1.depth[node_1] == v0.depth[node_2]);
    assert(v1.depth[node_2] == v0.depth[node_1]);
    lemma_swap_keeps_apart(f0, f1, node_1, node_2);
    assert(v1.parent =~= v0.parent.insert(node_2, v0.parent[node_1]).insert(
        node_1,
        v0.parent[node_2],
    ));
    lemma_swap_keeps_apart(f0, f1, node_2, node_1);
    assert(r2);
    // So the second swap was done too, and puts children and parents back.
    f0.lemma_view_dom();
    f1.lemma_view_dom();
    lemma_swap_twice(v0, v1, v2, node_1, node_2);
    // The depths follow from the parents.
    f2.lemma_view_dom();
    assert forall|m: NodeIndex| #[trigger]
        v2.children.dom().contains(m) implies match v2.parent[m] {
        None => v0.depth[m] == 0,
        Some(p) => v0.depth[m] == v0.depth[p] + 1,
    } by {
        lemma_parents_and_children_agree(f0, m, m);
        match v0.parent[m] {
            Some(p) => lemma_parents_and_children_agree(f0, m, p),
            None => {},
        }
    }
    assert forall|n: NodeIndex| v2.children.dom().contains(n) implies #[trigger] v2.depth[n]
        == v0.depth[n] by {
        lemma_depth_unique(f2, v0.depth, n);
    }
    assert(v2.depth =~= v0.depth);
    assert(v2.data =~= v0.data);
    assert(v2 == v0);
}

} // verus!
