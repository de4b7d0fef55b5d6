use std::collections::HashMap;
use vstd::prelude::*;

verus! {

broadcast use vstd::std_specs::hash::group_hash_axioms;

/// After merging the classes of `ra` and `rb` into `r`, the nodes `a` and
/// `b` of those classes share a representative, and so do any two nodes that
/// shared one before.
proof fn lemma_merged_reps(
    before: Map<usize, usize>,
    after: Map<usize, usize>,
    a: usize,
    b: usize,
    ra: usize,
    rb: usize,
    r: usize,
)
    requires
        before.dom().contains(a),
        before.dom().contains(b),
        before[a] == ra,
        before[b] == rb,
        after == Map::new(
            |x: usize| before.dom().contains(x),
            |x: usize|
                if before[x] == ra || before[x] == rb {
                    r
                } else {
                    before[x]
                },
        ),
    ensures
        after[a] == after[b],
        forall|x: usize, y: usize|
            before.dom().contains(x) && before.dom().contains(y) && before[x] == before[y]
                ==> #[trigger] after[x] == #[trigger] after[y],
{
}

/// For a node `x`, when the node data is `(p, r)`, `x`'s parent is `p` and
/// `x`'s rank is `r`.
#[derive(Clone, Copy)]
pub struct NodeData {
    pub parent: usize,
    pub rank: usize,
}

/// The parent forest is well founded: following parents from any node
/// strictly increases the ghost height `h`, which stays below `bound`.
pub open spec fn forest_ok(m: Map<usize, NodeData>, h: Map<usize, nat>, bound: nat) -> bool {
    forall|x: usize|
        #![trigger m.dom().contains(x)]
        m.dom().contains(x) ==> {
            &&& m.dom().contains(m[x].parent)
            &&& h.dom().contains(x)
            &&& h[x] < bound
            &&& (m[x].parent != x ==> h.dom().contains(m[x].parent) && h[m[x].parent] > h[x])
        }
}

/// The root reached from `x` by following parents.
pub open spec fn root_in(m: Map<usize, NodeData>, h: Map<usize, nat>, bound: nat, x: usize) -> usize
    decreases bound - h[x],
    when forest_ok(m, h, bound) && m.dom().contains(x)
{
    if m[x].parent == x {
        x
    } else {
        root_in(m, h, bound, m[x].parent)
    }
}

/// The root of `x` is a root, lies in the forest, and sits at least as high as `x`.
pub proof fn lemma_root_props(m: Map<usize, NodeData>, h: Map<usize, nat>, bound: nat, x: usize)
    requires
        forest_ok(m, h, bound),
        m.dom().contains(x),
    ensures
        m.dom().contains(root_in(m, h, bound, x)),
        m[root_in(m, h, bound, x)].parent == root_in(m, h, bound, x),
        root_in(m, h, bound, x) != x ==> h[root_in(m, h, bound, x)] > h[x],
        m[x].parent == x ==> root_in(m, h, bound, x) == x,
        m[x].parent != x ==> root_in(m, h, bound, x) == root_in(m, h, bound, m[x].parent),
    decreases bound - h[x],
{
    if m[x].parent != x {
        lemma_root_props(m, h, bound, m[x].parent);
    }
}

/// Roots do not depend on the height bookkeeping: two valid heightings of one
/// forest give the same roots.
pub proof fn lemma_root_heights(
    m: Map<usize, NodeData>,
    h1: Map<usize, nat>,
    b1: nat,
    h2: Map<usize, nat>,
    b2: nat,
    x: usize,
)
    requires
        forest_ok(m, h1, b1),
        forest_ok(m, h2, b2),
        m.dom().contains(x),
    ensures
        root_in(m, h1, b1, x) == root_in(m, h2, b2, x),
    decreases b1 - h1[x],
{
    if m[x].parent != x {
        lemma_root_heights(m, h1, b1, h2, b2, m[x].parent);
    }
}

/// Pointing a non-root `v` directly at its root changes no node's root.
pub proof fn lemma_compress(
    m: Map<usize, NodeData>,
    h: Map<usize, nat>,
    bound: nat,
    v: usize,
    y: usize,
)
    requires
        forest_ok(m, h, bound),
        m.dom().contains(v),
        m.dom().contains(y),
        m[v].parent != v,
        forest_ok(
            m.insert(v, NodeData { parent: root_in(m, h, bound, v), rank: m[v].rank }),
            h,
            bound,
        ),
    ensures
        root_in(
            m.insert(v, NodeData { parent: root_in(m, h, bound, v), rank: m[v].rank }),
            h,
            bound,
            y,
        ) == root_in(m, h, bound, y),
    decreases bound - h[y],
{
    let r = root_in(m, h, bound, v);
    let m2 = m.insert(v, NodeData { parent: r, rank: m[v].rank });
    lemma_root_props(m, h, bound, v);
    lemma_root_props(m, h, bound, y);
    lemma_root_props(m2, h, bound, y);
    if y == v {
        lemma_root_props(m2, h, bound, r);
    } else if m[y].parent != y {
        lemma_compress(m, h, bound, v, m[y].parent);
    }
}

/// Hanging root `a` below root `b` sends every node of the class of `a` or
/// `b` to `b`, and leaves every other root alone.
pub proof fn lemma_link(
    m: Map<usize, NodeData>,
    h: Map<usize, nat>,
    bound: nat,
    h2: Map<usize, nat>,
    bound2: nat,
    a: usize,
    b: usize,
    rank_b: usize,
    y: usize,
)
    requires
        forest_ok(m, h, bound),
        m.dom().contains(a),
        m.dom().contains(b),
        m.dom().contains(y),
        m[a].parent == a,
        m[b].parent == b,
        a != b,
        forest_ok(
            m.insert(a, NodeData { parent: b, rank: m[a].rank }).insert(
                b,
                NodeData { parent: b, rank: rank_b },
            ),
            h2,
            bound2,
        ),
    ensures
        ({
            let m2 = m.insert(a, NodeData { parent: b, rank: m[a].rank }).insert(
                b,
                NodeData { parent: b, rank: rank_b },
            );
            let r = root_in(m, h, bound, y);
            root_in(m2, h2, bound2, y) == if r == a || r == b {
                b
            } else {
                r
            }
        }),
    decreases bound - h[y],
{
    let m2 = m.insert(a, NodeData { parent: b, rank: m[a].rank }).insert(
        b,
        NodeData { parent: b, rank: rank_b },
    );
    lemma_root_props(m, h, bound, y);
    lemma_root_props(m2, h2, bound2, y);
    lemma_root_props(m2, h2, bound2, b);
    if y == a {
    } else if y == b {
    } else if m[y].parent != y {
        lemma_link(m, h, bound, h2, bound2, a, b, rank_b, m[y].parent);
    }
}

/// Heights that stay valid after hanging root `a` below root `b`.
pub proof fn lemma_link_heights(
    m: Map<usize, NodeData>,
    h: Map<usize, nat>,
    bound: nat,
    a: usize,
    b: usize,
    rank_b: usize,
) -> (res: (Map<usize, nat>, nat))
    requires
        forest_ok(m, h, bound),
        m.dom().contains(a),
        m.dom().contains(b),
        m[a].parent == a,
        m[b].parent == b,
        a != b,
    ensures
        forest_ok(
            m.insert(a, NodeData { parent: b, rank: m[a].rank }).insert(
                b,
                NodeData { parent: b, rank: rank_b },
            ),
            res.0,
            res.1,
        ),
{
    let m2 = m.insert(a, NodeData { parent: b, rank: m[a].rank }).insert(
        b,
        NodeData { parent: b, rank: rank_b },
    );
    let new_h = if h[b] > h[a] {
        h[b]
    } else {
        h[a] + 1
    };
    let h2 = h.insert(b, new_h);
    let bd2 = if bound > new_h {
        bound
    } else {
        new_h + 1
    };
    assert forall|x: usize| #![trigger m2.dom().contains(x)] m2.dom().contains(x) implies {
        &&& m2.dom().contains(m2[x].parent)
        &&& h2.dom().contains(x)
        &&& h2[x] < bd2
        &&& (m2[x].parent != x ==> h2.dom().contains(m2[x].parent) && h2[m2[x].parent] > h2[x])
    } by {
        assert(m.dom().contains(x));
        if x != a && x != b && m[x].parent == b {
            assert(h[b] > h[x]);
        }
    }
    (h2, bd2)
}

/// A collection of disjoint sets over nodes named by integers.
pub struct DisjointSets {
    nodes: HashMap<usize, NodeData>,
    /// Every node, in the order in which it was added.
    keys: Vec<usize>,
    height: Ghost<Map<usize, nat>>,
    bound: Ghost<nat>,
    roots: Ghost<Set<usize>>,
    merges: Ghost<nat>,
}

impl DisjointSets {
    /// The nodes added so far.
    pub closed spec fn dom(&self) -> Set<usize> {
        self.nodes@.dom()
    }

    /// Maps each node to the canonical representative of its set.
    pub closed spec fn rep(&self) -> Map<usize, usize> {
        Map::new(
            |x: usize| self.nodes@.dom().contains(x),
            |x: usize| root_in(self.nodes@, self.height@, self.bound@, x),
        )
    }

    /// Maps each node to its rank.
    pub closed spec fn ranks(&self) -> Map<usize, usize> {
        Map::new(|x: usize| self.nodes@.dom().contains(x), |x: usize| self.nodes@[x].rank)
    }

    /// Maps each node to its parent.
    pub closed spec fn parents(&self) -> Map<usize, usize> {
        Map::new(|x: usize| self.nodes@.dom().contains(x), |x: usize| self.nodes@[x].parent)
    }

    /// The nodes in the order in which they were added.
    pub closed spec fn order(&self) -> Seq<usize> {
        self.keys@
    }

    /// The number of merges of two distinct sets so far.
    pub closed spec fn merge_count(&self) -> nat {
        self.merges@
    }

    /// No node is added twice, the order lists exactly the nodes, and there
    /// are no more merges than nodes.
    pub proof fn lemma_counts(&self)
        requires
            self.wf(),
        ensures
            self.order().no_duplicates(),
            forall|x: usize| self.dom().contains(x) <==> #[trigger] self.order().contains(x),
            self.merge_count() <= self.order().len(),
    {
    }

    /// Whether every node points directly at its representative.
    pub open spec fn is_flat(&self) -> bool {
        forall|x: usize| #[trigger]
            self.parents().dom().contains(x) ==> self.parents()[x] == self.rep()[x]
    }

    /// The internal invariant: a well-founded parent forest, one entry per
    /// node in `keys`, and the bookkeeping that bounds the ranks.
    pub closed spec fn wf(&self) -> bool {
        &&& forest_ok(self.nodes@, self.height@, self.bound@)
        &&& self.keys@.no_duplicates()
        &&& forall|x: usize| self.nodes@.dom().contains(x) <==> self.keys@.contains(x)
        &&& self.roots@.finite()
        &&& forall|x: usize|
            #[trigger] self.roots@.contains(x) <==> (self.nodes@.dom().contains(x)
                && self.nodes@[x].parent == x)
        &&& self.roots@.len() + self.merges@ == self.keys@.len()
        &&& forall|x: usize| #[trigger]
            self.nodes@.dom().contains(x) ==> self.nodes@[x].rank <= self.merges@
    }

    /// How far `v` lies below the bound on heights.
    pub closed spec fn find_measure(&self, v: usize) -> int {
        self.bound@ - self.height@[v]
    }

    proof fn lemma_rep_dom(&self)
        requires
            self.wf(),
        ensures
            self.rep().dom() == self.dom(),
            forall|x: usize| #[trigger]
                self.dom().contains(x) ==> self.rep()[x] == root_in(
                    self.nodes@,
                    self.height@,
                    self.bound@,
                    x,
                ),
            forall|x: usize| #[trigger]
                self.dom().contains(x) ==> self.dom().contains(self.rep()[x]) && self.rep()[self.rep()[x]]
                    == self.rep()[x],
    {
        assert(self.rep().dom() =~= self.dom());
        assert forall|x: usize| #[trigger] self.dom().contains(x) implies self.dom().contains(
            self.rep()[x],
        ) && self.rep()[self.rep()[x]] == self.rep()[x] by {
            lemma_root_props(self.nodes@, self.height@, self.bound@, x);
            let r = root_in(self.nodes@, self.height@, self.bound@, x);
            lemma_root_props(self.nodes@, self.height@, self.bound@, r);
        }
    }

    /// Representatives are nodes, each its own representative, and the
    /// representative map covers exactly the nodes.
    pub proof fn lemma_reps(&self)
        requires
            self.wf(),
        ensures
            self.rep().dom() == self.dom(),
            self.parents().dom() == self.dom(),
            forall|x: usize| #[trigger]
                self.dom().contains(x) ==> self.dom().contains(self.rep()[x]) && self.rep()[self.rep()[x]]
                    == self.rep()[x],
    {
        self.lemma_rep_dom();
        assert(self.parents().dom() =~= self.dom());
    }

    /// Constructs an empty disjoint set.
    pub fn new() -> (result: Self)
        ensures
            result.wf(),
            result.rep() == Map::<usize, usize>::empty(),
            result.order() == Seq::<usize>::empty(),
            result.merge_count() == 0,
    {
        let result = DisjointSets {
            nodes: HashMap::new(),
            keys: Vec::new(),
            height: Ghost(Map::empty()),
            bound: Ghost(0),
            roots: Ghost(Set::empty()),
            merges: Ghost(0),
        };
        assert(result.rep() =~= Map::<usize, usize>::empty());
        result
    }

    /// Adds a disjoint singleton `{v}` if `v` has not already been added.
    pub fn add(&mut self, v: usize)
        requires
            old(self).wf(),
        ensures
            final(self).wf(),
            old(self).dom().contains(v) ==> final(self).rep() == old(self).rep() && final(self).ranks() == old(self).ranks() && final(self).order() == old(self).order(),
            !old(self).dom().contains(v) ==> final(self).rep() == old(self).rep().insert(v, v)
                && final(self).ranks() == old(self).ranks().insert(v, 0) && final(self).order()
                == old(self).order().push(v),
            final(self).parents().dom() == final(self).rep().dom(),
            forall|x: usize| #[trigger]
                old(self).parents().dom().contains(x) ==> final(self).parents()[x] == old(self).parents()[x],
            final(self).merge_count() == old(self).merge_count(),
    {
        if self.nodes.contains_key(&v) {
            return;
        }
        let ghost old_self = *self;
        self.nodes.insert(v, NodeData { parent: v, rank: 0 });
        self.keys.push(v);
        proof {
            self.height@ = self.height@.insert(v, 0);
            self.bound@ = self.bound@ + 1;
            self.roots@ = self.roots@.insert(v);
            assert forall|x: usize| #![trigger self.nodes@.dom().contains(x)]
                self.nodes@.dom().contains(x) implies {
                &&& self.nodes@.dom().contains(self.nodes@[x].parent)
                &&& self.height@.dom().contains(x)
                &&& self.height@[x] < self.bound@
                &&& (self.nodes@[x].parent != x ==> self.height@.dom().contains(
                    self.nodes@[x].parent,
                ) && self.height@[self.nodes@[x].parent] > self.height@[x])
            } by {
                if x != v {
                    assert(old_self.nodes@.dom().contains(x));
                }
            }
            assert(forest_ok(self.nodes@, self.height@, self.bound@));
            assert(self.keys@ == old_self.keys@.push(v));
            assert(!old_self.keys@.contains(v));
            assert forall|x: usize| self.nodes@.dom().contains(x) <==> self.keys@.contains(x) by {
                if old_self.keys@.contains(x) {
                    let i = choose|i: int| 0 <= i < old_self.keys@.len() && old_self.keys@[i] == x;
                    assert(self.keys@[i] == x);
                }
                if self.keys@.contains(x) {
                    let i = choose|i: int| 0 <= i < self.keys@.len() && self.keys@[i] == x;
                    if i < old_self.keys@.len() {
                        assert(old_self.keys@[i] == x);
                    }
                }
                if x == v {
                    assert(self.keys@[self.keys@.len() - 1] == v);
                }
            }
            assert(self.keys@.no_duplicates()) by {
                assert forall|i: int, j: int|
                    0 <= i < self.keys@.len() && 0 <= j < self.keys@.len() && i != j implies
                    self.keys@[i] != self.keys@[j] by {
                    if i == old_self.keys@.len() as int {
                        assert(old_self.keys@[j] == self.keys@[j]);
                        assert(old_self.keys@.contains(old_self.keys@[j]));
                    } else if j == old_self.keys@.len() as int {
                        assert(old_self.keys@[i] == self.keys@[i]);
                        assert(old_self.keys@.contains(old_self.keys@[i]));
                    }
                }
            }
            assert(!old_self.roots@.contains(v));
            assert(self.wf());
            assert forall|x: usize| #[trigger]
                old_self.nodes@.dom().contains(x) implies root_in(
                self.nodes@,
                self.height@,
                self.bound@,
                x,
            ) == root_in(old_self.nodes@, old_self.height@, old_self.bound@, x) by {
                lemma_root_props(old_self.nodes@, old_self.height@, old_self.bound@, x);
                self.lemma_root_extend(old_self, x);
            }
            lemma_root_props(self.nodes@, self.height@, self.bound@, v);
            assert(self.rep() =~= old_self.rep().insert(v, v));
            assert(self.ranks() =~= old_self.ranks().insert(v, 0));
        }
    }

    /// Adding a fresh singleton leaves the roots of the old nodes unchanged.
    proof fn lemma_root_extend(&self, old_self: Self, x: usize)
        requires
            forest_ok(old_self.nodes@, old_self.height@, old_self.bound@),
            forest_ok(self.nodes@, self.height@, self.bound@),
            old_self.nodes@.dom().contains(x),
            old_self.nodes@.dom().subset_of(self.nodes@.dom()),
            forall|y: usize| #[trigger]
                old_self.nodes@.dom().contains(y) ==> self.nodes@[y] == old_self.nodes@[y],
        ensures
            root_in(self.nodes@, self.height@, self.bound@, x) == root_in(
                old_self.nodes@,
                old_self.height@,
                old_self.bound@,
                x,
            ),
        decreases old_self.bound@ - old_self.height@[x],
    {
        lemma_root_props(old_self.nodes@, old_self.height@, old_self.bound@, x);
        lemma_root_props(self.nodes@, self.height@, self.bound@, x);
        if old_self.nodes@[x].parent != x {
            self.lemma_root_extend(old_self, old_self.nodes@[x].parent);
        }
    }

    /// Finds the canonical representative of the set to which `v` belongs, if
    /// `v` in fact has been added via a call to [`DisjointSets::add`]. Along
    /// the way, `v` is pointed directly at its representative.
    pub fn find(&mut self, v: usize) -> (result: Option<usize>)
        requires
            old(self).wf(),
        ensures
            final(self).wf(),
            result == if old(self).dom().contains(v) {
                Some(old(self).rep()[v])
            } else {
                None::<usize>
            },
            final(self).rep() == old(self).rep(),
            final(self).ranks() == old(self).ranks(),
            final(self).order() == old(self).order(),
            final(self).merge_count() == old(self).merge_count(),
            old(self).dom().contains(v) ==> final(self).parents()[v] == old(self).rep()[v],
            final(self).parents().dom() == old(self).parents().dom(),
            forall|x: usize| #[trigger]
                old(self).parents().dom().contains(x) ==> final(self).parents()[x] == old(self).parents()[x] || final(self).parents()[x] == old(self).rep()[x],
        decreases old(self).find_measure(v),
    {
        let ghost old_self = *self;
        proof {
            old_self.lemma_rep_dom();
        }
        let p = match self.nodes.get(&v) {
            Some(data) => data.parent,
            None => {
                assert(self.parents() =~= old_self.parents());
                return None;
            },
        };
        if v == p {
            proof {
                lemma_root_props(self.nodes@, self.height@, self.bound@, v);
                assert(self.parents() =~= old_self.parents());
            }
            return Some(v);
        }
        proof {
            lemma_root_props(self.nodes@, self.height@, self.bound@, v);
        }
        let root = match self.find(p) {
            Some(r) => r,
            None => {
                proof {
                    assert(false);
                }
                return None;
            },
        };
        let ghost mid = *self;
        proof {
            mid.lemma_rep_dom();
            lemma_root_props(self.nodes@, self.height@, self.bound@, v);
            assert(root == old_self.rep()[v]);
        }
        let rank = match self.nodes.get(&v) {
            Some(data) => data.rank,
            None => {
                proof {
                    assert(false);
                }
                return None;
            },
        };
        self.nodes.insert(v, NodeData { parent: root, rank });
        proof {
            let m = mid.nodes@;
            let h = mid.height@;
            let b = mid.bound@;
            // `v` is still a non-root in `mid`, whose root is `root`.
            assert(m[v].parent != v) by {
                assert(mid.parents()[v] == old_self.parents()[v] || mid.parents()[v]
                    == old_self.rep()[v]);
            }
            assert(root_in(m, h, b, v) == root) by {
                lemma_root_props(m, h, b, v);
                assert(mid.rep()[v] == root_in(m, h, b, v));
            }
            lemma_root_props(m, h, b, v);
            assert(self.nodes@ == m.insert(v, NodeData { parent: root, rank: m[v].rank }));
            assert forall|x: usize| #![trigger self.nodes@.dom().contains(x)]
                self.nodes@.dom().contains(x) implies {
                &&& self.nodes@.dom().contains(self.nodes@[x].parent)
                &&& h.dom().contains(x)
                &&& h[x] < b
                &&& (self.nodes@[x].parent != x ==> h.dom().contains(self.nodes@[x].parent)
                    && h[self.nodes@[x].parent] > h[x])
            } by {
                assert(m.dom().contains(x));
            }
            assert(forest_ok(self.nodes@, h, b));
            assert forall|x: usize| #[trigger]
                self.roots@.contains(x) <==> (self.nodes@.dom().contains(x)
                    && self.nodes@[x].parent == x) by {
                if x == v {
                    assert(!mid.roots@.contains(v));
                }
            }
            assert(self.wf());
            assert forall|y: usize| m.dom().contains(y) implies #[trigger] root_in(
                self.nodes@,
                h,
                b,
                y,
            ) == root_in(m, h, b, y) by {
                lemma_compress(m, h, b, v, y);
            }
            assert(self.rep() =~= mid.rep());
            assert(self.ranks() =~= mid.ranks());
            assert forall|x: usize| #[trigger]
                old_self.parents().dom().contains(x) implies self.parents()[x]
                == old_self.parents()[x] || self.parents()[x] == old_self.rep()[x] by {
                if x == v {
                } else {
                    assert(self.parents()[x] == mid.parents()[x]);
                }
            }
            assert(self.parents().dom() =~= old_self.parents().dom());
        }
        Some(root)
    }

    /// Merges the sets to which `a` and `b` belong, returning their new
    /// canonical representative. If `by_rank` is `true`, the union-by-rank
    /// optimization is used, acheiving near-linear time complexity.
    /// Otherwise, the canonical representative of `b` is chosen as the new
    /// canonical representative, which leads to log-linear complexity.
    /// Returns `None`, merging nothing, unless both `a` and `b` were added.
    pub fn union(&mut self, a: usize, b: usize, by_rank: bool) -> (result: Option<usize>)
        requires
            old(self).wf(),
        ensures
            final(self).wf(),
            final(self).order() == old(self).order(),
            !(old(self).dom().contains(a) && old(self).dom().contains(b)) ==> result is None
                && final(self).rep() == old(self).rep() && final(self).merge_count() == old(
                self,
            ).merge_count(),
            old(self).dom().contains(a) && old(self).dom().contains(b) ==> final(self).merge_count()
                == old(self).merge_count() + if old(self).rep()[a] == old(self).rep()[b] {
                0nat
            } else {
                1nat
            },
            old(self).dom().contains(a) && old(self).dom().contains(b) ==> {
                let ra = old(self).rep()[a];
                let rb = old(self).rep()[b];
                let r = if ra == rb {
                    ra
                } else if by_rank && old(self).ranks()[ra] > old(self).ranks()[rb] {
                    ra
                } else {
                    rb
                };
                &&& result == Some(r)
                &&& final(self).rep() == Map::new(
                    |x: usize| old(self).rep().dom().contains(x),
                    |x: usize|
                        if old(self).rep()[x] == ra || old(self).rep()[x] == rb {
                            r
                        } else {
                            old(self).rep()[x]
                        },
                )
            },
            old(self).dom().contains(a) && old(self).dom().contains(b) ==> final(self).rep()[a]
                == final(self).rep()[b],
            forall|x: usize, y: usize|
                old(self).dom().contains(x) && old(self).dom().contains(y) && old(self).rep()[x]
                    == old(self).rep()[y] ==> #[trigger] final(self).rep()[x] == #[trigger] final(self).rep()[y],
    {
        let ghost old_self = *self;
        proof {
            old_self.lemma_rep_dom();
        }
        let ra = match self.find(a) {
            Some(r) => r,
            None => return None,
        };
        let ghost s1 = *self;
        let rb = match self.find(b) {
            Some(r) => r,
            None => {
                return None;
            },
        };
        let ghost s2 = *self;
        proof {
            s1.lemma_rep_dom();
            s2.lemma_rep_dom();
            lemma_root_props(s2.nodes@, s2.height@, s2.bound@, ra);
            lemma_root_props(s2.nodes@, s2.height@, s2.bound@, rb);
            assert(s2.rep()[ra] == ra);
            assert(s2.nodes@[ra].parent == ra);
            assert(s2.nodes@[rb].parent == rb);
        }
        if ra == rb {
            proof {
                assert(self.rep() =~= Map::new(
                    |x: usize| old_self.rep().dom().contains(x),
                    |x: usize|
                        if old_self.rep()[x] == ra || old_self.rep()[x] == rb {
                            ra
                        } else {
                            old_self.rep()[x]
                        },
                ));
                lemma_merged_reps(old_self.rep(), self.rep(), a, b, ra, rb, ra);
            }
            return Some(ra);
        }
        let rank_a = self.nodes.get(&ra).unwrap().rank;
        let rank_b = self.nodes.get(&rb).unwrap().rank;
        proof {
            // two distinct roots: at least two roots, so merges + 1 < keys.len()
            assert(self.roots@.contains(ra));
            assert(self.roots@.contains(rb));
            assert(self.roots@.remove(ra).contains(rb));
            assert(self.roots@.remove(ra).len() >= 1) by {
                vstd::set_lib::lemma_set_empty_equivalency_len(self.roots@.remove(ra));
            }
            assert(self.roots@.len() >= 2);
            assert(rank_b <= self.merges@);
        }
        let key_count = self.keys.len();
        proof {
            assert(self.keys@.len() <= usize::MAX);
        }
        let (child, parent) = if by_rank && rank_a > rank_b {
            (rb, ra)
        } else {
            (ra, rb)
        };
        let new_parent_rank = if by_rank && rank_a == rank_b {
            rank_b + 1
        } else if by_rank && rank_a > rank_b {
            rank_a
        } else {
            rank_b
        };
        let child_rank = if child == ra {
            rank_a
        } else {
            rank_b
        };
        self.nodes.insert(child, NodeData { parent, rank: child_rank });
        self.nodes.insert(parent, NodeData { parent, rank: new_parent_rank });
        proof {
            let (h2, bd2) = lemma_link_heights(
                s2.nodes@,
                s2.height@,
                s2.bound@,
                child,
                parent,
                new_parent_rank,
            );
            self.height@ = h2;
            self.bound@ = bd2;
            self.roots@ = s2.roots@.remove(child);
            self.merges@ = s2.merges@ + 1;
            self.lemma_after_link(s2, child, parent, new_parent_rank);
            let r = if ra == rb {
                ra
            } else if by_rank && old_self.ranks()[ra] > old_self.ranks()[rb] {
                ra
            } else {
                rb
            };
            assert(old_self.ranks()[ra] == rank_a);
            assert(old_self.ranks()[rb] == rank_b);
            assert(r == parent);
            assert(self.rep() =~= Map::new(
                |x: usize| old_self.rep().dom().contains(x),
                |x: usize|
                    if old_self.rep()[x] == ra || old_self.rep()[x] == rb {
                        r
                    } else {
                        old_self.rep()[x]
                    },
            )) by {
                assert forall|x: usize| old_self.rep().dom().contains(x) implies self.rep()[x] == (
                if old_self.rep()[x] == ra || old_self.rep()[x] == rb {
                    r
                } else {
                    old_self.rep()[x]
                }) by {
                    assert(s2.rep()[x] == old_self.rep()[x]);
                }
            }
            lemma_merged_reps(old_self.rep(), self.rep(), a, b, ra, rb, r);
        }
        Some(parent)
    }

    proof fn lemma_after_link(&self, s2: Self, child: usize, parent: usize, rank_p: usize)
        requires
            s2.wf(),
            s2.nodes@.dom().contains(child),
            s2.nodes@.dom().contains(parent),
            s2.nodes@[child].parent == child,
            s2.nodes@[parent].parent == parent,
            child != parent,
            rank_p <= s2.merges@ + 1,
            self.nodes@ == s2.nodes@.insert(
                child,
                NodeData { parent, rank: s2.nodes@[child].rank },
            ).insert(parent, NodeData { parent, rank: rank_p }),
            forest_ok(self.nodes@, self.height@, self.bound@),
            self.keys@ == s2.keys@,
            self.roots@ == s2.roots@.remove(child),
            self.merges@ == s2.merges@ + 1,
        ensures
            self.wf(),
            self.ranks() == s2.ranks().insert(parent, rank_p),
            forall|x: usize| #[trigger]
                s2.nodes@.dom().contains(x) ==> self.rep()[x] == if s2.rep()[x] == child
                    || s2.rep()[x] == parent {
                    parent
                } else {
                    s2.rep()[x]
                },
    {
        let m = s2.nodes@;
        assert forall|x: usize| #[trigger]
            self.roots@.contains(x) <==> (self.nodes@.dom().contains(x) && self.nodes@[x].parent
                == x) by {
            assert(s2.roots@.contains(x) <==> (m.dom().contains(x) && m[x].parent == x));
        }
        assert forall|x: usize| #[trigger]
            self.nodes@.dom().contains(x) implies self.nodes@[x].rank <= self.merges@ by {
            assert(m.dom().contains(x));
        }
        assert(forall|x: usize| self.nodes@.dom().contains(x) <==> m.dom().contains(x));
        assert(self.roots@.len() == s2.roots@.len() - 1);
        assert(self.wf());
        assert(self.ranks() =~= s2.ranks().insert(parent, rank_p));
        assert forall|y: usize| #[trigger] s2.nodes@.dom().contains(y) implies self.rep()[y] == if s2.rep()[y] == child
            || s2.rep()[y] == parent {
            parent
        } else {
            s2.rep()[y]
        } by {
            lemma_link(
                m,
                s2.height@,
                s2.bound@,
                self.height@,
                self.bound@,
                child,
                parent,
                rank_p,
                y,
            );
        }
    }

    /// Points every node directly at its representative, leaving the sets
    /// unchanged.
    pub fn collapse(&mut self)
        requires
            old(self).wf(),
        ensures
            final(self).wf(),
            final(self).rep() == old(self).rep(),
            final(self).ranks() == old(self).ranks(),
            final(self).order() == old(self).order(),
            final(self).merge_count() == old(self).merge_count(),
            final(self).is_flat(),
    {
        let ghost old_self = *self;
        let n = self.keys.len();
        let mut i: usize = 0;
        while i < n
            invariant
                self.wf(),
                0 <= i <= n,
                n == self.keys@.len(),
                self.rep() == old_self.rep(),
                self.ranks() == old_self.ranks(),
                self.order() == old_self.order(),
                self.merge_count() == old_self.merge_count(),
                self.parents().dom() == old_self.parents().dom(),
                forall|j: int|
                    0 <= j < i ==> #[trigger] self.parents()[self.keys@[j]] == self.rep()[self.keys@[
                        j
                    ]],
            decreases n - i,
        {
            let key = self.keys[i];
            let ghost before = *self;
            proof {
                assert(self.keys@.contains(key));
            }
            let _ = self.find(key);
            proof {
                assert forall|j: int| 0 <= j < i + 1 implies #[trigger] self.parents()[self.keys@[j]]
                    == self.rep()[self.keys@[j]] by {
                    let k = self.keys@[j];
                    assert(before.keys@.contains(k));
                    assert(before.parents().dom().contains(k));
                }
            }
            i = i + 1;
        }
        proof {
            assert forall|x: usize| #[trigger]
                self.parents().dom().contains(x) implies self.parents()[x] == self.rep()[x] by {
                assert(self.keys@.contains(x));
                let j = choose|j: int| 0 <= j < self.keys@.len() && self.keys@[j] == x;
                assert(self.parents()[self.keys@[j]] == self.rep()[self.keys@[j]]);
            }
        }
    }

    /// Each node paired with its parent, in the order in which the nodes were
    /// added. After [`DisjointSets::collapse`], the parent of each node is
    /// its representative.
    pub fn pairs(&self) -> (result: Vec<(usize, usize)>)
        requires
            self.wf(),
        ensures
            result@.len() == self.order().len(),
            forall|i: int|
                0 <= i < result@.len() ==> #[trigger] result@[i] == (
                    self.order()[i],
                    self.parents()[self.order()[i]],
                ),
    {
        let mut result: Vec<(usize, usize)> = Vec::new();
        let n = self.keys.len();
        let mut i: usize = 0;
        while i < n
            invariant
                self.wf(),
                0 <= i <= n,
                n == self.keys@.len(),
                result@.len() == i,
                forall|j: int|
                    0 <= j < i ==> #[trigger] result@[j] == (
                        self.keys@[j],
                        self.parents()[self.keys@[j]],
                    ),
            decreases n - i,
        {
            let key = self.keys[i];
            proof {
                assert(self.keys@.contains(key));
            }
            let parent = self.nodes.get(&key).unwrap().parent;
            result.push((key, parent));
            i = i + 1;
        }
        result
    }
}

} // verus!
