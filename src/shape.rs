use vstd::prelude::*;

verus! {

/// The mathematical form of the ordered index: a binary tree in which every
/// vertex records the id of the stored node that holds it and that node's key.
pub enum Shape {
    Leaf,
    Node { id: u32, key: u64, left: Box<Shape>, right: Box<Shape> },
}

pub open spec fn max_nat(a: nat, b: nat) -> nat {
    if a >= b {
        a
    } else {
        b
    }
}

/// A vertex with the given id and key above the two given subtrees.
pub open spec fn join(id: u32, key: u64, left: Shape, right: Shape) -> Shape {
    Shape::Node { id, key, left: Box::new(left), right: Box::new(right) }
}

impl Shape {
    pub open spec fn height(self) -> nat
        decreases self,
    {
        match self {
            Shape::Leaf => 0,
            Shape::Node { left, right, .. } => 1 + max_nat(left.height(), right.height()),
        }
    }

    pub open spec fn size(self) -> nat
        decreases self,
    {
        match self {
            Shape::Leaf => 0,
            Shape::Node { left, right, .. } => left.size() + right.size() + 1,
        }
    }

    pub open spec fn is_leaf(self) -> bool {
        self is Leaf
    }

    pub open spec fn root_id(self) -> Option<u32> {
        match self {
            Shape::Leaf => None,
            Shape::Node { id, .. } => Some(id),
        }
    }

    pub open spec fn keys(self) -> Set<u64>
        decreases self,
    {
        match self {
            Shape::Leaf => Set::empty(),
            Shape::Node { key, left, right, .. } => left.keys().union(right.keys()).insert(key),
        }
    }

    pub open spec fn ids(self) -> Set<u32>
        decreases self,
    {
        match self {
            Shape::Leaf => Set::empty(),
            Shape::Node { id, left, right, .. } => left.ids().union(right.ids()).insert(id),
        }
    }

    /// The keys as an in-order traversal visits them.
    pub open spec fn in_order(self) -> Seq<u64>
        decreases self,
    {
        match self {
            Shape::Leaf => Seq::empty(),
            Shape::Node { key, left, right, .. } => left.in_order().push(key) + right.in_order(),
        }
    }

    /// Every key of the left subtree is below the vertex's key, every key of the
    /// right subtree above it, at every vertex.
    pub open spec fn is_ordered(self) -> bool
        decreases self,
    {
        match self {
            Shape::Leaf => true,
            Shape::Node { key, left, right, .. } => {
                &&& left.is_ordered()
                &&& right.is_ordered()
                &&& forall|x: u64| left.keys().contains(x) ==> x < key
                &&& forall|x: u64| right.keys().contains(x) ==> key < x
            },
        }
    }

    /// The heights of the two subtrees differ by at most one, at every vertex.
    pub open spec fn is_balanced(self) -> bool
        decreases self,
    {
        match self {
            Shape::Leaf => true,
            Shape::Node { left, right, .. } => {
                &&& left.is_balanced()
                &&& right.is_balanced()
                &&& left.height() <= right.height() + 1
                &&& right.height() <= left.height() + 1
            },
        }
    }

    /// No node id occurs twice.
    pub open spec fn ids_distinct(self) -> bool
        decreases self,
    {
        match self {
            Shape::Leaf => true,
            Shape::Node { id, left, right, .. } => {
                &&& left.ids_distinct()
                &&& right.ids_distinct()
                &&& left.ids().disjoint(right.ids())
                &&& !left.ids().contains(id)
                &&& !right.ids().contains(id)
            },
        }
    }

    pub open spec fn wf(self) -> bool {
        self.is_ordered() && self.is_balanced() && self.ids_distinct()
    }

    /// The key of the leftmost vertex.
    pub open spec fn min_key(self) -> u64
        decreases self,
    {
        match self {
            Shape::Leaf => 0,
            Shape::Node { key, left, .. } => if left.is_leaf() {
                key
            } else {
                left.min_key()
            },
        }
    }

    /// The id of the leftmost vertex.
    pub open spec fn min_id(self) -> u32
        decreases self,
    {
        match self {
            Shape::Leaf => 0,
            Shape::Node { id, left, .. } => if left.is_leaf() {
                id
            } else {
                left.min_id()
            },
        }
    }

    /// The tree without its leftmost vertex, rebalanced on the way up.
    pub open spec fn remove_min(self) -> Shape
        decreases self,
    {
        match self {
            Shape::Leaf => Shape::Leaf,
            Shape::Node { id, key, left, right } => if left.is_leaf() {
                *right
            } else {
                rebalance(id, key, left.remove_min(), *right)
            },
        }
    }

    /// AVL insertion of `k`; a new vertex takes the id `fresh`.
    pub open spec fn insert(self, k: u64, fresh: u32) -> Shape
        decreases self,
    {
        match self {
            Shape::Leaf => join(fresh, k, Shape::Leaf, Shape::Leaf),
            Shape::Node { id, key, left, right } => if k < key {
                rebalance(id, key, left.insert(k, fresh), *right)
            } else if key < k {
                rebalance(id, key, *left, right.insert(k, fresh))
            } else {
                self
            },
        }
    }

    /// AVL removal of `k`. A vertex with two children takes the key of its
    /// in-order successor, whose own vertex is then removed.
    pub open spec fn remove(self, k: u64) -> Shape
        decreases self,
    {
        match self {
            Shape::Leaf => Shape::Leaf,
            Shape::Node { id, key, left, right } => if k < key {
                rebalance(id, key, left.remove(k), *right)
            } else if key < k {
                rebalance(id, key, *left, right.remove(k))
            } else if left.is_leaf() {
                *right
            } else if right.is_leaf() {
                *left
            } else {
                rebalance(id, right.min_key(), *left, right.remove_min())
            },
        }
    }
}

/// Joins two subtrees whose heights differ by at most two under a vertex,
/// with the single or double rotation that restores the balance.
pub open spec fn rebalance(id: u32, key: u64, l: Shape, r: Shape) -> Shape {
    if l.height() > r.height() + 1 {
        match l {
            Shape::Node { id: lid, key: lkey, left: ll, right: lr } => if ll.height()
                >= lr.height() {
                join(lid, lkey, *ll, join(id, key, *lr, r))
            } else {
                match *lr {
                    Shape::Node { id: mid, key: mkey, left: ml, right: mr } => join(
                        mid,
                        mkey,
                        join(lid, lkey, *ll, *ml),
                        join(id, key, *mr, r),
                    ),
                    Shape::Leaf => join(id, key, l, r),
                }
            },
            Shape::Leaf => join(id, key, l, r),
        }
    } else if r.height() > l.height() + 1 {
        match r {
            Shape::Node { id: rid, key: rkey, left: rl, right: rr } => if rr.height()
                >= rl.height() {
                join(rid, rkey, join(id, key, l, *rl), *rr)
            } else {
                match *rl {
                    Shape::Node { id: mid, key: mkey, left: ml, right: mr } => join(
                        mid,
                        mkey,
                        join(id, key, l, *ml),
                        join(rid, rkey, *mr, *rr),
                    ),
                    Shape::Leaf => join(id, key, l, r),
                }
            },
            Shape::Leaf => join(id, key, l, r),
        }
    } else {
        join(id, key, l, r)
    }
}

/// What `rebalance` asks of its parts: well-formed subtrees on the right sides
/// of the key, with distinct ids and heights at most two apart.
pub open spec fn can_join(id: u32, key: u64, l: Shape, r: Shape) -> bool {
    &&& l.wf()
    &&& r.wf()
    &&& forall|x: u64| l.keys().contains(x) ==> x < key
    &&& forall|x: u64| r.keys().contains(x) ==> key < x
    &&& l.ids().disjoint(r.ids())
    &&& !l.ids().contains(id)
    &&& !r.ids().contains(id)
    &&& l.height() <= r.height() + 2
    &&& r.height() <= l.height() + 2
}

/// What the definitions say of a vertex of a well-formed tree and its subtrees.
pub proof fn lemma_parts(s: Shape)
    requires
        s.wf(),
        s is Node,
    ensures
        s->left.wf(),
        s->right.wf(),
        s.keys() == s->left.keys().union(s->right.keys()).insert(s->key),
        s.ids() == s->left.ids().union(s->right.ids()).insert(s->id),
        s->left.keys().subset_of(s.keys()),
        s->right.keys().subset_of(s.keys()),
        s->left.ids().subset_of(s.ids()),
        s->right.ids().subset_of(s.ids()),
        forall|x: u64| s->left.keys().contains(x) ==> x < s->key,
        forall|x: u64| s->right.keys().contains(x) ==> s->key < x,
        s->left.ids().disjoint(s->right.ids()),
        !s->left.ids().contains(s->id),
        !s->right.ids().contains(s->id),
        s.height() == 1 + max_nat(s->left.height(), s->right.height()),
        s->left.height() <= s->right.height() + 1,
        s->right.height() <= s->left.height() + 1,
        s.size() == s->left.size() + s->right.size() + 1,
{
}

/// A vertex over two joinable subtrees of heights at most one apart.
pub proof fn lemma_join(id: u32, key: u64, l: Shape, r: Shape)
    requires
        can_join(id, key, l, r),
        l.height() <= r.height() + 1,
        r.height() <= l.height() + 1,
    ensures
        ({
            let t = join(id, key, l, r);
            &&& t.wf()
            &&& t.keys() == l.keys().union(r.keys()).insert(key)
            &&& t.ids() == l.ids().union(r.ids()).insert(id)
            &&& t.size() == l.size() + r.size() + 1
            &&& t.height() == 1 + max_nat(l.height(), r.height())
        }),
{
}

pub proof fn lemma_rebalance(id: u32, key: u64, l: Shape, r: Shape)
    requires
        can_join(id, key, l, r),
    ensures
        ({
            let t = rebalance(id, key, l, r);
            &&& t.wf()
            &&& t is Node
            &&& t.keys() == l.keys().union(r.keys()).insert(key)
            &&& t.ids() == l.ids().union(r.ids()).insert(id)
            &&& t.size() == l.size() + r.size() + 1
            &&& max_nat(l.height(), r.height()) <= t.height() <= max_nat(l.height(), r.height())
                + 1
            &&& (l.height() <= r.height() + 1 && r.height() <= l.height() + 1) ==> t.height() == 1
                + max_nat(l.height(), r.height())
        }),
{
    let t = rebalance(id, key, l, r);
    if l.height() > r.height() + 1 {
        lemma_parts(l);
        let (lid, lkey, ll, lr) = (l->id, l->key, *l->left, *l->right);
        assert(l.keys().contains(lkey));
        if ll.height() >= lr.height() {
            let inner = join(id, key, lr, r);
            lemma_join(id, key, lr, r);
            assert forall|x: u64| inner.keys().contains(x) implies lkey < x by {
                if !lr.keys().contains(x) {
                    assert(key == x || r.keys().contains(x));
                }
            }
            lemma_join(lid, lkey, ll, inner);
            assert(t == join(lid, lkey, ll, inner));
            assert(t.keys() =~= l.keys().union(r.keys()).insert(key));
            assert(t.ids() =~= l.ids().union(r.ids()).insert(id));
        } else {
            lemma_parts(lr);
            let (mid, mkey, ml, mr) = (lr->id, lr->key, *lr->left, *lr->right);
            assert(lr.keys().contains(mkey));
            let a = join(lid, lkey, ll, ml);
            let b = join(id, key, mr, r);
            lemma_join(lid, lkey, ll, ml);
            lemma_join(id, key, mr, r);
            assert forall|x: u64| a.keys().contains(x) implies x < mkey by {
                if ll.keys().contains(x) {
                    assert(x < lkey);
                }
            }
            assert forall|x: u64| b.keys().contains(x) implies mkey < x by {
                if !mr.keys().contains(x) {
                    assert(key == x || r.keys().contains(x));
                }
            }
            lemma_join(mid, mkey, a, b);
            assert(t == join(mid, mkey, a, b));
            assert(t.keys() =~= l.keys().union(r.keys()).insert(key));
            assert(t.ids() =~= l.ids().union(r.ids()).insert(id));
        }
    } else if r.height() > l.height() + 1 {
        lemma_parts(r);
        let (rid, rkey, rl, rr) = (r->id, r->key, *r->left, *r->right);
        assert(r.keys().contains(rkey));
        if rr.height() >= rl.height() {
            let inner = join(id, key, l, rl);
            lemma_join(id, key, l, rl);
            assert forall|x: u64| inner.keys().contains(x) implies x < rkey by {
                if !rl.keys().contains(x) {
                    assert(key == x || l.keys().contains(x));
                }
            }
            lemma_join(rid, rkey, inner, rr);
            assert(t == join(rid, rkey, inner, rr));
            assert(t.keys() =~= l.keys().union(r.keys()).insert(key));
            assert(t.ids() =~= l.ids().union(r.ids()).insert(id));
        } else {
            lemma_parts(rl);
            let (mid, mkey, ml, mr) = (rl->id, rl->key, *rl->left, *rl->right);
            assert(rl.keys().contains(mkey));
            let a = join(id, key, l, ml);
            let b = join(rid, rkey, mr, rr);
            lemma_join(id, key, l, ml);
            lemma_join(rid, rkey, mr, rr);
            assert forall|x: u64| a.keys().contains(x) implies x < mkey by {
                if !ml.keys().contains(x) {
                    assert(key == x || l.keys().contains(x));
                }
            }
            assert forall|x: u64| b.keys().contains(x) implies mkey < x by {
                if rr.keys().contains(x) {
                    assert(rkey < x);
                }
            }
            lemma_join(mid, mkey, a, b);
            assert(t == join(mid, mkey, a, b));
            assert(t.keys() =~= l.keys().union(r.keys()).insert(key));
            assert(t.ids() =~= l.ids().union(r.ids()).insert(id));
        }
    } else {
        lemma_join(id, key, l, r);
    }
}

/// Insertion of an absent key into a well-formed tree, with an id used nowhere
/// in it, gives a well-formed tree with that key and that id added.
pub proof fn lemma_insert(s: Shape, k: u64, fresh: u32)
    requires
        s.wf(),
        !s.keys().contains(k),
        !s.ids().contains(fresh),
    ensures
        ({
            let t = s.insert(k, fresh);
            &&& t.wf()
            &&& t is Node
            &&& t.keys() == s.keys().insert(k)
            &&& t.ids() == s.ids().insert(fresh)
            &&& t.size() == s.size() + 1
            &&& s.height() <= t.height() <= s.height() + 1
        }),
    decreases s,
{
    match s {
        Shape::Leaf => {
            let t = s.insert(k, fresh);
            assert(t.keys() =~= s.keys().insert(k));
            assert(t.ids() =~= s.ids().insert(fresh));
        },
        Shape::Node { id, key, left, right } => {
            if k < key {
                lemma_insert(*left, k, fresh);
                let nl = left.insert(k, fresh);
                lemma_rebalance(id, key, nl, *right);
                assert(s.insert(k, fresh).keys() =~= s.keys().insert(k));
                assert(s.insert(k, fresh).ids() =~= s.ids().insert(fresh));
            } else {
                lemma_insert(*right, k, fresh);
                let nr = right.insert(k, fresh);
                lemma_rebalance(id, key, *left, nr);
                assert(s.insert(k, fresh).keys() =~= s.keys().insert(k));
                assert(s.insert(k, fresh).ids() =~= s.ids().insert(fresh));
            }
        },
    }
}

/// The leftmost vertex holds the least key; removing it leaves the other keys.
pub proof fn lemma_remove_min(s: Shape)
    requires
        s.wf(),
        s is Node,
    ensures
        ({
            let t = s.remove_min();
            &&& t.wf()
            &&& s.keys().contains(s.min_key())
            &&& forall|x: u64| s.keys().contains(x) ==> s.min_key() <= x
            &&& s.ids().contains(s.min_id())
            &&& t.keys() == s.keys().remove(s.min_key())
            &&& t.ids() == s.ids().remove(s.min_id())
            &&& t.size() + 1 == s.size()
            &&& t.height() <= s.height() <= t.height() + 1
        }),
    decreases s,
{
    let (id, key, left, right) = (s->id, s->key, s->left, s->right);
    if left.is_leaf() {
        assert(s.keys().remove(key) =~= right.keys());
        assert(s.ids().remove(id) =~= right.ids());
    } else {
        lemma_remove_min(*left);
        let nl = left.remove_min();
        lemma_rebalance(id, key, nl, *right);
        assert(s.remove_min().keys() =~= s.keys().remove(s.min_key()));
        assert(s.remove_min().ids() =~= s.ids().remove(s.min_id()));
    }
}

/// Removal of a present key from a well-formed tree gives a well-formed tree
/// without that key, whose ids are among the old ones.
/// Removal of the key at the root of a well-formed tree.
proof fn lemma_remove_root(s: Shape)
    requires
        s.wf(),
        s is Node,
    ensures
        ({
            let t = s.remove(s->key);
            &&& t.wf()
            &&& t.keys() == s.keys().remove(s->key)
            &&& t.ids().subset_of(s.ids())
            &&& t.size() + 1 == s.size()
            &&& t.height() <= s.height() <= t.height() + 1
        }),
{
    lemma_parts(s);
    let (id, key, left, right) = (s->id, s->key, *s->left, *s->right);
    let t = s.remove(key);
    if left.is_leaf() {
        assert(t.keys() =~= s.keys().remove(key));
    } else if right.is_leaf() {
        assert(t.keys() =~= s.keys().remove(key));
    } else {
        lemma_remove_min(right);
        let m = right.min_key();
        let nr = right.remove_min();
        assert forall|x: u64| left.keys().contains(x) implies x < m by {
            assert(right.keys().contains(m));
        }
        lemma_rebalance(id, m, left, nr);
        assert(t == rebalance(id, m, left, nr));
        assert(t.keys() =~= s.keys().remove(key));
    }
}

/// Removal of a present key from a well-formed tree gives a well-formed tree
/// without that key, whose ids are among the old ones.
pub proof fn lemma_remove(s: Shape, k: u64)
    requires
        s.wf(),
        s.keys().contains(k),
    ensures
        ({
            let t = s.remove(k);
            &&& t.wf()
            &&& t.keys() == s.keys().remove(k)
            &&& t.ids().subset_of(s.ids())
            &&& t.size() + 1 == s.size()
            &&& t.height() <= s.height() <= t.height() + 1
        }),
    decreases s,
{
    lemma_parts(s);
    let (id, key, left, right) = (s->id, s->key, *s->left, *s->right);
    let t = s.remove(k);
    if k < key {
        lemma_remove(left, k);
        lemma_rebalance(id, key, left.remove(k), right);
        assert(t == rebalance(id, key, left.remove(k), right));
        assert(t.keys() =~= s.keys().remove(k));
    } else if key < k {
        assert(right.keys().contains(k));
        lemma_remove(right, k);
        lemma_rebalance(id, key, left, right.remove(k));
        assert(t == rebalance(id, key, left, right.remove(k)));
        assert(t.keys() =~= s.keys().remove(k));
    } else {
        lemma_remove_root(s);
    }
}

/// The number of vertices is the number of keys.
pub proof fn lemma_size_is_key_count(s: Shape)
    requires
        s.wf(),
    ensures
        s.keys().finite(),
        s.keys().len() == s.size(),
    decreases s,
{
    if let Shape::Node { key, left, right, .. } = s {
        lemma_size_is_key_count(*left);
        lemma_size_is_key_count(*right);
        vstd::set_lib::lemma_set_disjoint_lens(left.keys(), right.keys());
        assert(!left.keys().union(right.keys()).contains(key));
    }
}

/// No path is longer than the number of vertices.
pub proof fn lemma_height_at_most_size(s: Shape)
    ensures
        s.height() <= s.size(),
    decreases s,
{
    if let Shape::Node { left, right, .. } = s {
        lemma_height_at_most_size(*left);
        lemma_height_at_most_size(*right);
    }
}

/// An ordered tree lists its keys in strictly increasing order, each of them once.
pub proof fn lemma_in_order(s: Shape)
    requires
        s.is_ordered(),
    ensures
        forall|i: int, j: int| 0 <= i < j < s.in_order().len() ==> s.in_order()[i] < s.in_order()[j],
        forall|i: int| 0 <= i < s.in_order().len() ==> s.keys().contains(#[trigger] s.in_order()[i]),
        forall|x: u64| s.keys().contains(x) ==> s.in_order().contains(x),
    decreases s,
{
    if let Shape::Node { key, left, right, .. } = s {
        lemma_in_order(*left);
        lemma_in_order(*right);
        let a = left.in_order();
        let b = right.in_order();
        let q = s.in_order();
        assert(q == a.push(key) + b);
        assert forall|i: int| 0 <= i < q.len() implies s.keys().contains(#[trigger] q[i]) by {
            if i < a.len() {
                assert(q[i] == a[i]);
            } else if i == a.len() {
            } else {
                assert(q[i] == b[i - a.len() - 1]);
            }
        }
        assert forall|i: int, j: int| 0 <= i < j < q.len() implies q[i] < q[j] by {
            if j < a.len() {
                assert(q[i] == a[i] && q[j] == a[j]);
            } else if j == a.len() {
                assert(q[i] == a[i]);
                assert(left.keys().contains(a[i]));
            } else if i < a.len() {
                assert(q[i] == a[i] && q[j] == b[j - a.len() - 1]);
                assert(left.keys().contains(a[i]));
                assert(right.keys().contains(b[j - a.len() - 1]));
            } else if i == a.len() {
                assert(q[j] == b[j - a.len() - 1]);
                assert(right.keys().contains(b[j - a.len() - 1]));
            } else {
                assert(q[i] == b[i - a.len() - 1] && q[j] == b[j - a.len() - 1]);
            }
        }
        assert forall|x: u64| s.keys().contains(x) implies q.contains(x) by {
            if left.keys().contains(x) {
                let i = choose|i: int| 0 <= i < a.len() && a[i] == x;
                assert(q[i] == x);
            } else if right.keys().contains(x) {
                let i = choose|i: int| 0 <= i < b.len() && b[i] == x;
                assert(q[i + a.len() + 1] == x);
            } else {
                assert(q[a.len() as int] == x);
            }
        }
    }
}

/// A balanced tree of height `h` and `n` vertices has `2^h <= (n + 1)^2`,
/// that is `h <= 2 * log2(n + 1)`.
pub proof fn lemma_height_bound(s: Shape)
    requires
        s.is_balanced(),
    ensures
        vstd::arithmetic::power2::pow2(s.height()) <= (s.size() + 1) * (s.size() + 1),
    decreases s,
{
    vstd::arithmetic::power2::lemma_pow2_pos(s.height());
    vstd::arithmetic::power2::lemma2_to64();
    if let Shape::Node { left, right, .. } = s {
        lemma_height_bound(*left);
        lemma_height_bound(*right);
        let h = s.height();
        let a = left.size() + 1;
        let b = right.size() + 1;
        vstd::arithmetic::power2::lemma_pow2_unfold(h);
        if h >= 2 {
            let q = vstd::arithmetic::power2::pow2((h - 2) as nat);
            vstd::arithmetic::power2::lemma_pow2_unfold((h - 1) as nat);
            assert(left.height() >= h - 2 && right.height() >= h - 2);
            lemma_pow2_monotone(left.height(), (h - 2) as nat);
            lemma_pow2_monotone(right.height(), (h - 2) as nat);
            assert(a * a >= q && b * b >= q);
            lemma_square_of_sum(a as int, b as int, q as int, (s.size() + 1) as int);
            assert(vstd::arithmetic::power2::pow2(h) == 4 * q);
        } else {
            assert(a * a >= 1 && b * b >= 1) by (nonlinear_arith)
                requires
                    a >= 1,
                    b >= 1,
            ;
            lemma_square_of_sum(a as int, b as int, 1, (s.size() + 1) as int);
            assert(vstd::arithmetic::power2::pow2(h) == 2);
        }
        let n = (s.size() + 1) as int;
        assert(vstd::arithmetic::power2::pow2(h) <= n * n);
        assert((s.size() + 1) * (s.size() + 1) == n * n);
    } else {
        assert(s.size() == 0 && s.height() == 0);
        let n = s.size() + 1;
        assert(n * n == 1) by (nonlinear_arith)
            requires
                n == 1,
        ;
    }
}

proof fn lemma_pow2_monotone(e: nat, f: nat)
    requires
        f <= e,
    ensures
        vstd::arithmetic::power2::pow2(f) <= vstd::arithmetic::power2::pow2(e),
{
    if f < e {
        vstd::arithmetic::power2::lemma_pow2_strictly_increases(f, e);
    }
}

proof fn lemma_square_of_sum(a: int, b: int, q: int, n: int)
    requires
        a >= 1,
        b >= 1,
        a * a >= q,
        b * b >= q,
        n == a + b,
    ensures
        n * n >= 4 * q,
{
    if a <= b {
        assert((a + b) * (a + b) >= 4 * (a * a)) by (nonlinear_arith)
            requires
                1 <= a <= b,
        ;
    } else {
        assert((a + b) * (a + b) >= 4 * (b * b)) by (nonlinear_arith)
            requires
                1 <= b < a,
        ;
    }
}

} // verus!
