use crate::bound::{in_range, keys_in_range, Bound};
use crate::lookup_map::LookupMap;
use crate::shape::{
    can_join, join, lemma_height_at_most_size, lemma_height_bound, lemma_in_order, lemma_insert,
    lemma_parts, lemma_rebalance, lemma_remove, lemma_remove_min, lemma_size_is_key_count,
    rebalance, Shape,
};
use vstd::prelude::*;

verus! {

broadcast use vstd::std_specs::hash::group_hash_axioms;

/// One vertex of the index as it is stored: its key, the ids of its children
/// and the height of the subtree below it.
#[derive(Clone, Copy)]
pub struct Node {
    pub key: u64,
    pub left: Option<u32>,
    pub right: Option<u32>,
    pub height: u32,
}

/// The stored nodes `m` hold the tree `s`: each vertex of `s` is the node
/// under its id, with the same key, the ids of its children and its height.
pub open spec fn realizes(m: Map<u32, Node>, s: Shape) -> bool
    decreases s,
{
    match s {
        Shape::Leaf => true,
        Shape::Node { id, key, left, right } => {
            &&& m.contains_key(id)
            &&& m[id].key == key
            &&& m[id].left == left.root_id()
            &&& m[id].right == right.root_id()
            &&& m[id].height as nat == s.height()
            &&& realizes(m, *left)
            &&& realizes(m, *right)
        },
    }
}

/// `m2` differs from `m1` at most at the ids in `w`.
pub open spec fn same_outside(m1: Map<u32, Node>, m2: Map<u32, Node>, w: Set<u32>) -> bool {
    forall|x: u32|
        #![trigger m1.contains_key(x)]
        #![trigger m2.contains_key(x)]
        !w.contains(x) ==> (m1.contains_key(x) == m2.contains_key(x) && (m1.contains_key(x)
            ==> m1[x] == m2[x]))
}

/// Nodes that a write did not touch still hold the trees they held.
proof fn lemma_frame(m1: Map<u32, Node>, m2: Map<u32, Node>, w: Set<u32>, s: Shape)
    requires
        realizes(m1, s),
        same_outside(m1, m2, w),
        s.ids().disjoint(w),
    ensures
        realizes(m2, s),
    decreases s,
{
    if let Shape::Node { id, left, right, .. } = s {
        assert(s.ids().contains(id));
        assert(left.ids().subset_of(s.ids()));
        assert(right.ids().subset_of(s.ids()));
        lemma_frame(m1, m2, w, *left);
        lemma_frame(m1, m2, w, *right);
    }
}

/// A realized tree's ids are all stored.
proof fn lemma_ids_stored(m: Map<u32, Node>, s: Shape)
    requires
        realizes(m, s),
    ensures
        forall|x: u32| s.ids().contains(x) ==> m.contains_key(x),
    decreases s,
{
    if let Shape::Node { left, right, .. } = s {
        lemma_ids_stored(m, *left);
        lemma_ids_stored(m, *right);
    }
}

proof fn lemma_same_outside_trans(
    m1: Map<u32, Node>,
    m2: Map<u32, Node>,
    m3: Map<u32, Node>,
    w1: Set<u32>,
    w2: Set<u32>,
    w: Set<u32>,
)
    requires
        same_outside(m1, m2, w1),
        same_outside(m2, m3, w2),
        w1.subset_of(w),
        w2.subset_of(w),
    ensures
        same_outside(m1, m3, w),
{
    assert forall|x: u32| !w.contains(x) implies (m1.contains_key(x) == m3.contains_key(x) && (
    m1.contains_key(x) ==> m1[x] == m3[x])) by {
        assert(!w1.contains(x) && !w2.contains(x));
        assert(m1.contains_key(x) == m2.contains_key(x));
        assert(m2.contains_key(x) == m3.contains_key(x));
    }
}

fn read(nodes: &LookupMap<u32, Node>, id: u32) -> (n: Node)
    requires
        nodes@.contains_key(id),
    ensures
        n == nodes@[id],
{
    *nodes.get(&id).unwrap()
}

fn height_of(nodes: &LookupMap<u32, Node>, at: Option<u32>, Ghost(s): Ghost<Shape>) -> (h: u32)
    requires
        realizes(nodes@, s),
        s.root_id() == at,
    ensures
        h as nat == s.height(),
{
    match at {
        None => 0,
        Some(id) => read(nodes, id).height,
    }
}

/// Stores the vertex `id` with `key` above the trees rooted at `l` and `r`.
fn write(
    nodes: &mut LookupMap<u32, Node>,
    id: u32,
    key: u64,
    l: Option<u32>,
    r: Option<u32>,
    Ghost(ls): Ghost<Shape>,
    Ghost(rs): Ghost<Shape>,
)
    requires
        realizes(old(nodes)@, ls),
        realizes(old(nodes)@, rs),
        ls.root_id() == l,
        rs.root_id() == r,
        !ls.ids().contains(id),
        !rs.ids().contains(id),
        ls.height() < u32::MAX,
        rs.height() < u32::MAX,
    ensures
        realizes(final(nodes)@, join(id, key, ls, rs)),
        same_outside(old(nodes)@, final(nodes)@, set![id]),
        final(nodes).namespace() == old(nodes).namespace(),
{
    let hl = height_of(nodes, l, Ghost(ls));
    let hr = height_of(nodes, r, Ghost(rs));
    let height = if hl >= hr {
        hl + 1
    } else {
        hr + 1
    };
    let ghost m0 = nodes@;
    nodes.insert(id, Node { key, left: l, right: r, height });
    proof {
        assert(same_outside(m0, nodes@, set![id]));
        lemma_frame(m0, nodes@, set![id], ls);
        lemma_frame(m0, nodes@, set![id], rs);
    }
}

/// Stores `rebalance(id, key, ls, rs)` and returns the id of its root.
fn rebalance_at(
    nodes: &mut LookupMap<u32, Node>,
    id: u32,
    key: u64,
    l: Option<u32>,
    r: Option<u32>,
    Ghost(ls): Ghost<Shape>,
    Ghost(rs): Ghost<Shape>,
) -> (root: u32)
    requires
        realizes(old(nodes)@, ls),
        realizes(old(nodes)@, rs),
        ls.root_id() == l,
        rs.root_id() == r,
        can_join(id, key, ls, rs),
        ls.size() + rs.size() < u32::MAX,
    ensures
        realizes(final(nodes)@, rebalance(id, key, ls, rs)),
        rebalance(id, key, ls, rs).root_id() == Some(root),
        same_outside(old(nodes)@, final(nodes)@, ls.ids().union(rs.ids()).insert(id)),
        final(nodes).namespace() == old(nodes).namespace(),
{
    let ghost m0 = nodes@;
    let ghost w = ls.ids().union(rs.ids()).insert(id);
    proof {
        lemma_rebalance(id, key, ls, rs);
        lemma_height_at_most_size(ls);
        lemma_height_at_most_size(rs);
    }
    let hl = height_of(nodes, l, Ghost(ls));
    let hr = height_of(nodes, r, Ghost(rs));
    if hl > hr + 1 {
        let lid = l.unwrap();
        let ln = read(nodes, lid);
        let ghost ll = *ls->left;
        let ghost lr = *ls->right;
        proof {
            lemma_parts(ls);
            lemma_height_at_most_size(ll);
            lemma_height_at_most_size(lr);
        }
        let hll = height_of(nodes, ln.left, Ghost(ll));
        let hlr = height_of(nodes, ln.right, Ghost(lr));
        if hll >= hlr {
            write(nodes, id, key, ln.right, r, Ghost(lr), Ghost(rs));
            let ghost m1 = nodes@;
            proof {
                lemma_frame(m0, m1, set![id], ll);
                lemma_height_at_most_size(join(id, key, lr, rs));
            }
            write(nodes, lid, ln.key, ln.left, Some(id), Ghost(ll), Ghost(join(id, key, lr, rs)));
            proof {
                lemma_same_outside_trans(m0, m1, nodes@, set![id], set![lid], w);
            }
            lid
        } else {
            let mid = ln.right.unwrap();
            assert(realizes(m0, lr));
            let mn = read(nodes, mid);
            let ghost ml = *lr->left;
            let ghost mr = *lr->right;
            proof {
                lemma_parts(lr);
                assert(realizes(m0, ml) && realizes(m0, mr));
                lemma_height_at_most_size(ml);
                lemma_height_at_most_size(mr);
            }
            write(nodes, lid, ln.key, ln.left, mn.left, Ghost(ll), Ghost(ml));
            let ghost m1 = nodes@;
            proof {
                lemma_frame(m0, m1, set![lid], mr);
                lemma_frame(m0, m1, set![lid], rs);
            }
            write(nodes, id, key, mn.right, r, Ghost(mr), Ghost(rs));
            let ghost m2 = nodes@;
            proof {
                lemma_frame(m1, m2, set![id], join(lid, ln.key, ll, ml));
                lemma_height_at_most_size(join(lid, ln.key, ll, ml));
                lemma_height_at_most_size(join(id, key, mr, rs));
            }
            write(
                nodes,
                mid,
                mn.key,
                Some(lid),
                Some(id),
                Ghost(join(lid, ln.key, ll, ml)),
                Ghost(join(id, key, mr, rs)),
            );
            proof {
                lemma_same_outside_trans(m0, m1, m2, set![lid], set![id], w);
                lemma_same_outside_trans(m0, m2, nodes@, w, set![mid], w);
            }
            mid
        }
    } else if hr > hl + 1 {
        let rid = r.unwrap();
        let rn = read(nodes, rid);
        let ghost rl = *rs->left;
        let ghost rr = *rs->right;
        proof {
            lemma_parts(rs);
            lemma_height_at_most_size(rl);
            lemma_height_at_most_size(rr);
        }
        let hrl = height_of(nodes, rn.left, Ghost(rl));
        let hrr = height_of(nodes, rn.right, Ghost(rr));
        if hrr >= hrl {
            write(nodes, id, key, l, rn.left, Ghost(ls), Ghost(rl));
            let ghost m1 = nodes@;
            proof {
                lemma_frame(m0, m1, set![id], rr);
                lemma_height_at_most_size(join(id, key, ls, rl));
            }
            write(nodes, rid, rn.key, Some(id), rn.right, Ghost(join(id, key, ls, rl)), Ghost(rr));
            proof {
                lemma_same_outside_trans(m0, m1, nodes@, set![id], set![rid], w);
            }
            rid
        } else {
            let mid = rn.left.unwrap();
            assert(realizes(m0, rl));
            let mn = read(nodes, mid);
            let ghost ml = *rl->left;
            let ghost mr = *rl->right;
            proof {
                lemma_parts(rl);
                assert(realizes(m0, ml) && realizes(m0, mr));
                lemma_height_at_most_size(ml);
                lemma_height_at_most_size(mr);
            }
            write(nodes, id, key, l, mn.left, Ghost(ls), Ghost(ml));
            let ghost m1 = nodes@;
            proof {
                lemma_frame(m0, m1, set![id], mr);
                lemma_frame(m0, m1, set![id], rr);
            }
            write(nodes, rid, rn.key, mn.right, rn.right, Ghost(mr), Ghost(rr));
            let ghost m2 = nodes@;
            proof {
                lemma_frame(m1, m2, set![rid], join(id, key, ls, ml));
                lemma_height_at_most_size(join(id, key, ls, ml));
                lemma_height_at_most_size(join(rid, rn.key, mr, rr));
            }
            write(
                nodes,
                mid,
                mn.key,
                Some(id),
                Some(rid),
                Ghost(join(id, key, ls, ml)),
                Ghost(join(rid, rn.key, mr, rr)),
            );
            proof {
                lemma_same_outside_trans(m0, m1, m2, set![id], set![rid], w);
                lemma_same_outside_trans(m0, m2, nodes@, w, set![mid], w);
            }
            mid
        }
    } else {
        write(nodes, id, key, l, r, Ghost(ls), Ghost(rs));
        id
    }
}

/// Stores `s.insert(key, fresh)` over the nodes that hold `s` and returns the
/// id of its root.
fn insert_at(
    nodes: &mut LookupMap<u32, Node>,
    at: Option<u32>,
    key: u64,
    fresh: u32,
    Ghost(s): Ghost<Shape>,
) -> (root: u32)
    requires
        realizes(old(nodes)@, s),
        s.root_id() == at,
        s.wf(),
        !s.keys().contains(key),
        !s.ids().contains(fresh),
        s.size() < u32::MAX,
    ensures
        realizes(final(nodes)@, s.insert(key, fresh)),
        s.insert(key, fresh).root_id() == Some(root),
        same_outside(old(nodes)@, final(nodes)@, s.ids().insert(fresh)),
        final(nodes).namespace() == old(nodes).namespace(),
    decreases s,
{
    let ghost m0 = nodes@;
    match at {
        None => {
            write(nodes, fresh, key, None, None, Ghost(Shape::Leaf), Ghost(Shape::Leaf));
            fresh
        },
        Some(id) => {
            let n = read(nodes, id);
            let ghost left = *s->left;
            let ghost right = *s->right;
            proof {
                lemma_parts(s);
            }
            if key < n.key {
                let nl = insert_at(nodes, n.left, key, fresh, Ghost(left));
                proof {
                    lemma_insert(left, key, fresh);
                    lemma_frame(m0, nodes@, left.ids().insert(fresh), right);
                }
                let ghost m1 = nodes@;
                let root = rebalance_at(
                    nodes,
                    id,
                    n.key,
                    Some(nl),
                    n.right,
                    Ghost(left.insert(key, fresh)),
                    Ghost(right),
                );
                proof {
                    lemma_same_outside_trans(
                        m0,
                        m1,
                        nodes@,
                        left.ids().insert(fresh),
                        left.insert(key, fresh).ids().union(right.ids()).insert(id),
                        s.ids().insert(fresh),
                    );
                }
                root
            } else {
                let nr = insert_at(nodes, n.right, key, fresh, Ghost(right));
                proof {
                    lemma_insert(right, key, fresh);
                    lemma_frame(m0, nodes@, right.ids().insert(fresh), left);
                }
                let ghost m1 = nodes@;
                let root = rebalance_at(
                    nodes,
                    id,
                    n.key,
                    n.left,
                    Some(nr),
                    Ghost(left),
                    Ghost(right.insert(key, fresh)),
                );
                proof {
                    lemma_same_outside_trans(
                        m0,
                        m1,
                        nodes@,
                        right.ids().insert(fresh),
                        left.ids().union(right.insert(key, fresh).ids()).insert(id),
                        s.ids().insert(fresh),
                    );
                }
                root
            }
        },
    }
}

/// Deletes the leftmost vertex of the stored tree `s`, rooted at `id`.
/// Returns the new root and the key that the deleted vertex held.
fn remove_min_at(nodes: &mut LookupMap<u32, Node>, id: u32, Ghost(s): Ghost<Shape>) -> (r: (
    Option<u32>,
    u64,
))
    requires
        realizes(old(nodes)@, s),
        s.root_id() == Some(id),
        s.wf(),
        s.size() <= u32::MAX,
    ensures
        realizes(final(nodes)@, s.remove_min()),
        r.0 == s.remove_min().root_id(),
        r.1 == s.min_key(),
        same_outside(old(nodes)@, final(nodes)@, s.ids()),
        final(nodes).namespace() == old(nodes).namespace(),
        forall|x: u32|
            s.ids().contains(x) && #[trigger] final(nodes)@.contains_key(x) ==> s.remove_min().ids().contains(x),
    decreases s,
{
    let ghost m0 = nodes@;
    let n = read(nodes, id);
    let ghost left = *s->left;
    let ghost right = *s->right;
    proof {
        lemma_parts(s);
        lemma_remove_min(s);
    }
    match n.left {
        None => {
            nodes.remove(&id);
            proof {
                assert(same_outside(m0, nodes@, set![id]));
                lemma_frame(m0, nodes@, set![id], right);
                lemma_ids_stored(nodes@, right);
            }
            (n.right, n.key)
        },
        Some(lid) => {
            let (nl, m) = remove_min_at(nodes, lid, Ghost(left));
            proof {
                lemma_remove_min(left);
                lemma_frame(m0, nodes@, left.ids(), right);
            }
            let ghost m1 = nodes@;
            let root = rebalance_at(
                nodes,
                id,
                n.key,
                nl,
                n.right,
                Ghost(left.remove_min()),
                Ghost(right),
            );
            proof {
                lemma_same_outside_trans(
                    m0,
                    m1,
                    nodes@,
                    left.ids(),
                    left.remove_min().ids().union(right.ids()).insert(id),
                    s.ids(),
                );
            }
            (Some(root), m)
        },
    }
}

/// Stores `s.remove(key)` over the nodes that hold `s` and returns its root.
fn remove_at(nodes: &mut LookupMap<u32, Node>, at: Option<u32>, key: u64, Ghost(s): Ghost<Shape>) -> (root: Option<u32>)
    requires
        realizes(old(nodes)@, s),
        s.root_id() == at,
        s.wf(),
        s.keys().contains(key),
        s.size() <= u32::MAX,
    ensures
        realizes(final(nodes)@, s.remove(key)),
        root == s.remove(key).root_id(),
        same_outside(old(nodes)@, final(nodes)@, s.ids()),
        final(nodes).namespace() == old(nodes).namespace(),
        forall|x: u32|
            s.ids().contains(x) && #[trigger] final(nodes)@.contains_key(x) ==> s.remove(key).ids().contains(x),
    decreases s,
{
    let ghost m0 = nodes@;
    let id = at.unwrap();
    let n = read(nodes, id);
    let ghost left = *s->left;
    let ghost right = *s->right;
    proof {
        lemma_parts(s);
        lemma_remove(s, key);
    }
    if key < n.key {
        let nl = remove_at(nodes, n.left, key, Ghost(left));
        proof {
            lemma_remove(left, key);
            lemma_frame(m0, nodes@, left.ids(), right);
        }
        let ghost m1 = nodes@;
        let root = rebalance_at(nodes, id, n.key, nl, n.right, Ghost(left.remove(key)), Ghost(right));
        proof {
            lemma_rebalance(id, n.key, left.remove(key), right);
            lemma_same_outside_trans(
                m0,
                m1,
                nodes@,
                left.ids(),
                left.remove(key).ids().union(right.ids()).insert(id),
                s.ids(),
            );
        }
        Some(root)
    } else if n.key < key {
        let nr = remove_at(nodes, n.right, key, Ghost(right));
        proof {
            lemma_remove(right, key);
            lemma_frame(m0, nodes@, right.ids(), left);
        }
        let ghost m1 = nodes@;
        let root = rebalance_at(nodes, id, n.key, n.left, nr, Ghost(left), Ghost(right.remove(key)));
        proof {
            lemma_rebalance(id, n.key, left, right.remove(key));
            lemma_same_outside_trans(
                m0,
                m1,
                nodes@,
                right.ids(),
                left.ids().union(right.remove(key).ids()).insert(id),
                s.ids(),
            );
        }
        Some(root)
    } else if n.left.is_none() {
        nodes.remove(&id);
        proof {
            assert(same_outside(m0, nodes@, set![id]));
            lemma_frame(m0, nodes@, set![id], right);
        }
        n.right
    } else if n.right.is_none() {
        nodes.remove(&id);
        proof {
            assert(same_outside(m0, nodes@, set![id]));
            lemma_frame(m0, nodes@, set![id], left);
        }
        n.left
    } else {
        let (nr, m) = remove_min_at(nodes, n.right.unwrap(), Ghost(right));
        proof {
            lemma_remove_min(right);
            lemma_frame(m0, nodes@, right.ids(), left);
            assert forall|x: u64| left.keys().contains(x) implies x < m by {
                assert(right.keys().contains(m));
            }
        }
        let ghost m1 = nodes@;
        let root = rebalance_at(nodes, id, m, n.left, nr, Ghost(left), Ghost(right.remove_min()));
        proof {
            lemma_rebalance(id, m, left, right.remove_min());
            lemma_same_outside_trans(
                m0,
                m1,
                nodes@,
                right.ids(),
                left.ids().union(right.remove_min().ids()).insert(id),
                s.ids(),
            );
        }
        Some(root)
    }
}

/// The number of keys of the stored tree `s` that lie in the range from `min`
/// to `max`. Subtrees that lie wholly outside the range are not visited.
fn count_at(
    nodes: &LookupMap<u32, Node>,
    at: Option<u32>,
    min: Bound,
    max: Bound,
    Ghost(s): Ghost<Shape>,
) -> (c: u32)
    requires
        realizes(nodes@, s),
        s.root_id() == at,
        s.wf(),
        s.size() <= u32::MAX,
    ensures
        keys_in_range(s.keys(), min, max).finite(),
        c as nat == keys_in_range(s.keys(), min, max).len(),
    decreases s,
{
    proof {
        lemma_size_is_key_count(s);
        s.keys().lemma_len_filter(|x: u64| in_range(min, max, x));
    }
    match at {
        None => {
            proof {
                assert(keys_in_range(s.keys(), min, max) =~= Set::empty());
            }
            0
        },
        Some(id) => {
            let n = read(nodes, id);
            let ghost left = *s->left;
            let ghost right = *s->right;
            proof {
                lemma_parts(s);
                lemma_size_is_key_count(left);
                lemma_size_is_key_count(right);
                left.keys().lemma_len_filter(|x: u64| in_range(min, max, x));
                right.keys().lemma_len_filter(|x: u64| in_range(min, max, x));
            }
            let go_left = match min {
                Bound::Included(k) => k < n.key,
                Bound::Excluded(k) => k < n.key,
                Bound::Unbounded => true,
            };
            let go_right = match max {
                Bound::Included(k) => n.key < k,
                Bound::Excluded(k) => n.key < k,
                Bound::Unbounded => true,
            };
            let here = match (min, max) {
                (Bound::Included(a), _) if n.key < a => false,
                (Bound::Excluded(a), _) if n.key <= a => false,
                (_, Bound::Included(b)) if b < n.key => false,
                (_, Bound::Excluded(b)) if b <= n.key => false,
                _ => true,
            };
            let cl = if go_left {
                count_at(nodes, n.left, min, max, Ghost(left))
            } else {
                proof {
                    assert(keys_in_range(left.keys(), min, max) =~= Set::empty());
                }
                0
            };
            let cr = if go_right {
                count_at(nodes, n.right, min, max, Ghost(right))
            } else {
                proof {
                    assert(keys_in_range(right.keys(), min, max) =~= Set::empty());
                }
                0
            };
            proof {
                let a = keys_in_range(left.keys(), min, max);
                let b = keys_in_range(right.keys(), min, max);
                let all = keys_in_range(s.keys(), min, max);
                assert(here == in_range(min, max, n.key));
                vstd::set_lib::lemma_set_disjoint_lens(a, b);
                assert(a.disjoint(b));
                if here {
                    assert(all =~= (a + b).insert(n.key));
                    assert(!(a + b).contains(n.key));
                } else {
                    assert(all =~= a + b);
                }
                assert(all.len() <= s.size());
            }
            if here {
                cl + cr + 1
            } else {
                cl + cr
            }
        },
    }
}

/// `x` lies on the allowed side of `k` from below: `x <= k`, or `x < k` when
/// `k` itself is excluded.
pub open spec fn fits_below(x: u64, k: u64, inclusive: bool) -> bool {
    if inclusive {
        x <= k
    } else {
        x < k
    }
}

/// `x` lies on the allowed side of `k` from above.
pub open spec fn fits_above(x: u64, k: u64, inclusive: bool) -> bool {
    if inclusive {
        k <= x
    } else {
        k < x
    }
}

/// `r` is the greatest key of `keys` that fits below `k`, or none if no key does.
pub open spec fn is_greatest_below(keys: Set<u64>, k: u64, inclusive: bool, r: Option<u64>) -> bool {
    match r {
        Some(x) => {
            &&& keys.contains(x)
            &&& fits_below(x, k, inclusive)
            &&& forall|y: u64| keys.contains(y) && fits_below(y, k, inclusive) ==> y <= x
        },
        None => forall|y: u64| keys.contains(y) ==> !fits_below(y, k, inclusive),
    }
}

/// `r` is the least key of `keys` that fits above `k`, or none if no key does.
pub open spec fn is_least_above(keys: Set<u64>, k: u64, inclusive: bool, r: Option<u64>) -> bool {
    match r {
        Some(x) => {
            &&& keys.contains(x)
            &&& fits_above(x, k, inclusive)
            &&& forall|y: u64| keys.contains(y) && fits_above(y, k, inclusive) ==> x <= y
        },
        None => forall|y: u64| keys.contains(y) ==> !fits_above(y, k, inclusive),
    }
}

/// The ordered index: a self-balancing (AVL) search tree over `u64` keys whose
/// nodes are stored one by one in a lookup map, addressed by ids issued from
/// a counter that only grows.
pub struct Tree {
    root: Option<u32>,
    nodes: LookupMap<u32, Node>,
    next_id: u32,
    len: u32,
    shape: Ghost<Shape>,
}

impl View for Tree {
    type V = Set<u64>;

    closed spec fn view(&self) -> Set<u64> {
        self.shape@.keys()
    }
}

impl Tree {
    /// The tree that the stored nodes hold.
    pub closed spec fn shape(&self) -> Shape {
        self.shape@
    }

    pub closed spec fn wf(&self) -> bool {
        &&& realizes(self.nodes@, self.shape@)
        &&& self.shape@.root_id() == self.root
        &&& self.shape@.wf()
        &&& self.nodes@.dom() == self.shape@.ids()
        &&& forall|x: u32| self.shape@.ids().contains(x) ==> x < self.next_id
        &&& self.len as nat == self.shape@.size()
        &&& self.len <= self.next_id
    }

    /// How many node ids have been issued so far.
    pub closed spec fn issued(&self) -> nat {
        self.next_id as nat
    }

    /// Another node id can still be issued.
    pub open spec fn has_room(&self) -> bool {
        self.issued() < u32::MAX
    }

    /// The namespace under which the nodes are stored.
    pub closed spec fn namespace(&self) -> Seq<u8> {
        self.nodes.namespace()
    }

    pub fn new(prefix: Vec<u8>) -> (r: Self)
        ensures
            r.wf(),
            r@ == Set::<u64>::empty(),
            r.issued() == 0,
            r.namespace() == prefix@,
    {
        let r = Tree {
            root: None,
            nodes: LookupMap::new(prefix),
            next_id: 0,
            len: 0,
            shape: Ghost(Shape::Leaf),
        };
        proof {
            assert(r.nodes@.dom() =~= Shape::Leaf.ids());
        }
        r
    }

    /// The number of keys.
    pub fn len(&self) -> (r: u32)
        requires
            self.wf(),
        ensures
            r as nat == self@.len(),
            r as nat == self.shape().size(),
            self@.finite(),
    {
        proof {
            lemma_size_is_key_count(self.shape@);
        }
        self.len
    }

    pub fn is_empty(&self) -> (r: bool)
        requires
            self.wf(),
        ensures
            r == (self@ == Set::<u64>::empty()),
    {
        proof {
            lemma_size_is_key_count(self.shape@);
            if self.len != 0 {
                assert(self@.len() != 0);
            } else {
                assert(self@ =~= Set::<u64>::empty());
            }
        }
        self.len == 0
    }

    /// The height of the tree: the number of nodes on its longest path.
    pub fn height(&self) -> (r: u32)
        requires
            self.wf(),
        ensures
            r as nat == self.shape().height(),
    {
        height_of(&self.nodes, self.root, Ghost(self.shape@))
    }

    pub fn contains(&self, key: u64) -> (r: bool)
        requires
            self.wf(),
        ensures
            r == self@.contains(key),
    {
        let mut cur = self.root;
        let ghost mut t = self.shape@;
        loop
            invariant
                self.wf(),
                realizes(self.nodes@, t),
                t.root_id() == cur,
                t.wf(),
                self@.contains(key) == t.keys().contains(key),
            decreases t.height(),
        {
            match cur {
                None => {
                    return false;
                },
                Some(id) => {
                    let n = read(&self.nodes, id);
                    proof {
                        lemma_parts(t);
                    }
                    if key == n.key {
                        return true;
                    } else if key < n.key {
                        cur = n.left;
                        proof {
                            t = *t->left;
                        }
                    } else {
                        cur = n.right;
                        proof {
                            t = *t->right;
                        }
                    }
                },
            }
        }
    }

    /// The greatest key below `k` (or equal to it, when `inclusive`).
    fn below(&self, k: u64, inclusive: bool) -> (r: Option<u64>)
        requires
            self.wf(),
        ensures
            is_greatest_below(self@, k, inclusive, r),
    {
        let mut cur = self.root;
        let mut best: Option<u64> = None;
        let ghost mut t = self.shape@;
        loop
            invariant
                self.wf(),
                realizes(self.nodes@, t),
                t.root_id() == cur,
                t.wf(),
                t.keys().subset_of(self@),
                forall|y: u64|
                    self@.contains(y) && fits_below(y, k, inclusive) && !t.keys().contains(y)
                        ==> best is Some && y <= best->0,
                best is Some ==> self@.contains(best->0) && fits_below(best->0, k, inclusive),
                best is Some ==> forall|y: u64| t.keys().contains(y) ==> best->0 < y,
            decreases t.height(),
        {
            match cur {
                None => {
                    return best;
                },
                Some(id) => {
                    let n = read(&self.nodes, id);
                    proof {
                        lemma_parts(t);
                    }
                    let ghost t0 = t;
                    let fits = if inclusive {
                        n.key <= k
                    } else {
                        n.key < k
                    };
                    if fits {
                        best = Some(n.key);
                        cur = n.right;
                        proof {
                            t = *t->right;
                            assert forall|y: u64|
                                self@.contains(y) && fits_below(y, k, inclusive) && !t.keys().contains(
                                    y,
                                ) implies best is Some && y <= best->0 by {
                                if !t0.keys().contains(y) {
                                    assert(t0.keys().contains(n.key));
                                }
                            }
                        }
                    } else {
                        cur = n.left;
                        proof {
                            t = *t->left;
                            assert forall|y: u64|
                                self@.contains(y) && fits_below(y, k, inclusive) && !t.keys().contains(
                                    y,
                                ) implies best is Some && y <= best->0 by {
                                if t0.keys().contains(y) {
                                    assert(n.key < y);
                                }
                            }
                        }
                    }
                },
            }
        }
    }

    /// The least key above `k` (or equal to it, when `inclusive`).
    fn above(&self, k: u64, inclusive: bool) -> (r: Option<u64>)
        requires
            self.wf(),
        ensures
            is_least_above(self@, k, inclusive, r),
    {
        let mut cur = self.root;
        let mut best: Option<u64> = None;
        let ghost mut t = self.shape@;
        loop
            invariant
                self.wf(),
                realizes(self.nodes@, t),
                t.root_id() == cur,
                t.wf(),
                t.keys().subset_of(self@),
                forall|y: u64|
                    self@.contains(y) && fits_above(y, k, inclusive) && !t.keys().contains(y)
                        ==> best is Some && best->0 <= y,
                best is Some ==> self@.contains(best->0) && fits_above(best->0, k, inclusive),
                best is Some ==> forall|y: u64| t.keys().contains(y) ==> y < best->0,
            decreases t.height(),
        {
            match cur {
                None => {
                    return best;
                },
                Some(id) => {
                    let n = read(&self.nodes, id);
                    proof {
                        lemma_parts(t);
                    }
                    let ghost t0 = t;
                    let fits = if inclusive {
                        k <= n.key
                    } else {
                        k < n.key
                    };
                    if fits {
                        best = Some(n.key);
                        cur = n.left;
                        proof {
                            t = *t->left;
                            assert forall|y: u64|
                                self@.contains(y) && fits_above(y, k, inclusive) && !t.keys().contains(
                                    y,
                                ) implies best is Some && best->0 <= y by {
                                if !t0.keys().contains(y) {
                                    assert(t0.keys().contains(n.key));
                                }
                            }
                        }
                    } else {
                        cur = n.right;
                        proof {
                            t = *t->right;
                            assert forall|y: u64|
                                self@.contains(y) && fits_above(y, k, inclusive) && !t.keys().contains(
                                    y,
                                ) implies best is Some && best->0 <= y by {
                                if t0.keys().contains(y) {
                                    assert(y < n.key);
                                }
                            }
                        }
                    }
                },
            }
        }
    }

    /// The smallest key, or none if the tree is empty.
    pub fn min(&self) -> (r: Option<u64>)
        requires
            self.wf(),
        ensures
            is_least_above(self@, 0, true, r),
    {
        self.above(0, true)
    }

    /// The largest key, or none if the tree is empty.
    pub fn max(&self) -> (r: Option<u64>)
        requires
            self.wf(),
        ensures
            is_greatest_below(self@, u64::MAX, true, r),
    {
        self.below(u64::MAX, true)
    }

    /// The largest key `<= k`.
    pub fn floor_key(&self, k: u64) -> (r: Option<u64>)
        requires
            self.wf(),
        ensures
            is_greatest_below(self@, k, true, r),
    {
        self.below(k, true)
    }

    /// The smallest key `>= k`.
    pub fn ceil_key(&self, k: u64) -> (r: Option<u64>)
        requires
            self.wf(),
        ensures
            is_least_above(self@, k, true, r),
    {
        self.above(k, true)
    }

    /// The largest key `< k`.
    pub fn lower(&self, k: u64) -> (r: Option<u64>)
        requires
            self.wf(),
        ensures
            is_greatest_below(self@, k, false, r),
    {
        self.below(k, false)
    }

    /// The smallest key `> k`.
    pub fn higher(&self, k: u64) -> (r: Option<u64>)
        requires
            self.wf(),
        ensures
            is_least_above(self@, k, false, r),
    {
        self.above(k, false)
    }

    /// The number of keys in the range from `min` to `max`.
    pub fn count_range(&self, min: Bound, max: Bound) -> (r: u32)
        requires
            self.wf(),
        ensures
            r as nat == keys_in_range(self@, min, max).len(),
    {
        proof {
            lemma_key_count(self);
        }
        count_at(&self.nodes, self.root, min, max, Ghost(self.shape@))
    }

    /// Adds `key`. Returns whether it was absent; a present key leaves the
    /// tree as it was.
    pub fn insert(&mut self, key: u64) -> (r: bool)
        requires
            old(self).wf(),
            old(self)@.contains(key) || old(self).has_room(),
        ensures
            final(self).wf(),
            final(self)@ == old(self)@.insert(key),
            final(self).namespace() == old(self).namespace(),
            r == !old(self)@.contains(key),
            final(self).issued() == old(self).issued() + if r {
                1nat
            } else {
                0nat
            },
            !r ==> *final(self) == *old(self),
    {
        if self.contains(key) {
            return false;
        }
        let fresh = self.next_id;
        let ghost s = self.shape@;
        let ghost m0 = self.nodes@;
        proof {
            lemma_insert(s, key, fresh);
        }
        let root = insert_at(&mut self.nodes, self.root, key, fresh, Ghost(s));
        self.root = Some(root);
        self.next_id = fresh + 1;
        self.len = self.len + 1;
        self.shape = Ghost(s.insert(key, fresh));
        proof {
            let t = s.insert(key, fresh);
            lemma_ids_stored(self.nodes@, t);
            assert(self.nodes@.dom() =~= t.ids());
        }
        true
    }

    /// Removes `key`. Returns whether it was present; an absent key leaves
    /// the tree as it was.
    pub fn remove(&mut self, key: u64) -> (r: bool)
        requires
            old(self).wf(),
        ensures
            final(self).wf(),
            final(self)@ == old(self)@.remove(key),
            final(self).namespace() == old(self).namespace(),
            final(self).issued() == old(self).issued(),
            r == old(self)@.contains(key),
            !r ==> *final(self) == *old(self),
    {
        if !self.contains(key) {
            proof {
                assert(self@.remove(key) =~= self@);
            }
            return false;
        }
        let ghost s = self.shape@;
        proof {
            lemma_remove(s, key);
        }
        let root = remove_at(&mut self.nodes, self.root, key, Ghost(s));
        self.root = root;
        self.len = self.len - 1;
        self.shape = Ghost(s.remove(key));
        proof {
            let t = s.remove(key);
            lemma_ids_stored(self.nodes@, t);
            assert(self.nodes@.dom() =~= t.ids());
        }
        true
    }
}

/// The index holds finitely many keys, one vertex for each, and no more than
/// node ids can address.
pub proof fn lemma_key_count(tree: &Tree)
    requires
        tree.wf(),
    ensures
        tree@.finite(),
        tree@.len() == tree.shape().size(),
        tree.shape().size() <= u32::MAX,
{
    lemma_size_is_key_count(tree.shape@);
}

/// An in-order traversal of the index yields its keys in strictly increasing
/// order, each key exactly once.
pub proof fn lemma_in_order_increasing(tree: &Tree)
    requires
        tree.wf(),
    ensures
        forall|i: int, j: int|
            0 <= i < j < tree.shape().in_order().len() ==> tree.shape().in_order()[i]
                < tree.shape().in_order()[j],
        tree.shape().in_order().to_set() == tree@,
{
    lemma_in_order(tree.shape@);
    let q = tree.shape@.in_order();
    assert forall|x: u64| q.to_set().contains(x) <==> tree@.contains(x) by {
        if q.to_set().contains(x) {
            let i = choose|i: int| 0 <= i < q.len() && q[i] == x;
            assert(tree@.contains(q[i]));
        }
    }
    assert(q.to_set() =~= tree@);
}

/// Every vertex of the index has subtrees whose heights differ by at most
/// one, so a tree of height `h` over `n` keys has `2^h <= (n + 1)^2`, that
/// is `h <= 2 * log2(n + 1)`.
pub proof fn lemma_height_logarithmic(tree: &Tree)
    requires
        tree.wf(),
    ensures
        tree.shape().is_balanced(),
        vstd::arithmetic::power2::pow2(tree.shape().height()) <= (tree@.len() + 1) * (tree@.len()
            + 1),
{
    lemma_size_is_key_count(tree.shape@);
    lemma_height_bound(tree.shape@);
}

} // verus!
