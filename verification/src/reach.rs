use vstd::prelude::*;

use crate::node::NodeView;

verus! {

/// Holds when the nodes of `m` have a child edge from `a` to `b`.
pub open spec fn is_child_edge<V>(
    m: Map<Seq<char>, NodeView<V>>,
    a: Seq<char>,
    b: Seq<char>,
) -> bool {
    m.contains_key(a) && m[a].subs.contains(b)
}

/// Holds when `p` is a walk along child edges of `m`: at least one node,
/// and an edge between every two neighbours.
pub open spec fn is_path<V>(m: Map<Seq<char>, NodeView<V>>, p: Seq<Seq<char>>) -> bool {
    &&& p.len() >= 1
    &&& forall|i: int| 0 <= i < p.len() - 1 ==> is_child_edge(m, #[trigger] p[i], p[i + 1])
}

/// Holds when `b` can be reached from `a` by following at least one child
/// edge.
#[verifier::opaque]
pub open spec fn reaches<V>(m: Map<Seq<char>, NodeView<V>>, a: Seq<char>, b: Seq<char>) -> bool {
    exists|p: Seq<Seq<char>>| is_path(m, p) && p.len() >= 2 && p.first() == a && p.last() == b
}

/// Holds when `a == b` or `b` is reachable from `a`.
pub open spec fn reaches_or_eq<V>(
    m: Map<Seq<char>, NodeView<V>>,
    a: Seq<char>,
    b: Seq<char>,
) -> bool {
    a == b || reaches(m, a, b)
}

/// The set of all (direct and indirect) subordinates of `a`.
pub open spec fn descendants<V>(m: Map<Seq<char>, NodeView<V>>, a: Seq<char>) -> Set<Seq<char>> {
    Set::new(|b: Seq<char>| reaches(m, a, b))
}

/// Holds when no node can reach itself by following child edges: the
/// parent/child relation is cycle-free.
pub open spec fn acyclic<V>(m: Map<Seq<char>, NodeView<V>>) -> bool {
    forall|a: Seq<char>| !reaches(m, a, a)
}

/// A single child edge is a reachability witness.
pub proof fn lemma_edge_reaches<V>(m: Map<Seq<char>, NodeView<V>>, a: Seq<char>, b: Seq<char>)
    requires
        is_child_edge(m, a, b),
    ensures
        reaches(m, a, b),
{
    reveal(reaches);
    let p = seq![a, b];
    assert(is_path(m, p));
    assert(p.first() == a && p.last() == b);
}

/// Reachability is transitive.
pub proof fn lemma_reaches_trans<V>(
    m: Map<Seq<char>, NodeView<V>>,
    a: Seq<char>,
    b: Seq<char>,
    c: Seq<char>,
)
    requires
        reaches(m, a, b),
        reaches(m, b, c),
    ensures
        reaches(m, a, c),
{
    reveal(reaches);
    let p = choose|p: Seq<Seq<char>>|
        is_path(m, p) && p.len() >= 2 && p.first() == a && p.last() == b;
    let q = choose|q: Seq<Seq<char>>|
        is_path(m, q) && q.len() >= 2 && q.first() == b && q.last() == c;
    let r = p + q.subrange(1, q.len() as int);
    assert(is_path(m, r)) by {
        assert forall|i: int| 0 <= i < r.len() - 1 implies is_child_edge(
            m,
            #[trigger] r[i],
            r[i + 1],
        ) by {
            if i < p.len() - 1 {
                assert(r[i] == p[i] && r[i + 1] == p[i + 1]);
            } else if i == p.len() - 1 {
                assert(r[i] == p[p.len() - 1] && r[i + 1] == q[1]);
                assert(is_child_edge(m, q[0], q[1]));
            } else {
                let j = i - p.len() + 1;
                assert(r[i] == q[j] && r[i + 1] == q[j + 1]);
                assert(is_child_edge(m, q[j], q[j + 1]));
            }
        }
    }
    assert(r.first() == a && r.last() == c && r.len() >= 2);
}

/// An edge followed by a walk, or a walk followed by an edge, is a walk.
pub proof fn lemma_edge_reaches_trans<V>(
    m: Map<Seq<char>, NodeView<V>>,
    a: Seq<char>,
    b: Seq<char>,
    c: Seq<char>,
)
    requires
        is_child_edge(m, a, b),
        reaches_or_eq(m, b, c),
    ensures
        reaches(m, a, c),
{
    lemma_edge_reaches(m, a, b);
    if b != c {
        lemma_reaches_trans(m, a, b, c);
    }
}

/// Every walk starts with an edge out of its first node.
pub proof fn lemma_reaches_first_step<V>(
    m: Map<Seq<char>, NodeView<V>>,
    a: Seq<char>,
    c: Seq<char>,
)
    requires
        reaches(m, a, c),
    ensures
        exists|b: Seq<char>| #[trigger] is_child_edge(m, a, b) && reaches_or_eq(m, b, c),
{
    reveal(reaches);
    let p = choose|p: Seq<Seq<char>>|
        is_path(m, p) && p.len() >= 2 && p.first() == a && p.last() == c;
    let b = p[1];
    assert(is_child_edge(m, p[0], p[1]));
    if p.len() > 2 {
        let q = p.subrange(1, p.len() as int);
        assert(is_path(m, q)) by {
            assert forall|i: int| 0 <= i < q.len() - 1 implies is_child_edge(
                m,
                #[trigger] q[i],
                q[i + 1],
            ) by {
                assert(q[i] == p[i + 1] && q[i + 1] == p[i + 2]);
                assert(is_child_edge(m, p[i + 1], p[i + 1 + 1]));
            }
        }
        assert(q.first() == b && q.last() == c && q.len() >= 2);
        assert(reaches(m, b, c));
    } else {
        assert(b == c);
    }
}

/// Every walk ends with an edge into its last node.
pub proof fn lemma_reaches_last_step<V>(m: Map<Seq<char>, NodeView<V>>, a: Seq<char>, c: Seq<char>)
    requires
        reaches(m, a, c),
    ensures
        exists|b: Seq<char>| reaches_or_eq(m, a, b) && #[trigger] is_child_edge(m, b, c),
{
    reveal(reaches);
    let p = choose|p: Seq<Seq<char>>|
        is_path(m, p) && p.len() >= 2 && p.first() == a && p.last() == c;
    let b = p[p.len() - 2];
    assert(is_child_edge(m, p[p.len() - 2], p[p.len() - 2 + 1]));
    if p.len() > 2 {
        let q = p.subrange(0, p.len() - 1);
        assert(is_path(m, q)) by {
            assert forall|i: int| 0 <= i < q.len() - 1 implies is_child_edge(
                m,
                #[trigger] q[i],
                q[i + 1],
            ) by {
                assert(q[i] == p[i] && q[i + 1] == p[i + 1]);
                assert(is_child_edge(m, p[i], p[i + 1]));
            }
        }
        assert(q.first() == a && q.last() == b && q.len() >= 2);
        assert(reaches(m, a, b));
    } else {
        assert(b == a);
    }
}

/// A node with no outgoing child edge reaches nothing.
pub proof fn lemma_no_first_edge_no_reach<V>(m: Map<Seq<char>, NodeView<V>>, a: Seq<char>)
    requires
        forall|b: Seq<char>| !is_child_edge(m, a, b),
    ensures
        forall|b: Seq<char>| !reaches(m, a, b),
{
    assert forall|b: Seq<char>| !reaches(m, a, b) by {
        if reaches(m, a, b) {
            lemma_reaches_first_step(m, a, b);
        }
    }
}

/// A walk only visits nodes of the map (after its first node), as long as
/// every child list names existing nodes.
pub proof fn lemma_reaches_in_dom<V>(m: Map<Seq<char>, NodeView<V>>, a: Seq<char>, b: Seq<char>)
    requires
        forall|k: Seq<char>, s: Seq<char>|
            m.contains_key(k) && #[trigger] m[k].subs.contains(s) ==> m.contains_key(s),
        reaches(m, a, b),
    ensures
        m.contains_key(b),
        m.contains_key(a),
{
    lemma_reaches_last_step(m, a, b);
    lemma_reaches_first_step(m, a, b);
}

/// When every edge of `m1` is an edge of `m2`, everything reachable in `m1`
/// is reachable in `m2`.
pub proof fn lemma_reaches_monotone<V>(
    m1: Map<Seq<char>, NodeView<V>>,
    m2: Map<Seq<char>, NodeView<V>>,
)
    requires
        forall|a: Seq<char>, b: Seq<char>|
            #[trigger] is_child_edge(m1, a, b) ==> is_child_edge(m2, a, b),
    ensures
        forall|a: Seq<char>, b: Seq<char>| #[trigger] reaches(m1, a, b) ==> reaches(m2, a, b),
{
    assert forall|a: Seq<char>, b: Seq<char>| #[trigger] reaches(m1, a, b) implies reaches(
        m2,
        a,
        b,
    ) by {
        reveal(reaches);
        let p = choose|p: Seq<Seq<char>>|
            is_path(m1, p) && p.len() >= 2 && p.first() == a && p.last() == b;
        assert(is_path(m2, p)) by {
            assert forall|i: int| 0 <= i < p.len() - 1 implies is_child_edge(
                m2,
                #[trigger] p[i],
                p[i + 1],
            ) by {
                assert(is_child_edge(m1, p[i], p[i + 1]));
            }
        }
    }
}

/// Two maps with the same child edges have the same reachability, and one
/// is cycle-free exactly when the other is.
pub proof fn lemma_same_edges_reaches<V>(
    m1: Map<Seq<char>, NodeView<V>>,
    m2: Map<Seq<char>, NodeView<V>>,
)
    requires
        forall|a: Seq<char>, b: Seq<char>|
            #[trigger] is_child_edge(m1, a, b) == is_child_edge(m2, a, b),
    ensures
        forall|a: Seq<char>, b: Seq<char>| #[trigger] reaches(m1, a, b) == reaches(m2, a, b),
        acyclic(m1) == acyclic(m2),
{
    lemma_reaches_monotone(m1, m2);
    lemma_reaches_monotone(m2, m1);
    assert forall|a: Seq<char>, b: Seq<char>| #[trigger] reaches(m1, a, b) == reaches(
        m2,
        a,
        b,
    ) by {
        if reaches(m1, a, b) {
            assert(reaches(m2, a, b));
        }
        if reaches(m2, a, b) {
            assert(reaches(m1, a, b));
        }
    }
}

/// Every walk of a graph with one extra edge `(u, v)` either already exists
/// without that edge, or passes through it: it reaches `u` and is reached
/// from `v`.
pub proof fn lemma_reaches_with_extra_edge<V>(
    m1: Map<Seq<char>, NodeView<V>>,
    m2: Map<Seq<char>, NodeView<V>>,
    u: Seq<char>,
    v: Seq<char>,
    a: Seq<char>,
    b: Seq<char>,
)
    requires
        forall|x: Seq<char>, y: Seq<char>|
            #[trigger] is_child_edge(m2, x, y) == (is_child_edge(m1, x, y) || (x == u && y == v)),
        reaches(m2, a, b),
    ensures
        reaches(m1, a, b) || (reaches_or_eq(m1, a, u) && reaches_or_eq(m1, v, b)),
{
    reveal(reaches);
    let p = choose|p: Seq<Seq<char>>|
        is_path(m2, p) && p.len() >= 2 && p.first() == a && p.last() == b;
    lemma_path_with_extra_edge(m1, m2, u, v, p);
}

/// The path form of [`lemma_reaches_with_extra_edge`], by induction on the
/// path.
proof fn lemma_path_with_extra_edge<V>(
    m1: Map<Seq<char>, NodeView<V>>,
    m2: Map<Seq<char>, NodeView<V>>,
    u: Seq<char>,
    v: Seq<char>,
    p: Seq<Seq<char>>,
)
    requires
        forall|x: Seq<char>, y: Seq<char>|
            #[trigger] is_child_edge(m2, x, y) == (is_child_edge(m1, x, y) || (x == u && y == v)),
        is_path(m2, p),
        p.len() >= 2,
    ensures
        reaches(m1, p.first(), p.last()) || (reaches_or_eq(m1, p.first(), u) && reaches_or_eq(
            m1,
            v,
            p.last(),
        )),
    decreases p.len(),
{
    let a = p.first();
    let b = p.last();
    assert(is_child_edge(m2, p[0], p[1]));
    if p.len() == 2 {
        if is_child_edge(m1, p[0], p[1]) {
            lemma_edge_reaches(m1, a, b);
        }
    } else {
        let q = p.subrange(1, p.len() as int);
        assert(is_path(m2, q)) by {
            assert forall|i: int| 0 <= i < q.len() - 1 implies is_child_edge(
                m2,
                #[trigger] q[i],
                q[i + 1],
            ) by {
                assert(q[i] == p[i + 1] && q[i + 1] == p[i + 2]);
                assert(is_child_edge(m2, p[i + 1], p[i + 1 + 1]));
            }
        }
        assert(q.first() == p[1] && q.last() == b && q.len() >= 2);
        lemma_path_with_extra_edge(m1, m2, u, v, q);
        if is_child_edge(m1, p[0], p[1]) {
            if reaches(m1, p[1], b) {
                lemma_edge_reaches_trans(m1, a, p[1], b);
            } else {
                // The tail passes through the new edge: p[1] reaches u.
                lemma_edge_reaches_trans(m1, a, p[1], u);
            }
        } else {
            // The first edge is the new edge: a == u, p[1] == v.
            if reaches(m1, p[1], b) {
                assert(reaches_or_eq(m1, v, b));
            }
            // Otherwise reaches_or_eq(m1, v, b) follows from the tail's
            // second disjunct directly.
        }
    }
}

/// Adding an edge `(u, v)` keeps the relation cycle-free as long as `u` was
/// not reachable from `v` and the edge is no self-loop.
pub proof fn lemma_acyclic_add_edge<V>(
    m1: Map<Seq<char>, NodeView<V>>,
    m2: Map<Seq<char>, NodeView<V>>,
    u: Seq<char>,
    v: Seq<char>,
)
    requires
        forall|x: Seq<char>, y: Seq<char>|
            #[trigger] is_child_edge(m2, x, y) == (is_child_edge(m1, x, y) || (x == u && y == v)),
        acyclic(m1),
        !reaches(m1, v, u),
        u != v,
    ensures
        acyclic(m2),
{
    assert forall|a: Seq<char>| !reaches(m2, a, a) by {
        if reaches(m2, a, a) {
            lemma_reaches_with_extra_edge(m1, m2, u, v, a, a);
            if reaches(m1, a, a) {
            } else {
                // a reaches u (or is u) and is reached from v (or is v),
                // which would give a walk from v to u.
                if a == u {
                    if v == a {
                    } else {
                        assert(reaches(m1, v, u));
                    }
                } else if v == a {
                    assert(reaches(m1, v, u));
                } else {
                    lemma_reaches_trans(m1, v, a, u);
                }
            }
        }
    }
}

/// Everything reachable from `a` lies in any set that contains `a`'s direct
/// children and is closed under child edges.
pub proof fn lemma_closed_set_covers<V>(
    m: Map<Seq<char>, NodeView<V>>,
    a: Seq<char>,
    s: Set<Seq<char>>,
)
    requires
        forall|w: Seq<char>| is_child_edge(m, a, w) ==> s.contains(w),
        forall|v: Seq<char>, w: Seq<char>|
            s.contains(v) && #[trigger] is_child_edge(m, v, w) ==> s.contains(w),
    ensures
        forall|b: Seq<char>| #[trigger] reaches(m, a, b) ==> s.contains(b),
{
    assert forall|b: Seq<char>| #[trigger] reaches(m, a, b) implies s.contains(b) by {
        reveal(reaches);
        let p = choose|p: Seq<Seq<char>>|
            is_path(m, p) && p.len() >= 2 && p.first() == a && p.last() == b;
        lemma_path_in_closed(m, a, s, p);
    }
}

/// The path form of [`lemma_closed_set_covers`], by induction on the path.
proof fn lemma_path_in_closed<V>(
    m: Map<Seq<char>, NodeView<V>>,
    a: Seq<char>,
    s: Set<Seq<char>>,
    p: Seq<Seq<char>>,
)
    requires
        forall|w: Seq<char>| is_child_edge(m, a, w) ==> s.contains(w),
        forall|v: Seq<char>, w: Seq<char>|
            s.contains(v) && #[trigger] is_child_edge(m, v, w) ==> s.contains(w),
        is_path(m, p),
        p.len() >= 2,
        p.first() == a,
    ensures
        s.contains(p.last()),
    decreases p.len(),
{
    if p.len() == 2 {
        assert(is_child_edge(m, p[0], p[1]));
    } else {
        let q = p.subrange(0, p.len() - 1);
        assert(is_path(m, q)) by {
            assert forall|i: int| 0 <= i < q.len() - 1 implies is_child_edge(
                m,
                #[trigger] q[i],
                q[i + 1],
            ) by {
                assert(q[i] == p[i] && q[i + 1] == p[i + 1]);
                assert(is_child_edge(m, p[i], p[i + 1]));
            }
        }
        lemma_path_in_closed(m, a, s, q);
        assert(is_child_edge(m, p[p.len() - 2], p[p.len() - 2 + 1]));
        assert(s.contains(p[p.len() - 2]));
    }
}

/// Descendant sets are contained in the node map's domain (as long as child
/// lists name existing nodes), and therefore finite.
pub proof fn lemma_descendants_finite<V>(m: Map<Seq<char>, NodeView<V>>, a: Seq<char>)
    requires
        forall|k: Seq<char>, s: Seq<char>|
            m.contains_key(k) && #[trigger] m[k].subs.contains(s) ==> m.contains_key(s),
        m.dom().finite(),
    ensures
        descendants(m, a).subset_of(m.dom()),
        descendants(m, a).finite(),
        descendants(m, a).len() <= m.dom().len(),
{
    assert forall|b: Seq<char>| descendants(m, a).contains(b) implies m.dom().contains(b) by {
        lemma_reaches_in_dom(m, a, b);
    }
    vstd::set_lib::lemma_len_subset(descendants(m, a), m.dom());
}


/// Following one child edge strictly shrinks the (finite) descendant set.
pub proof fn lemma_desc_shrink<V>(m: Map<Seq<char>, NodeView<V>>, a: Seq<char>, b: Seq<char>)
    requires
        forall|k: Seq<char>, s: Seq<char>|
            m.contains_key(k) && #[trigger] m[k].subs.contains(s) ==> m.contains_key(s),
        m.dom().finite(),
        acyclic(m),
        is_child_edge(m, a, b),
    ensures
        descendants(m, b).len() < descendants(m, a).len(),
{
    lemma_edge_reaches(m, a, b);
    lemma_descendants_finite(m, a);
    lemma_descendants_finite(m, b);
    assert(descendants(m, a).contains(b));
    assert(!descendants(m, b).contains(b));
    assert(descendants(m, b).subset_of(descendants(m, a).remove(b))) by {
        assert forall|x: Seq<char>| descendants(m, b).contains(x) implies descendants(
            m,
            a,
        ).remove(b).contains(x) by {
            lemma_edge_reaches_trans(m, a, b, x);
        }
    }
    vstd::set_lib::lemma_len_subset(descendants(m, b), descendants(m, a).remove(b));
    assert(descendants(m, a).remove(b).len() == descendants(m, a).len() - 1);
}

} // verus!
