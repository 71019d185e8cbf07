//! Reachability over an abstract edge relation, with the path lemmas the
//! automaton proofs rest on.

use vstd::prelude::*;

verus! {

/// A path in the directed graph described by the edge relation `e`: a
/// non-empty sequence of nodes in which each consecutive pair is joined by an
/// edge.
pub open spec fn is_path(e: spec_fn(int, int) -> bool, p: Seq<int>) -> bool {
    &&& p.len() > 0
    &&& forall|i: int| 0 <= i < p.len() - 1 ==> e(#[trigger] p[i], p[i + 1])
}

/// Node `v` is reachable from node `u` in zero or more steps along edges of
/// `e`.
pub open spec fn reaches(e: spec_fn(int, int) -> bool, u: int, v: int) -> bool {
    exists|p: Seq<int>| is_path(e, p) && p.first() == u && p.last() == v
}

/// Every node reaches itself.
pub proof fn lemma_reach_refl(e: spec_fn(int, int) -> bool, u: int)
    ensures
        reaches(e, u, u),
{
    let p = seq![u];
    assert(is_path(e, p) && p.first() == u && p.last() == u);
}

/// Reachability is extended by a single edge at the end.
pub proof fn lemma_reach_step(e: spec_fn(int, int) -> bool, u: int, v: int, w: int)
    requires
        reaches(e, u, v),
        e(v, w),
    ensures
        reaches(e, u, w),
{
    let p = choose|p: Seq<int>| is_path(e, p) && p.first() == u && p.last() == v;
    let q = p.push(w);
    assert forall|i: int| 0 <= i < q.len() - 1 implies #[trigger] e(q[i], q[i + 1]) by {
        if i < p.len() - 1 {
            assert(e(p[i], p[i + 1]));
        } else {
            assert(q[i] == p.last());
        }
    }
    assert(is_path(e, q) && q.first() == u && q.last() == w);
}

/// Reachability is extended by a single edge at the front.
pub proof fn lemma_reach_prepend(e: spec_fn(int, int) -> bool, u: int, v: int, w: int)
    requires
        e(u, v),
        reaches(e, v, w),
    ensures
        reaches(e, u, w),
{
    let p = choose|p: Seq<int>| is_path(e, p) && p.first() == v && p.last() == w;
    let q = seq![u] + p;
    assert forall|i: int| 0 <= i < q.len() - 1 implies #[trigger] e(q[i], q[i + 1]) by {
        if i == 0 {
            assert(q[0] == u && q[1] == p.first());
        } else {
            assert(q[i] == p[i - 1] && q[i + 1] == p[i]);
            assert(e(p[i - 1], p[i]));
        }
    }
    assert(is_path(e, q) && q.first() == u && q.last() == w);
}

/// Walking a whole path extends reachability to its last node.
proof fn lemma_reach_append_path(e: spec_fn(int, int) -> bool, u: int, p: Seq<int>)
    requires
        is_path(e, p),
        reaches(e, u, p.first()),
    ensures
        reaches(e, u, p.last()),
    decreases p.len(),
{
    if p.len() == 1 {
    } else {
        assert(e(p[0], p[1]));
        lemma_reach_step(e, u, p.first(), p[1]);
        let q = p.drop_first();
        assert forall|i: int| 0 <= i < q.len() - 1 implies #[trigger] e(q[i], q[i + 1]) by {
            assert(q[i] == p[i + 1] && q[i + 1] == p[i + 2]);
            assert(e(p[i + 1], p[i + 2]));
        }
        assert(is_path(e, q));
        assert(q.first() == p[1] && q.last() == p.last());
        lemma_reach_append_path(e, u, q);
    }
}

/// Reachability is transitive.
pub proof fn lemma_reach_trans(e: spec_fn(int, int) -> bool, u: int, v: int, w: int)
    requires
        reaches(e, u, v),
        reaches(e, v, w),
    ensures
        reaches(e, u, w),
{
    let p = choose|p: Seq<int>| is_path(e, p) && p.first() == v && p.last() == w;
    lemma_reach_append_path(e, u, p);
}

/// A set that contains a node and is closed under the edge relation contains
/// everything reachable from that node.
pub proof fn lemma_reach_closed(e: spec_fn(int, int) -> bool, s: Set<int>, u: int, v: int)
    requires
        s.contains(u),
        forall|a: int, b: int| s.contains(a) && #[trigger] e(a, b) ==> s.contains(b),
        reaches(e, u, v),
    ensures
        s.contains(v),
{
    let p = choose|p: Seq<int>| is_path(e, p) && p.first() == u && p.last() == v;
    lemma_path_closed(e, s, p);
}

proof fn lemma_path_closed(e: spec_fn(int, int) -> bool, s: Set<int>, p: Seq<int>)
    requires
        is_path(e, p),
        s.contains(p.first()),
        forall|a: int, b: int| s.contains(a) && #[trigger] e(a, b) ==> s.contains(b),
    ensures
        s.contains(p.last()),
    decreases p.len(),
{
    if p.len() == 1 {
    } else {
        assert(e(p[0], p[1]));
        let q = p.drop_first();
        assert forall|i: int| 0 <= i < q.len() - 1 implies #[trigger] e(q[i], q[i + 1]) by {
            assert(e(p[i + 1], p[i + 2]));
        }
        assert(is_path(e, q));
        assert(q.first() == p[1] && q.last() == p.last());
        lemma_path_closed(e, s, q);
    }
}

/// A non-trivial reachability fact starts with some first edge.
pub proof fn lemma_reach_head(e: spec_fn(int, int) -> bool, u: int, v: int)
    requires
        reaches(e, u, v),
        u != v,
    ensures
        exists|w: int| #[trigger] e(u, w) && reaches(e, w, v),
{
    let p = choose|p: Seq<int>| is_path(e, p) && p.first() == u && p.last() == v;
    assert(p.len() >= 2);
    assert(e(p[0], p[1]));
    let q = p.drop_first();
    assert forall|i: int| 0 <= i < q.len() - 1 implies #[trigger] e(q[i], q[i + 1]) by {
        assert(e(p[i + 1], p[i + 2]));
    }
    assert(is_path(e, q) && q.first() == p[1] && q.last() == v);
    assert(e(u, p[1]) && reaches(e, p[1], v));
}

/// A non-trivial reachability fact ends with some last edge.
pub proof fn lemma_reach_last(e: spec_fn(int, int) -> bool, u: int, v: int)
    requires
        reaches(e, u, v),
        u != v,
    ensures
        exists|x: int| reaches(e, u, x) && #[trigger] e(x, v),
{
    let p = choose|p: Seq<int>| is_path(e, p) && p.first() == u && p.last() == v;
    assert(p.len() >= 2);
    let q = p.drop_last();
    assert forall|i: int| 0 <= i < q.len() - 1 implies #[trigger] e(q[i], q[i + 1]) by {
        assert(e(p[i], p[i + 1]));
    }
    assert(is_path(e, q) && q.first() == u && q.last() == p[p.len() - 2]);
    assert(e(p[p.len() - 2], p[p.len() - 1]));
    assert(reaches(e, u, p[p.len() - 2]));
}

/// Mapping nodes through `f` turns a path of `e1` into a (possibly shorter)
/// path of `e2`, when every `e1` edge is sent by `f` either onto a single node
/// or onto an `e2` edge.
pub proof fn lemma_reach_condense(
    e1: spec_fn(int, int) -> bool,
    e2: spec_fn(int, int) -> bool,
    f: spec_fn(int) -> int,
    u: int,
    v: int,
)
    requires
        reaches(e1, u, v),
        forall|a: int, b: int| #[trigger] e1(a, b) ==> f(a) == f(b) || e2(f(a), f(b)),
    ensures
        reaches(e2, f(u), f(v)),
{
    let p = choose|p: Seq<int>| is_path(e1, p) && p.first() == u && p.last() == v;
    lemma_path_condense(e1, e2, f, p);
}

proof fn lemma_path_condense(
    e1: spec_fn(int, int) -> bool,
    e2: spec_fn(int, int) -> bool,
    f: spec_fn(int) -> int,
    p: Seq<int>,
)
    requires
        is_path(e1, p),
        forall|a: int, b: int| #[trigger] e1(a, b) ==> f(a) == f(b) || e2(f(a), f(b)),
    ensures
        reaches(e2, f(p.first()), f(p.last())),
    decreases p.len(),
{
    if p.len() == 1 {
        lemma_reach_refl(e2, f(p.first()));
    } else {
        assert(e1(p[0], p[1]));
        let q = p.drop_first();
        assert forall|i: int| 0 <= i < q.len() - 1 implies #[trigger] e1(q[i], q[i + 1]) by {
            assert(e1(p[i + 1], p[i + 2]));
        }
        assert(is_path(e1, q) && q.first() == p[1] && q.last() == p.last());
        lemma_path_condense(e1, e2, f, q);
        if f(p[0]) == f(p[1]) {
        } else {
            lemma_reach_prepend(e2, f(p[0]), f(p[1]), f(p.last()));
        }
    }
}

/// Flipping every edge flips reachability.
pub proof fn lemma_reach_flip(
    e: spec_fn(int, int) -> bool,
    r: spec_fn(int, int) -> bool,
    u: int,
    v: int,
)
    requires
        reaches(e, u, v),
        forall|a: int, b: int| #[trigger] e(a, b) ==> r(b, a),
    ensures
        reaches(r, v, u),
{
    let p = choose|p: Seq<int>| is_path(e, p) && p.first() == u && p.last() == v;
    lemma_path_flip(e, r, p);
}

proof fn lemma_path_flip(
    e: spec_fn(int, int) -> bool,
    r: spec_fn(int, int) -> bool,
    p: Seq<int>,
)
    requires
        is_path(e, p),
        forall|a: int, b: int| #[trigger] e(a, b) ==> r(b, a),
    ensures
        reaches(r, p.last(), p.first()),
    decreases p.len(),
{
    if p.len() == 1 {
        lemma_reach_refl(r, p.first());
    } else {
        let q = p.drop_last();
        assert forall|i: int| 0 <= i < q.len() - 1 implies #[trigger] e(q[i], q[i + 1]) by {
            assert(e(p[i], p[i + 1]));
        }
        assert(is_path(e, q) && q.first() == p.first() && q.last() == p[p.len() - 2]);
        lemma_path_flip(e, r, q);
        assert(e(p[p.len() - 2], p[p.len() - 1]));
        lemma_reach_prepend(r, p.last(), p[p.len() - 2], p.first());
    }
}

} // verus!
