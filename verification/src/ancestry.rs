//! The mathematical model of the graph: edges, chains of child edges,
//! reachability, and the well-formedness invariant that every graph
//! operation preserves.

use vstd::prelude::*;
use vstd::std_specs::cmp::PartialEqSpec;

use crate::node::NodeHandle;
use crate::node::NodeView;

verus! {

/// `h` names a node of `g`.
pub open spec fn wf_handle<T>(g: Seq<NodeView<T>>, h: NodeHandle) -> bool {
    (h as int) < g.len()
}

/// The graph holds a `parent -> child` edge.
pub open spec fn has_edge<T>(g: Seq<NodeView<T>>, parent: NodeHandle, child: NodeHandle) -> bool {
    &&& wf_handle(g, parent)
    &&& wf_handle(g, child)
    &&& g[parent as int].childs.contains(child)
}

/// `p` is a non-empty walk of `g` that follows child edges downward.
pub open spec fn is_chain<T>(g: Seq<NodeView<T>>, p: Seq<NodeHandle>) -> bool {
    &&& p.len() >= 1
    &&& (forall|k: int| 0 <= k < p.len() ==> wf_handle(g, #[trigger] p[k]))
    &&& (forall|k: int| 0 <= k < p.len() - 1 ==> has_edge(g, #[trigger] p[k], p[k + 1]))
}

/// `to` can be reached from `from` by following zero or more child edges.
/// Equivalently: `from` is `to` itself or one of `to`'s ancestors.
pub open spec fn reaches<T>(g: Seq<NodeView<T>>, from: NodeHandle, to: NodeHandle) -> bool {
    exists|p: Seq<NodeHandle>| #[trigger] is_chain(g, p) && p.first() == from && p.last() == to
}

/// No walk along child edges comes back to its starting node.
pub open spec fn acyclic<T>(g: Seq<NodeView<T>>) -> bool {
    forall|p: Seq<NodeHandle>| #[trigger] is_chain(g, p) && p.len() >= 2 ==> p.first() != p.last()
}

/// Every handle stored in an adjacency list names a node of `g`.
pub open spec fn adjacency_in_bounds<T>(g: Seq<NodeView<T>>) -> bool {
    &&& (forall|i: int, k: int|
        0 <= i < g.len() && 0 <= k < g[i].childs.len() ==> wf_handle(g, #[trigger] g[i].childs[k]))
    &&& (forall|i: int, k: int|
        0 <= i < g.len() && 0 <= k < g[i].parents.len() ==> wf_handle(
            g,
            #[trigger] g[i].parents[k],
        ))
}

/// The `parents` lists are exactly the back-references of the `childs`
/// lists: `j` is a child of `i` just when `i` is a parent of `j`.
pub open spec fn mirrored<T>(g: Seq<NodeView<T>>) -> bool {
    forall|i: NodeHandle, j: NodeHandle|
        wf_handle(g, i) && wf_handle(g, j) ==> ((#[trigger] g[i as int].childs.contains(j))
            <==> (#[trigger] g[j as int].parents.contains(i)))
}

/// Node `i` carries a value equal to `v`.
pub open spec fn matches_at<T: PartialEq>(g: Seq<NodeView<T>>, v: T, i: int) -> bool {
    0 <= i < g.len() && g[i].value.eq_spec(&v)
}

/// Some node of `g` carries a value equal to `v`.
pub open spec fn contains_value<T: PartialEq>(g: Seq<NodeView<T>>, v: T) -> bool {
    exists|i: int| #[trigger] matches_at(g, v, i)
}

/// No two nodes carry equal values.
pub open spec fn values_distinct<T: PartialEq>(g: Seq<NodeView<T>>) -> bool {
    forall|i: int, j: int|
        0 <= i < j < g.len() ==> !(#[trigger] g[i].value.eq_spec(&g[j].value))
}

/// The invariant of a dependency graph: adjacency lists stay inside the
/// registry, child and parent lists mirror each other, the child edges form
/// no cycle, and no value occurs twice.
pub open spec fn graph_wf<T: PartialEq>(g: Seq<NodeView<T>>) -> bool {
    &&& adjacency_in_bounds(g)
    &&& mirrored(g)
    &&& acyclic(g)
    &&& values_distinct(g)
}

/// The node freshly made for `v`: no children, no parents.
pub open spec fn fresh_node<T>(v: T) -> NodeView<T> {
    NodeView { value: v, childs: Seq::empty(), parents: Seq::empty() }
}

/// What `get_or_add_node` does to a graph.  Either some node already
/// carries a value equal to `v` and the graph is left unchanged, with `h`
/// naming the first such node, or no node does and a fresh node for `v` is
/// appended, `h` naming it.
pub open spec fn get_or_add_post<T: PartialEq>(
    pre: Seq<NodeView<T>>,
    post: Seq<NodeView<T>>,
    v: T,
    h: NodeHandle,
) -> bool {
    if contains_value(pre, v) {
        &&& post == pre
        &&& matches_at(pre, v, h as int)
        &&& (forall|i: int| 0 <= i < h ==> !matches_at(pre, v, i))
    } else {
        &&& h as int == pre.len()
        &&& post == pre.push(fresh_node(v))
    }
}

/// When every adjacency entry of `g` stays inside the registry, no list of
/// node `j` can mention a handle at or past the registry's end.
proof fn lemma_no_link_to_outside<T>(g: Seq<NodeView<T>>, j: int, h: NodeHandle)
    requires
        adjacency_in_bounds(g),
        0 <= j < g.len(),
        g.len() <= h as int,
    ensures
        !g[j].childs.contains(h),
        !g[j].parents.contains(h),
{
    if g[j].childs.contains(h) {
        let k = choose|k: int| 0 <= k < g[j].childs.len() && g[j].childs[k] == h;
        assert(wf_handle(g, g[j].childs[k]));
    }
    if g[j].parents.contains(h) {
        let k = choose|k: int| 0 <= k < g[j].parents.len() && g[j].parents[k] == h;
        assert(wf_handle(g, g[j].parents[k]));
    }
}

/// Appending a fresh node for a value that no node carries keeps the graph
/// well-formed: the new node takes part in no edge and duplicates no value.
pub proof fn lemma_push_node_wf<T: PartialEq>(g: Seq<NodeView<T>>, v: T)
    requires
        graph_wf(g),
        forall|i: int| 0 <= i < g.len() ==> !(#[trigger] g[i].value.eq_spec(&v)),
    ensures
        graph_wf(g.push(fresh_node(v))),
{
    let g2 = g.push(fresh_node(v));
    let n = g.len() as int;
    assert forall|i: int, k: int|
        0 <= i < g2.len() && 0 <= k < g2[i].childs.len() implies wf_handle(
        g2,
        #[trigger] g2[i].childs[k],
    ) by {
        if i < n {
            assert(g2[i] == g[i]);
            assert(wf_handle(g, g[i].childs[k]));
        }
    }
    assert forall|i: int, k: int|
        0 <= i < g2.len() && 0 <= k < g2[i].parents.len() implies wf_handle(
        g2,
        #[trigger] g2[i].parents[k],
    ) by {
        if i < n {
            assert(g2[i] == g[i]);
            assert(wf_handle(g, g[i].parents[k]));
        }
    }
    assert forall|i: NodeHandle, j: NodeHandle| wf_handle(g2, i) && wf_handle(g2, j) implies ((
    #[trigger] g2[i as int].childs.contains(j)) <==> (
    #[trigger] g2[j as int].parents.contains(i))) by {
        if (i as int) < n && (j as int) < n {
            assert(g2[i as int] == g[i as int]);
            assert(g2[j as int] == g[j as int]);
            assert(wf_handle(g, i) && wf_handle(g, j));
        } else if (i as int) < n {
            // j names the fresh node
            assert(g2[i as int] == g[i as int]);
            lemma_no_link_to_outside(g, i as int, j);
            assert(g2[j as int].parents == Seq::<NodeHandle>::empty());
        } else if (j as int) < n {
            // i names the fresh node
            assert(g2[j as int] == g[j as int]);
            lemma_no_link_to_outside(g, j as int, i);
            assert(g2[i as int].childs == Seq::<NodeHandle>::empty());
        } else {
            assert(g2[i as int].childs == Seq::<NodeHandle>::empty());
            assert(g2[j as int].parents == Seq::<NodeHandle>::empty());
        }
    }
    assert forall|p: Seq<NodeHandle>| #[trigger] is_chain(g2, p) && p.len() >= 2 implies p.first()
        != p.last() by {
        assert forall|k: int| 0 <= k < p.len() implies (#[trigger] p[k] as int) < n by {
            if p[k] as int >= n {
                if k < p.len() - 1 {
                    assert(has_edge(g2, p[k], p[k + 1]));
                    assert(g2[p[k] as int].childs == Seq::<NodeHandle>::empty());
                } else {
                    assert(has_edge(g2, p[k - 1], p[k]));
                    if p[k - 1] as int >= n {
                        assert(g2[p[k - 1] as int].childs == Seq::<NodeHandle>::empty());
                    } else {
                        assert(g2[p[k - 1] as int] == g[p[k - 1] as int]);
                        lemma_no_link_to_outside(g, p[k - 1] as int, p[k]);
                    }
                }
            }
        }
        assert forall|k: int| 0 <= k < p.len() - 1 implies has_edge(g, #[trigger] p[k], p[k + 1])
            by {
            assert(has_edge(g2, p[k], p[k + 1]));
            assert(g2[p[k] as int] == g[p[k] as int]);
        }
        assert(is_chain(g, p));
    }
    assert forall|i: int, j: int| 0 <= i < j < g2.len() implies !(#[trigger] g2[i].value.eq_spec(
        &g2[j].value,
    )) by {
        if j < n {
            assert(g2[i] == g[i] && g2[j] == g[j]);
        } else {
            assert(g2[i] == g[i]);
            assert(g2[j].value == v);
            assert(!g[i].value.eq_spec(&v));
        }
    }
}

/// Any node reaches itself (by the one-node walk).
pub proof fn lemma_reaches_refl<T>(g: Seq<NodeView<T>>, a: NodeHandle)
    requires
        wf_handle(g, a),
    ensures
        reaches(g, a, a),
{
    let p: Seq<NodeHandle> = seq![a];
    assert(is_chain(g, p));
}

/// An edge is a one-step walk.
pub proof fn lemma_edge_reaches<T>(g: Seq<NodeView<T>>, a: NodeHandle, b: NodeHandle)
    requires
        has_edge(g, a, b),
    ensures
        reaches(g, a, b),
{
    let p: Seq<NodeHandle> = seq![a, b];
    assert(is_chain(g, p));
    assert(p.first() == a && p.last() == b);
}

/// Prepending the edge `a -> b` to a walk from `b` gives a walk from `a`.
pub proof fn lemma_reaches_step<T>(g: Seq<NodeView<T>>, a: NodeHandle, b: NodeHandle, c: NodeHandle)
    requires
        has_edge(g, a, b),
        reaches(g, b, c),
    ensures
        reaches(g, a, c),
{
    let p = choose|p: Seq<NodeHandle>| #[trigger] is_chain(g, p) && p.first() == b && p.last() == c;
    let q = seq![a] + p;
    assert forall|k: int| 0 <= k < q.len() - 1 implies has_edge(g, #[trigger] q[k], q[k + 1]) by {
        if k == 0 {
            assert(q[0] == a && q[1] == p[0]);
        } else {
            assert(q[k] == p[k - 1] && q[k + 1] == p[k]);
        }
    }
    assert(is_chain(g, q));
    assert(q.first() == a && q.last() == p.last());
}

/// Reachability is transitive: walks compose.
pub proof fn lemma_reaches_trans<T>(
    g: Seq<NodeView<T>>,
    a: NodeHandle,
    b: NodeHandle,
    c: NodeHandle,
)
    requires
        reaches(g, a, b),
        reaches(g, b, c),
    ensures
        reaches(g, a, c),
{
    let p = choose|p: Seq<NodeHandle>| #[trigger] is_chain(g, p) && p.first() == a && p.last() == b;
    let q = choose|q: Seq<NodeHandle>| #[trigger] is_chain(g, q) && q.first() == b && q.last() == c;
    let r = p + q.drop_first();
    assert forall|k: int| 0 <= k < r.len() - 1 implies has_edge(g, #[trigger] r[k], r[k + 1]) by {
        if k < p.len() - 1 {
            assert(r[k] == p[k] && r[k + 1] == p[k + 1]);
        } else if k == p.len() - 1 {
            assert(r[k] == p.last() && r[k + 1] == q[1]);
            assert(has_edge(g, q[0], q[1]));
        } else {
            assert(r[k] == q[k - p.len() + 1] && r[k + 1] == q[k - p.len() + 2]);
        }
    }
    assert forall|k: int| 0 <= k < r.len() implies wf_handle(g, #[trigger] r[k]) by {
        if k < p.len() {
            assert(r[k] == p[k]);
        } else {
            assert(r[k] == q[k - p.len() + 1]);
        }
    }
    assert(is_chain(g, r));
    assert(r.first() == a);
    assert(r.last() == (if q.len() == 1 { p.last() } else { q.last() }));
}

/// The graph after installing the edge `parent -> child`: `child` is
/// appended to the parent's child list and `parent` to the child's parent
/// list, everything else untouched.  (Meaningful only for `parent != child`.)
pub open spec fn with_edge<T>(
    g: Seq<NodeView<T>>,
    parent: NodeHandle,
    child: NodeHandle,
) -> Seq<NodeView<T>> {
    g.update(
        parent as int,
        NodeView {
            value: g[parent as int].value,
            childs: g[parent as int].childs.push(child),
            parents: g[parent as int].parents,
        },
    ).update(
        child as int,
        NodeView {
            value: g[child as int].value,
            childs: g[child as int].childs,
            parents: g[child as int].parents.push(parent),
        },
    )
}

pub(crate) proof fn lemma_push_contains_rev<A>(s: Seq<A>, a: A, x: A)
    requires
        s.push(a).contains(x),
    ensures
        s.contains(x) || x == a,
{
    let i = choose|i: int| 0 <= i < s.push(a).len() && s.push(a)[i] == x;
    if i < s.len() {
        assert(s[i] == x);
    }
}

/// The edges of `with_edge(g, p, c)` are the edges of `g` plus `p -> c`.
pub(crate) proof fn lemma_with_edge_edges<T>(g: Seq<NodeView<T>>, p: NodeHandle, c: NodeHandle)
    requires
        wf_handle(g, p),
        wf_handle(g, c),
        p != c,
    ensures
        forall|a: NodeHandle, b: NodeHandle|
            #[trigger] has_edge(with_edge(g, p, c), a, b) <==> (has_edge(g, a, b) || (a == p && b
                == c)),
{
    let g2 = with_edge(g, p, c);
    assert forall|a: NodeHandle, b: NodeHandle| #[trigger] has_edge(g2, a, b) <==> (has_edge(g, a, b)
        || (a == p && b == c)) by {
        if a == p {
            assert(g2[a as int].childs == g[a as int].childs.push(c));
            if has_edge(g2, a, b) {
                lemma_push_contains_rev(g[a as int].childs, c, b);
            }
            if has_edge(g, a, b) || (a == p && b == c) {
                lemma_push_contains(g[a as int].childs, c);
            }
        } else {
            if wf_handle(g, a) {
                assert(g2[a as int].childs == g[a as int].childs);
            }
        }
    }
}

/// In an acyclic graph no walk leads from an edge's head back to its tail:
/// the edge would close a cycle.
pub(crate) proof fn lemma_edge_no_return<T>(g: Seq<NodeView<T>>, a: NodeHandle, b: NodeHandle)
    requires
        acyclic(g),
        has_edge(g, a, b),
    ensures
        !reaches(g, b, a),
{
    if reaches(g, b, a) {
        let r = choose|r: Seq<NodeHandle>|
            #[trigger] is_chain(g, r) && r.first() == b && r.last() == a;
        let q = seq![a] + r;
        assert forall|k: int| 0 <= k < q.len() - 1 implies has_edge(g, #[trigger] q[k], q[k + 1])
            by {
            if k == 0 {
                assert(q[0] == a && q[1] == r[0]);
            } else {
                assert(q[k] == r[k - 1] && q[k + 1] == r[k]);
            }
        }
        assert forall|k: int| 0 <= k < q.len() implies wf_handle(g, #[trigger] q[k]) by {
            if k > 0 {
                assert(q[k] == r[k - 1]);
            }
        }
        assert(is_chain(g, q));
        assert(q.len() >= 2);
        assert(q.first() == a && q.last() == a);
    }
}

/// Any walk of the graph with the edge `p -> c` installed either already
/// existed, or splits at the new edge into an old walk to `p` and an old
/// walk from `c`.
pub(crate) proof fn lemma_new_chain_decompose<T>(
    g: Seq<NodeView<T>>,
    p: NodeHandle,
    c: NodeHandle,
    q: Seq<NodeHandle>,
)
    requires
        wf_handle(g, p),
        wf_handle(g, c),
        p != c,
        !reaches(g, c, p),
        is_chain(with_edge(g, p, c), q),
    ensures
        reaches(g, q.first(), q.last()) || (reaches(g, q.first(), p) && reaches(g, c, q.last())),
    decreases q.len(),
{
    let g2 = with_edge(g, p, c);
    lemma_with_edge_edges(g, p, c);
    if q.len() == 1 {
        lemma_reaches_refl(g, q[0]);
    } else {
        let q1 = q.drop_first();
        assert forall|k: int| 0 <= k < q1.len() implies wf_handle(g2, #[trigger] q1[k]) by {
            assert(q1[k] == q[k + 1]);
        }
        assert forall|k: int| 0 <= k < q1.len() - 1 implies has_edge(g2, #[trigger] q1[k], q1[k + 1])
            by {
            assert(q1[k] == q[k + 1] && q1[k + 1] == q[k + 2]);
        }
        assert(is_chain(g2, q1));
        lemma_new_chain_decompose(g, p, c, q1);
        assert(q1.first() == q[1] && q1.last() == q.last());
        assert(has_edge(g2, q[0], q[1]));
        if has_edge(g, q[0], q[1]) {
            if reaches(g, q[1], q.last()) {
                lemma_reaches_step(g, q[0], q[1], q.last());
            } else {
                lemma_reaches_step(g, q[0], q[1], p);
            }
        } else {
            // the walk starts with the fresh edge, so q[0] is p and q[1] is c
            if reaches(g, q[1], q.last()) {
                lemma_reaches_refl(g, p);
            } else {
                assert(reaches(g, c, p));
            }
        }
    }
}

/// Installing an edge whose child does not already stand in the parent's
/// ancestry keeps the graph well-formed; in particular it stays acyclic.
pub(crate) proof fn lemma_with_edge_wf<T: PartialEq>(
    g: Seq<NodeView<T>>,
    p: NodeHandle,
    c: NodeHandle,
)
    requires
        graph_wf(g),
        wf_handle(g, p),
        wf_handle(g, c),
        p != c,
        !reaches(g, c, p),
    ensures
        graph_wf(with_edge(g, p, c)),
{
    let g2 = with_edge(g, p, c);
    lemma_with_edge_edges(g, p, c);
    assert forall|x: NodeHandle|
        true implies (#[trigger] g2[p as int].childs.contains(x) <==> g[p as int].childs.contains(x)
        || x == c) by {
        if g2[p as int].childs.contains(x) {
            lemma_push_contains_rev(g[p as int].childs, c, x);
        }
        if g[p as int].childs.contains(x) || x == c {
            lemma_push_contains(g[p as int].childs, c);
        }
    }
    assert forall|x: NodeHandle|
        true implies (#[trigger] g2[c as int].parents.contains(x) <==> g[
        c as int].parents.contains(x) || x == p) by {
        if g2[c as int].parents.contains(x) {
            lemma_push_contains_rev(g[c as int].parents, p, x);
        }
        if g[c as int].parents.contains(x) || x == p {
            lemma_push_contains(g[c as int].parents, p);
        }
    }
    assert forall|i: int, k: int|
        0 <= i < g2.len() && 0 <= k < g2[i].childs.len() implies wf_handle(
        g2,
        #[trigger] g2[i].childs[k],
    ) by {
        if i == p as int {
            if k < g[i].childs.len() {
                assert(g2[i].childs[k] == g[i].childs[k]);
                assert(wf_handle(g, g[i].childs[k]));
            } else {
                assert(g2[i].childs[k] == c);
            }
        } else {
            assert(g2[i].childs == g[i].childs);
            assert(wf_handle(g, g[i].childs[k]));
        }
    }
    assert forall|i: int, k: int|
        0 <= i < g2.len() && 0 <= k < g2[i].parents.len() implies wf_handle(
        g2,
        #[trigger] g2[i].parents[k],
    ) by {
        if i == c as int {
            if k < g[i].parents.len() {
                assert(g2[i].parents[k] == g[i].parents[k]);
                assert(wf_handle(g, g[i].parents[k]));
            } else {
                assert(g2[i].parents[k] == p);
            }
        } else {
            assert(g2[i].parents == g[i].parents);
            assert(wf_handle(g, g[i].parents[k]));
        }
    }
    assert forall|i: NodeHandle, j: NodeHandle| wf_handle(g2, i) && wf_handle(g2, j) implies ((
    #[trigger] g2[i as int].childs.contains(j)) <==> (
    #[trigger] g2[j as int].parents.contains(i))) by {
        assert(wf_handle(g, i) && wf_handle(g, j));
        if i == p && j == c {
        } else if i == p {
            assert(g2[j as int].parents == g[j as int].parents);
        } else if j == c {
            assert(g2[i as int].childs == g[i as int].childs);
        } else {
            assert(g2[i as int].childs == g[i as int].childs);
            assert(g2[j as int].parents == g[j as int].parents);
        }
    }
    assert forall|q: Seq<NodeHandle>| #[trigger] is_chain(g2, q) && q.len() >= 2 implies q.first()
        != q.last() by {
        if q.first() == q.last() {
            let z = q.first();
            let q1 = q.drop_first();
            assert forall|k: int| 0 <= k < q1.len() implies wf_handle(g2, #[trigger] q1[k]) by {
                assert(q1[k] == q[k + 1]);
            }
            assert forall|k: int|
                0 <= k < q1.len() - 1 implies has_edge(g2, #[trigger] q1[k], q1[k + 1]) by {
                assert(q1[k] == q[k + 1] && q1[k + 1] == q[k + 2]);
            }
            assert(is_chain(g2, q1));
            lemma_new_chain_decompose(g, p, c, q1);
            assert(q1.first() == q[1] && q1.last() == z);
            assert(has_edge(g2, q[0], q[1]));
            if has_edge(g, q[0], q[1]) {
                if reaches(g, q[1], z) {
                    lemma_edge_no_return(g, z, q[1]);
                } else {
                    lemma_reaches_step(g, z, q[1], p);
                    lemma_reaches_trans(g, c, z, p);
                }
            } else {
                // q[0] is p, q[1] is c, and either way c would reach p in g
            }
            assert(false);
        }
    }
    assert forall|i: int, j: int| 0 <= i < j < g2.len() implies !(#[trigger] g2[i].value.eq_spec(
        &g2[j].value,
    )) by {
        assert(g2[i].value == g[i].value);
        assert(g2[j].value == g[j].value);
    }
}

/// How many entries of `s` are still false.  The ancestry walk uses this as
/// its termination measure: every round either pops a handle it has seen or
/// visits a new node.
pub open spec fn count_unvisited(s: Seq<bool>) -> nat
    decreases s.len(),
{
    if s.len() == 0 {
        0
    } else {
        count_unvisited(s.drop_last()) + if s.last() {
            0nat
        } else {
            1nat
        }
    }
}

pub(crate) proof fn lemma_count_unvisited_update(s: Seq<bool>, i: int)
    requires
        0 <= i < s.len(),
        !s[i],
    ensures
        count_unvisited(s.update(i, true)) + 1 == count_unvisited(s),
    decreases s.len(),
{
    let s2 = s.update(i, true);
    if i == s.len() - 1 {
        assert(s2.drop_last() =~= s.drop_last());
        assert(s2.last());
    } else {
        assert(s2.drop_last() =~= s.drop_last().update(i, true));
        assert(s2.last() == s.last());
        lemma_count_unvisited_update(s.drop_last(), i);
    }
}

pub(crate) proof fn lemma_push_contains<A>(s: Seq<A>, a: A)
    ensures
        s.push(a).contains(a),
        forall|x: A| s.contains(x) ==> #[trigger] s.push(a).contains(x),
{
    assert(s.push(a)[s.len() as int] == a);
    assert forall|x: A| s.contains(x) implies #[trigger] s.push(a).contains(x) by {
        let i = choose|i: int| 0 <= i < s.len() && s[i] == x;
        assert(s.push(a)[i] == x);
    }
}

pub(crate) proof fn lemma_drop_last_contains<A>(s: Seq<A>, x: A)
    requires
        s.len() > 0,
        s.contains(x),
    ensures
        s.drop_last().contains(x) || x == s.last(),
{
    let i = choose|i: int| 0 <= i < s.len() && s[i] == x;
    if i < s.len() - 1 {
        assert(s.drop_last()[i] == x);
    }
}

/// If a set of visited nodes is closed under stepping from a node to its
/// parents, then it holds every node from which one of its members can be
/// reached: a walk's endpoint being visited drags the whole walk in.
pub(crate) proof fn lemma_chain_stays_visited<T>(
    g: Seq<NodeView<T>>,
    vis: Seq<bool>,
    p: Seq<NodeHandle>,
)
    requires
        vis.len() == g.len(),
        is_chain(g, p),
        vis[p.last() as int],
        forall|v: NodeHandle, w: NodeHandle|
            wf_handle(g, v) && vis[v as int] && #[trigger] has_edge(g, w, v) ==> vis[w as int],
    ensures
        vis[p.first() as int],
    decreases p.len(),
{
    if p.len() > 1 {
        let q = p.drop_first();
        assert forall|k: int| 0 <= k < q.len() implies wf_handle(g, #[trigger] q[k]) by {
            assert(q[k] == p[k + 1]);
        }
        assert forall|k: int| 0 <= k < q.len() - 1 implies has_edge(g, #[trigger] q[k], q[k + 1])
            by {
            assert(q[k] == p[k + 1] && q[k + 1] == p[k + 2]);
        }
        assert(is_chain(g, q));
        assert(q.last() == p.last());
        lemma_chain_stays_visited(g, vis, q);
        assert(has_edge(g, p[0], p[1]));
        assert(q.first() == p[1]);
    }
}

/// Identity stability: handing equal values to `get_or_add_node` twice
/// yields the same handle both times, and the second call leaves the graph
/// unchanged.  The hypothesis `v.eq_spec(&v)` is reflexivity of the value's
/// own equality, which any lawful `Eq` implementation grants.
pub proof fn lemma_identity_stability<T: PartialEq>(
    g0: Seq<NodeView<T>>,
    g1: Seq<NodeView<T>>,
    g2: Seq<NodeView<T>>,
    v: T,
    h1: NodeHandle,
    h2: NodeHandle,
)
    requires
        v.eq_spec(&v),
        get_or_add_post(g0, g1, v, h1),
        get_or_add_post(g1, g2, v, h2),
    ensures
        h2 == h1,
        g2 == g1,
{
    if contains_value(g0, v) {
        assert(matches_at(g0, v, h1 as int));
        assert(matches_at(g0, v, h2 as int));
        if h1 < h2 {
            assert(!matches_at(g0, v, h1 as int));
        }
        if h2 < h1 {
            assert(!matches_at(g0, v, h2 as int));
        }
    } else {
        let n = g0.len() as int;
        assert(g1 == g0.push(fresh_node(v)));
        assert(g1[n].value == v);
        assert(matches_at(g1, v, n));
        assert(contains_value(g1, v));
        assert(matches_at(g1, v, h2 as int));
        if (h2 as int) < n {
            assert(g1[h2 as int] == g0[h2 as int]);
            assert(matches_at(g0, v, h2 as int));
        }
    }
}

/// No duplication: a `get_or_add_node` call appends one node when its value
/// is new and none otherwise, and never alters an existing node.  Inserting
/// n distinct values therefore leaves exactly n nodes, whatever the order
/// and repetition of the calls.
pub proof fn lemma_no_duplication<T: PartialEq>(
    pre: Seq<NodeView<T>>,
    post: Seq<NodeView<T>>,
    v: T,
    h: NodeHandle,
)
    requires
        get_or_add_post(pre, post, v, h),
    ensures
        contains_value(pre, v) ==> post == pre,
        !contains_value(pre, v) ==> post.len() == pre.len() + 1,
        forall|i: int| 0 <= i < pre.len() ==> post[i] == pre[i],
{
}

/// A successfully installed edge is present afterward, in the parent's
/// child list.
pub proof fn lemma_added_edge_present<T>(g: Seq<NodeView<T>>, a: NodeHandle, b: NodeHandle)
    requires
        wf_handle(g, a),
        wf_handle(g, b),
        a != b,
    ensures
        has_edge(with_edge(g, a, b), a, b),
{
    lemma_push_contains(g[a as int].childs, b);
}

/// Cycle rejection along a chain: when an acyclic graph holds the edges
/// `a -> b` and `b -> c`, then `a` reaches `c` and the two nodes differ,
/// so by `add_edge`'s contract the insertion of `c -> a` is refused with
/// `CyclicRelation(a)` and every adjacency list stays as it was.
pub proof fn lemma_chain_blocks_back_edge<T>(
    g: Seq<NodeView<T>>,
    a: NodeHandle,
    b: NodeHandle,
    c: NodeHandle,
)
    requires
        acyclic(g),
        has_edge(g, a, b),
        has_edge(g, b, c),
    ensures
        a != c,
        reaches(g, a, c),
{
    lemma_edge_reaches(g, a, b);
    lemma_edge_reaches(g, b, c);
    lemma_reaches_trans(g, a, b, c);
    if a == c {
        let p: Seq<NodeHandle> = seq![a, b, c];
        assert(is_chain(g, p));
        assert(p.len() >= 2 && p.first() == p.last());
    }
}

/// Mutual-cycle exclusion: once a well-formed graph holds the edge
/// `a -> b`, the nodes differ and `a` reaches `b`; by `add_edge`'s contract
/// the reverse insertion `add_edge(b, a)` then fails with
/// `CyclicRelation(a)` and changes nothing.  Two edge insertions that would
/// jointly close a cycle can therefore never both succeed, in either order.
pub proof fn lemma_mutual_edge_rejected<T>(g: Seq<NodeView<T>>, a: NodeHandle, b: NodeHandle)
    requires
        acyclic(g),
        has_edge(g, a, b),
    ensures
        a != b,
        reaches(g, a, b),
{
    lemma_edge_reaches(g, a, b);
    if a == b {
        let p: Seq<NodeHandle> = seq![a, b];
        assert(is_chain(g, p));
        assert(p.len() >= 2 && p.first() == p.last());
    }
}

/// In an acyclic graph ancestry is antisymmetric: two different nodes are
/// never each other's ancestors.  This is what dooms one of two edge
/// insertions that would jointly close a cycle: once `a` reaches `b`, an
/// edge `b -> a` is refused.
pub proof fn lemma_no_mutual_ancestry<T>(g: Seq<NodeView<T>>, a: NodeHandle, b: NodeHandle)
    requires
        acyclic(g),
        a != b,
        reaches(g, a, b),
    ensures
        !reaches(g, b, a),
{
    if reaches(g, b, a) {
        let p = choose|p: Seq<NodeHandle>|
            #[trigger] is_chain(g, p) && p.first() == a && p.last() == b;
        let q = choose|q: Seq<NodeHandle>|
            #[trigger] is_chain(g, q) && q.first() == b && q.last() == a;
        let r = p + q.drop_first();
        assert forall|k: int| 0 <= k < r.len() - 1 implies has_edge(g, #[trigger] r[k], r[k + 1]) by {
            if k < p.len() - 1 {
                assert(r[k] == p[k] && r[k + 1] == p[k + 1]);
            } else if k == p.len() - 1 {
                assert(r[k] == p.last() && r[k + 1] == q[1]);
                assert(has_edge(g, q[0], q[1]));
            } else {
                assert(r[k] == q[k - p.len() + 1] && r[k + 1] == q[k - p.len() + 2]);
            }
        }
        assert forall|k: int| 0 <= k < r.len() implies wf_handle(g, #[trigger] r[k]) by {
            if k < p.len() {
                assert(r[k] == p[k]);
            } else {
                assert(r[k] == q[k - p.len() + 1]);
            }
        }
        assert(is_chain(g, r));
        // p visits both a and b, so it has at least two nodes, and r closes
        // the walk back at a: a cycle, contradicting acyclicity.
        assert(r.len() >= 2);
        assert(r.first() == a);
        assert(r.last() == (if q.len() == 1 { p.last() } else { q.last() }));
        assert(false);
    }
}

} // verus!
