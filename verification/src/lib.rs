use vstd::prelude::*;
use vstd::std_specs::cmp::PartialEqSpec;

pub mod ancestry;
pub mod enum_slicer;
pub mod node;

pub use node::Node;
pub use node::NodeHandle;
pub use node::NodeView;

verus! {

/// Why an edge could not be added.
///
/// Each variant carries the handle of the offending node, from which the
/// caller can fetch the node and its value through
/// [`DependencyGraph::get_node`].
#[derive(Clone, Copy, Debug, PartialEq, Eq, Structural)]
pub enum AddNodeError {
    /// The edge would have made a node its own ancestor; the handle names
    /// the node at which the cycle would have closed.
    CyclicRelation(NodeHandle),
    /// Parent and child are the same node; the handle names it.
    SameNode(NodeHandle),
}

/// A directed dependency graph of uniquely-valued nodes.
///
/// The graph owns every node in its registry; callers name nodes through
/// [`NodeHandle`]s handed out by [`DependencyGraph::get_or_add_node`].
pub struct DependencyGraph<T> {
    nodes: Vec<Node<T>>,
}

impl<T> View for DependencyGraph<T> {
    type V = Seq<NodeView<T>>;

    open(crate) spec fn view(&self) -> Seq<NodeView<T>> {
        self.nodes@.map_values(|n: Node<T>| n@)
    }
}

impl<T> DependencyGraph<T> {
    /// Read access to the node that `handle` names.
    pub fn get_node(&self, handle: NodeHandle) -> (node: &Node<T>)
        requires
            ancestry::wf_handle(self@, handle),
        ensures
            node@ == self@[handle as int],
    {
        &self.nodes[handle]
    }

    /// How many nodes the graph holds.
    pub fn node_count(&self) -> (n: usize)
        ensures
            n == self@.len(),
    {
        self.nodes.len()
    }
}

impl<T: Eq> DependencyGraph<T> {
    /// The graph's invariant; see [`ancestry::graph_wf`].  It holds of the
    /// empty graph and every graph operation preserves it.
    pub open spec fn wf(self) -> bool {
        ancestry::graph_wf(self@)
    }

    /// Creates a new, empty dependency graph.
    pub fn new() -> (g: DependencyGraph<T>)
        ensures
            g@ == Seq::<NodeView<T>>::empty(),
            g.wf(),
    {
        let g = DependencyGraph { nodes: Vec::new() };
        proof {
            assert forall|p: Seq<NodeHandle>| #[trigger] ancestry::is_chain(g@, p) && p.len()
                >= 2 implies p.first() != p.last() by {
                assert(!ancestry::wf_handle(g@, p[0]));
            }
        }
        g
    }

    /// Looks for a node whose value equals `*value`; returns the handle of
    /// the first one, if any.
    fn fetch_existing(&self, value: &T) -> (r: Option<NodeHandle>)
        requires
            T::obeys_eq_spec(),
        ensures
            match r {
                Some(h) => ancestry::matches_at(self@, *value, h as int) && (forall|i: int|
                    0 <= i < h ==> !ancestry::matches_at(self@, *value, i)),
                None => forall|i: int|
                    0 <= i < self@.len() ==> !ancestry::matches_at(self@, *value, i),
            },
    {
        let n = self.nodes.len();
        let mut idx: usize = 0;
        while idx < n
            invariant
                T::obeys_eq_spec(),
                n == self@.len(),
                idx <= n,
                forall|i: int| 0 <= i < idx ==> !ancestry::matches_at(self@, *value, i),
            decreases n - idx,
        {
            if self.nodes[idx].value == *value {
                return Some(idx);
            }
            idx = idx + 1;
        }
        None
    }

    /// Returns the handle of the node carrying a value equal to `value`,
    /// adding a fresh node for it first when no node does.
    ///
    /// Looking a value up never disturbs the rest of the graph, so handing
    /// the same value in twice yields the same handle both times.
    pub fn get_or_add_node(&mut self, value: T) -> (h: NodeHandle)
        requires
            old(self).wf(),
            T::obeys_eq_spec(),
        ensures
            final(self).wf(),
            ancestry::get_or_add_post(old(self)@, final(self)@, value, h),
    {
        let ghost v = value;
        match self.fetch_existing(&value) {
            Some(h) => {
                proof {
                    assert(ancestry::matches_at(self@, v, h as int));
                    assert(ancestry::contains_value(self@, v));
                }
                h
            },
            None => {
                let h = self.nodes.len();
                let node = Node::new(value);
                proof {
                    assert(node@ =~~= ancestry::fresh_node(v));
                    if ancestry::contains_value(self@, v) {
                        let i = choose|i: int| ancestry::matches_at(self@, v, i);
                        assert(!ancestry::matches_at(self@, v, i));
                    }
                    assert forall|i: int| 0 <= i < self@.len() implies !(#[trigger] self@[i].value.eq_spec(&v)) by {
                        assert(!ancestry::matches_at(self@, v, i));
                    }
                    ancestry::lemma_push_node_wf(self@, v);
                }
                self.nodes.push(node);
                proof {
                    assert(self@ =~~= old(self)@.push(ancestry::fresh_node(v)));
                }
                h
            },
        }
    }

    /// Adds the edge `parent_ref -> child_ref`.
    ///
    /// The call fails with [`AddNodeError::SameNode`] when both handles name
    /// the same node, and with [`AddNodeError::CyclicRelation`] when
    /// `child_ref` already stands among `parent_ref`'s ancestry, since the
    /// edge would then make `child_ref` its own ancestor.  A failed call
    /// leaves every adjacency list untouched; a successful one appends
    /// `child_ref` to the parent's children and `parent_ref` to the child's
    /// parents, and nothing else.
    pub fn add_edge(&mut self, parent_ref: NodeHandle, child_ref: NodeHandle) -> (r: Result<
        (),
        AddNodeError,
    >)
        requires
            old(self).wf(),
            ancestry::wf_handle(old(self)@, parent_ref),
            ancestry::wf_handle(old(self)@, child_ref),
        ensures
            final(self).wf(),
            parent_ref == child_ref ==> r == Result::<(), AddNodeError>::Err(
                AddNodeError::SameNode(parent_ref),
            ) && final(self)@ == old(self)@,
            parent_ref != child_ref && ancestry::reaches(old(self)@, child_ref, parent_ref) ==> r
                == Result::<(), AddNodeError>::Err(AddNodeError::CyclicRelation(child_ref))
                && final(self)@ == old(self)@,
            parent_ref != child_ref && !ancestry::reaches(old(self)@, child_ref, parent_ref) ==> r
                == Result::<(), AddNodeError>::Ok(()) && final(self)@ == ancestry::with_edge(
                old(self)@,
                parent_ref,
                child_ref,
            ),
    {
        if parent_ref == child_ref {
            return Err(AddNodeError::SameNode(parent_ref));
        }
        match verify_if_exists_in_parents(self, parent_ref, child_ref) {
            Err(e) => {
                return Err(e);
            },
            Ok(()) => {},
        }
        proof {
            ancestry::lemma_with_edge_wf(self@, parent_ref, child_ref);
        }
        self.nodes[parent_ref].add_child(child_ref);
        self.nodes[child_ref].add_parent(parent_ref);
        proof {
            assert(self@ =~~= ancestry::with_edge(old(self)@, parent_ref, child_ref));
        }
        Ok(())
    }
}

impl<T> Default for DependencyGraph<T> {
    /// The default graph is the empty graph.
    fn default() -> (d: Self)
        ensures
            d@ == Seq::<NodeView<T>>::empty(),
    {
        DependencyGraph { nodes: Vec::new() }
    }
}

/// Walks upward from `parent_ref` through `parents` back-references and
/// reports whether `child_ref` stands among `parent_ref` and its ancestors,
/// which is exactly when an edge `parent_ref -> child_ref` would close a
/// cycle.
///
/// The walk keeps a worklist instead of recursing, so pathological ancestry
/// depth cannot exhaust the call stack, and it skips handles it has already
/// visited.
#[verifier::loop_isolation(false)]
fn verify_if_exists_in_parents<T: Eq>(
    graph: &DependencyGraph<T>,
    parent_ref: NodeHandle,
    child_ref: NodeHandle,
) -> (r: Result<(), AddNodeError>)
    requires
        graph.wf(),
        ancestry::wf_handle(graph@, parent_ref),
        ancestry::wf_handle(graph@, child_ref),
    ensures
        r == (if ancestry::reaches(graph@, child_ref, parent_ref) {
            Result::<(), AddNodeError>::Err(AddNodeError::CyclicRelation(child_ref))
        } else {
            Result::<(), AddNodeError>::Ok(())
        }),
{
    let ghost g = graph@;
    let n = graph.node_count();
    let mut visited: Vec<bool> = vec![false; n];
    let mut stack: Vec<NodeHandle> = Vec::new();
    proof {
        ancestry::lemma_reaches_refl(g, parent_ref);
        assert forall|i: int| 0 <= i < n implies !visited@[i] by {
            assert(vstd::pervasive::cloned(false, visited@[i]));
        }
    }
    stack.push(parent_ref);
    proof {
        assert(stack@[0] == parent_ref);
        assert(stack@.contains(parent_ref));
    }
    while stack.len() != 0
        invariant
            visited@.len() == n,
            forall|t: int| 0 <= t < stack@.len() ==> ancestry::wf_handle(g, #[trigger] stack@[t]),
            forall|t: int|
                0 <= t < stack@.len() ==> ancestry::reaches(g, #[trigger] stack@[t], parent_ref),
            forall|h: NodeHandle|
                ancestry::wf_handle(g, h) && #[trigger] visited@[h as int] ==> ancestry::reaches(
                    g,
                    h,
                    parent_ref,
                ),
            forall|h: NodeHandle|
                ancestry::wf_handle(g, h) && #[trigger] visited@[h as int] ==> h != child_ref,
            forall|v: NodeHandle, w: NodeHandle|
                ancestry::wf_handle(g, v) && visited@[v as int] && #[trigger] ancestry::has_edge(
                    g,
                    w,
                    v,
                ) ==> visited@[w as int] || stack@.contains(w),
            visited@[parent_ref as int] || stack@.contains(parent_ref),
        decreases ancestry::count_unvisited(visited@), stack@.len(),
    {
        let ghost stack0 = stack@;
        let u = stack.pop().unwrap();
        proof {
            assert(u == stack0.last());
            assert(stack@ =~= stack0.drop_last());
            assert(ancestry::reaches(g, u, parent_ref));
        }
        if u == child_ref {
            return Err(AddNodeError::CyclicRelation(child_ref));
        }
        if !visited[u] {
            let ghost visited0 = visited@;
            visited.set(u, true);
            proof {
                ancestry::lemma_count_unvisited_update(visited0, u as int);
            }
            let node = graph.get_node(u);
            let m = node.parents.len();
            proof {
                assert(node@.parents == g[u as int].parents);
                // the closure property holds again once every parent of u is
                // queued; until then the tail of u's parent list stands in
                assert forall|v: NodeHandle, w: NodeHandle|
                    ancestry::wf_handle(g, v) && visited@[v as int]
                        && #[trigger] ancestry::has_edge(g, w, v) implies visited@[w as int]
                    || stack@.contains(w) || (v == u && exists|j: int|
                    0 <= j < m && g[u as int].parents[j] == w) by {
                    if v == u {
                        assert(g[w as int].childs.contains(v));
                        assert(g[v as int].parents.contains(w));
                        let j = choose|j: int|
                            0 <= j < g[v as int].parents.len() && g[v as int].parents[j] == w;
                        assert(g[u as int].parents[j] == w);
                    } else {
                        assert(visited0[v as int]);
                        if stack0.contains(w) {
                            ancestry::lemma_drop_last_contains(stack0, w);
                        }
                    }
                }
                if !visited@[parent_ref as int] {
                    ancestry::lemma_drop_last_contains(stack0, parent_ref);
                    assert(parent_ref != u);
                }
            }
            let mut k: usize = 0;
            while k < m
                invariant
                    k <= m,
                    forall|t: int|
                        0 <= t < stack@.len() ==> ancestry::wf_handle(g, #[trigger] stack@[t]),
                    forall|t: int|
                        0 <= t < stack@.len() ==> ancestry::reaches(
                            g,
                            #[trigger] stack@[t],
                            parent_ref,
                        ),
                    forall|v: NodeHandle, w: NodeHandle|
                        ancestry::wf_handle(g, v) && visited@[v as int]
                            && #[trigger] ancestry::has_edge(g, w, v) ==> visited@[w as int]
                            || stack@.contains(w) || (v == u && exists|j: int|
                            k <= j < m && g[u as int].parents[j] == w),
                    visited@[parent_ref as int] || stack@.contains(parent_ref),
                decreases m - k,
            {
                let p = node.parents[k];
                let ghost stack1 = stack@;
                proof {
                    assert(ancestry::wf_handle(g, p));
                    assert(g[u as int].parents.contains(p)) by {
                        assert(g[u as int].parents[k as int] == p);
                    }
                    assert(ancestry::has_edge(g, p, u));
                    ancestry::lemma_reaches_step(g, p, u, parent_ref);
                    ancestry::lemma_push_contains(stack1, p);
                }
                stack.push(p);
                proof {
                    assert forall|v: NodeHandle, w: NodeHandle|
                        ancestry::wf_handle(g, v) && visited@[v as int]
                            && #[trigger] ancestry::has_edge(g, w, v) implies visited@[w as int]
                        || stack@.contains(w) || (v == u && exists|j: int|
                        k + 1 <= j < m && g[u as int].parents[j] == w) by {
                        if !visited@[w as int] && !stack1.contains(w) {
                            let j = choose|j: int|
                                k <= j < m && g[u as int].parents[j] == w;
                            if j == k {
                                assert(w == p);
                                assert(stack@.contains(p));
                            } else {
                                assert(k + 1 <= j < m && g[u as int].parents[j] == w);
                            }
                        }
                    }
                }
                k = k + 1;
            }
        } else {
            proof {
                assert forall|v: NodeHandle, w: NodeHandle|
                    ancestry::wf_handle(g, v) && visited@[v as int]
                        && #[trigger] ancestry::has_edge(g, w, v) implies visited@[w as int]
                    || stack@.contains(w) by {
                    if !visited@[w as int] && stack0.contains(w) {
                        ancestry::lemma_drop_last_contains(stack0, w);
                        if w == u {
                            assert(visited@[u as int]);
                        }
                    }
                }
                if !visited@[parent_ref as int] {
                    ancestry::lemma_drop_last_contains(stack0, parent_ref);
                    if parent_ref == u {
                        assert(visited@[u as int]);
                    }
                }
            }
        }
    }
    proof {
        if ancestry::reaches(g, child_ref, parent_ref) {
            let p = choose|p: Seq<NodeHandle>|
                #[trigger] ancestry::is_chain(g, p) && p.first() == child_ref && p.last()
                    == parent_ref;
            assert(visited@[parent_ref as int]);
            assert forall|v: NodeHandle, w: NodeHandle|
                ancestry::wf_handle(g, v) && visited@[v as int] && #[trigger] ancestry::has_edge(
                    g,
                    w,
                    v,
                ) implies visited@[w as int] by {
                assert(stack@.len() == 0);
                assert(!stack@.contains(w));
            }
            ancestry::lemma_chain_stays_visited(g, visited@, p);
            assert(visited@[child_ref as int]);
            assert(false);
        }
    }
    Ok(())
}

} // verus!
