//! The dependency graph: products as nodes in an arena, edges from parent to
//! child annotated with the child's head SHA, and a depth-first post-order walk.

use vstd::prelude::*;

verus! {

/// Whether a node is a required or an optional dependency.
#[derive(PartialEq, Eq, Structural, Clone, Copy, Debug)]
pub enum NodeKind {
    Required,
    Optional,
}

/// An edge from `parent` to `child`, recording the child's SHA when it was made.
pub struct Edge {
    pub parent: usize,
    pub child: usize,
    pub sha: String,
}

/// The mathematical model of a graph.
pub struct GraphView {
    pub names: Seq<Seq<char>>,
    pub kinds: Seq<NodeKind>,
    pub edges: Seq<(usize, usize, Seq<char>)>,
}

/// Nodes with distinct names, and edges between existing nodes.
pub open spec fn graph_wf(g: GraphView) -> bool {
    &&& g.names.len() == g.kinds.len()
    &&& g.names.len() <= usize::MAX
    &&& g.names.no_duplicates()
    &&& forall|k: int|
        0 <= k < g.edges.len() ==> (#[trigger] g.edges[k]).0 < g.names.len() && g.edges[k].1
            < g.names.len()
}

/// Whether a node is named `name`.
pub open spec fn has_name(g: GraphView, name: Seq<char>) -> bool {
    g.names.contains(name)
}

/// The index of the node named `name`.
pub open spec fn index_of(g: GraphView, name: Seq<char>) -> usize
    recommends
        has_name(g, name),
{
    choose|i: usize| i < g.names.len() && g.names[i as int] == name
}

/// Whether an edge leaves node `n`.
pub open spec fn leaves(n: usize) -> spec_fn((usize, usize, Seq<char>)) -> bool {
    |e: (usize, usize, Seq<char>)| e.0 == n
}

/// Whether an edge enters node `n`.
pub open spec fn enters(n: usize) -> spec_fn((usize, usize, Seq<char>)) -> bool {
    |e: (usize, usize, Seq<char>)| e.1 == n
}

/// The child end of an edge.
pub open spec fn edge_child() -> spec_fn((usize, usize, Seq<char>)) -> usize {
    |e: (usize, usize, Seq<char>)| e.1
}

/// The SHA recorded on an edge.
pub open spec fn edge_sha() -> spec_fn((usize, usize, Seq<char>)) -> Seq<char> {
    |e: (usize, usize, Seq<char>)| e.2
}

/// The children of node `n`, one per outgoing edge, in order of insertion.
pub open spec fn children(g: GraphView, n: usize) -> Seq<usize> {
    g.edges.filter(leaves(n)).map_values(edge_child())
}

/// The SHAs recorded on the edges into node `n`, in order of insertion.
pub open spec fn incoming_shas(g: GraphView, n: usize) -> Seq<Seq<char>> {
    g.edges.filter(enters(n)).map_values(edge_sha())
}

/// The version set of the product named `name`; empty for an unknown name.
pub open spec fn versions(g: GraphView, name: Seq<char>) -> Seq<Seq<char>> {
    if has_name(g, name) {
        incoming_shas(g, index_of(g, name))
    } else {
        Seq::empty()
    }
}

/// Depth-first visit of `n`: marks it, visits its unmarked children in edge
/// order, then emits it. `depth` bounds the nesting of visits; a walk never
/// nests deeper than the number of nodes, since each level marks a new node
/// (`walk::lemma_post_order_depth`).
pub open spec fn visit(g: GraphView, n: usize, seen: Seq<bool>, depth: nat) -> (Seq<bool>, Seq<usize>)
    decreases depth, 0int,
{
    if depth == 0 {
        (seen, Seq::empty())
    } else {
        let r = visit_children(g, children(g, n), 0, seen.update(n as int, true), (depth - 1) as nat);
        (r.0, r.1.push(n))
    }
}

/// Visits, in order, those of `cs[k..]` that are still unmarked when reached.
pub open spec fn visit_children(
    g: GraphView,
    cs: Seq<usize>,
    k: nat,
    seen: Seq<bool>,
    depth: nat,
) -> (Seq<bool>, Seq<usize>)
    decreases depth, cs.len() - k,
{
    if k >= cs.len() {
        (seen, Seq::empty())
    } else {
        let c = cs[k as int];
        let first = if seen[c as int] {
            (seen, Seq::<usize>::empty())
        } else {
            visit(g, c, seen, depth)
        };
        let rest = visit_children(g, cs, k + 1, first.0, depth);
        (rest.0, first.1 + rest.1)
    }
}

/// The names of the nodes listed in `order`.
pub open spec fn names_at(g: GraphView, order: Seq<usize>) -> Seq<Seq<char>> {
    order.map_values(|i: usize| g.names[i as int])
}

/// The post-order of the nodes reachable from `root`: children before
/// parents, each node once, `root` last.
pub open spec fn post_order(g: GraphView, root: usize) -> Seq<usize> {
    visit(g, root, Seq::new(g.names.len(), |i: int| false), g.names.len()).1
}

/// In a well-formed graph, the node at `i` is the one `index_of` picks for its name.
pub proof fn lemma_index_of(g: GraphView, i: usize)
    requires
        graph_wf(g),
        i < g.names.len(),
    ensures
        has_name(g, g.names[i as int]),
        index_of(g, g.names[i as int]) == i,
{
    let name = g.names[i as int];
    assert(g.names[i as int] == name);
    assert(has_name(g, name));
    let k = index_of(g, name);
    assert(k < g.names.len() && g.names[k as int] == name);
    if k != i {
        assert(g.names[k as int] == g.names[i as int]);
    }
}

/// Filtering then mapping a sequence with one more element.
pub proof fn lemma_filter_map_push<A, B>(s: Seq<A>, x: A, p: spec_fn(A) -> bool, f: spec_fn(A) -> B)
    ensures
        s.push(x).filter(p).map_values(f) == if p(x) {
            s.filter(p).map_values(f).push(f(x))
        } else {
            s.filter(p).map_values(f)
        },
{
    s.lemma_filter_push(x, p);
    if p(x) {
        assert(s.filter(p).push(x).map_values(f) =~= s.filter(p).map_values(f).push(f(x)));
    }
}

/// Every child of a node is a node.
pub proof fn lemma_children_in_range(g: GraphView, n: usize)
    requires
        graph_wf(g),
    ensures
        forall|k: int| 0 <= k < children(g, n).len() ==> #[trigger] children(g, n)[k] < g.names.len(),
{
    let f = g.edges.filter(leaves(n));
    assert forall|k: int| 0 <= k < children(g, n).len() implies #[trigger] children(g, n)[k]
        < g.names.len() by {
        assert(f.contains(f[k]));
        g.edges.lemma_filter_contains_rev(leaves(n), f[k]);
        let j = choose|j: int| 0 <= j < g.edges.len() && g.edges[j] == f[k];
        assert(g.edges[j].1 < g.names.len());
    };
}

/// A visit emits only nodes.
pub proof fn lemma_visit_in_range(g: GraphView, n: usize, seen: Seq<bool>, depth: nat)
    requires
        graph_wf(g),
        n < g.names.len(),
    ensures
        forall|k: int|
            0 <= k < visit(g, n, seen, depth).1.len() ==> #[trigger] visit(g, n, seen, depth).1[k]
                < g.names.len(),
    decreases depth, 0int,
{
    if depth > 0 {
        lemma_children_in_range(g, n);
        let r = visit_children(g, children(g, n), 0, seen.update(n as int, true), (depth - 1) as nat);
        lemma_visit_children_in_range(
            g,
            children(g, n),
            0,
            seen.update(n as int, true),
            (depth - 1) as nat,
        );
        let v = visit(g, n, seen, depth).1;
        assert(v == r.1.push(n));
        assert forall|k: int| 0 <= k < v.len() implies #[trigger] v[k] < g.names.len() by {
            if k < r.1.len() {
                assert(v[k] == r.1[k]);
            }
        };
    }
}

/// Visiting a list of nodes emits only nodes.
pub proof fn lemma_visit_children_in_range(
    g: GraphView,
    cs: Seq<usize>,
    k: nat,
    seen: Seq<bool>,
    depth: nat,
)
    requires
        graph_wf(g),
        forall|j: int| 0 <= j < cs.len() ==> #[trigger] cs[j] < g.names.len(),
    ensures
        forall|i: int|
            0 <= i < visit_children(g, cs, k, seen, depth).1.len() ==> #[trigger] visit_children(
                g,
                cs,
                k,
                seen,
                depth,
            ).1[i] < g.names.len(),
    decreases depth, cs.len() - k,
{
    if k < cs.len() {
        let c = cs[k as int];
        let first = if seen[c as int] {
            (seen, Seq::<usize>::empty())
        } else {
            visit(g, c, seen, depth)
        };
        if !seen[c as int] {
            lemma_visit_in_range(g, c, seen, depth);
        }
        lemma_visit_children_in_range(g, cs, k + 1, first.0, depth);
        let rest = visit_children(g, cs, k + 1, first.0, depth);
        let v = visit_children(g, cs, k, seen, depth).1;
        assert(v == first.1 + rest.1);
        assert forall|i: int| 0 <= i < v.len() implies #[trigger] v[i] < g.names.len() by {
            if i < first.1.len() {
                assert(v[i] == first.1[i]);
            } else {
                assert(v[i] == rest.1[i - first.1.len()]);
            }
        };
    }
}

/// The post-order walk emits only nodes.
pub proof fn lemma_post_order_in_range(g: GraphView, root: usize)
    requires
        graph_wf(g),
        root < g.names.len(),
    ensures
        forall|k: int| 0 <= k < post_order(g, root).len() ==> #[trigger] post_order(g, root)[k]
            < g.names.len(),
{
    lemma_visit_in_range(g, root, Seq::new(g.names.len(), |i: int| false), g.names.len());
}

/// Errors of graph operations.
#[derive(PartialEq, Eq, Debug)]
pub enum GraphError {
    /// No node carries the given name.
    UnknownNode(String),
}

/// A directed graph of products.
pub struct DepGraph {
    names: Vec<String>,
    kinds: Vec<NodeKind>,
    edges: Vec<Edge>,
}

impl View for DepGraph {
    type V = GraphView;

    closed spec fn view(&self) -> GraphView {
        GraphView {
            names: self.names@.map_values(|n: String| n@),
            kinds: self.kinds@,
            edges: self.edges@.map_values(|e: Edge| (e.parent, e.child, e.sha@)),
        }
    }
}

impl DepGraph {
    /// The graph is well formed.
    pub open spec fn wf(&self) -> bool {
        graph_wf(self@)
    }

    /// An empty graph.
    pub fn new() -> (r: DepGraph)
        ensures
            r.wf(),
            r@.names.len() == 0,
            r@.edges.len() == 0,
    {
        let r = DepGraph { names: Vec::new(), kinds: Vec::new(), edges: Vec::new() };
        assert(r@.names =~= Seq::<Seq<char>>::empty());
        r
    }

    /// The number of nodes.
    pub fn len(&self) -> (r: usize)
        ensures
            r == self@.names.len(),
    {
        self.names.len()
    }

    /// The index of the node named `name`, if any.
    pub fn find(&self, name: &String) -> (r: Option<usize>)
        requires
            self.wf(),
        ensures
            match r {
                Some(i) => has_name(self@, name@) && i == index_of(self@, name@) && i
                    < self@.names.len(),
                None => !has_name(self@, name@),
            },
    {
        let n = self.names.len();
        let mut i: usize = 0;
        while i < n
            invariant
                self.wf(),
                n == self.names@.len(),
                n == self@.names.len(),
                i <= n,
                forall|j: int| 0 <= j < i ==> self@.names[j] != name@,
            decreases n - i,
        {
            assert(self@.names[i as int] == self.names@[i as int]@);
            if self.names[i] == *name {
                assert(self@.names.contains(name@));
                proof {
                    lemma_index_of(self@, i);
                }
                return Some(i);
            }
            i = i + 1;
        }
        None
    }

    /// Whether a node is named `name`.
    pub fn has_product(&self, name: &str) -> (r: bool)
        requires
            self.wf(),
        ensures
            r == has_name(self@, name@),
    {
        let s = String::from_str(name);
        self.find(&s).is_some()
    }

    /// The name of node `node`.
    pub fn get_name(&self, node: usize) -> (r: String)
        requires
            node < self@.names.len(),
        ensures
            r@ == self@.names[node as int],
    {
        self.names[node].clone()
    }

    /// The kind of node `node`.
    pub fn get_kind(&self, node: usize) -> (r: NodeKind)
        requires
            self.wf(),
            node < self@.names.len(),
        ensures
            r == self@.kinds[node as int],
    {
        self.kinds[node]
    }
}

impl DepGraph {
    /// Adds a node named `name`, or, where one exists, raises an optional
    /// node to required when `kind` is required.
    pub fn add_or_update_product(&mut self, name: String, kind: NodeKind)
        requires
            old(self).wf(),
        ensures
            final(self).wf(),
            final(self)@.edges == old(self)@.edges,
            old(self)@.names.len() == old(self)@.kinds.len(),
            has_name(old(self)@, name@) ==> {
                let i = index_of(old(self)@, name@);
                &&& final(self)@.names == old(self)@.names
                &&& final(self)@.kinds == old(self)@.kinds.update(
                    i as int,
                    if old(self)@.kinds[i as int] == NodeKind::Optional && kind
                        == NodeKind::Required {
                        NodeKind::Required
                    } else {
                        old(self)@.kinds[i as int]
                    },
                )
            },
            !has_name(old(self)@, name@) ==> final(self)@.names == old(self)@.names.push(name@)
                && final(self)@.kinds == old(self)@.kinds.push(kind),
    {
        match self.find(&name) {
            Some(i) => {
                if self.kinds[i] == NodeKind::Optional && kind == NodeKind::Required {
                    self.kinds.set(i, NodeKind::Required);
                }
                assert(self@.names =~= old(self)@.names);
                assert(self@.edges =~= old(self)@.edges);
                assert(self@.kinds =~= old(self)@.kinds.update(
                    i as int,
                    if old(self)@.kinds[i as int] == NodeKind::Optional && kind
                        == NodeKind::Required {
                        NodeKind::Required
                    } else {
                        old(self)@.kinds[i as int]
                    },
                ));
            },
            None => {
                let ghost old_names = self.names@;
                self.names.push(name);
                self.kinds.push(kind);
                let count = self.names.len();
                assert(self@.names.len() == count);
                assert(self@.names =~= old(self)@.names.push(name@));
                assert(self@.names.no_duplicates()) by {
                    assert forall|a: int, b: int|
                        0 <= a < self@.names.len() && 0 <= b < self@.names.len() && a != b
                            implies self@.names[a] != self@.names[b] by {
                        if a == old_names.len() as int {
                            assert(old(self)@.names.contains(old(self)@.names[b]));
                        } else if b == old_names.len() as int {
                            assert(old(self)@.names.contains(old(self)@.names[a]));
                        }
                    };
                };
                assert(self@.edges =~= old(self)@.edges);
            },
        }
    }

    /// Adds an edge from `parent` to `child` recording `sha`; both must be nodes.
    pub fn connect_products(&mut self, parent: &str, child: &str, sha: String) -> (r: Result<
        (),
        GraphError,
    >)
        requires
            old(self).wf(),
        ensures
            final(self).wf(),
            r is Ok <==> has_name(old(self)@, parent@) && has_name(old(self)@, child@),
            r is Ok ==> final(self)@.names == old(self)@.names && final(self)@.kinds == old(
                self,
            )@.kinds && final(self)@.edges == old(self)@.edges.push(
                (index_of(old(self)@, parent@), index_of(old(self)@, child@), sha@),
            ),
            r matches Err(GraphError::UnknownNode(n)) ==> final(self)@ == old(self)@ && if has_name(
                old(self)@,
                parent@,
            ) {
                n@ == child@
            } else {
                n@ == parent@
            },
    {
        let p = String::from_str(parent);
        let c = String::from_str(child);
        let pi = match self.find(&p) {
            Some(i) => i,
            None => return Err(GraphError::UnknownNode(p)),
        };
        let ci = match self.find(&c) {
            Some(i) => i,
            None => return Err(GraphError::UnknownNode(c)),
        };
        let ghost old_edges = self.edges@;
        let e = Edge { parent: pi, child: ci, sha };
        self.edges.push(e);
        assert(self@.edges =~= old(self)@.edges.push((pi, ci, self.edges@[old_edges.len() as int].sha@)));
        assert(self@.names =~= old(self)@.names);
        Ok(())
    }

    /// Adds an edge from node `parent` to node `child` recording `sha`.
    pub fn connect_nodes(&mut self, parent: usize, child: usize, sha: String)
        requires
            old(self).wf(),
            parent < old(self)@.names.len(),
            child < old(self)@.names.len(),
        ensures
            final(self).wf(),
            final(self)@.names == old(self)@.names,
            final(self)@.kinds == old(self)@.kinds,
            final(self)@.edges == old(self)@.edges.push((parent, child, sha@)),
    {
        let ghost old_edges = self.edges@;
        let e = Edge { parent, child, sha };
        self.edges.push(e);
        assert(self@.edges =~= old(self)@.edges.push(
            (parent, child, self.edges@[old_edges.len() as int].sha@),
        ));
        assert(self@.names =~= old(self)@.names);
    }

    /// The version set of `name`: the SHAs on the edges into it, in order of
    /// insertion; empty for an unknown name.
    pub fn product_versions(&self, name: &str) -> (r: Vec<String>)
        requires
            self.wf(),
        ensures
            crate::source::names_of(r@) == versions(self@, name@),
    {
        let mut r: Vec<String> = Vec::new();
        let s = String::from_str(name);
        let idx = match self.find(&s) {
            Some(i) => i,
            None => {
                assert(crate::source::names_of(r@) =~= Seq::<Seq<char>>::empty());
                return r;
            },
        };
        let n = self.edges.len();
        let mut i: usize = 0;
        while i < n
            invariant
                n == self.edges@.len(),
                n == self@.edges.len(),
                i <= n,
                crate::source::names_of(r@) == self@.edges.subrange(0, i as int).filter(
                    enters(idx),
                ).map_values(edge_sha()),
            decreases n - i,
        {
            let ghost old_r = r@;
            proof {
                assert(self@.edges.subrange(0, i + 1) =~= self@.edges.subrange(0, i as int).push(
                    self@.edges[i as int],
                ));
                lemma_filter_map_push(
                    self@.edges.subrange(0, i as int),
                    self@.edges[i as int],
                    enters(idx),
                    edge_sha(),
                );
            }
            if self.edges[i].child == idx {
                r.push(self.edges[i].sha.clone());
                assert(crate::source::names_of(r@) =~= crate::source::names_of(old_r).push(
                    self@.edges[i as int].2,
                ));
            }
            i = i + 1;
        }
        assert(self@.edges.subrange(0, n as int) =~= self@.edges);
        r
    }

    /// The children of node `node`, one per outgoing edge, in order of insertion.
    pub fn children_of(&self, node: usize) -> (r: Vec<usize>)
        requires
            self.wf(),
        ensures
            r@ == children(self@, node),
            forall|k: int| 0 <= k < r@.len() ==> r@[k] < self@.names.len(),
    {
        let mut r: Vec<usize> = Vec::new();
        let n = self.edges.len();
        let mut i: usize = 0;
        while i < n
            invariant
                self.wf(),
                n == self.edges@.len(),
                n == self@.edges.len(),
                i <= n,
                r@ == self@.edges.subrange(0, i as int).filter(leaves(node)).map_values(
                    edge_child(),
                ),
                forall|k: int| 0 <= k < r@.len() ==> r@[k] < self@.names.len(),
            decreases n - i,
        {
            proof {
                assert(self@.edges.subrange(0, i + 1) =~= self@.edges.subrange(0, i as int).push(
                    self@.edges[i as int],
                ));
                lemma_filter_map_push(
                    self@.edges.subrange(0, i as int),
                    self@.edges[i as int],
                    leaves(node),
                    edge_child(),
                );
            }
            assert(self@.edges[i as int].1 < self@.names.len());
            if self.edges[i].parent == node {
                r.push(self.edges[i].child);
            }
            i = i + 1;
        }
        assert(self@.edges.subrange(0, n as int) =~= self@.edges);
        r
    }
}

impl DepGraph {
    fn visit(&self, n: usize, seen: &mut Vec<bool>, out: &mut Vec<usize>, depth: usize)
        requires
            self.wf(),
            n < self@.names.len(),
            old(seen)@.len() == self@.names.len(),
        ensures
            final(seen)@.len() == old(seen)@.len(),
            final(seen)@ == visit(self@, n, old(seen)@, depth as nat).0,
            final(out)@ == old(out)@ + visit(self@, n, old(seen)@, depth as nat).1,
        decreases depth, 0int,
    {
        if depth == 0 {
            assert(old(out)@ + Seq::<usize>::empty() =~= old(out)@);
            return ;
        }
        seen.set(n, true);
        let cs = self.children_of(n);
        let ghost out0 = out@;
        self.visit_children(&cs, 0, seen, out, depth - 1);
        let ghost r = visit_children(self@, cs@, 0, old(seen)@.update(n as int, true), (depth - 1) as nat);
        out.push(n);
        assert(out@ =~= old(out)@ + r.1.push(n));
    }

    fn visit_children(
        &self,
        cs: &Vec<usize>,
        k: usize,
        seen: &mut Vec<bool>,
        out: &mut Vec<usize>,
        depth: usize,
    )
        requires
            self.wf(),
            k <= cs@.len(),
            forall|j: int| 0 <= j < cs@.len() ==> cs@[j] < self@.names.len(),
            old(seen)@.len() == self@.names.len(),
        ensures
            final(seen)@.len() == old(seen)@.len(),
            final(seen)@ == visit_children(self@, cs@, k as nat, old(seen)@, depth as nat).0,
            final(out)@ == old(out)@ + visit_children(self@, cs@, k as nat, old(seen)@, depth as nat).1,
        decreases depth, cs@.len() - k,
    {
        if k >= cs.len() {
            assert(old(out)@ + Seq::<usize>::empty() =~= old(out)@);
            return ;
        }
        let c = cs[k];
        if !seen[c] {
            self.visit(c, seen, out, depth);
        } else {
            assert(old(out)@ + Seq::<usize>::empty() =~= old(out)@);
        }
        let ghost mid = out@;
        let ghost first = if old(seen)@[c as int] {
            (old(seen)@, Seq::<usize>::empty())
        } else {
            visit(self@, c, old(seen)@, depth as nat)
        };
        self.visit_children(cs, k + 1, seen, out, depth);
        let ghost rest = visit_children(self@, cs@, (k + 1) as nat, first.0, depth as nat);
        assert(out@ =~= old(out)@ + (first.1 + rest.1));
    }

    /// The post-order walk from the node named `root`: children before
    /// parents, each reachable node once, `root` last.
    pub fn dfs_post_order(&self, root: &str) -> (r: Result<Vec<usize>, GraphError>)
        requires
            self.wf(),
        ensures
            r is Ok <==> has_name(self@, root@),
            r matches Ok(v) ==> v@ == post_order(self@, index_of(self@, root@)),
            r matches Err(GraphError::UnknownNode(n)) ==> n@ == root@,
    {
        let name = String::from_str(root);
        let idx = match self.find(&name) {
            Some(i) => i,
            None => return Err(GraphError::UnknownNode(name)),
        };
        let n = self.names.len();
        let mut seen: Vec<bool> = Vec::new();
        let mut i: usize = 0;
        while i < n
            invariant
                i <= n,
                seen@ == Seq::new(i as nat, |j: int| false),
            decreases n - i,
        {
            seen.push(false);
            assert(seen@ =~= Seq::new((i + 1) as nat, |j: int| false));
            i = i + 1;
        }
        let mut out: Vec<usize> = Vec::new();
        self.visit(idx, &mut seen, &mut out, n);
        assert(out@ =~= post_order(self@, idx));
        Ok(out)
    }

    /// The names of the nodes of the post-order walk from `root`.
    pub fn dfs_post_order_names(&self, root: &str) -> (r: Result<Vec<String>, GraphError>)
        requires
            self.wf(),
        ensures
            r is Ok <==> has_name(self@, root@),
            r matches Ok(v) ==> crate::source::names_of(v@) == names_at(
                self@,
                post_order(self@, index_of(self@, root@)),
            ),
            r matches Err(GraphError::UnknownNode(n)) ==> n@ == root@,
    {
        let order = self.dfs_post_order(root)?;
        proof {
            lemma_post_order_in_range(self@, index_of(self@, root@));
        }
        let mut r: Vec<String> = Vec::new();
        let n = order.len();
        let mut i: usize = 0;
        while i < n
            invariant
                self.wf(),
                n == order@.len(),
                i <= n,
                forall|k: int| 0 <= k < n ==> order@[k] < self@.names.len(),
                crate::source::names_of(r@) == names_at(self@, order@.subrange(0, i as int)),
            decreases n - i,
        {
            let ghost old_r = r@;
            let nm = self.get_name(order[i]);
            r.push(nm);
            assert(r@ =~= old_r.push(nm));
            assert(crate::source::names_of(r@) =~= crate::source::names_of(old_r).push(nm@));
            assert(order@.subrange(0, i + 1) =~= order@.subrange(0, i as int).push(order@[i as int]));
            assert(names_at(self@, order@.subrange(0, i + 1)) =~= names_at(
                self@,
                order@.subrange(0, i as int),
            ).push(nm@));
            i = i + 1;
        }
        assert(order@.subrange(0, n as int) =~= order@);
        Ok(r)
    }
}

} // verus!
