//! The resolver: builds the dependency graph of a root product. Cloning,
//! checking out and reading tables are the caller's part; the resolver says
//! which product is needed next and records what comes back.

use vstd::prelude::*;
use crate::graph::{
    DepGraph, GraphView, NodeKind, children, edge_child, enters, graph_wf, has_name, incoming_shas,
    index_of, leaves, lemma_filter_map_push, lemma_index_of,
};
use crate::identity::node_sha;
use crate::source::names_of;

verus! {

/// Node `n` has an edge to the node named `dep`.
pub open spec fn connected(g: GraphView, n: usize, dep: Seq<char>) -> bool {
    &&& has_name(g, dep)
    &&& exists|k: int|
        0 <= k < g.edges.len() && (#[trigger] g.edges[k]).0 == n && g.edges[k].1 == index_of(g, dep)
}

/// Every dependency that node `n`'s table requires is a node with an edge from `n`.
pub open spec fn deps_connected(g: GraphView, tables: Seq<Seq<Seq<char>>>, n: usize) -> bool {
    forall|j: int| 0 <= j < tables[n as int].len() ==> connected(g, n, #[trigger] tables[n as int][j])
}

/// Every edge records the head SHA of its child's working copy.
pub open spec fn edges_record_heads(g: GraphView, heads: Seq<Seq<char>>) -> bool {
    forall|k: int| 0 <= k < g.edges.len() ==> (#[trigger] g.edges[k]).2 == heads[g.edges[k].1 as int]
}

/// Every edge goes from a node to a dependency that the node's table requires.
pub open spec fn edges_from_tables(g: GraphView, tables: Seq<Seq<Seq<char>>>) -> bool {
    forall|k: int|
        0 <= k < g.edges.len() ==> tables[(#[trigger] g.edges[k]).0 as int].contains(
            g.names[g.edges[k].1 as int],
        )
}

/// The node indices of the products named in `ds`.
pub open spec fn indices_of(g: GraphView, ds: Seq<Seq<char>>) -> Seq<usize> {
    ds.map_values(|d: Seq<char>| index_of(g, d))
}

/// Whether node `n` has a frame on the stack.
pub open spec fn on_stack(stack: Seq<(usize, usize)>, n: usize) -> bool {
    exists|i: int| 0 <= i < stack.len() && (#[trigger] stack[i]).0 == n
}

/// Adding a node keeps the index of every existing name.
pub proof fn lemma_index_stable(g: GraphView, g2: GraphView, x: Seq<char>, d: Seq<char>)
    requires
        graph_wf(g),
        graph_wf(g2),
        g2.names == g.names.push(x),
        has_name(g, d),
    ensures
        index_of(g2, d) == index_of(g, d),
{
    let w = choose|w: int| 0 <= w < g.names.len() && g.names[w] == d;
    assert(g.names[(w as usize) as int] == d);
    assert((w as usize) < g.names.len());
    let i = index_of(g, d);
    assert(g2.names[i as int] == d);
    lemma_index_of(g2, i);
}

/// Work left on a stack of (node, next dependency) frames.
pub open spec fn remaining(stack: Seq<(usize, usize)>, tables: Seq<Seq<Seq<char>>>) -> nat
    decreases stack.len(),
{
    if stack.len() == 0 {
        0
    } else {
        let f = stack.last();
        remaining(stack.drop_last(), tables) + ((tables[f.0 as int].len() - f.1 + 1) as nat)
    }
}

/// Appending an edge keeps every connection.
pub proof fn lemma_connected_edge_push(
    g: GraphView,
    g2: GraphView,
    e: (usize, usize, Seq<char>),
    n: usize,
    dep: Seq<char>,
)
    requires
        g2.names == g.names,
        g2.edges == g.edges.push(e),
        connected(g, n, dep),
    ensures
        connected(g2, n, dep),
{
    let k = choose|k: int|
        0 <= k < g.edges.len() && (#[trigger] g.edges[k]).0 == n && g.edges[k].1 == index_of(g, dep);
    assert(g2.edges[k] == g.edges[k]);
}

/// Adding a node keeps every connection.
pub proof fn lemma_connected_node_push(g: GraphView, g2: GraphView, x: Seq<char>, n: usize, dep: Seq<char>)
    requires
        graph_wf(g),
        graph_wf(g2),
        g2.names == g.names.push(x),
        g2.edges == g.edges,
        connected(g, n, dep),
    ensures
        connected(g2, n, dep),
{
    let w = choose|w: int| 0 <= w < g.names.len() && g.names[w] == dep;
    assert(g.names[(w as usize) as int] == dep);
    assert((w as usize) < g.names.len());
    let i = index_of(g, dep);
    assert(i < g.names.len() && g.names[i as int] == dep);
    assert(g2.names[i as int] == dep);
    lemma_index_of(g2, i);
    assert(has_name(g2, dep));
}

/// Throughout a resolution, every node has a head SHA and a table, every
/// edge records the head SHA its child's working copy had, and every edge
/// goes to a dependency its parent's table requires.
pub proof fn lemma_resolver_records(r: &Resolver)
    requires
        r.wf(),
    ensures
        r.heads_view().len() == r.graph_view().names.len(),
        r.tables_view().len() == r.graph_view().names.len(),
        edges_record_heads(r.graph_view(), r.heads_view()),
        edges_from_tables(r.graph_view(), r.tables_view()),
{
}

/// Where every edge records its child's head, the SHA standing for each
/// node is its head: identities then depend on the heads and on each node's
/// children alone.
pub proof fn lemma_node_sha_is_head(g: GraphView, heads: Seq<Seq<char>>, n: usize)
    requires
        graph_wf(g),
        edges_record_heads(g, heads),
    ensures
        node_sha(g, heads, n) == heads[n as int],
{
    broadcast use vstd::seq_lib::group_filter_ensures;

    let f = g.edges.filter(enters(n));
    if f.len() > 0 {
        assert(f.contains(f[0]));
        assert(enters(n)(f[0]));
        g.edges.lemma_filter_contains_rev(enters(n), f[0]);
        let k = choose|k: int| 0 <= k < g.edges.len() && g.edges[k] == f[0];
        assert(g.edges[k].2 == heads[g.edges[k].1 as int]);
        assert(incoming_shas(g, n)[0] == f[0].2);
    }
}

/// What the caller does next.
pub enum ResolveStep {
    /// Clone and check out the named product, read its table, and hand the
    /// head SHA and required dependencies to `supply`.
    Fetch(String),
    /// Every transitive dependency is in the graph and connected.
    Done,
}

/// The state of one resolution.
pub struct Resolver {
    graph: DepGraph,
    heads: Vec<String>,
    tables: Vec<Vec<String>>,
    stack: Vec<(usize, usize)>,
    pending: Option<String>,
}

impl Resolver {
    /// The graph built so far.
    pub closed spec fn graph_view(&self) -> GraphView {
        self.graph@
    }

    /// The head SHA of each node's working copy, by node index.
    pub closed spec fn heads_view(&self) -> Seq<Seq<char>> {
        names_of(self.heads@)
    }

    /// The required dependencies each node's table lists, by node index.
    pub closed spec fn tables_view(&self) -> Seq<Seq<Seq<char>>> {
        self.tables@.map_values(|t: Vec<String>| names_of(t@))
    }

    /// The product whose table is awaited, if any.
    pub closed spec fn pending_view(&self) -> Option<Seq<char>> {
        match self.pending {
            Some(p) => Some(p@),
            None => None,
        }
    }

    /// The number of nodes whose dependencies are still being walked.
    pub closed spec fn open_frames(&self) -> nat {
        self.stack@.len()
    }

    /// The node whose dependencies are being walked.
    pub closed spec fn top_node(&self) -> usize {
        self.stack@.last().0
    }

    /// The children of every node are the nodes its table names, in table
    /// order: all of them for a node whose walk is over, those before the
    /// frame's position for a node still being walked. Each node has at most
    /// one frame.
    closed spec fn shape_ok(&self) -> bool {
        let g = self.graph@;
        let tables = self.tables_view();
        let st = self.stack@;
        &&& forall|i: int, j: int|
            0 <= i < st.len() && 0 <= j < st.len() && i != j ==> (#[trigger] st[i]).0 != (
            #[trigger] st[j]).0
        &&& forall|i: int|
            0 <= i < st.len() ==> children(g, (#[trigger] st[i]).0) == indices_of(
                g,
                tables[st[i].0 as int].take(st[i].1 as int),
            )
        &&& forall|n: usize|
            n < g.names.len() && !on_stack(st, n) ==> #[trigger] children(g, n) == indices_of(
                g,
                tables[n as int],
            )
    }

    /// The resolver's internal invariant.
    pub closed spec fn wf(&self) -> bool {
        let g = self.graph@;
        let tables = self.tables_view();
        &&& self.graph.wf()
        &&& self.shape_ok()
        &&& self.heads@.len() == g.names.len()
        &&& self.tables@.len() == g.names.len()
        &&& edges_record_heads(g, self.heads_view())
        &&& edges_from_tables(g, tables)
        &&& forall|i: int|
            0 <= i < self.stack@.len() ==> (#[trigger] self.stack@[i]).0 < g.names.len()
                && self.stack@[i].1 <= tables[self.stack@[i].0 as int].len()
        &&& forall|i: int, j: int|
            0 <= i < self.stack@.len() && 0 <= j < self.stack@[i].1 ==> connected(
                g,
                self.stack@[i].0,
                #[trigger] tables[self.stack@[i].0 as int][j],
            )
        &&& forall|n: usize|
            n < g.names.len() ==> deps_connected(g, tables, n) || exists|i: int|
                0 <= i < self.stack@.len() && (#[trigger] self.stack@[i]).0 == n
        &&& match self.pending {
            Some(p) => {
                &&& !has_name(g, p@)
                &&& self.stack@.len() > 0
                &&& self.stack@.last().1 < tables[self.stack@.last().0 as int].len()
                &&& tables[self.stack@.last().0 as int][self.stack@.last().1 as int] == p@
            },
            None => true,
        }
    }

    /// Starts a resolution at `root`, whose working copy is checked out at
    /// `head` and whose table requires `deps`.
    pub fn new(root: String, head: String, deps: Vec<String>) -> (r: Resolver)
        ensures
            r.wf(),
            r.graph_view().names == seq![root@],
            r.graph_view().kinds == seq![NodeKind::Required],
            r.graph_view().edges.len() == 0,
            r.heads_view() == seq![head@],
            r.tables_view() == seq![names_of(deps@)],
            r.pending_view() is None,
            r.open_frames() == 1,
    {
        let mut graph = DepGraph::new();
        graph.add_or_update_product(root, NodeKind::Required);
        let mut heads: Vec<String> = Vec::new();
        heads.push(head);
        let mut tables: Vec<Vec<String>> = Vec::new();
        tables.push(deps);
        let mut stack: Vec<(usize, usize)> = Vec::new();
        stack.push((0, 0));
        let r = Resolver { graph, heads, tables, stack, pending: None };
        assert(r.graph_view().names =~= seq![root@]);
        assert(r.graph_view().kinds =~= seq![NodeKind::Required]);
        assert(r.heads_view() =~= seq![head@]);
        assert(r.tables_view() =~= seq![names_of(r.tables@[0]@)]);
        assert forall|n: usize| n < r.graph_view().names.len() implies deps_connected(
            r.graph_view(),
            r.tables_view(),
            n,
        ) || exists|i: int| 0 <= i < r.stack@.len() && (#[trigger] r.stack@[i]).0 == n by {
            assert(r.stack@[0].0 == n);
        };
        proof {
            broadcast use vstd::seq_lib::group_filter_ensures;

            let g = r.graph@;
            let tables = r.tables_view();
            assert(children(g, 0) =~= Seq::<usize>::empty());
            assert(tables[0].take(0) =~= Seq::<Seq<char>>::empty());
            assert(indices_of(g, tables[0].take(0)) =~= Seq::<usize>::empty());
            assert(r.stack@[0] == (0usize, 0usize));
            assert forall|n: usize| n < g.names.len() && !on_stack(r.stack@, n) implies #[trigger] children(g, n)
                == indices_of(g, tables[n as int]) by {
                assert(r.stack@[0].0 == n);
            };
        }
        r
    }

    /// Advances the walk until a product must be fetched or every dependency
    /// is connected. Along the way it connects each node to its already-known
    /// dependencies, one edge per table entry in table order, recording the
    /// dependency's head SHA on the edge; edges found earlier are kept.
    pub fn step(&mut self) -> (r: ResolveStep)
        requires
            old(self).wf(),
        ensures
            final(self).wf(),
            final(self).graph_view().names == old(self).graph_view().names,
            final(self).graph_view().kinds == old(self).graph_view().kinds,
            final(self).heads_view() == old(self).heads_view(),
            final(self).tables_view() == old(self).tables_view(),
            old(self).pending_view() is Some ==> final(self).pending_view() == old(
                self,
            ).pending_view() && final(self).graph_view() == old(self).graph_view(),
            old(self).graph_view().edges.len() <= final(self).graph_view().edges.len(),
            final(self).graph_view().edges.subrange(0, old(self).graph_view().edges.len() as int)
                == old(self).graph_view().edges,
            match r {
                ResolveStep::Fetch(p) => {
                    let g = final(self).graph_view();
                    let t = final(self).top_node();
                    &&& final(self).pending_view() == Some(p@)
                    &&& !has_name(g, p@)
                    &&& final(self).open_frames() > 0
                    &&& t < g.names.len()
                    &&& children(g, t).len() < final(self).tables_view()[t as int].len()
                    &&& final(self).tables_view()[t as int][children(g, t).len() as int] == p@
                },
                ResolveStep::Done => {
                    &&& final(self).pending_view() is None
                    &&& final(self).open_frames() == 0
                    &&& forall|n: usize|
                        n < final(self).graph_view().names.len() ==> deps_connected(
                            final(self).graph_view(),
                            final(self).tables_view(),
                            n,
                        )
                    &&& forall|n: usize|
                        n < final(self).graph_view().names.len() ==> #[trigger] children(
                            final(self).graph_view(),
                            n,
                        ) == indices_of(final(self).graph_view(), final(self).tables_view()[n as int])
                },
            },
    {
        match &self.pending {
            Some(p) => {
                proof {
                    let t = self.stack@.last();
                    assert(children(self.graph@, t.0) == indices_of(
                        self.graph@,
                        self.tables_view()[t.0 as int].take(t.1 as int),
                    ));
                    assert(self.graph@.edges.subrange(0, self.graph@.edges.len() as int) =~= self.graph@.edges);
                }
                return ResolveStep::Fetch(p.clone());
            },
            None => {},
        }
        assert(self.graph@.edges.subrange(0, self.graph@.edges.len() as int) =~= self.graph@.edges);
        while self.stack.len() > 0
            invariant
                self.wf(),
                self.pending is None,
                old(self).pending is None,
                self.graph@.names == old(self).graph@.names,
                self.graph@.kinds == old(self).graph@.kinds,
                self.heads@ == old(self).heads@,
                self.tables@ == old(self).tables@,
                old(self).graph@.edges.len() <= self.graph@.edges.len(),
                self.graph@.edges.subrange(0, old(self).graph@.edges.len() as int) == old(self).graph@.edges,
            decreases remaining(self.stack@, self.tables_view()),
        {
            let ghost tables = self.tables_view();
            let ghost st = self.stack@;
            let ghost g = self.graph@;
            let top = self.stack.len() - 1;
            let (node, next) = self.stack[top];
            assert(tables[node as int] == names_of(self.tables@[node as int]@));
            if next >= self.tables[node].len() {
                self.stack.pop();
                assert(self.stack@ =~= st.drop_last());
                assert(deps_connected(g, tables, node)) by {
                    assert forall|j: int| 0 <= j < tables[node as int].len() implies connected(
                        g,
                        node,
                        #[trigger] tables[node as int][j],
                    ) by {
                        assert(0 <= j < st[top as int].1);
                    };
                };
                assert forall|n: usize| n < g.names.len() implies deps_connected(g, tables, n)
                    || exists|i: int| 0 <= i < self.stack@.len() && (#[trigger] self.stack@[i]).0
                    == n by {
                    if !deps_connected(g, tables, n) {
                        let i = choose|i: int| 0 <= i < st.len() && (#[trigger] st[i]).0 == n;
                        assert(i != top);
                        assert(self.stack@[i] == st[i]);
                    }
                };
                proof {
                    let s2 = self.stack@;
                    assert(st[top as int].1 == tables[node as int].len());
                    assert(tables[node as int].take(next as int) =~= tables[node as int]);
                    assert forall|n: usize| n < g.names.len() && !on_stack(s2, n) implies #[trigger] children(g, n)
                        == indices_of(g, tables[n as int]) by {
                        if on_stack(st, n) {
                            let i = choose|i: int| 0 <= i < st.len() && (#[trigger] st[i]).0 == n;
                            if i != top {
                                assert(s2[i] == st[i]);
                            }
                        }
                    };
                    assert forall|i: int, j: int|
                        0 <= i < s2.len() && 0 <= j < s2.len() && i != j implies (#[trigger] s2[i]).0 != (
                        #[trigger] s2[j]).0 by {
                        assert(s2[i] == st[i] && s2[j] == st[j]);
                    };
                    assert forall|i: int| 0 <= i < s2.len() implies children(g, (#[trigger] s2[i]).0)
                        == indices_of(g, tables[s2[i].0 as int].take(s2[i].1 as int)) by {
                        assert(s2[i] == st[i]);
                    };
                }
                continue ;
            }
            let dep = self.tables[node][next].clone();
            assert(dep@ == tables[node as int][next as int]);
            match self.graph.find(&dep) {
                Some(ci) => {
                    let sha = self.heads[ci].clone();
                    self.graph.connect_nodes(node, ci, sha);
                    self.stack.set(top, (node, next + 1));
                    let ghost g2 = self.graph@;
                    assert(g2.edges[g.edges.len() as int] == (node, ci, sha@));
                    assert(connected(g2, node, dep@));
                    assert forall|i: int, j: int|
                        0 <= i < self.stack@.len() && 0 <= j < self.stack@[i].1 implies connected(
                        g2,
                        self.stack@[i].0,
                        #[trigger] tables[self.stack@[i].0 as int][j],
                    ) by {
                        if i == top && j == next {
                        } else {
                            assert(0 <= j < st[i].1);
                            lemma_connected_edge_push(
                                g,
                                g2,
                                (node, ci, sha@),
                                st[i].0,
                                tables[st[i].0 as int][j],
                            );
                        }
                    };
                    assert forall|n: usize| n < g2.names.len() implies deps_connected(g2, tables, n)
                        || exists|i: int|
                        0 <= i < self.stack@.len() && (#[trigger] self.stack@[i]).0 == n by {
                        if deps_connected(g, tables, n) {
                            assert forall|j: int| 0 <= j < tables[n as int].len() implies connected(
                                g2,
                                n,
                                #[trigger] tables[n as int][j],
                            ) by {
                                lemma_connected_edge_push(g, g2, (node, ci, sha@), n, tables[n as int][j]);
                            };
                        } else {
                            let i = choose|i: int| 0 <= i < st.len() && (#[trigger] st[i]).0 == n;
                            assert(self.stack@[i].0 == n);
                        }
                    };
                    assert(edges_record_heads(g2, self.heads_view()));
                    proof {
                        let e = (node, ci, sha@);
                        let s2 = self.stack@;
                        assert(g2.edges == g.edges.push(e));
                        assert forall|x: usize| x != node implies children(g2, x) == children(g, x) by {
                            lemma_filter_map_push(g.edges, e, leaves(x), edge_child());
                        };
                        lemma_filter_map_push(g.edges, e, leaves(node), edge_child());
                        assert(children(g2, node) == children(g, node).push(ci));
                        assert forall|ds: Seq<Seq<char>>| #[trigger] indices_of(g2, ds) == indices_of(g, ds) by {
                            assert(indices_of(g2, ds) =~= indices_of(g, ds));
                        };
                        let t = tables[node as int];
                        assert(t.take(next + 1) =~= t.take(next as int).push(t[next as int]));
                        assert(indices_of(g, t.take(next + 1)) =~= indices_of(g, t.take(next as int)).push(
                            index_of(g, t[next as int]),
                        ));
                        assert(s2[top as int] == (node, (next + 1) as usize));
                        assert forall|i: int| 0 <= i < s2.len() implies children(g2, (#[trigger] s2[i]).0)
                            == indices_of(g2, tables[s2[i].0 as int].take(s2[i].1 as int)) by {
                            if i != top {
                                assert(s2[i] == st[i]);
                                assert(st[i].0 != st[top as int].0);
                            }
                        };
                        assert forall|n: usize| n < g2.names.len() && !on_stack(s2, n) implies #[trigger] children(g2, n)
                            == indices_of(g2, tables[n as int]) by {
                            if on_stack(st, n) {
                                let i = choose|i: int| 0 <= i < st.len() && (#[trigger] st[i]).0 == n;
                                if i == top {
                                    assert(s2[top as int].0 == n);
                                } else {
                                    assert(s2[i] == st[i]);
                                }
                            }
                            if n == node {
                                assert(s2[top as int].0 == n);
                            }
                        };
                        assert forall|i: int, j: int|
                            0 <= i < s2.len() && 0 <= j < s2.len() && i != j implies (#[trigger] s2[i]).0 != (
                            #[trigger] s2[j]).0 by {
                            assert(s2[i].0 == st[i].0 && s2[j].0 == st[j].0);
                        };
                    }
                    assert(g2.names[ci as int] == dep@);
                    assert(tables[node as int].contains(dep@)) by {
                        assert(tables[node as int][next as int] == dep@);
                    };
                    assert(edges_from_tables(g2, tables)) by {
                        assert forall|k: int| 0 <= k < g2.edges.len() implies tables[(#[trigger] g2.edges[k]).0 as int].contains(
                            g2.names[g2.edges[k].1 as int],
                        ) by {
                            if k < g.edges.len() {
                                assert(g2.edges[k] == g.edges[k]);
                            }
                        };
                    };
                    assert(self.stack@.drop_last() =~= st.drop_last());
                    assert(g2.edges.subrange(0, old(self).graph@.edges.len() as int) =~= g.edges.subrange(
                        0,
                        old(self).graph@.edges.len() as int,
                    ));
                },
                None => {
                    proof {
                        assert(children(g, node) == indices_of(g, tables[node as int].take(next as int)));
                    }
                    self.pending = Some(dep.clone());
                    return ResolveStep::Fetch(dep);
                },
            }
        }
        ResolveStep::Done
    }

    /// Records the awaited product: its working copy is checked out at `head`
    /// and its table requires `deps`. Its dependencies are walked next.
    pub fn supply(&mut self, head: String, deps: Vec<String>)
        requires
            old(self).wf(),
            old(self).pending_view() is Some,
        ensures
            final(self).wf(),
            final(self).graph_view().names == old(self).graph_view().names.push(
                old(self).pending_view().unwrap(),
            ),
            final(self).graph_view().edges == old(self).graph_view().edges,
            final(self).heads_view() == old(self).heads_view().push(head@),
            final(self).tables_view() == old(self).tables_view().push(names_of(deps@)),
            final(self).pending_view() is None,
    {
        let ghost g = self.graph@;
        let ghost tables = self.tables_view();
        let ghost st = self.stack@;
        let ghost old_heads = self.heads@;
        let ghost old_tables = self.tables@;
        let p = self.pending.take().unwrap();
        let idx = self.graph.len();
        self.graph.add_or_update_product(p, NodeKind::Required);
        self.heads.push(head);
        self.tables.push(deps);
        self.stack.push((idx, 0));
        let ghost g2 = self.graph@;
        let ghost tables2 = self.tables_view();
        assert(self.heads@ =~= old_heads.push(self.heads@[idx as int]));
        assert(names_of(self.heads@) =~= names_of(old_heads).push(head@));
        assert(tables2 =~= tables.push(names_of(deps@)));
        assert(forall|i: int| 0 <= i < g.names.len() ==> tables2[i] == tables[i]);
        assert(edges_from_tables(g2, tables2)) by {
            assert forall|k: int| 0 <= k < g2.edges.len() implies tables2[(#[trigger] g2.edges[k]).0 as int].contains(
                g2.names[g2.edges[k].1 as int],
            ) by {
                assert(g2.edges[k] == g.edges[k]);
                assert(g2.names[g.edges[k].1 as int] == g.names[g.edges[k].1 as int]);
            };
        };
        assert forall|i: int, j: int|
            0 <= i < self.stack@.len() && 0 <= j < self.stack@[i].1 implies connected(
            g2,
            self.stack@[i].0,
            #[trigger] tables2[self.stack@[i].0 as int][j],
        ) by {
            if i < st.len() {
                assert(self.stack@[i] == st[i]);
                lemma_connected_node_push(g, g2, g2.names[idx as int], st[i].0, tables[st[i].0 as int][j]);
            }
        };
        assert forall|n: usize| n < g2.names.len() implies deps_connected(g2, tables2, n)
            || exists|i: int| 0 <= i < self.stack@.len() && (#[trigger] self.stack@[i]).0 == n by {
            if n == idx {
                assert(self.stack@[st.len() as int].0 == n);
            } else if deps_connected(g, tables, n) {
                assert forall|j: int| 0 <= j < tables2[n as int].len() implies connected(
                    g2,
                    n,
                    #[trigger] tables2[n as int][j],
                ) by {
                    lemma_connected_node_push(g, g2, g2.names[idx as int], n, tables[n as int][j]);
                };
            } else {
                let i = choose|i: int| 0 <= i < st.len() && (#[trigger] st[i]).0 == n;
                assert(self.stack@[i].0 == n);
            }
        };
        assert(forall|i: int| 0 <= i < self.stack@.len() ==> (#[trigger] self.stack@[i]).0 < g2.names.len()
            && self.stack@[i].1 <= tables2[self.stack@[i].0 as int].len());
        proof {
            broadcast use vstd::seq_lib::group_filter_ensures;

            let s2 = self.stack@;
            let x = g2.names[idx as int];
            assert(g2.names == g.names.push(x));
            assert(g2.edges == g.edges);
            assert forall|ds: Seq<Seq<char>>|
                (forall|j: int| 0 <= j < ds.len() ==> has_name(g, #[trigger] ds[j])) implies #[trigger] indices_of(
                g2,
                ds,
            ) == indices_of(g, ds) by {
                assert forall|j: int| 0 <= j < ds.len() implies #[trigger] indices_of(g2, ds)[j] == indices_of(g, ds)[j] by {
                    lemma_index_stable(g, g2, x, ds[j]);
                };
                assert(indices_of(g2, ds) =~= indices_of(g, ds));
            };
            // the new node has no edges yet
            assert(children(g2, idx) =~= Seq::<usize>::empty()) by {
                let f = g.edges.filter(leaves(idx));
                if f.len() > 0 {
                    assert(f.contains(f[0]));
                    g.edges.lemma_filter_contains_rev(leaves(idx), f[0]);
                    let k = choose|k: int| 0 <= k < g.edges.len() && g.edges[k] == f[0];
                    assert(g.edges[k].0 < g.names.len());
                }
            };
            assert(tables2[idx as int].take(0) =~= Seq::<Seq<char>>::empty());
            assert(indices_of(g2, tables2[idx as int].take(0)) =~= Seq::<usize>::empty());
            assert forall|i: int| 0 <= i < s2.len() implies children(g2, (#[trigger] s2[i]).0)
                == indices_of(g2, tables2[s2[i].0 as int].take(s2[i].1 as int)) by {
                if i < st.len() {
                    assert(s2[i] == st[i]);
                    let t = tables[st[i].0 as int].take(st[i].1 as int);
                    assert forall|j: int| 0 <= j < t.len() implies has_name(g, #[trigger] t[j]) by {
                        assert(connected(g, st[i].0, tables[st[i].0 as int][j]));
                    };
                    assert(indices_of(g2, t) == indices_of(g, t));
                }
            };
            assert forall|n: usize| n < g2.names.len() && !on_stack(s2, n) implies #[trigger] children(g2, n)
                == indices_of(g2, tables2[n as int]) by {
                if n == idx {
                    assert(s2[st.len() as int].0 == n);
                }
                if on_stack(st, n) {
                    let i = choose|i: int| 0 <= i < st.len() && (#[trigger] st[i]).0 == n;
                    assert(s2[i] == st[i]);
                }
                assert(!on_stack(st, n));
                assert(n < g.names.len());
                assert(deps_connected(g, tables, n));
                assert(children(g, n) == indices_of(g, tables[n as int]));
                assert(children(g2, n) == children(g, n));
                assert(tables2[n as int] == tables[n as int]);
                let t = tables[n as int];
                assert forall|j: int| 0 <= j < t.len() implies has_name(g, #[trigger] t[j]) by {
                    assert(connected(g, n, t[j]));
                };
                assert(indices_of(g2, t) == indices_of(g, t));
            };
            assert forall|i: int, j: int|
                0 <= i < s2.len() && 0 <= j < s2.len() && i != j implies (#[trigger] s2[i]).0 != (
                #[trigger] s2[j]).0 by {
                if i < st.len() && j < st.len() {
                    assert(s2[i] == st[i] && s2[j] == st[j]);
                } else if i < st.len() {
                    assert(s2[i] == st[i]);
                } else if j < st.len() {
                    assert(s2[j] == st[j]);
                }
            };
        }
    }

    /// The graph built so far.
    pub fn graph(&self) -> (r: &DepGraph)
        requires
            self.wf(),
        ensures
            r@ == self.graph_view(),
            r.wf(),
    {
        &self.graph
    }

    /// The head SHA of each node's working copy, by node index.
    pub fn heads(&self) -> (r: &Vec<String>)
        requires
            self.wf(),
        ensures
            names_of(r@) == self.heads_view(),
            r@.len() == self.graph_view().names.len(),
    {
        &self.heads
    }

    /// Ends the resolution, handing over the graph and the head SHAs.
    pub fn finish(self) -> (r: (DepGraph, Vec<String>))
        requires
            self.wf(),
        ensures
            r.0@ == self.graph_view(),
            r.0.wf(),
            names_of(r.1@) == self.heads_view(),
            r.1@.len() == r.0@.names.len(),
    {
        (self.graph, self.heads)
    }

    /// The product whose table is awaited, if any.
    pub fn awaiting(&self) -> (r: Option<&String>)
        ensures
            match r {
                Some(p) => self.pending_view() == Some(p@),
                None => self.pending_view() is None,
            },
    {
        match &self.pending {
            Some(p) => Some(p),
            None => None,
        }
    }
}

} // verus!
