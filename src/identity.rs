//! Content identity of a product: the SHA-1 of the per-node SHAs of its
//! dependency closure, in post-order.

use vstd::prelude::*;
use vstd::string::*;
use crate::graph::{
    DepGraph, GraphError, GraphView, children, edge_child, edge_sha, enters, graph_wf, has_name,
    incoming_shas, index_of, leaves, lemma_children_in_range, lemma_filter_map_push, lemma_index_of,
    lemma_post_order_in_range, post_order,
};
use crate::walk::{
    lemma_post_order_of_leaf, lemma_unmarked_none, lemma_unmarked_update, lemma_visit_children_extra,
    lemma_visit_children_same,
};
use crate::source::names_of;

verus! {

/// The lowercase hex SHA-1 digest of the UTF-8 bytes of `text`.
pub uninterp spec fn sha1_hex_of(text: Seq<char>) -> Seq<char>;

/// A lowercase hexadecimal digit.
pub open spec fn is_lower_hex(c: char) -> bool {
    ('0' <= c && c <= '9') || ('a' <= c && c <= 'f')
}

/// Relies on rust-crypto's `Sha1` digest: `input_str` feeds the UTF-8 bytes
/// of the text, and `result_str` returns the 160-bit digest as forty
/// lowercase hex digits (rustc-serialize's `to_hex`).
#[verifier::external_body]
fn sha1_hex(text: &str) -> (r: String)
    ensures
        r@ == sha1_hex_of(text@),
        r@.len() == 40,
        forall|i: int| 0 <= i < r@.len() ==> is_lower_hex(#[trigger] r@[i]),
{
    let mut hasher = crypto::sha1::Sha1::new();
    crypto::digest::Digest::input_str(&mut hasher, text);
    crypto::digest::Digest::result_str(&mut hasher)
}

/// The SHA that stands for node `n`: the first of its version set, or its
/// working copy's head when no edge enters it.
pub open spec fn node_sha(g: GraphView, heads: Seq<Seq<char>>, n: usize) -> Seq<char> {
    let vs = incoming_shas(g, n);
    if vs.len() > 0 {
        vs[0]
    } else {
        heads[n as int]
    }
}

/// The concatenation of the SHAs standing for the nodes of `order`.
pub open spec fn concat_shas(g: GraphView, heads: Seq<Seq<char>>, order: Seq<usize>) -> Seq<char>
    decreases order.len(),
{
    if order.len() == 0 {
        Seq::empty()
    } else {
        concat_shas(g, heads, order.drop_last()) + node_sha(g, heads, order.last())
    }
}

/// The text whose digest is the identity of the node `root`.
pub open spec fn identity_text(g: GraphView, heads: Seq<Seq<char>>, root: usize) -> Seq<char> {
    concat_shas(g, heads, post_order(g, root))
}

/// The identity of node `root`.
pub open spec fn identity_of(g: GraphView, heads: Seq<Seq<char>>, root: usize) -> Seq<char> {
    sha1_hex_of(identity_text(g, heads, root))
}

/// A product whose table requires nothing and that no edge enters is
/// identified by the digest of its head SHA alone.
pub proof fn lemma_leaf_identity(g: GraphView, heads: Seq<Seq<char>>, n: usize)
    requires
        graph_wf(g),
        n < g.names.len(),
        children(g, n).len() == 0,
        incoming_shas(g, n).len() == 0,
    ensures
        identity_of(g, heads, n) == sha1_hex_of(heads[n as int]),
{
    lemma_post_order_of_leaf(g, n);
    let order = post_order(g, n);
    assert(order.drop_last() =~= Seq::<usize>::empty());
    assert(concat_shas(g, heads, order.drop_last()) == Seq::<char>::empty());
    assert(identity_text(g, heads, n) =~= heads[n as int]);
}

/// The graph `g` with one more edge.
pub open spec fn with_edge(g: GraphView, e: (usize, usize, Seq<char>)) -> GraphView {
    GraphView { names: g.names, kinds: g.kinds, edges: g.edges.push(e) }
}

/// Concatenations agree in two graphs where every node has the same SHA.
pub proof fn lemma_concat_same(g: GraphView, g2: GraphView, heads: Seq<Seq<char>>, order: Seq<usize>)
    requires
        forall|x: usize| node_sha(g2, heads, x) == node_sha(g, heads, x),
    ensures
        concat_shas(g2, heads, order) == concat_shas(g, heads, order),
    decreases order.len(),
{
    if order.len() > 0 {
        lemma_concat_same(g, g2, heads, order.drop_last());
    }
}

/// Recording a second edge from `p` to `c`, whose SHA is the first one
/// recorded for `c`, leaves the identity of `p` unchanged.
pub proof fn lemma_duplicate_edge_identity(g: GraphView, heads: Seq<Seq<char>>, k: int, sha: Seq<char>)
    requires
        graph_wf(g),
        0 <= k < g.edges.len(),
        sha == incoming_shas(g, g.edges[k].1)[0],
    ensures
        identity_of(with_edge(g, (g.edges[k].0, g.edges[k].1, sha)), heads, g.edges[k].0)
            == identity_of(g, heads, g.edges[k].0),
{
    let p = g.edges[k].0;
    let c = g.edges[k].1;
    let e = (p, c, sha);
    let g2 = with_edge(g, e);
    let n = g.names.len();
    assert(graph_wf(g2)) by {
        assert forall|j: int| 0 <= j < g2.edges.len() implies (#[trigger] g2.edges[j]).0 < g2.names.len()
            && g2.edges[j].1 < g2.names.len() by {
            if j < g.edges.len() {
                assert(g2.edges[j] == g.edges[j]);
            }
        };
    };
    // every node but `p` keeps its children; `p` gains `c` at the end
    assert forall|x: usize| x != p implies children(g2, x) == children(g, x) by {
        lemma_filter_map_push(g.edges, e, leaves(x), edge_child());
    };
    lemma_filter_map_push(g.edges, e, leaves(p), edge_child());
    assert(children(g2, p) == children(g, p).push(c));
    // `c` was already a child of `p`, and already had a recorded version
    broadcast use vstd::seq_lib::group_filter_ensures;

    assert(leaves(p)(g.edges[k]));
    assert(g.edges.filter(leaves(p)).contains(g.edges[k]));
    let i = choose|i: int| 0 <= i < g.edges.filter(leaves(p)).len() && g.edges.filter(leaves(p))[i] == g.edges[k];
    assert(children(g, p)[i] == c);
    assert(enters(c)(g.edges[k]));
    assert(g.edges.filter(enters(c)).contains(g.edges[k]));
    assert(incoming_shas(g, c).len() > 0);
    // so every node keeps the SHA that stands for it
    assert forall|x: usize| node_sha(g2, heads, x) == node_sha(g, heads, x) by {
        lemma_filter_map_push(g.edges, e, enters(x), edge_sha());
        if x == c {
            assert(incoming_shas(g2, x) == incoming_shas(g, x).push(sha));
            assert(incoming_shas(g2, x)[0] == incoming_shas(g, x)[0]);
        }
    };
    // and the walk from `p` is the same
    let none = Seq::new(n, |j: int| false);
    let seen1 = none.update(p as int, true);
    let cs = children(g, p);
    lemma_unmarked_none(n);
    lemma_unmarked_update(none, p as int);
    lemma_children_in_range(g, p);
    assert forall|j: int| 0 <= j < cs.push(c).len() implies #[trigger] cs.push(c)[j] < n by {
        if j < cs.len() {
            assert(cs.push(c)[j] == cs[j]);
        }
    };
    lemma_visit_children_same(g, g2, p, cs.push(c), 0, seen1, (n - 1) as nat);
    lemma_visit_children_extra(g, cs, c, 0, seen1, (n - 1) as nat);
    assert(post_order(g2, p) == post_order(g, p));
    lemma_concat_same(g, g2, heads, post_order(g, p));
}

/// The text whose digest is the identity of `product`: the SHAs standing for
/// the nodes of its post-order walk, concatenated. `heads` holds the head SHA
/// of each node's working copy, by node index.
pub fn identity_input(graph: &DepGraph, heads: &Vec<String>, product: &str) -> (r: Result<
    String,
    GraphError,
>)
    requires
        graph.wf(),
        heads@.len() == graph@.names.len(),
    ensures
        r is Ok <==> has_name(graph@, product@),
        r matches Ok(t) ==> t@ == identity_text(graph@, names_of(heads@), index_of(graph@, product@)),
        r matches Err(GraphError::UnknownNode(n)) ==> n@ == product@,
{
    let order = graph.dfs_post_order(product)?;
    let ghost root = index_of(graph@, product@);
    proof {
        lemma_post_order_in_range(graph@, root);
    }
    let ghost hs = names_of(heads@);
    let mut text = String::new();
    let n = order.len();
    let mut i: usize = 0;
    while i < n
        invariant
            graph.wf(),
            heads@.len() == graph@.names.len(),
            hs == names_of(heads@),
            n == order@.len(),
            i <= n,
            forall|k: int| 0 <= k < n ==> order@[k] < graph@.names.len(),
            text@ == concat_shas(graph@, hs, order@.subrange(0, i as int)),
        decreases n - i,
    {
        let node = order[i];
        let name = graph.get_name(node);
        proof {
            lemma_index_of(graph@, node);
        }
        let vs = graph.product_versions(name.as_str());
        assert(names_of(vs@) == incoming_shas(graph@, node));
        assert(order@.subrange(0, i + 1).drop_last() =~= order@.subrange(0, i as int));
        if vs.len() > 0 {
            assert(names_of(vs@)[0] == vs@[0]@);
            text.append(vs[0].as_str());
        } else {
            assert(hs[node as int] == heads@[node as int]@);
            text.append(heads[node].as_str());
        }
        i = i + 1;
    }
    assert(order@.subrange(0, n as int) =~= order@);
    Ok(text)
}

/// The identity of `product`: the SHA-1 hex digest of its identity text.
pub fn make_product_id(graph: &DepGraph, heads: &Vec<String>, product: &str) -> (r: Result<
    String,
    GraphError,
>)
    requires
        graph.wf(),
        heads@.len() == graph@.names.len(),
    ensures
        r is Ok <==> has_name(graph@, product@),
        r matches Ok(id) ==> id@ == identity_of(graph@, names_of(heads@), index_of(graph@, product@))
            && id@.len() == 40 && forall|i: int| 0 <= i < id@.len() ==> is_lower_hex(#[trigger] id@[i]),
        r matches Err(GraphError::UnknownNode(n)) ==> n@ == product@,
{
    let text = identity_input(graph, heads, product)?;
    Ok(sha1_hex(text.as_str()))
}

} // verus!
