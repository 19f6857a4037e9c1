//! Laws of the post-order walk: it emits each node once, ends with its
//! root, is closed under children, puts children first when the graph has no
//! cycle, and is never cut short by its depth bound.

use vstd::prelude::*;
use crate::graph::{
    GraphView, children, graph_wf, leaves, lemma_children_in_range, lemma_visit_children_in_range,
    lemma_post_order_in_range, lemma_visit_in_range, post_order, visit, visit_children,
};

verus! {

/// A visit of an unmarked node marks exactly the nodes it emits, emits each
/// once, and emits only nodes that were unmarked.
pub proof fn lemma_visit_marks(g: GraphView, n: usize, seen: Seq<bool>, depth: nat)
    requires
        graph_wf(g),
        seen.len() == g.names.len(),
        n < g.names.len(),
        !seen[n as int],
    ensures
        visit(g, n, seen, depth).0.len() == seen.len(),
        forall|k: usize|
            k < seen.len() ==> (#[trigger] visit(g, n, seen, depth).0[k as int] == (seen[k as int]
                || visit(g, n, seen, depth).1.contains(k))),
        visit(g, n, seen, depth).1.no_duplicates(),
        forall|i: int|
            0 <= i < visit(g, n, seen, depth).1.len() ==> !seen[#[trigger] visit(
                g,
                n,
                seen,
                depth,
            ).1[i] as int],
    decreases depth, 0int,
{
    if depth > 0 {
        let seen1 = seen.update(n as int, true);
        let cs = children(g, n);
        lemma_children_in_range(g, n);
        lemma_visit_children_marks(g, cs, 0, seen1, (depth - 1) as nat);
        let rc = visit_children(g, cs, 0, seen1, (depth - 1) as nat);
        let out = visit(g, n, seen, depth).1;
        assert(out == rc.1.push(n));
        assert(!rc.1.contains(n)) by {
            if rc.1.contains(n) {
                let i = choose|i: int| 0 <= i < rc.1.len() && rc.1[i] == n;
                assert(!seen1[rc.1[i] as int]);
            }
        };
        assert forall|a: int, b: int| 0 <= a < out.len() && 0 <= b < out.len() && a != b implies out[a]
            != out[b] by {
            if a < rc.1.len() && b < rc.1.len() {
            } else if a < rc.1.len() {
                assert(rc.1.contains(out[a]));
            } else if b < rc.1.len() {
                assert(rc.1.contains(out[b]));
            }
        };
        assert forall|k: usize| k < seen.len() implies #[trigger] visit(g, n, seen, depth).0[k as int] == (
        seen[k as int] || out.contains(k)) by {
            if out.contains(k) && k != n {
                let i = choose|i: int| 0 <= i < out.len() && out[i] == k;
                assert(rc.1[i] == k);
            }
            if rc.1.contains(k) {
                let i = choose|i: int| 0 <= i < rc.1.len() && rc.1[i] == k;
                assert(out[i] == k);
            }
            if k == n {
                assert(out[out.len() - 1] == n);
            }
        };
        lemma_visit_children_in_range(g, cs, 0, seen1, (depth - 1) as nat);
        assert forall|i: int| 0 <= i < out.len() implies !seen[#[trigger] out[i] as int] by {
            if i < rc.1.len() {
                assert(out[i] == rc.1[i]);
                assert(rc.1[i] < g.names.len());
                assert(!seen1[rc.1[i] as int]);
            } else {
                assert(out[i] == n);
            }
        };
    }
}

/// Visiting a list of nodes marks exactly the nodes it emits, emits each
/// once, and emits only nodes that were unmarked.
pub proof fn lemma_visit_children_marks(
    g: GraphView,
    cs: Seq<usize>,
    k: nat,
    seen: Seq<bool>,
    depth: nat,
)
    requires
        graph_wf(g),
        seen.len() == g.names.len(),
        forall|j: int| 0 <= j < cs.len() ==> #[trigger] cs[j] < g.names.len(),
    ensures
        visit_children(g, cs, k, seen, depth).0.len() == seen.len(),
        forall|x: usize|
            x < seen.len() ==> (#[trigger] visit_children(g, cs, k, seen, depth).0[x as int] == (
            seen[x as int] || visit_children(g, cs, k, seen, depth).1.contains(x))),
        visit_children(g, cs, k, seen, depth).1.no_duplicates(),
        forall|i: int|
            0 <= i < visit_children(g, cs, k, seen, depth).1.len() ==> !seen[#[trigger] visit_children(
                g,
                cs,
                k,
                seen,
                depth,
            ).1[i] as int],
    decreases depth, cs.len() - k,
{
    if k < cs.len() {
        let c = cs[k as int];
        let first = if seen[c as int] {
            (seen, Seq::<usize>::empty())
        } else {
            visit(g, c, seen, depth)
        };
        if !seen[c as int] {
            lemma_visit_marks(g, c, seen, depth);
        }
        assert(first.0.len() == seen.len());
        lemma_visit_children_marks(g, cs, k + 1, first.0, depth);
        let rest = visit_children(g, cs, k + 1, first.0, depth);
        let out = visit_children(g, cs, k, seen, depth).1;
        assert(out == first.1 + rest.1);
        assert forall|i: int| 0 <= i < rest.1.len() implies !first.1.contains(#[trigger] rest.1[i]) by {
            let x = rest.1[i];
            assert(!first.0[x as int]);
            if first.1.contains(x) {
                assert(x < seen.len()) by {
                    let j = choose|j: int| 0 <= j < first.1.len() && first.1[j] == x;
                    if !seen[c as int] {
                        lemma_visit_in_range(g, c, seen, depth);
                        assert(first.1[j] < g.names.len());
                    }
                };
                assert(first.0[x as int]);
            }
        };
        assert forall|a: int, b: int| 0 <= a < out.len() && 0 <= b < out.len() && a != b implies out[a]
            != out[b] by {
            let fl = first.1.len() as int;
            if a < fl && b < fl {
                assert(out[a] == first.1[a] && out[b] == first.1[b]);
            } else if a >= fl && b >= fl {
                assert(out[a] == rest.1[a - fl] && out[b] == rest.1[b - fl]);
            } else if a < fl {
                assert(out[b] == rest.1[b - fl]);
                assert(first.1.contains(out[a]));
            } else {
                assert(out[a] == rest.1[a - fl]);
                assert(first.1.contains(out[b]));
            }
        };
        assert forall|x: usize| x < seen.len() implies #[trigger] visit_children(g, cs, k, seen, depth).0[x as int] == (
        seen[x as int] || out.contains(x)) by {
            let fl = first.1.len() as int;
            if first.1.contains(x) {
                let j = choose|j: int| 0 <= j < first.1.len() && first.1[j] == x;
                assert(out[j] == x);
            }
            if rest.1.contains(x) {
                let j = choose|j: int| 0 <= j < rest.1.len() && rest.1[j] == x;
                assert(out[fl + j] == x);
            }
            if out.contains(x) {
                let j = choose|j: int| 0 <= j < out.len() && out[j] == x;
                if j < fl {
                    assert(first.1[j] == x);
                } else {
                    assert(rest.1[j - fl] == x);
                }
            }
        };
        assert forall|i: int| 0 <= i < out.len() implies !seen[#[trigger] out[i] as int] by {
            let fl = first.1.len() as int;
            if i < fl {
                assert(out[i] == first.1[i]);
            } else {
                assert(out[i] == rest.1[i - fl]);
                let x = rest.1[i - fl];
                assert(!first.0[x as int]);
                if x < seen.len() {
                    assert(!seen[x as int]);
                } else {
                    lemma_visit_children_in_range(g, cs, k + 1, first.0, depth);
                }
            }
        };
    }
}

/// The post-order walk emits each node at most once.
pub proof fn lemma_post_order_distinct(g: GraphView, root: usize)
    requires
        graph_wf(g),
        root < g.names.len(),
    ensures
        post_order(g, root).no_duplicates(),
{
    lemma_visit_marks(g, root, Seq::new(g.names.len(), |i: int| false), g.names.len());
}

/// The number of unmarked nodes.
pub open spec fn unmarked(seen: Seq<bool>) -> nat
    decreases seen.len(),
{
    if seen.len() == 0 {
        0
    } else {
        unmarked(seen.drop_last()) + if seen.last() {
            0nat
        } else {
            1nat
        }
    }
}

/// Marking an unmarked node leaves one fewer unmarked.
pub proof fn lemma_unmarked_update(seen: Seq<bool>, n: int)
    requires
        0 <= n < seen.len(),
        !seen[n],
    ensures
        unmarked(seen) >= 1,
        unmarked(seen.update(n, true)) == unmarked(seen) - 1,
    decreases seen.len(),
{
    let s2 = seen.update(n, true);
    if n == seen.len() - 1 {
        assert(s2.drop_last() =~= seen.drop_last());
    } else {
        assert(s2.drop_last() =~= seen.drop_last().update(n, true));
        lemma_unmarked_update(seen.drop_last(), n);
    }
}

/// Marking more nodes never leaves more unmarked.
pub proof fn lemma_unmarked_mono(s1: Seq<bool>, s2: Seq<bool>)
    requires
        s1.len() == s2.len(),
        forall|k: int| 0 <= k < s1.len() && s1[k] ==> s2[k],
    ensures
        unmarked(s2) <= unmarked(s1),
    decreases s1.len(),
{
    if s1.len() > 0 {
        lemma_unmarked_mono(s1.drop_last(), s2.drop_last());
    }
}

/// With nothing marked, every node is unmarked.
pub proof fn lemma_unmarked_none(n: nat)
    ensures
        unmarked(Seq::new(n, |i: int| false)) == n,
    decreases n,
{
    if n > 0 {
        assert(Seq::new(n, |i: int| false).drop_last() =~= Seq::new((n - 1) as nat, |i: int| false));
        lemma_unmarked_none((n - 1) as nat);
    }
}

/// A visit allowed to nest at least as deep as there are unmarked nodes is
/// never cut short: any two such bounds give the same walk.
pub proof fn lemma_visit_depth(g: GraphView, n: usize, seen: Seq<bool>, d1: nat, d2: nat)
    requires
        graph_wf(g),
        seen.len() == g.names.len(),
        n < g.names.len(),
        !seen[n as int],
        d1 >= unmarked(seen),
        d2 >= unmarked(seen),
    ensures
        visit(g, n, seen, d1) == visit(g, n, seen, d2),
    decreases unmarked(seen), 0int,
{
    lemma_unmarked_update(seen, n as int);
    let seen1 = seen.update(n as int, true);
    lemma_children_in_range(g, n);
    lemma_visit_children_depth(g, children(g, n), 0, seen1, (d1 - 1) as nat, (d2 - 1) as nat);
}

/// The counterpart of `lemma_visit_depth` for a list of nodes.
pub proof fn lemma_visit_children_depth(
    g: GraphView,
    cs: Seq<usize>,
    k: nat,
    seen: Seq<bool>,
    d1: nat,
    d2: nat,
)
    requires
        graph_wf(g),
        seen.len() == g.names.len(),
        forall|j: int| 0 <= j < cs.len() ==> #[trigger] cs[j] < g.names.len(),
        d1 >= unmarked(seen),
        d2 >= unmarked(seen),
    ensures
        visit_children(g, cs, k, seen, d1) == visit_children(g, cs, k, seen, d2),
    decreases unmarked(seen), cs.len() - k,
{
    if k < cs.len() {
        let c = cs[k as int];
        if !seen[c as int] {
            lemma_visit_depth(g, c, seen, d1, d2);
            lemma_visit_marks(g, c, seen, d1);
            let s1 = visit(g, c, seen, d1).0;
            assert forall|x: int| 0 <= x < seen.len() && seen[x] implies s1[x] by {
                assert(s1[(x as usize) as int] == (seen[(x as usize) as int] || visit(g, c, seen, d1).1.contains(x as usize)));
            };
            lemma_unmarked_mono(seen, s1);
            lemma_visit_children_depth(g, cs, k + 1, s1, d1, d2);
        } else {
            lemma_visit_children_depth(g, cs, k + 1, seen, d1, d2);
        }
    }
}

/// The post-order walk is the same for every depth bound of at least the
/// number of nodes: the bound never cuts it short.
pub proof fn lemma_post_order_depth(g: GraphView, root: usize, d: nat)
    requires
        graph_wf(g),
        root < g.names.len(),
        d >= g.names.len(),
    ensures
        visit(g, root, Seq::new(g.names.len(), |i: int| false), d).1 == post_order(g, root),
{
    lemma_unmarked_none(g.names.len());
    lemma_visit_depth(g, root, Seq::new(g.names.len(), |i: int| false), d, g.names.len());
}

/// After a visit with enough depth, the children of every emitted node are marked.
pub proof fn lemma_visit_closed(g: GraphView, n: usize, seen: Seq<bool>, depth: nat)
    requires
        graph_wf(g),
        seen.len() == g.names.len(),
        n < g.names.len(),
        !seen[n as int],
        depth >= unmarked(seen),
    ensures
        forall|i: int, j: int|
            0 <= i < visit(g, n, seen, depth).1.len() && 0 <= j < children(
                g,
                visit(g, n, seen, depth).1[i],
            ).len() ==> visit(g, n, seen, depth).0[#[trigger] children(
                g,
                #[trigger] visit(g, n, seen, depth).1[i],
            )[j] as int],
    decreases unmarked(seen), 0int,
{
    lemma_unmarked_update(seen, n as int);
    let seen1 = seen.update(n as int, true);
    let cs = children(g, n);
    lemma_children_in_range(g, n);
    let d1 = (depth - 1) as nat;
    lemma_visit_children_closed(g, cs, 0, seen1, d1);
    let rc = visit_children(g, cs, 0, seen1, d1);
    let r = visit(g, n, seen, depth);
    assert(r.1 == rc.1.push(n));
    assert forall|i: int, j: int|
        0 <= i < r.1.len() && 0 <= j < children(g, r.1[i]).len() implies r.0[#[trigger] children(
        g,
        #[trigger] r.1[i],
    )[j] as int] by {
        if i < rc.1.len() {
            assert(r.1[i] == rc.1[i]);
        } else {
            assert(r.1[i] == n);
            assert(0 <= j < cs.len());
        }
    };
}

/// After visiting a list of nodes with enough depth, the listed nodes from
/// `k` on and the children of every emitted node are marked.
pub proof fn lemma_visit_children_closed(g: GraphView, cs: Seq<usize>, k: nat, seen: Seq<bool>, depth: nat)
    requires
        graph_wf(g),
        seen.len() == g.names.len(),
        forall|j: int| 0 <= j < cs.len() ==> #[trigger] cs[j] < g.names.len(),
        depth >= unmarked(seen),
    ensures
        forall|j: int| k <= j < cs.len() ==> visit_children(g, cs, k, seen, depth).0[#[trigger] cs[j] as int],
        forall|i: int, j: int|
            0 <= i < visit_children(g, cs, k, seen, depth).1.len() && 0 <= j < children(
                g,
                visit_children(g, cs, k, seen, depth).1[i],
            ).len() ==> visit_children(g, cs, k, seen, depth).0[#[trigger] children(
                g,
                #[trigger] visit_children(g, cs, k, seen, depth).1[i],
            )[j] as int],
    decreases unmarked(seen), cs.len() - k,
{
    if k < cs.len() {
        let c = cs[k as int];
        let first = if seen[c as int] {
            (seen, Seq::<usize>::empty())
        } else {
            visit(g, c, seen, depth)
        };
        if !seen[c as int] {
            lemma_visit_closed(g, c, seen, depth);
            lemma_visit_marks(g, c, seen, depth);
            lemma_unmarked_update(seen, c as int);
            assert(first.1.last() == c);
            assert(first.0[(c as usize) as int] == (seen[c as int] || first.1.contains(c)));
            assert(first.1.contains(c));
        }
        assert(first.0[c as int]);
        assert forall|x: int| 0 <= x < seen.len() && seen[x] implies first.0[x] by {
            if !seen[c as int] {
                assert(first.0[(x as usize) as int] == (seen[(x as usize) as int] || first.1.contains(x as usize)));
            }
        };
        assert(first.0.len() == seen.len()) by {
            if !seen[c as int] {
                lemma_visit_marks(g, c, seen, depth);
            }
        };
        lemma_unmarked_mono(seen, first.0);
        lemma_visit_children_closed(g, cs, k + 1, first.0, depth);
        lemma_visit_children_marks(g, cs, k + 1, first.0, depth);
        let rest = visit_children(g, cs, k + 1, first.0, depth);
        let r = visit_children(g, cs, k, seen, depth);
        assert(r.1 == first.1 + rest.1);
        assert(r.0 == rest.0);
        assert forall|x: usize| x < seen.len() && first.0[x as int] implies rest.0[x as int] by {
            assert(rest.0[x as int] == (first.0[x as int] || rest.1.contains(x)));
        };
        assert(rest.0[c as int]);
        assert forall|j: int| k <= j < cs.len() implies r.0[#[trigger] cs[j] as int] by {
            if j == k {
            }
        };
        assert forall|i: int, j: int|
            0 <= i < r.1.len() && 0 <= j < children(g, r.1[i]).len() implies r.0[#[trigger] children(
            g,
            #[trigger] r.1[i],
        )[j] as int] by {
            let fl = first.1.len() as int;
            if i < fl {
                assert(r.1[i] == first.1[i]);
                let x = first.1[i];
                lemma_visit_in_range(g, c, seen, depth);
                lemma_children_in_range(g, x);
                let y = children(g, x)[j];
                assert(first.0[y as int]);
            } else {
                assert(r.1[i] == rest.1[i - fl]);
            }
        };
    }
}

/// The post-order walk is closed under children: every child of a node it
/// emits is emitted too.
pub proof fn lemma_post_order_closed(g: GraphView, root: usize)
    requires
        graph_wf(g),
        root < g.names.len(),
    ensures
        forall|i: int, j: int|
            0 <= i < post_order(g, root).len() && 0 <= j < children(g, post_order(g, root)[i]).len()
                ==> post_order(g, root).contains(
                #[trigger] children(g, #[trigger] post_order(g, root)[i])[j],
            ),
{
    let none = Seq::new(g.names.len(), |i: int| false);
    lemma_unmarked_none(g.names.len());
    lemma_visit_closed(g, root, none, g.names.len());
    lemma_visit_marks(g, root, none, g.names.len());
    lemma_post_order_in_range(g, root);
    let r = visit(g, root, none, g.names.len());
    assert forall|i: int, j: int|
        0 <= i < r.1.len() && 0 <= j < children(g, r.1[i]).len() implies r.1.contains(
        #[trigger] children(g, #[trigger] r.1[i])[j],
    ) by {
        lemma_children_in_range(g, r.1[i]);
        let y = children(g, r.1[i])[j];
        assert(r.0[y as int]);
        assert(r.0[(y as usize) as int] == (none[y as int] || r.1.contains(y)));
    };
}

/// Visits agree in two graphs whose children differ only at a marked node.
pub proof fn lemma_visit_same(g: GraphView, g2: GraphView, p: usize, n: usize, seen: Seq<bool>, d: nat)
    requires
        graph_wf(g),
        g2.names == g.names,
        seen.len() == g.names.len(),
        p < seen.len(),
        seen[p as int],
        n != p,
        n < g.names.len(),
        forall|x: usize| x != p ==> children(g2, x) == children(g, x),
    ensures
        visit(g2, n, seen, d) == visit(g, n, seen, d),
    decreases d, 0int,
{
    if d > 0 {
        lemma_children_in_range(g, n);
        lemma_visit_children_same(g, g2, p, children(g, n), 0, seen.update(n as int, true), (d - 1) as nat);
    }
}

/// The counterpart of `lemma_visit_same` for a list of nodes.
pub proof fn lemma_visit_children_same(
    g: GraphView,
    g2: GraphView,
    p: usize,
    cs: Seq<usize>,
    k: nat,
    seen: Seq<bool>,
    d: nat,
)
    requires
        graph_wf(g),
        g2.names == g.names,
        seen.len() == g.names.len(),
        p < seen.len(),
        seen[p as int],
        forall|j: int| 0 <= j < cs.len() ==> #[trigger] cs[j] < g.names.len(),
        forall|x: usize| x != p ==> children(g2, x) == children(g, x),
    ensures
        visit_children(g2, cs, k, seen, d) == visit_children(g, cs, k, seen, d),
    decreases d, cs.len() - k,
{
    if k < cs.len() {
        let c = cs[k as int];
        if !seen[c as int] {
            lemma_visit_same(g, g2, p, c, seen, d);
            lemma_visit_marks(g, c, seen, d);
            let s1 = visit(g, c, seen, d).0;
            assert(s1[(p as usize) as int] == (seen[(p as usize) as int] || visit(g, c, seen, d).1.contains(p)));
            lemma_visit_children_same(g, g2, p, cs, k + 1, s1, d);
        } else {
            lemma_visit_children_same(g, g2, p, cs, k + 1, seen, d);
        }
    }
}

/// Appending to a list of nodes a node that visiting the list marks anyway
/// changes nothing.
pub proof fn lemma_visit_children_extra(g: GraphView, cs: Seq<usize>, c: usize, k: nat, seen: Seq<bool>, d: nat)
    requires
        graph_wf(g),
        seen.len() == g.names.len(),
        forall|j: int| 0 <= j < cs.len() ==> #[trigger] cs[j] < g.names.len(),
        c < g.names.len(),
        k <= cs.len(),
        d >= unmarked(seen),
        seen[c as int] || exists|j: int| k <= j < cs.len() && cs[j] == c,
    ensures
        visit_children(g, cs.push(c), k, seen, d) == visit_children(g, cs, k, seen, d),
    decreases cs.len() - k,
{
    let cs2 = cs.push(c);
    if k == cs.len() {
        assert(seen[c as int]);
        assert(cs2[k as int] == c);
        assert(visit_children(g, cs2, k + 1, seen, d) == (seen, Seq::<usize>::empty()));
        assert(Seq::<usize>::empty() + Seq::<usize>::empty() =~= Seq::<usize>::empty());
    } else {
        let x = cs[k as int];
        assert(cs2[k as int] == x);
        let first = if seen[x as int] {
            (seen, Seq::<usize>::empty())
        } else {
            visit(g, x, seen, d)
        };
        if !seen[x as int] {
            lemma_visit_marks(g, x, seen, d);
            lemma_unmarked_update(seen, x as int);
            assert(first.1.last() == x);
            assert(first.0[(x as usize) as int] == (seen[x as int] || first.1.contains(x)));
            assert(first.0[(c as usize) as int] == (seen[c as int] || first.1.contains(c)));
            assert forall|y: int| 0 <= y < seen.len() && seen[y] implies first.0[y] by {
                assert(first.0[(y as usize) as int] == (seen[(y as usize) as int] || first.1.contains(y as usize)));
            };
            lemma_unmarked_mono(seen, first.0);
        }
        assert(first.0[x as int]);
        if !seen[c as int] {
            let j = choose|j: int| k <= j < cs.len() && cs[j] == c;
            if j == k {
                assert(first.0[c as int]);
            } else {
                assert(k + 1 <= j < cs.len() && cs[j] == c);
            }
        }
        lemma_visit_children_extra(g, cs, c, k + 1, first.0, d);
    }
}

/// `rank` strictly decreases along every edge: the graph has no cycle.
pub open spec fn ranked(g: GraphView, rank: spec_fn(usize) -> nat) -> bool {
    forall|k: int| 0 <= k < g.edges.len() ==> rank((#[trigger] g.edges[k]).1) < rank(g.edges[k].0)
}

/// `y` stands in `s` before position `i`.
pub open spec fn precedes(s: Seq<usize>, i: int, y: usize) -> bool {
    exists|m: int| 0 <= m < i && s[m] == y
}

/// `y` is in `pre`, or emitted in `out` before position `i`.
pub open spec fn earlier(pre: Seq<usize>, out: Seq<usize>, i: int, y: usize) -> bool {
    pre.contains(y) || precedes(out, i, y)
}

/// Every child of a node ranks below it.
pub proof fn lemma_children_ranked(g: GraphView, rank: spec_fn(usize) -> nat, n: usize)
    requires
        graph_wf(g),
        ranked(g, rank),
    ensures
        forall|j: int| 0 <= j < children(g, n).len() ==> rank(#[trigger] children(g, n)[j]) < rank(n),
{
    broadcast use vstd::seq_lib::group_filter_ensures;

    let f = g.edges.filter(leaves(n));
    assert forall|j: int| 0 <= j < children(g, n).len() implies rank(#[trigger] children(g, n)[j]) < rank(n) by {
        assert(f.contains(f[j]));
        assert(leaves(n)(f[j]));
        g.edges.lemma_filter_contains_rev(leaves(n), f[j]);
        let k = choose|k: int| 0 <= k < g.edges.len() && g.edges[k] == f[j];
        assert(rank(g.edges[k].1) < rank(g.edges[k].0));
    };
}

/// In a ranked graph, a visit emits each child of an emitted node after it
/// was emitted earlier, provided every marked node is already emitted or
/// ranks above the visited one.
pub proof fn lemma_visit_ordered(
    g: GraphView,
    rank: spec_fn(usize) -> nat,
    n: usize,
    seen: Seq<bool>,
    pre: Seq<usize>,
    d: nat,
)
    requires
        graph_wf(g),
        ranked(g, rank),
        seen.len() == g.names.len(),
        n < g.names.len(),
        !seen[n as int],
        d >= unmarked(seen),
        forall|x: usize| x < seen.len() && #[trigger] seen[x as int] ==> pre.contains(x) || rank(x) > rank(n),
    ensures
        forall|i: int, j: int|
            0 <= i < visit(g, n, seen, d).1.len() && 0 <= j < children(g, visit(g, n, seen, d).1[i]).len()
                ==> earlier(
                pre,
                visit(g, n, seen, d).1,
                i,
                #[trigger] children(g, #[trigger] visit(g, n, seen, d).1[i])[j],
            ),
    decreases unmarked(seen), 0int,
{
    lemma_unmarked_update(seen, n as int);
    let seen1 = seen.update(n as int, true);
    let cs = children(g, n);
    let d1 = (d - 1) as nat;
    lemma_children_in_range(g, n);
    lemma_children_ranked(g, rank, n);
    assert forall|x: usize| x < seen1.len() && #[trigger] seen1[x as int] implies pre.contains(x) || rank(x)
        >= rank(n) by {
        if x != n {
            assert(seen[x as int]);
        }
    };
    lemma_visit_children_ordered(g, rank, cs, 0, seen1, pre, d1, rank(n));
    let rc = visit_children(g, cs, 0, seen1, d1);
    let out = visit(g, n, seen, d).1;
    assert(out == rc.1.push(n));
    assert forall|i: int, j: int|
        0 <= i < out.len() && 0 <= j < children(g, out[i]).len() implies earlier(
        pre,
        out,
        i,
        #[trigger] children(g, #[trigger] out[i])[j],
    ) by {
        let y = children(g, out[i])[j];
        if i < rc.1.len() {
            assert(out[i] == rc.1[i]);
            assert(earlier(pre, rc.1, i, y));
            if !pre.contains(y) {
                let m = choose|m: int| 0 <= m < i && rc.1[m] == y;
                assert(out[m] == y);
            }
        } else {
            assert(out[i] == n);
            assert(pre.contains(cs[j]) || rc.1.contains(cs[j]));
            if !pre.contains(y) {
                let m = choose|m: int| 0 <= m < rc.1.len() && rc.1[m] == y;
                assert(out[m] == y);
            }
        }
    };
}

/// The counterpart of `lemma_visit_ordered` for a list of nodes ranking
/// below `bound`; every listed node from `k` on is emitted or in `pre`.
pub proof fn lemma_visit_children_ordered(
    g: GraphView,
    rank: spec_fn(usize) -> nat,
    cs: Seq<usize>,
    k: nat,
    seen: Seq<bool>,
    pre: Seq<usize>,
    d: nat,
    bound: nat,
)
    requires
        graph_wf(g),
        ranked(g, rank),
        seen.len() == g.names.len(),
        forall|j: int| 0 <= j < cs.len() ==> #[trigger] cs[j] < g.names.len(),
        forall|j: int| k <= j < cs.len() ==> rank(#[trigger] cs[j]) < bound,
        d >= unmarked(seen),
        forall|x: usize| x < seen.len() && #[trigger] seen[x as int] ==> pre.contains(x) || rank(x) >= bound,
    ensures
        forall|j: int|
            k <= j < cs.len() ==> pre.contains(#[trigger] cs[j]) || visit_children(
                g,
                cs,
                k,
                seen,
                d,
            ).1.contains(cs[j]),
        forall|i: int, j: int|
            0 <= i < visit_children(g, cs, k, seen, d).1.len() && 0 <= j < children(
                g,
                visit_children(g, cs, k, seen, d).1[i],
            ).len() ==> earlier(
                pre,
                visit_children(g, cs, k, seen, d).1,
                i,
                #[trigger] children(g, #[trigger] visit_children(g, cs, k, seen, d).1[i])[j],
            ),
    decreases unmarked(seen), cs.len() - k,
{
    if k < cs.len() {
        let c = cs[k as int];
        let out = visit_children(g, cs, k, seen, d).1;
        if seen[c as int] {
            assert(pre.contains(c));
            lemma_visit_children_ordered(g, rank, cs, k + 1, seen, pre, d, bound);
            let rest = visit_children(g, cs, k + 1, seen, d);
            assert(out =~= rest.1);
        } else {
            lemma_visit_ordered(g, rank, c, seen, pre, d);
            lemma_visit_marks(g, c, seen, d);
            lemma_unmarked_update(seen, c as int);
            let fv = visit(g, c, seen, d);
            let fc = fv.1;
            assert(fc.last() == c);
            assert forall|y: int| 0 <= y < seen.len() && seen[y] implies fv.0[y] by {
                assert(fv.0[(y as usize) as int] == (seen[(y as usize) as int] || fc.contains(y as usize)));
            };
            lemma_unmarked_mono(seen, fv.0);
            let pre2 = pre + fc;
            assert forall|x: usize| x < fv.0.len() && #[trigger] fv.0[x as int] implies pre2.contains(x) || rank(x)
                >= bound by {
                assert(fv.0[x as int] == (seen[x as int] || fc.contains(x)));
                if fc.contains(x) {
                    let m = choose|m: int| 0 <= m < fc.len() && fc[m] == x;
                    assert(pre2[pre.len() + m] == x);
                } else if pre.contains(x) {
                    let m = choose|m: int| 0 <= m < pre.len() && pre[m] == x;
                    assert(pre2[m] == x);
                }
            };
            lemma_visit_children_ordered(g, rank, cs, k + 1, fv.0, pre2, d, bound);
            let rest = visit_children(g, cs, k + 1, fv.0, d).1;
            assert(out == fc + rest);
            let fl = fc.len() as int;
            assert forall|j: int| k <= j < cs.len() implies pre.contains(#[trigger] cs[j]) || out.contains(cs[j]) by {
                if j == k {
                    assert(out[fl - 1] == c);
                } else {
                    assert(pre2.contains(cs[j]) || rest.contains(cs[j]));
                    if rest.contains(cs[j]) {
                        let m = choose|m: int| 0 <= m < rest.len() && rest[m] == cs[j];
                        assert(out[fl + m] == cs[j]);
                    } else if !pre.contains(cs[j]) {
                        let m = choose|m: int| 0 <= m < pre2.len() && pre2[m] == cs[j];
                        if m < pre.len() {
                            assert(pre[m] == cs[j]);
                        } else {
                            assert(out[m - pre.len()] == cs[j]);
                        }
                    }
                }
            };
            assert forall|i: int, j: int|
                0 <= i < out.len() && 0 <= j < children(g, out[i]).len() implies earlier(
                pre,
                out,
                i,
                #[trigger] children(g, #[trigger] out[i])[j],
            ) by {
                let y = children(g, out[i])[j];
                if i < fl {
                    assert(out[i] == fc[i]);
                    assert(earlier(pre, fc, i, y));
                    if !pre.contains(y) {
                        let m = choose|m: int| 0 <= m < i && fc[m] == y;
                        assert(out[m] == y);
                    }
                } else {
                    assert(out[i] == rest[i - fl]);
                    assert(earlier(pre2, rest, i - fl, y));
                    if !pre.contains(y) {
                        if pre2.contains(y) {
                            let m = choose|m: int| 0 <= m < pre2.len() && pre2[m] == y;
                            if m < pre.len() {
                                assert(pre[m] == y);
                            } else {
                                assert(out[m - pre.len()] == y);
                            }
                        } else {
                            let m = choose|m: int| 0 <= m < i - fl && rest[m] == y;
                            assert(out[fl + m] == y);
                        }
                    }
                }
            };
        }
    }
}

/// In a graph without cycles, the post-order walk emits every child of a
/// node before the node itself.
pub proof fn lemma_post_order_children_first(g: GraphView, rank: spec_fn(usize) -> nat, root: usize)
    requires
        graph_wf(g),
        ranked(g, rank),
        root < g.names.len(),
    ensures
        forall|i: int, j: int|
            0 <= i < post_order(g, root).len() && 0 <= j < children(g, post_order(g, root)[i]).len()
                ==> #[trigger] precedes(post_order(g, root), i, children(g, post_order(g, root)[i])[j]),
{
    let none = Seq::new(g.names.len(), |i: int| false);
    lemma_unmarked_none(g.names.len());
    lemma_visit_ordered(g, rank, root, none, Seq::empty(), g.names.len());
    let out = post_order(g, root);
    assert forall|i: int, j: int|
        0 <= i < out.len() && 0 <= j < children(g, out[i]).len() implies #[trigger] precedes(
        out,
        i,
        children(g, out[i])[j],
    ) by {
        assert(earlier(Seq::empty(), out, i, children(g, out[i])[j]));
        assert(!Seq::<usize>::empty().contains(children(g, out[i])[j]));
    };
}

/// The post-order walk from a node ends with that node.
pub proof fn lemma_post_order_ends_with_root(g: GraphView, root: usize)
    requires
        graph_wf(g),
        root < g.names.len(),
    ensures
        post_order(g, root).len() > 0,
        post_order(g, root).last() == root,
{
}

/// The post-order walk from a node without children is that node alone.
pub proof fn lemma_post_order_of_leaf(g: GraphView, root: usize)
    requires
        graph_wf(g),
        root < g.names.len(),
        children(g, root).len() == 0,
    ensures
        post_order(g, root) == seq![root],
{
    let seen = Seq::new(g.names.len(), |i: int| false);
    let r = visit_children(g, children(g, root), 0, seen.update(root as int, true), (g.names.len() - 1) as nat);
    assert(r.1 == Seq::<usize>::empty());
    assert(r.1.push(root) =~= seq![root]);
}

} // verus!
