use vstd::prelude::*;
use vstd::set_lib::{lemma_int_range, lemma_len_subset, set_int_range};

use crate::scene::{node_wf, scene_wf, Drawable, NodeModel};
use crate::traversal::{in_scene, lemma_visits, linked, visits, visits_children, Frame};

verus! {

/// The nodes of the visits in `fs` that lie at depth `d`, in visiting order.
pub open spec fn nodes_at_depth(fs: Seq<Frame>, d: int) -> Seq<usize>
    decreases fs.len(),
{
    if fs.len() == 0 {
        Seq::empty()
    } else {
        let rest = nodes_at_depth(fs.drop_last(), d);
        if fs.last().depth == d {
            rest.push(fs.last().node)
        } else {
            rest
        }
    }
}

proof fn lemma_nodes_at_depth_append(a: Seq<Frame>, b: Seq<Frame>, d: int)
    ensures
        nodes_at_depth(a + b, d) == nodes_at_depth(a, d) + nodes_at_depth(b, d),
    decreases b.len(),
{
    if b.len() == 0 {
        assert(a + b =~= a);
        assert(nodes_at_depth(a, d) + nodes_at_depth(b, d) =~= nodes_at_depth(a, d));
    } else {
        lemma_nodes_at_depth_append(a, b.drop_last(), d);
        assert((a + b).drop_last() =~= a + b.drop_last());
        assert((a + b).last() == b.last());
        if b.last().depth == d {
            assert(nodes_at_depth(a, d) + nodes_at_depth(b, d) =~= (nodes_at_depth(a, d)
                + nodes_at_depth(b.drop_last(), d)).push(b.last().node));
        } else {
            assert(nodes_at_depth(a, d) + nodes_at_depth(b, d) =~= nodes_at_depth(a, d)
                + nodes_at_depth(b.drop_last(), d));
        }
    }
}

proof fn lemma_nodes_at_depth_none(b: Seq<Frame>, d: int)
    requires
        forall|q: int| 0 <= q < b.len() ==> (#[trigger] b[q]).depth != d,
    ensures
        nodes_at_depth(b, d) == Seq::<usize>::empty(),
    decreases b.len(),
{
    if b.len() > 0 {
        assert(b.last() == b[b.len() - 1]);
        lemma_nodes_at_depth_none(b.drop_last(), d);
    }
}

proof fn lemma_children_at_depth<V, M>(g: Seq<NodeModel<V, M>>, i: int, d: int, p: int, start: int, k: int)
    requires
        scene_wf(g),
        g.len() <= usize::MAX,
        0 <= i < g.len(),
        0 <= d <= i,
        0 <= p <= usize::MAX,
        0 <= k <= g[i].children.len(),
        0 <= start,
        start + 1 + visits_children(g, i, d, start, k).len() <= usize::MAX + 1,
    ensures
        nodes_at_depth(visits_children(g, i, d, start, k), d + 1) == g[i].children.take(k),
    decreases k,
{
    if k == 0 {
        assert(g[i].children.take(0) =~= Seq::<usize>::empty());
    } else {
        assert(node_wf(g, i));
        let c = g[i].children[k - 1] as int;
        let before = visits_children(g, i, d, start, k - 1);
        let base = start + 1 + before.len();
        let w = visits(g, c, d + 1, start, base);
        assert(visits_children(g, i, d, start, k) == before + w);
        lemma_children_at_depth(g, i, d, p, start, k - 1);
        lemma_visits(g, c, d + 1, start, base);
        let rest = w.drop_first();
        assert(w =~= seq![w[0]] + rest);
        assert forall|q: int| 0 <= q < rest.len() implies (#[trigger] rest[q]).depth != d + 1 by {
            assert(rest[q] == w[q + 1]);
            assert(linked(g, w, base, q + 1));
            let t = w[q + 1].parent - base;
            assert(in_scene(g, w[t], d + 1));
        }
        lemma_nodes_at_depth_none(rest, d + 1);
        lemma_nodes_at_depth_append(seq![w[0]], rest, d + 1);
        assert(seq![w[0]].drop_last() =~= Seq::<Frame>::empty());
        assert(seq![w[0]].last() == w[0]);
        assert(nodes_at_depth(Seq::<Frame>::empty(), d + 1) =~= Seq::<usize>::empty());
        assert(w[0].depth == d + 1 && w[0].node == c);
        assert(nodes_at_depth(seq![w[0]], d + 1) =~= seq![c as usize]);
        lemma_nodes_at_depth_append(before, w, d + 1);
        assert(g[i].children.take(k) =~= g[i].children.take(k - 1).push(c as usize));
    }
}

/// Node `x` lies in the subtree of node `i`: following owners up from `x`
/// reaches `i`.
pub open spec fn descends<V, M>(g: Seq<NodeModel<V, M>>, x: int, i: int) -> bool
    decreases x,
{
    if x == i {
        true
    } else if 0 < x < g.len() && g[x].parent < x {
        descends(g, g[x].parent as int, i)
    } else {
        false
    }
}

proof fn lemma_descends_above<V, M>(g: Seq<NodeModel<V, M>>, x: int, i: int)
    requires
        descends(g, x, i),
    ensures
        x >= i,
    decreases x,
{
    if x != i {
        lemma_descends_above(g, g[x].parent as int, i);
    }
}

proof fn lemma_descends_trans<V, M>(g: Seq<NodeModel<V, M>>, x: int, c: int, i: int)
    requires
        descends(g, x, c),
        descends(g, c, i),
    ensures
        descends(g, x, i),
    decreases x,
{
    if x != c {
        lemma_descends_trans(g, g[x].parent as int, c, i);
    }
}

/// No node lies in the subtrees of two different children of one owner.
proof fn lemma_siblings_disjoint<V, M>(g: Seq<NodeModel<V, M>>, x: int, c1: int, c2: int)
    requires
        0 < c1 < g.len(),
        0 < c2 < g.len(),
        c1 != c2,
        g[c1].parent == g[c2].parent,
        g[c1].parent < c1,
        g[c2].parent < c2,
    ensures
        !(descends(g, x, c1) && descends(g, x, c2)),
    decreases x,
{
    if descends(g, x, c1) && descends(g, x, c2) {
        if x == c1 {
            lemma_descends_above(g, g[x].parent as int, c2);
        } else if x == c2 {
            lemma_descends_above(g, g[x].parent as int, c1);
        } else {
            lemma_siblings_disjoint(g, g[x].parent as int, c1, c2);
        }
    }
}

proof fn lemma_visits_distinct<V, M>(g: Seq<NodeModel<V, M>>, i: int, d: int, p: int, start: int)
    requires
        scene_wf(g),
        g.len() <= usize::MAX,
        0 <= i < g.len(),
    ensures
        forall|q: int|
            0 <= q < visits(g, i, d, p, start).len() ==> descends(
                g,
                #[trigger] visits(g, i, d, p, start)[q].node as int,
                i,
            ),
        forall|q1: int, q2: int|
            0 <= q1 < q2 < visits(g, i, d, p, start).len() ==> #[trigger] visits(g, i, d, p, start)[q1].node
                != #[trigger] visits(g, i, d, p, start)[q2].node,
    decreases g.len() - i, 1int, 0int,
{
    let f = Frame { node: i as usize, depth: d as usize, parent: p as usize };
    let n = g[i].children.len() as int;
    lemma_visits_children_distinct(g, i, d, start, n);
    let vc = visits_children(g, i, d, start, n);
    let vs = visits(g, i, d, p, start);
    assert(vs == seq![f] + vc);
    assert forall|q: int| 0 <= q < vs.len() implies descends(g, #[trigger] vs[q].node as int, i) by {
        if q == 0 {
            assert(descends(g, i, i));
        } else {
            assert(vs[q] == vc[q - 1]);
            let j = choose|j: int| 0 <= j < n && descends(g, vc[q - 1].node as int, g[i].children[j] as int);
            assert(node_wf(g, i));
            let c = g[i].children[j] as int;
            assert(node_wf(g, c));
            assert(descends(g, i, i));
            assert(descends(g, c, i));
            lemma_descends_trans(g, vs[q].node as int, c, i);
        }
    }
    assert forall|q1: int, q2: int| 0 <= q1 < q2 < vs.len() implies #[trigger] vs[q1].node
        != #[trigger] vs[q2].node by {
        assert(vs[q2] == vc[q2 - 1]);
        if q1 == 0 {
            let j = choose|j: int| 0 <= j < n && descends(g, vc[q2 - 1].node as int, g[i].children[j] as int);
            assert(node_wf(g, i));
            lemma_descends_above(g, vc[q2 - 1].node as int, g[i].children[j] as int);
        } else {
            assert(vs[q1] == vc[q1 - 1]);
        }
    }
}

proof fn lemma_visits_children_distinct<V, M>(g: Seq<NodeModel<V, M>>, i: int, d: int, start: int, k: int)
    requires
        scene_wf(g),
        g.len() <= usize::MAX,
        0 <= i < g.len(),
        0 <= k <= g[i].children.len(),
    ensures
        forall|q: int|
            0 <= q < visits_children(g, i, d, start, k).len() ==> exists|j: int|
                0 <= j < k && descends(
                    g,
                    (#[trigger] visits_children(g, i, d, start, k)[q]).node as int,
                    g[i].children[j] as int,
                ),
        forall|q1: int, q2: int|
            0 <= q1 < q2 < visits_children(g, i, d, start, k).len() ==> #[trigger] visits_children(
                g,
                i,
                d,
                start,
                k,
            )[q1].node != #[trigger] visits_children(g, i, d, start, k)[q2].node,
    decreases g.len() - i, 0int, k,
{
    if k > 0 {
        assert(node_wf(g, i));
        let c = g[i].children[k - 1] as int;
        let before = visits_children(g, i, d, start, k - 1);
        let base = start + 1 + before.len();
        let w = visits(g, c, d + 1, start, base);
        let all = visits_children(g, i, d, start, k);
        assert(all == before + w);
        lemma_visits_children_distinct(g, i, d, start, k - 1);
        lemma_visits_distinct(g, c, d + 1, start, base);
        assert forall|q: int| 0 <= q < all.len() implies exists|j: int|
            0 <= j < k && descends(g, (#[trigger] all[q]).node as int, g[i].children[j] as int) by {
            if q < before.len() {
                assert(all[q] == before[q]);
            } else {
                assert(all[q] == w[q - before.len()]);
                assert(descends(g, w[q - before.len()].node as int, c));
            }
        }
        assert forall|q1: int, q2: int| 0 <= q1 < q2 < all.len() implies #[trigger] all[q1].node
            != #[trigger] all[q2].node by {
            if q2 < before.len() {
                assert(all[q1] == before[q1] && all[q2] == before[q2]);
            } else if q1 >= before.len() {
                assert(all[q1] == w[q1 - before.len()] && all[q2] == w[q2 - before.len()]);
            } else {
                assert(all[q1] == before[q1] && all[q2] == w[q2 - before.len()]);
                let x = all[q2].node as int;
                assert(descends(g, x, c));
                let j = choose|j: int| 0 <= j < k - 1 && descends(g, before[q1].node as int, g[i].children[j] as int);
                let cj = g[i].children[j] as int;
                assert(cj < c);
                assert(node_wf(g, cj) && node_wf(g, c));
                if all[q1].node == all[q2].node {
                    lemma_siblings_disjoint(g, x, cj, c);
                }
            }
        }
    }
}

proof fn lemma_descends_root<V, M>(g: Seq<NodeModel<V, M>>, x: int)
    requires
        scene_wf(g),
        0 <= x < g.len(),
    ensures
        descends(g, x, 0),
    decreases x,
{
    if x > 0 {
        assert(node_wf(g, x));
        lemma_descends_root(g, g[x].parent as int);
    }
}

/// A node strictly below `i` lies below one of the children of `i`.
proof fn lemma_descends_child<V, M>(g: Seq<NodeModel<V, M>>, x: int, i: int)
    requires
        scene_wf(g),
        g.len() <= usize::MAX,
        0 <= x < g.len(),
        descends(g, x, i),
        x != i,
    ensures
        exists|j: int| 0 <= j < g[i].children.len() && descends(g, x, #[trigger] g[i].children[j] as int),
    decreases x,
{
    assert(node_wf(g, x));
    let y = g[x].parent as int;
    assert(x > 0);
    assert(g[y].children.contains(x as usize));
    if y == i {
        let j = choose|j: int| 0 <= j < g[y].children.len() && g[y].children[j] == x as usize;
        assert(g[i].children[j] as int == x);
        assert(descends(g, x, g[i].children[j] as int));
    } else {
        lemma_descends_child(g, y, i);
        let j = choose|j: int| 0 <= j < g[i].children.len() && descends(g, y, #[trigger] g[i].children[j] as int);
        assert(descends(g, x, g[i].children[j] as int));
    }
}

proof fn lemma_visits_cover<V, M>(g: Seq<NodeModel<V, M>>, i: int, d: int, p: int, start: int, x: int)
    requires
        scene_wf(g),
        g.len() <= usize::MAX,
        0 <= i < g.len(),
        0 <= x < g.len(),
        descends(g, x, i),
    ensures
        exists|q: int|
            0 <= q < visits(g, i, d, p, start).len() && #[trigger] visits(g, i, d, p, start)[q].node == x,
    decreases g.len() - i, 1int, 0int,
{
    let f = Frame { node: i as usize, depth: d as usize, parent: p as usize };
    let n = g[i].children.len() as int;
    let vc = visits_children(g, i, d, start, n);
    let vs = visits(g, i, d, p, start);
    assert(vs == seq![f] + vc);
    if x == i {
        assert(vs[0].node == x);
    } else {
        lemma_descends_child(g, x, i);
        let j = choose|j: int| 0 <= j < n && descends(g, x, #[trigger] g[i].children[j] as int);
        lemma_visits_children_cover(g, i, d, start, n, j, x);
        let q = choose|q: int| 0 <= q < vc.len() && #[trigger] vc[q].node == x;
        assert(vs[q + 1] == vc[q]);
    }
}

proof fn lemma_visits_children_cover<V, M>(
    g: Seq<NodeModel<V, M>>,
    i: int,
    d: int,
    start: int,
    k: int,
    j: int,
    x: int,
)
    requires
        scene_wf(g),
        g.len() <= usize::MAX,
        0 <= i < g.len(),
        0 <= x < g.len(),
        0 <= j < k <= g[i].children.len(),
        descends(g, x, g[i].children[j] as int),
    ensures
        exists|q: int|
            0 <= q < visits_children(g, i, d, start, k).len() && #[trigger] visits_children(
                g,
                i,
                d,
                start,
                k,
            )[q].node == x,
    decreases g.len() - i, 0int, k,
{
    assert(node_wf(g, i));
    let c = g[i].children[k - 1] as int;
    let before = visits_children(g, i, d, start, k - 1);
    let base = start + 1 + before.len();
    let w = visits(g, c, d + 1, start, base);
    let all = visits_children(g, i, d, start, k);
    assert(all == before + w);
    if j == k - 1 {
        lemma_visits_cover(g, c, d + 1, start, base, x);
        let q = choose|q: int| 0 <= q < w.len() && #[trigger] w[q].node == x;
        assert(all[before.len() + q] == w[q]);
    } else {
        lemma_visits_children_cover(g, i, d, start, k - 1, j, x);
        let q = choose|q: int| 0 <= q < before.len() && #[trigger] before[q].node == x;
        assert(all[q] == before[q]);
    }
}

/// A drawing pass has no more visits than the scene has nodes.
proof fn lemma_visits_fit<V, M>(g: Seq<NodeModel<V, M>>)
    requires
        scene_wf(g),
        g.len() <= usize::MAX,
    ensures
        visits(g, 0, 0, 0, 0).len() <= g.len(),
{
    let vs = visits(g, 0, 0, 0, 0);
    lemma_visits_distinct(g, 0, 0, 0, 0);
    let ns = vs.map_values(|f: Frame| f.node as int);
    assert forall|a: int, b: int| 0 <= a < ns.len() && 0 <= b < ns.len() && a != b implies ns[a] != ns[b] by {
        if a < b {
            assert(vs[a].node != vs[b].node);
        } else {
            assert(vs[b].node != vs[a].node);
        }
    }
    ns.unique_seq_to_set();
    assert forall|x: int| ns.to_set().contains(x) implies set_int_range(0, g.len() as int).contains(x) by {
        let q = choose|q: int| 0 <= q < ns.len() && ns[q] == x;
        assert(descends(g, vs[q].node as int, 0));
    }
    lemma_int_range(0, g.len() as int);
    lemma_len_subset(ns.to_set(), set_int_range(0, g.len() as int));
}

/// Some visit of `fs` is one of node `x`.
pub open spec fn visited(fs: Seq<Frame>, x: int) -> bool {
    exists|q: int| 0 <= q < fs.len() && fs[q].node == x
}

/// A drawing pass visits every node of the scene, and none twice.
pub proof fn lemma_each_node_drawn_once<V, M>(d: Drawable<V, M>)
    requires
        d.wf(),
    ensures
        forall|x: int| 0 <= x < d@.len() ==> #[trigger] visited(visits(d@, 0, 0, 0, 0), x),
        forall|q1: int, q2: int|
            0 <= q1 < q2 < visits(d@, 0, 0, 0, 0).len() ==> #[trigger] visits(d@, 0, 0, 0, 0)[q1].node
                != #[trigger] visits(d@, 0, 0, 0, 0)[q2].node,
{
    let g = d@;
    d.lemma_fits();
    lemma_visits_distinct(g, 0, 0, 0, 0);
    assert forall|x: int| 0 <= x < g.len() implies #[trigger] visited(visits(g, 0, 0, 0, 0), x) by {
        lemma_descends_root(g, x);
        lemma_visits_cover(g, 0, 0, 0, 0, x);
    }
}

/// Drawing a scene visits the children of its root one level below it, in
/// the order in which they were attached, and visits no node twice: so each
/// child is drawn exactly once in a pass.
pub proof fn lemma_children_drawn_once_in_order<V, M>(d: Drawable<V, M>)
    requires
        d.wf(),
    ensures
        nodes_at_depth(visits(d@, 0, 0, 0, 0), 1) == d@[0].children,
        d@[0].children.no_duplicates(),
        forall|q1: int, q2: int|
            0 <= q1 < q2 < visits(d@, 0, 0, 0, 0).len() ==> #[trigger] visits(d@, 0, 0, 0, 0)[q1].node
                != #[trigger] visits(d@, 0, 0, 0, 0)[q2].node,
{
    let g = d@;
    d.lemma_fits();
    lemma_visits_distinct(g, 0, 0, 0, 0);
    lemma_visits_fit(g);
    let n = g[0].children.len() as int;
    let f = Frame { node: 0, depth: 0, parent: 0 };
    assert(visits(g, 0, 0, 0, 0) == seq![f] + visits_children(g, 0, 0, 0, n));
    lemma_children_at_depth(g, 0, 0, 0, 0, n);
    lemma_nodes_at_depth_append(seq![f], visits_children(g, 0, 0, 0, n), 1);
    assert(seq![f].drop_last() =~= Seq::<Frame>::empty());
    assert(seq![f].last() == f);
    assert(nodes_at_depth(Seq::<Frame>::empty(), 1) =~= Seq::<usize>::empty());
    assert(nodes_at_depth(seq![f], 1) =~= Seq::<usize>::empty());
    assert(g[0].children.take(n) =~= g[0].children);
    assert(nodes_at_depth(visits(g, 0, 0, 0, 0), 1) =~= g[0].children);
    assert(node_wf(g, 0));
    assert forall|a: int, b: int| 0 <= a < g[0].children.len() && 0 <= b < g[0].children.len() && a != b
        implies g[0].children[a] != g[0].children[b] by {
        if a < b {
            assert(g[0].children[a] < g[0].children[b]);
        } else {
            assert(g[0].children[b] < g[0].children[a]);
        }
    }
}

} // verus!
