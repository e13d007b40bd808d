use vstd::prelude::*;

use crate::scene::{node_wf, scene_wf, NodeModel};

verus! {

/// One visit of the traversal: the node drawn, its depth below the root, and
/// the position in the traversal of the visit of its parent (the root's own
/// position, 0, for the root). A visit at depth `d` is drawn at the base size
/// halved `d` times; its incoming rotation and origin are those its parent's
/// visit passes down.
#[derive(Clone, Copy, Debug, PartialEq, Eq)]
pub struct Frame {
    pub node: usize,
    pub depth: usize,
    pub parent: usize,
}

/// The visits of the subtree of node `i`, reached at depth `depth` from the
/// visit at position `parent`, when the visit of `i` itself stands at
/// position `start`: first `i`, then each child's subtree in attachment order.
pub open spec fn visits<V, M>(g: Seq<NodeModel<V, M>>, i: int, depth: int, parent: int, start: int) -> Seq<Frame>
    decreases g.len() - i, 1int, 0int,
{
    if 0 <= i < g.len() {
        seq![Frame { node: i as usize, depth: depth as usize, parent: parent as usize }]
            + visits_children(g, i, depth, start, g[i].children.len() as int)
    } else {
        Seq::empty()
    }
}

/// The visits of the subtrees of the first `k` children of node `i`, whose own
/// visit at depth `depth` stands at position `start`.
pub open spec fn visits_children<V, M>(g: Seq<NodeModel<V, M>>, i: int, depth: int, start: int, k: int) -> Seq<Frame>
    decreases g.len() - i, 0int, k,
{
    if 0 <= i < g.len() && 0 < k <= g[i].children.len() && i < g[i].children[k - 1] < g.len() {
        let before = visits_children(g, i, depth, start, k - 1);
        before + visits(g, g[i].children[k - 1] as int, depth + 1, start, start + 1 + before.len())
    } else {
        Seq::empty()
    }
}

/// One request to the drawing surface, in terms of a visit of the traversal:
/// a square marker on a vertex of the visited node, or a line between two of
/// its vertices.
#[derive(Clone, Copy, Debug, PartialEq, Eq)]
pub enum Request {
    Marker { frame: usize, vertex: usize },
    Line { frame: usize, from: usize, to: usize },
}

/// The requests for node `nd` visited at position `k`: a marker on each vertex
/// in order, then a line for each edge in order.
pub open spec fn node_requests<V, M>(nd: NodeModel<V, M>, k: int) -> Seq<Request> {
    Seq::new(nd.vertices.len(), |v: int| Request::Marker { frame: k as usize, vertex: v as usize })
        + Seq::new(
        nd.indices.len(),
        |e: int| Request::Line { frame: k as usize, from: nd.indices[e].0, to: nd.indices[e].1 },
    )
}

/// The requests of the first `k` visits of `fs`, in order.
pub open spec fn requests_of<V, M>(g: Seq<NodeModel<V, M>>, fs: Seq<Frame>, k: int) -> Seq<Request>
    decreases k,
{
    if k <= 0 {
        Seq::empty()
    } else {
        requests_of(g, fs, k - 1) + node_requests(g[fs[k - 1].node as int], k - 1)
    }
}

/// In the visits `fs`, whose first stands at position `base` of the whole
/// traversal, the visit `fs[q]` names an earlier visit as its parent: one of a
/// node that has `fs[q].node` among its children, one level shallower.
pub open spec fn linked<V, M>(g: Seq<NodeModel<V, M>>, fs: Seq<Frame>, base: int, q: int) -> bool {
    let t = fs[q].parent - base;
    &&& 0 <= t < q
    &&& fs[q].depth == fs[t].depth + 1
    &&& g[fs[t].node as int].children.contains(fs[q].node)
}

/// The visit `f` names a node of `g` and lies at a depth no less than `d` and
/// no greater than the node's index.
pub open spec fn in_scene<V, M>(g: Seq<NodeModel<V, M>>, f: Frame, d: int) -> bool {
    d <= f.depth <= f.node < g.len()
}

/// The visits of a subtree start with its root, name nodes of the scene at
/// depths that grow from the root's, and each later visit names an earlier one
/// as its parent.
pub proof fn lemma_visits<V, M>(g: Seq<NodeModel<V, M>>, i: int, d: int, p: int, start: int)
    requires
        scene_wf(g),
        g.len() <= usize::MAX,
        0 <= i < g.len(),
        0 <= d <= i,
        0 <= p <= usize::MAX,
        0 <= start,
        start + visits(g, i, d, p, start).len() <= usize::MAX + 1,
    ensures
        visits(g, i, d, p, start).len() >= 1,
        visits(g, i, d, p, start)[0] == (Frame { node: i as usize, depth: d as usize, parent: p as usize }),
        forall|q: int|
            0 <= q < visits(g, i, d, p, start).len() ==> in_scene(g, #[trigger] visits(g, i, d, p, start)[q], d),
        forall|q: int|
            1 <= q < visits(g, i, d, p, start).len() ==> #[trigger] linked(g, visits(g, i, d, p, start), start, q),
    decreases g.len() - i, 1int, 0int,
{
    let f = Frame { node: i as usize, depth: d as usize, parent: p as usize };
    let n = g[i].children.len() as int;
    lemma_visits_children(g, i, d, p, start, n);
    assert(visits(g, i, d, p, start) == seq![f] + visits_children(g, i, d, start, n));
}

proof fn lemma_visits_children<V, M>(g: Seq<NodeModel<V, M>>, i: int, d: int, p: int, start: int, k: int)
    requires
        scene_wf(g),
        g.len() <= usize::MAX,
        0 <= i < g.len(),
        0 <= d <= i,
        0 <= p <= usize::MAX,
        0 <= k <= g[i].children.len(),
        0 <= start,
        start + 1 + visits_children(g, i, d, start, k).len() <= usize::MAX + 1,
    ensures
        forall|q: int|
            0 <= q < visits_children(g, i, d, start, k).len() ==> in_scene(
                g,
                #[trigger] visits_children(g, i, d, start, k)[q],
                d + 1,
            ),
        forall|q: int|
            1 <= q < 1 + visits_children(g, i, d, start, k).len() ==> #[trigger] linked(
                g,
                seq![Frame { node: i as usize, depth: d as usize, parent: p as usize }] + visits_children(g, i, d, start, k),
                start,
                q,
            ),
    decreases g.len() - i, 0int, k,
{
    let f = Frame { node: i as usize, depth: d as usize, parent: p as usize };
    if k > 0 {
        assert(node_wf(g, i));
        let c = g[i].children[k - 1] as int;
        let before = visits_children(g, i, d, start, k - 1);
        let base = start + 1 + before.len();
        let w = visits(g, c, d + 1, start, base);
        assert(visits_children(g, i, d, start, k) == before + w);
        lemma_visits_children(g, i, d, p, start, k - 1);
        lemma_visits(g, c, d + 1, start, base);
        let f0 = seq![f] + before;
        let all = seq![f] + visits_children(g, i, d, start, k);
        assert(all =~= f0 + w);
        assert forall|q: int| 0 <= q < before.len() + w.len() implies in_scene(
            g,
            #[trigger] (before + w)[q],
            d + 1,
        ) by {
            if q >= before.len() {
                assert(in_scene(g, w[q - before.len()], d + 1));
            }
        }
        assert forall|q: int| 1 <= q < all.len() implies #[trigger] linked(g, all, start, q) by {
            if q < f0.len() {
                assert(linked(g, f0, start, q));
                assert(all[q] == f0[q]);
            } else {
                let j = q - f0.len();
                assert(all[q] == w[j]);
                if j == 0 {
                    assert(g[i].children[k - 1] == w[0].node);
                    assert(g[i].children.contains(w[0].node));
                } else {
                    assert(linked(g, w, base, j));
                    let t = w[j].parent - base;
                    assert(all[f0.len() + t] == w[t]);
                }
            }
        }
    }
}

} // verus!
