use vstd::prelude::*;

use crate::traversal::{in_scene, lemma_visits, linked, requests_of, visits, visits_children, Frame, Request};

verus! {

/// What a node is, as the contracts see it.
pub struct NodeModel<V, M> {
    pub vertices: Seq<V>,
    pub indices: Seq<(usize, usize)>,
    pub rotation: M,
    pub origin: V,
    pub children: Seq<usize>,
    pub parent: usize,
}

/// One node of the arena: local geometry, local transform, the arena indices
/// of its children in the order they were attached, and the arena index of
/// the node that owns it (0 for the root).
pub struct Node<V, M> {
    vertices: Vec<V>,
    indices: Vec<(usize, usize)>,
    rotation: M,
    origin: V,
    children: Vec<usize>,
    parent: usize,
}

impl<V, M> View for Node<V, M> {
    type V = NodeModel<V, M>;

    closed spec fn view(&self) -> NodeModel<V, M> {
        NodeModel {
            vertices: self.vertices@,
            indices: self.indices@,
            rotation: self.rotation,
            origin: self.origin,
            children: self.children@,
            parent: self.parent,
        }
    }
}

/// A tree of wireframe nodes held in an arena. Index 0 is the root; a node's
/// index is the handle under which its owner can reach it later.
pub struct Drawable<V, M> {
    nodes: Vec<Node<V, M>>,
}

impl<V, M> View for Drawable<V, M> {
    type V = Seq<NodeModel<V, M>>;

    closed spec fn view(&self) -> Seq<NodeModel<V, M>> {
        self.nodes@.map_values(|n: Node<V, M>| n@)
    }
}

/// Every edge of `nd` joins two of its vertices.
pub open spec fn edges_in_range<V, M>(nd: NodeModel<V, M>) -> bool {
    forall|k: int|
        0 <= k < nd.indices.len() ==> (#[trigger] nd.indices[k]).0 < nd.vertices.len()
            && nd.indices[k].1 < nd.vertices.len()
}

/// Node `i` of `g` is well formed: its edges are in range; each child sits
/// after it in the arena and names it as its owner, so that no node has two
/// owners; its own owner sits before it and lists it among its children (the
/// root owns nothing but itself); and the children stand in increasing order,
/// so that none is listed twice.
pub open spec fn node_wf<V, M>(g: Seq<NodeModel<V, M>>, i: int) -> bool {
    &&& edges_in_range(g[i])
    &&& forall|k: int|
        0 <= k < g[i].children.len() ==> i < #[trigger] g[i].children[k] < g.len()
            && g[g[i].children[k] as int].parent == i
    &&& if i == 0 {
        g[i].parent == 0
    } else {
        g[i].parent < i && g[g[i].parent as int].children.contains(i as usize)
    }
    &&& forall|a: int, b: int|
        0 <= a < b < g[i].children.len() ==> #[trigger] g[i].children[a] < #[trigger] g[i].children[b]
}

/// A scene is well formed: it has a root, and every node is well formed.
pub open spec fn scene_wf<V, M>(g: Seq<NodeModel<V, M>>) -> bool {
    &&& g.len() >= 1
    &&& forall|i: int| 0 <= i < g.len() ==> #[trigger] node_wf(g, i)
}

/// Edge lists whose endpoints all lie below `n`.
pub open spec fn pairs_below(e: Seq<(usize, usize)>, n: int) -> bool {
    forall|k: int| 0 <= k < e.len() ==> (#[trigger] e[k]).0 < n && e[k].1 < n
}

impl<V, M> Drawable<V, M> {
    /// The scene is well formed.
    pub open spec fn wf(&self) -> bool {
        scene_wf(self@)
    }

    /// A scene of one node with the given geometry, rotation and origin, and no
    /// children. Every edge must join two of the given vertices.
    pub fn new(vertices: Vec<V>, indices: Vec<(usize, usize)>, rotation: M, origin: V) -> (r: Self)
        requires
            pairs_below(indices@, vertices@.len() as int),
        ensures
            r.wf(),
            r@ == seq![
                NodeModel {
                    vertices: vertices@,
                    indices: indices@,
                    rotation,
                    origin,
                    children: Seq::<usize>::empty(),
                    parent: 0,
                },
            ],
    {
        let root = Node { vertices, indices, rotation, origin, children: Vec::new(), parent: 0 };
        let mut nodes: Vec<Node<V, M>> = Vec::new();
        nodes.push(root);
        let r = Drawable { nodes };
        assert(r@ =~= seq![root@]);
        r
    }

    /// A scene has no more nodes than a `usize` can count.
    pub proof fn lemma_fits(&self)
        ensures
            self@.len() <= usize::MAX,
    {
        vstd::std_specs::vec::axiom_spec_len(&self.nodes);
        assert(self.nodes.len() == self.nodes@.len());
    }

    /// Number of nodes in the scene.
    pub fn len(&self) -> (r: usize)
        ensures
            r == self@.len(),
    {
        self.nodes.len()
    }

    /// Sets the rotation of node `node`; returns the same handle.
    pub fn set_rotation(&mut self, node: usize, rotation: M) -> (r: usize)
        requires
            old(self).wf(),
            node < old(self)@.len(),
        ensures
            final(self).wf(),
            r == node,
            final(self)@ == old(self)@.update(
                node as int,
                NodeModel { rotation, ..old(self)@[node as int] },
            ),
    {
        self.nodes[node].rotation = rotation;
        assert(self@ =~= old(self)@.update(
            node as int,
            NodeModel { rotation, ..old(self)@[node as int] },
        ));
        assert forall|i: int| 0 <= i < self@.len() implies #[trigger] node_wf(self@, i) by {
            assert(node_wf(old(self)@, i));
        }
        node
    }

    /// Sets the origin of node `node`; returns the same handle.
    pub fn set_origin(&mut self, node: usize, origin: V) -> (r: usize)
        requires
            old(self).wf(),
            node < old(self)@.len(),
        ensures
            final(self).wf(),
            r == node,
            final(self)@ == old(self)@.update(
                node as int,
                NodeModel { origin, ..old(self)@[node as int] },
            ),
    {
        self.nodes[node].origin = origin;
        assert(self@ =~= old(self)@.update(
            node as int,
            NodeModel { origin, ..old(self)@[node as int] },
        ));
        assert forall|i: int| 0 <= i < self@.len() implies #[trigger] node_wf(self@, i) by {
            assert(node_wf(old(self)@, i));
        }
        node
    }
}

/// Node `nd` with every arena index it holds moved up by `n`.
pub open spec fn shifted<V, M>(nd: NodeModel<V, M>, n: int) -> NodeModel<V, M> {
    NodeModel {
        children: nd.children.map_values(|c: usize| (c + n) as usize),
        parent: (nd.parent + n) as usize,
        ..nd
    }
}

/// The scene `g` after the scene `h` has been attached as the last child of
/// node `p`: the nodes of `h` follow those of `g`, in their own order.
pub open spec fn attached<V, M>(g: Seq<NodeModel<V, M>>, p: int, h: Seq<NodeModel<V, M>>) -> Seq<NodeModel<V, M>> {
    let n = g.len() as int;
    (g.update(p, NodeModel { children: g[p].children.push(n as usize), ..g[p] })
        + h.map_values(|nd: NodeModel<V, M>| shifted(nd, n))).update(
        n,
        NodeModel { parent: p as usize, ..shifted(h[0], n) },
    )
}

impl<V, M> Drawable<V, M> {
    /// Attaches the scene `child` as the last child of node `parent`, taking
    /// ownership of it. Returns the handle of the attached root; the handles of
    /// the nodes already in the scene stay valid.
    pub fn add_child(&mut self, parent: usize, child: Drawable<V, M>) -> (h: usize)
        requires
            old(self).wf(),
            child.wf(),
            parent < old(self)@.len(),
            old(self)@.len() + child@.len() <= usize::MAX,
        ensures
            final(self).wf(),
            h == old(self)@.len(),
            final(self)@ == attached(old(self)@, parent as int, child@),
    {
        let ghost g = self@;
        let ghost ch = child@;
        let n = self.nodes.len();
        let mut nodes = child.nodes;
        let m = nodes.len();
        let mut k: usize = 0;
        while k < m
            invariant
                scene_wf(ch),
                ch.len() == m,
                n + m <= usize::MAX,
                nodes@.len() == m,
                k <= m,
                forall|j: int| 0 <= j < k ==> #[trigger] nodes@[j]@ == shifted(ch[j], n as int),
                forall|j: int| k <= j < m ==> #[trigger] nodes@[j]@ == ch[j],
            decreases m - k,
        {
            assert(node_wf(ch, k as int));
            assert(nodes@[k as int]@ == ch[k as int]);
            let cn = nodes[k].children.len();
            let mut cs: Vec<usize> = Vec::new();
            let mut j: usize = 0;
            while j < cn
                invariant
                    nodes@.len() == m,
                    k < m,
                    n + m <= usize::MAX,
                    node_wf(ch, k as int),
                    nodes@[k as int]@ == ch[k as int],
                    cn == ch[k as int].children.len(),
                    ch.len() == m,
                    j <= cn,
                    cs@ =~= ch[k as int].children.subrange(0, j as int).map_values(|c: usize| (c + n) as usize),
                decreases cn - j,
            {
                let c = nodes[k].children[j];
                assert(c == ch[k as int].children[j as int]);
                cs.push(c + n);
                assert(cs@ =~= ch[k as int].children.subrange(0, j + 1).map_values(|c: usize| (c + n) as usize));
                j = j + 1;
            }
            assert(ch[k as int].children.subrange(0, cn as int) =~= ch[k as int].children);
            nodes[k].children = cs;
            let up = nodes[k].parent;
            nodes[k].parent = up + n;
            assert(nodes@[k as int]@ =~= shifted(ch[k as int], n as int));
            k = k + 1;
        }
        assert(node_wf(ch, 0));
        assert(nodes@[0]@ == shifted(ch[0], n as int));
        nodes[0].parent = parent;
        assert(nodes@[0]@ =~= NodeModel { parent: parent, ..shifted(ch[0], n as int) });
        let ghost nodes_shifted = nodes@;
        self.nodes[parent].children.push(n);
        self.nodes.append(&mut nodes);
        let ghost r = attached(g, parent as int, ch);
        assert forall|j: int| 0 <= j < r.len() implies #[trigger] self@[j] == r[j] by {
            if j > n {
                assert(self.nodes@[j] == nodes_shifted[j - n]);
            } else if j == n {
                assert(self.nodes@[j] == nodes_shifted[0]);
            }
        }
        assert(self@ =~= r);
        assert(node_wf(g, parent as int));
        let ghost p = parent as int;
        assert forall|i: int| 0 <= i < r.len() implies #[trigger] node_wf(r, i) by {
            if i < n {
                assert(node_wf(g, i));
                if i > 0 {
                    let up = g[i].parent as int;
                    let ki = choose|ki: int| 0 <= ki < g[up].children.len() && g[up].children[ki] == i;
                    assert(r[up].children[ki] == i);
                }
                assert forall|k: int| 0 <= k < r[i].children.len() implies
                    r[r[i].children[k] as int].parent == i by {
                    if k < g[i].children.len() {
                        assert(r[i].children[k] == g[i].children[k]);
                    }
                }
            } else if i == n {
                assert(r[p].children[r[p].children.len() - 1] == n);
                assert(node_wf(ch, 0));
                assert(r[i].children == shifted(ch[0], n as int).children);
                assert forall|k: int| 0 <= k < r[i].children.len() implies
                    r[r[i].children[k] as int].parent == i by {
                    let c = ch[0].children[k] as int;
                    assert(node_wf(ch, c));
                    assert(r[c + n] == shifted(ch[c], n as int));
                }
            } else {
                assert(node_wf(ch, i - n));
                let up = ch[i - n].parent as int;
                let ki = choose|ki: int| 0 <= ki < ch[up].children.len() && ch[up].children[ki] == i - n;
                assert(r[up + n].children == shifted(ch[up], n as int).children);
                assert(r[up + n].children[ki] == i);
                assert(r[i].children == shifted(ch[i - n], n as int).children);
                assert forall|k: int| 0 <= k < r[i].children.len() implies
                    r[r[i].children[k] as int].parent == i by {
                    let c = ch[i - n].children[k] as int;
                    assert(node_wf(ch, c));
                    assert(r[c + n] == shifted(ch[c], n as int));
                }
            }
        }
        n
    }
}

impl<V, M> Drawable<V, M> {
    /// Appends to `out` the visits of the subtree of node `i`.
    fn visit(&self, i: usize, depth: usize, parent: usize, out: &mut Vec<Frame>)
        requires
            self.wf(),
            i < self@.len(),
            depth <= i,
        ensures
            final(out)@ == old(out)@ + visits(self@, i as int, depth as int, parent as int, old(out)@.len() as int),
        decreases self@.len() - i,
    {
        let ghost g = self@;
        let start = out.len();
        out.push(Frame { node: i, depth, parent });
        assert(node_wf(g, i as int));
        let n = self.nodes[i].children.len();
        let mut k: usize = 0;
        while k < n
            invariant
                self.wf(),
                g == self@,
                i < g.len(),
                depth <= i,
                node_wf(g, i as int),
                n == g[i as int].children.len(),
                k <= n,
                start == old(out)@.len(),
                out@ == old(out)@ + seq![Frame { node: i, depth, parent }]
                    + visits_children(g, i as int, depth as int, start as int, k as int),
            decreases n - k,
        {
            let c = self.nodes[i].children[k];
            assert(c == g[i as int].children[k as int]);
            self.visit(c, depth + 1, start, out);
            assert(out@ =~= old(out)@ + seq![Frame { node: i, depth, parent }]
                + visits_children(g, i as int, depth as int, start as int, k + 1));
            k = k + 1;
        }
        assert(out@ =~= old(out)@ + visits(g, i as int, depth as int, parent as int, start as int));
    }

    /// The visits of one drawing pass from the root, in drawing order: each
    /// node once its parent has been drawn, and the children of a node in the
    /// order in which they were attached.
    pub fn frames(&self) -> (r: Vec<Frame>)
        requires
            self.wf(),
        ensures
            r@ == visits(self@, 0, 0, 0, 0),
            r@.len() >= 1,
            r@[0] == (Frame { node: 0, depth: 0, parent: 0 }),
            forall|q: int| 0 <= q < r@.len() ==> in_scene(self@, #[trigger] r@[q], 0),
            forall|q: int| 1 <= q < r@.len() ==> #[trigger] linked(self@, r@, 0, q),
    {
        let _ = self.nodes.len();
        let mut out: Vec<Frame> = Vec::new();
        self.visit(0, 0, 0, &mut out);
        assert(out@ =~= visits(self@, 0, 0, 0, 0));
        let _ = out.len();
        proof {
            lemma_visits(self@, 0, 0, 0, 0);
        }
        out
    }
}

impl<V, M> Drawable<V, M> {
    /// The requests that drawing the visits `frames` makes of the surface, in
    /// the order they are made.
    pub fn requests(&self, frames: &Vec<Frame>) -> (r: Vec<Request>)
        requires
            self.wf(),
            forall|k: int| 0 <= k < frames@.len() ==> (#[trigger] frames@[k]).node < self@.len(),
        ensures
            r@ == requests_of(self@, frames@, frames@.len() as int),
    {
        let ghost g = self@;
        let mut out: Vec<Request> = Vec::new();
        let mut k: usize = 0;
        while k < frames.len()
            invariant
                g == self@,
                self.wf(),
                forall|q: int| 0 <= q < frames@.len() ==> (#[trigger] frames@[q]).node < g.len(),
                k <= frames@.len(),
                out@ == requests_of(g, frames@, k as int),
            decreases frames@.len() - k,
        {
            let i = frames[k].node;
            let ghost nd = g[i as int];
            let node = &self.nodes[i];
            assert(node@ == nd);
            let ghost before = out@;
            let nv = node.vertices.len();
            let mut v: usize = 0;
            while v < nv
                invariant
                    node@ == nd,
                    nv == nd.vertices.len(),
                    v <= nv,
                    out@ =~= before + Seq::new(
                        v as nat,
                        |x: int| Request::Marker { frame: k as usize, vertex: x as usize },
                    ),
                decreases nv - v,
            {
                out.push(Request::Marker { frame: k, vertex: v });
                v = v + 1;
            }
            let ne = node.indices.len();
            let mut e: usize = 0;
            while e < ne
                invariant
                    node@ == nd,
                    nv == nd.vertices.len(),
                    ne == nd.indices.len(),
                    e <= ne,
                    out@ =~= before + Seq::new(
                        nv as nat,
                        |x: int| Request::Marker { frame: k as usize, vertex: x as usize },
                    ) + Seq::new(
                        e as nat,
                        |x: int| Request::Line { frame: k as usize, from: nd.indices[x].0, to: nd.indices[x].1 },
                    ),
                decreases ne - e,
            {
                let (a, b) = node.indices[e];
                out.push(Request::Line { frame: k, from: a, to: b });
                e = e + 1;
            }
            assert(out@ =~= requests_of(g, frames@, k + 1));
            k = k + 1;
        }
        out
    }
}

impl<V, M> Drawable<V, M> {
    /// The vertices of node `node`, in its own coordinates.
    pub fn vertices(&self, node: usize) -> (r: &Vec<V>)
        requires
            node < self@.len(),
        ensures
            r@ == self@[node as int].vertices,
    {
        &self.nodes[node].vertices
    }

    /// The edges of node `node`, as pairs of vertex positions.
    pub fn indices(&self, node: usize) -> (r: &Vec<(usize, usize)>)
        requires
            node < self@.len(),
        ensures
            r@ == self@[node as int].indices,
    {
        &self.nodes[node].indices
    }

    /// The rotation of node `node`.
    pub fn rotation(&self, node: usize) -> (r: &M)
        requires
            node < self@.len(),
        ensures
            *r == self@[node as int].rotation,
    {
        &self.nodes[node].rotation
    }

    /// The origin of node `node`.
    pub fn origin(&self, node: usize) -> (r: &V)
        requires
            node < self@.len(),
        ensures
            *r == self@[node as int].origin,
    {
        &self.nodes[node].origin
    }

    /// The handles of the children of node `node`, in the order they were
    /// attached.
    pub fn children(&self, node: usize) -> (r: &Vec<usize>)
        requires
            node < self@.len(),
        ensures
            r@ == self@[node as int].children,
    {
        &self.nodes[node].children
    }
}

} // verus!
