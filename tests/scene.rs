use wireframe::scene::Drawable;
use wireframe::traversal::{Frame, Request};

type Vertex = (f64, f64, f64);
type Rotation = [f64; 9];

const IDENTITY: Rotation = [1.0, 0.0, 0.0, 0.0, 1.0, 0.0, 0.0, 0.0, 1.0];
const ZERO: Vertex = (0.0, 0.0, 0.0);

fn leaf(vertices: Vec<Vertex>, indices: Vec<(usize, usize)>) -> Drawable<Vertex, Rotation> {
    Drawable::new(vertices, indices, IDENTITY, ZERO)
}

fn point() -> Drawable<Vertex, Rotation> {
    leaf(vec![ZERO], vec![])
}

fn cube() -> Drawable<Vertex, Rotation> {
    let vertices = vec![
        (-1.0, -1.0, 1.0),
        (-1.0, 1.0, 1.0),
        (1.0, -1.0, 1.0),
        (1.0, 1.0, 1.0),
        (-1.0, -1.0, -1.0),
        (-1.0, 1.0, -1.0),
        (1.0, -1.0, -1.0),
        (1.0, 1.0, -1.0),
    ];
    let indices = vec![
        (0, 1), (1, 3), (3, 2), (2, 0),
        (4, 5), (5, 7), (7, 6), (6, 4),
        (0, 4), (1, 5), (2, 6), (3, 7),
    ];
    leaf(vertices, indices)
}

fn frame(node: usize, depth: usize, parent: usize) -> Frame {
    Frame { node, depth, parent }
}

#[test]
fn single_node_is_visited_once_at_the_root() {
    let d = cube();
    assert_eq!(d.len(), 1);
    assert_eq!(d.frames(), vec![frame(0, 0, 0)]);
}

#[test]
fn two_vertices_one_edge_give_two_markers_and_one_line() {
    let d = leaf(vec![(3.0, 4.0, 5.0), (-1.0, 2.0, 0.5)], vec![(0, 1)]);
    let frames = d.frames();
    let requests = d.requests(&frames);
    assert_eq!(
        requests,
        vec![
            Request::Marker { frame: 0, vertex: 0 },
            Request::Marker { frame: 0, vertex: 1 },
            Request::Line { frame: 0, from: 0, to: 1 },
        ]
    );
    let v = d.vertices(0);
    assert_eq!(v[0], (3.0, 4.0, 5.0));
    assert_eq!(v[1], (-1.0, 2.0, 0.5));
}

#[test]
fn cube_gives_eight_markers_then_twelve_lines() {
    let d = cube();
    let requests = d.requests(&d.frames());
    assert_eq!(requests.len(), 20);
    for (k, r) in requests.iter().take(8).enumerate() {
        assert_eq!(*r, Request::Marker { frame: 0, vertex: k });
    }
    assert_eq!(requests[8], Request::Line { frame: 0, from: 0, to: 1 });
    assert_eq!(requests[19], Request::Line { frame: 0, from: 3, to: 7 });
}

#[test]
fn grandchild_sits_at_depth_two_and_gets_a_quarter_of_the_size() {
    let mut d = cube();
    let child = d.add_child(0, cube());
    let grandchild = d.add_child(child, cube());
    assert_eq!((child, grandchild), (1, 2));
    let frames = d.frames();
    assert_eq!(frames, vec![frame(0, 0, 0), frame(1, 1, 0), frame(2, 2, 1)]);
    let mut size = 50.0f64;
    for _ in 0..frames[2].depth {
        size /= 2.0;
    }
    assert_eq!(size, 12.5);
}

#[test]
fn attached_children_are_visited_once_each_in_attachment_order() {
    let mut d = cube();
    let mut handles = Vec::new();
    for _ in 0..4 {
        handles.push(d.add_child(0, point()));
    }
    assert_eq!(handles, vec![1, 2, 3, 4]);
    assert_eq!(d.children(0), &handles);
    let frames = d.frames();
    let at_one: Vec<usize> = frames.iter().filter(|f| f.depth == 1).map(|f| f.node).collect();
    assert_eq!(at_one, handles);
    for h in handles.iter() {
        assert_eq!(frames.iter().filter(|f| f.node == *h).count(), 1);
    }
    assert!(frames.iter().skip(1).all(|f| f.parent == 0));
}

#[test]
fn subtree_is_drawn_before_the_next_sibling() {
    let mut branch = point();
    branch.add_child(0, point());
    branch.add_child(0, point());
    let mut d = point();
    let b = d.add_child(0, branch);
    let s = d.add_child(0, point());
    assert_eq!((b, s), (1, 4));
    assert_eq!(d.children(1), &vec![2, 3]);
    assert_eq!(
        d.frames(),
        vec![frame(0, 0, 0), frame(1, 1, 0), frame(2, 2, 1), frame(3, 2, 1), frame(4, 1, 0)]
    );
}

#[test]
fn requests_name_the_position_of_each_visit() {
    let mut d = leaf(vec![ZERO, (1.0, 0.0, 0.0)], vec![(1, 0)]);
    d.add_child(0, leaf(vec![(0.0, 1.0, 0.0)], vec![(0, 0)]));
    let frames = d.frames();
    assert_eq!(
        d.requests(&frames),
        vec![
            Request::Marker { frame: 0, vertex: 0 },
            Request::Marker { frame: 0, vertex: 1 },
            Request::Line { frame: 0, from: 1, to: 0 },
            Request::Marker { frame: 1, vertex: 0 },
            Request::Line { frame: 1, from: 0, to: 0 },
        ]
    );
}

#[test]
fn setters_change_only_the_named_node() {
    let mut d = cube();
    let c = d.add_child(0, cube());
    let turned: Rotation = [0.0, -1.0, 0.0, 1.0, 0.0, 0.0, 0.0, 0.0, 1.0];
    assert_eq!(d.set_rotation(c, turned), c);
    assert_eq!(d.set_origin(c, (200.0, 0.0, 0.0)), c);
    assert_eq!(*d.rotation(c), turned);
    assert_eq!(*d.origin(c), (200.0, 0.0, 0.0));
    assert_eq!(*d.rotation(0), IDENTITY);
    assert_eq!(*d.origin(0), ZERO);
    assert_eq!(d.indices(c).len(), 12);
}

#[test]
fn every_node_is_visited_exactly_once_with_its_parent_first() {
    let mut d = cube();
    for _ in 0..6 {
        let mut arm = cube();
        arm.add_child(0, point());
        let tip = arm.add_child(0, point());
        arm.add_child(tip, point());
        d.add_child(0, arm);
    }
    assert_eq!(d.len(), 1 + 6 * 4);
    let frames = d.frames();
    assert_eq!(frames.len(), d.len());
    for x in 0..d.len() {
        assert_eq!(frames.iter().filter(|f| f.node == x).count(), 1);
    }
    for (k, f) in frames.iter().enumerate().skip(1) {
        assert!(f.parent < k);
        let up = frames[f.parent];
        assert_eq!(f.depth, up.depth + 1);
        assert!(d.children(up.node).contains(&f.node));
    }
    let deepest = frames.iter().map(|f| f.depth).max().unwrap();
    assert_eq!(deepest, 3);
}
