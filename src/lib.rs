//! A scene graph of wireframe objects: an arena of nodes, each with its own
//! geometry, rotation and origin, and an ordered list of owned children.
//! The library decides the shape of the tree, the order in which nodes are
//! visited, the depth of each visit, the visit each one inherits its
//! transform from, and the drawing requests that follow; the arithmetic on
//! coordinates is left to the caller's vector and matrix types.
use vstd::prelude::*;

pub mod laws;
pub mod scene;
pub mod traversal;
