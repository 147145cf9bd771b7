use spatial_tree::partition::{Axis, CubeMap, Direction, Point3, Quad, UnitQuad};
use spatial_tree::{OutsideDomain, PureTree, Subdivide, Tree};

fn p(x: i32, y: i32, z: i32) -> Point3 {
    Point3 { x, y, z }
}

fn add(v: &Vec<Point3>, q: Point3) -> Vec<Point3> {
    let mut w = v.clone();
    w.push(q);
    w
}

#[test]
fn pure_tree_grows_to_depth() {
    let mut t = PureTree::new(CubeMap::Sphere);
    t.subdivide_to(2, |_: &CubeMap| true);
    assert_eq!(t.children.len(), 6);
    for c in &t.children {
        assert_eq!(c.children.len(), 4);
        for g in &c.children {
            assert_eq!(g.children.len(), 0);
        }
    }
    let parts = t.partitions();
    assert_eq!(parts.len(), 1 + 6 + 24);
    assert_eq!(parts[0], CubeMap::Sphere);
    assert_eq!(parts[1], t.children[0].partition);
    assert_eq!(parts[2], t.children[0].children[0].partition);
    assert_eq!(parts[6], t.children[1].partition);
}

#[test]
fn pure_tree_respects_predicate() {
    let mut t = PureTree::new(CubeMap::Sphere);
    let only_positive_x = |c: &CubeMap| match c {
        CubeMap::Sphere => true,
        CubeMap::Quad(q) => q.axis == Axis::X && q.direction == Direction::Positive,
    };
    t.subdivide_to(3, only_positive_x);
    assert_eq!(t.children[0].children.len(), 4);
    assert_eq!(t.children[0].children[0].children.len(), 4);
    assert_eq!(t.children[1].children.len(), 0);
    assert_eq!(t.partitions().len(), 1 + 6 + 4 + 16);
    let mut leaf = PureTree::new(CubeMap::Sphere);
    leaf.subdivide_to(0, |_: &CubeMap| true);
    assert_eq!(leaf.children.len(), 0);
}

#[test]
fn data_tree_insert_then_query() {
    let mut t: Tree<CubeMap, Vec<Point3>> = Tree::new(CubeMap::Sphere, Vec::new());
    t.subdivide_leaf(|_: &Vec<Point3>, _: &CubeMap| Vec::new());
    for c in t.children.iter_mut() {
        c.subdivide_leaf(|_: &Vec<Point3>, _: &CubeMap| Vec::new());
    }
    let v = p(10, 1, 1);
    assert_eq!(t.insert(&v, |s: &Vec<Point3>| add(s, v)), Ok(()));
    assert_eq!(t.query(&v), Some(&vec![v]));
    // the +X face, then its cell holding (u, w) = (0.55, 0.55)
    assert_eq!(t.children[0].children[3].payload, vec![v]);
    let w = p(10, 2, 2);
    assert_eq!(t.insert(&w, |s: &Vec<Point3>| add(s, w)), Ok(()));
    assert_eq!(t.query(&v), Some(&vec![v, w]));
    assert_eq!(t.payload, Vec::new());
}

#[test]
fn data_tree_rejects_outside_element() {
    let root = CubeMap::Quad(Quad {
        axis: Axis::X,
        direction: Direction::Positive,
        flat_quad: UnitQuad::new(0, [0, 0]),
    });
    let mut t: Tree<CubeMap, u32> = Tree::new(root, 0);
    t.subdivide_leaf(|n: &u32, _: &CubeMap| *n);
    let v = p(-3, 0, 0);
    assert_eq!(t.insert(&v, |n: &u32| *n + 1), Err(OutsideDomain));
    assert_eq!(t.query(&v), None);
    for c in &t.children {
        assert_eq!(c.payload, 0);
    }
    // the origin is held by the sphere but by none of its faces
    let mut s: Tree<CubeMap, u32> = Tree::new(CubeMap::Sphere, 0);
    s.subdivide_leaf(|_: &u32, _: &CubeMap| 0);
    assert_eq!(s.insert(&p(0, 0, 0), |n: &u32| *n + 1), Err(OutsideDomain));
}

#[test]
fn data_tree_edge_point_goes_to_first_face() {
    let mut t: Tree<CubeMap, u32> = Tree::new(CubeMap::Sphere, 0);
    t.subdivide_leaf(|_: &u32, _: &CubeMap| 0);
    let edge = p(1, 1, 0);
    assert_eq!(t.insert(&edge, |n: &u32| *n + 1), Ok(()));
    assert_eq!(t.children[0].payload, 1);
    assert_eq!(t.children[1].payload, 0);
    assert_eq!(t.query(&edge), Some(&1));
}

#[test]
fn subdivide_leaf_seeds_children() {
    let mut t: Tree<CubeMap, usize> = Tree::new(CubeMap::Sphere, 7);
    t.subdivide_leaf(|n: &usize, c: &CubeMap| match c {
        CubeMap::Quad(q) if q.axis == Axis::Z => *n,
        _ => 0,
    });
    assert_eq!(t.payload, 7);
    let parts = CubeMap::Sphere.subdivide();
    for (c, part) in t.children.iter().zip(parts.iter()) {
        assert_eq!(c.partition, *part);
        assert!(c.children.is_empty());
    }
    assert_eq!(t.children[2].payload, 7);
    assert_eq!(t.children[5].payload, 7);
    assert_eq!(t.children[0].payload, 0);
}

#[test]
fn payloads_holding_lists_every_node_that_holds() {
    let mut t: Tree<CubeMap, usize> = Tree::new(CubeMap::Sphere, 100);
    t.subdivide_leaf(|_: &usize, _: &CubeMap| 0);
    for (i, c) in t.children.iter_mut().enumerate() {
        c.payload = i + 1;
    }
    // an edge point lies on both +X and +Y
    let edge = p(1, 1, 0);
    assert_eq!(t.payloads_holding(&edge), vec![&100, &1, &2]);
    let inner = p(0, 0, -3);
    assert_eq!(t.payloads_holding(&inner), vec![&100, &6]);
    let origin = p(0, 0, 0);
    assert_eq!(t.payloads_holding(&origin), vec![&100]);
}
