use quickcheck::quickcheck;
use spatial_tree::partition::{Axis, CubeMap, Direction, FracPoint2, Point3, Quad, UnitQuad};
use spatial_tree::{Partition, Subdivide};

fn p(x: i32, y: i32, z: i32) -> Point3 {
    Point3 { x, y, z }
}

fn face(axis: Axis, direction: Direction) -> Quad {
    Quad { axis, direction, flat_quad: UnitQuad::new(0, [0, 0]) }
}

#[test]
fn cubemap_covers_vec3() {
    fn check(x: i32, y: i32, z: i32) -> bool {
        CubeMap::Sphere.contains(&p(x, y, z))
    }
    quickcheck(check as fn(i32, i32, i32) -> bool);
}

#[test]
fn sphere_splits_into_six_faces_once_each() {
    let faces = CubeMap::Sphere.subdivide();
    assert_eq!(faces.len(), 6);
    for axis in [Axis::X, Axis::Y, Axis::Z] {
        for direction in [Direction::Positive, Direction::Negative] {
            let n = faces
                .iter()
                .filter(|c| matches!(c, CubeMap::Quad(q) if q.axis == axis && q.direction == direction))
                .count();
            assert_eq!(n, 1);
        }
    }
    for c in &faces {
        match c {
            CubeMap::Quad(q) => assert_eq!(q.flat_quad, UnitQuad::new(0, [0, 0])),
            CubeMap::Sphere => panic!("a face is a quad"),
        }
    }
    // (1, 0.1, 0.1) scaled by ten
    let v = p(10, 1, 1);
    let holding: Vec<&CubeMap> = faces.iter().filter(|c| c.contains(&v)).collect();
    assert_eq!(holding.len(), 1);
    assert_eq!(*holding[0], CubeMap::Quad(face(Axis::X, Direction::Positive)));
}

#[test]
fn sphere_face_order() {
    let faces = CubeMap::Sphere.subdivide();
    let expected = [
        (Direction::Positive, Axis::X),
        (Direction::Positive, Axis::Y),
        (Direction::Positive, Axis::Z),
        (Direction::Negative, Axis::X),
        (Direction::Negative, Axis::Y),
        (Direction::Negative, Axis::Z),
    ];
    for (c, (d, a)) in faces.iter().zip(expected.iter()) {
        assert_eq!(*c, CubeMap::Quad(face(*a, *d)));
    }
}

#[test]
fn positive_x_quad_axis_permutation() {
    let q = face(Axis::X, Direction::Positive);
    assert!(q.contains(&p(1, 0, 0)));
    assert!(q.contains(&p(5, -5, 5)));
    assert!(!q.contains(&p(5, 6, 0)));
    assert!(!q.contains(&p(-1, 0, 0)));
    assert!(!q.contains(&p(-1000, 1, 1)));
    assert!(!q.contains(&p(0, 0, 0)));
    let nx = face(Axis::X, Direction::Negative);
    assert!(nx.contains(&p(-1, 0, 0)));
    assert!(!nx.contains(&p(0, 0, 0)));
}

#[test]
fn quad_projection_uses_axis_order() {
    // On +Y the cross axes are z then x: (u, w) = ((z/y + 1)/2, (x/y + 1)/2).
    let mut q = face(Axis::Y, Direction::Positive);
    q.flat_quad = UnitQuad::new(1, [1, 0]);
    // z/y = 0.5 -> u = 0.75; x/y = -0.5 -> w = 0.25
    assert!(q.contains(&p(-2, 4, 2)));
    assert!(!q.contains(&p(2, 4, -2)));
    // On -Z a negative z flips the signs of the cross components.
    let mut r = face(Axis::Z, Direction::Negative);
    r.flat_quad = UnitQuad::new(1, [0, 1]);
    // u = (x/z + 1)/2 = (2/-4 + 1)/2 = 0.25; w = (y/z + 1)/2 = (-2/-4 + 1)/2 = 0.75
    assert!(r.contains(&p(2, -2, -4)));
    assert!(!r.contains(&p(-2, 2, -4)));
}

#[test]
fn quad_subdivide_keeps_face() {
    let q = face(Axis::Z, Direction::Negative);
    let children = q.subdivide();
    assert_eq!(children.len(), 4);
    let offsets = [[0, 0], [0, 1], [1, 0], [1, 1]];
    for (c, o) in children.iter().zip(offsets.iter()) {
        assert_eq!(c.axis, Axis::Z);
        assert_eq!(c.direction, Direction::Negative);
        assert_eq!(c.flat_quad, UnitQuad::new(1, *o));
    }
    let wrapped = CubeMap::Quad(q).subdivide();
    assert_eq!(wrapped.len(), 4);
    for (w, c) in wrapped.iter().zip(children.iter()) {
        assert_eq!(*w, CubeMap::Quad(*c));
    }
}

#[test]
fn subdivide_is_deterministic() {
    let q = CubeMap::Quad(Quad {
        axis: Axis::Y,
        direction: Direction::Negative,
        flat_quad: UnitQuad::new(3, [5, 2]),
    });
    assert_eq!(q.subdivide(), q.subdivide());
    assert_eq!(CubeMap::Sphere.subdivide(), CubeMap::Sphere.subdivide());
    assert_eq!(q.contains(&p(1, -7, 3)), q.contains(&p(1, -7, 3)));
}

#[test]
fn point_of_quad_lies_in_exactly_one_child() {
    let q = CubeMap::Quad(face(Axis::X, Direction::Positive));
    let children = q.subdivide();
    for y in -4..=4 {
        for z in -4..=4 {
            let v = p(4, y, z);
            assert!(q.contains(&v));
            let n = children.iter().filter(|c| c.contains(&v)).count();
            assert_eq!(n, 1, "point {:?}", v);
        }
    }
}

#[test]
fn point_outside_quad_lies_in_no_child() {
    let q = CubeMap::Quad(Quad {
        axis: Axis::X,
        direction: Direction::Positive,
        flat_quad: UnitQuad::new(1, [0, 0]),
    });
    let children = q.subdivide();
    for v in [p(4, 4, 4), p(-4, -1, -1), p(4, 0, 0), p(0, 0, 0)] {
        assert!(!q.contains(&v));
        assert!(children.iter().all(|c| !c.contains(&v)));
    }
}

#[test]
fn unit_quad_cells_are_half_open() {
    let root = UnitQuad::root();
    let one = FracPoint2 { u: 1, v: 1, den: 1 };
    let half = FracPoint2 { u: 1, v: 1, den: 2 };
    assert!(root.contains(&one));
    assert!(root.contains(&FracPoint2 { u: 0, v: 0, den: 7 }));
    assert!(!root.contains(&FracPoint2 { u: 8, v: 0, den: 7 }));
    assert!(!root.contains(&FracPoint2 { u: -1, v: 0, den: 7 }));
    assert!(!root.contains(&FracPoint2 { u: 0, v: 0, den: 0 }));
    let children = root.subdivide();
    let holding_one: Vec<&UnitQuad> = children.iter().filter(|c| c.contains(&one)).collect();
    assert_eq!(holding_one, vec![&UnitQuad::new(1, [1, 1])]);
    let holding_half: Vec<&UnitQuad> = children.iter().filter(|c| c.contains(&half)).collect();
    assert_eq!(holding_half, vec![&UnitQuad::new(1, [1, 1])]);
}

#[test]
fn unit_quad_finest_level_does_not_split() {
    assert!(UnitQuad::new(29, [3, 4]).can_split());
    assert!(!UnitQuad::new(30, [0, 0]).can_split());
    assert!(!UnitQuad::new(2, [4, 0]).can_split());
    assert!(!UnitQuad::new(2, [4, 0]).contains(&FracPoint2 { u: 1, v: 0, den: 1 }));
}

#[test]
fn choices_pick_variants() {
    assert_eq!(Direction::from_choice(0), Direction::Positive);
    assert_eq!(Direction::from_choice(7), Direction::Negative);
    assert_eq!(Axis::from_choice(3), Axis::X);
    assert_eq!(Axis::from_choice(4), Axis::Y);
    assert_eq!(Axis::from_choice(8), Axis::Z);
}
