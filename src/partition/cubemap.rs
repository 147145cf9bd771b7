//! Cubemap partition of 3-space directions: the sphere of directions is
//! projected onto the six faces of a cube, and each face is split as a flat
//! unit square.

use vstd::prelude::*;
use crate::partition::{Partition, Subdivide, sole_container, none_contains};
use crate::partition::unit_quad::{
    UnitQuad, in_cell, FracPoint2, pow2, lemma_subdivide_sound as lemma_flat_sound,
    lemma_subdivide_closed as lemma_flat_closed,
};

verus! {

/// Whether we move in positive or negative direction along some axis, i.e.
/// +X vs -X, +Y vs -Y etc.
#[derive(Clone, Copy, Debug, PartialEq, Eq, Hash, Structural)]
pub enum Direction {
    /// Positive direction
    Positive,
    /// Negative direction
    Negative,
}

impl Direction {
    /// Picks a direction from a number: even numbers are positive, odd ones
    /// negative.
    pub fn from_choice(n: u64) -> (r: Direction)
        ensures
            r == (if n % 2 == 0 { Direction::Positive } else { Direction::Negative }),
    {
        if n % 2 == 0 {
            Direction::Positive
        } else {
            Direction::Negative
        }
    }
}

/// A coordinate axis
#[derive(Clone, Copy, Debug, PartialEq, Eq, Hash, Structural)]
pub enum Axis {
    /// X-axis
    X,
    /// Y-axis
    Y,
    /// Z-axis
    Z,
}

impl Axis {
    /// Picks an axis from a number by its remainder modulo 3: X, Y, then Z.
    pub fn from_choice(n: u64) -> (r: Axis)
        ensures
            r == (if n % 3 == 0 {
                Axis::X
            } else if n % 3 == 1 {
                Axis::Y
            } else {
                Axis::Z
            }),
    {
        let k = n % 3;
        if k == 0 {
            Axis::X
        } else if k == 1 {
            Axis::Y
        } else {
            Axis::Z
        }
    }
}

/// A point of 3-space with integer coordinates. The cubemap only looks at
/// the direction of a point from the origin, so any rational direction has
/// such a representative.
#[derive(Clone, Copy, Debug, PartialEq, Eq, Hash, Structural)]
pub struct Point3 {
    /// First coordinate.
    pub x: i32,
    /// Second coordinate.
    pub y: i32,
    /// Third coordinate.
    pub z: i32,
}

/// The components of `v` in the order that `axis` selects: the component
/// along the axis first, then the two across it (X: x, y, z; Y: y, z, x;
/// Z: z, x, y).
pub open spec fn axis_components(axis: Axis, v: Point3) -> (int, int, int) {
    match axis {
        Axis::X => (v.x as int, v.y as int, v.z as int),
        Axis::Y => (v.y as int, v.z as int, v.x as int),
        Axis::Z => (v.z as int, v.x as int, v.y as int),
    }
}

/// A component along an axis points the way of `direction`, strictly.
pub open spec fn faces(direction: Direction, c: int) -> bool {
    match direction {
        Direction::Positive => c > 0,
        Direction::Negative => c < 0,
    }
}

/// Where the ray through `v` meets the face of the cube normal to `axis`, in
/// that face's [0,1]² coordinates: `((v_j / v_i + 1) / 2, (v_k / v_i + 1) / 2)`,
/// written over the positive denominator `2 |v_i|`. Meaningful when `v_i != 0`.
pub open spec fn face_point(axis: Axis, v: Point3) -> FracPoint2 {
    let (vi, vj, vk) = axis_components(axis, v);
    if vi > 0 {
        FracPoint2 { u: (vj + vi) as i64, v: (vk + vi) as i64, den: (2 * vi) as i64 }
    } else {
        FracPoint2 { u: (-vj - vi) as i64, v: (-vk - vi) as i64, den: (-2 * vi) as i64 }
    }
}

/// A quad-shaped partition of a side of a cubemap
#[derive(Clone, Copy, Debug, PartialEq, Eq, Hash, Structural)]
pub struct Quad {
    /// Normal axis of the quad normal
    pub axis: Axis,
    /// Direction of the quad normal along the axis
    pub direction: Direction,
    /// Embedded flat unit quad
    pub flat_quad: UnitQuad,
}

impl Quad {
    /// The same face patch with another flat cell.
    pub open spec fn with_flat(&self, f: UnitQuad) -> Quad {
        Quad { axis: self.axis, direction: self.direction, flat_quad: f }
    }
}

impl Partition<Point3> for Quad {
    /// The point lies on this quad's side of the cube (its component along the
    /// axis is strictly of the quad's sign) and its projection onto the face
    /// lies in the flat cell.
    open spec fn contains_spec(&self, v: Point3) -> bool {
        &&& faces(self.direction, axis_components(self.axis, v).0)
        &&& self.flat_quad.contains_spec(face_point(self.axis, v))
    }

    fn contains(&self, v: &Point3) -> (r: bool) {
        let (vi, vj, vk) = match self.axis {
            Axis::X => (v.x, v.y, v.z),
            Axis::Y => (v.y, v.z, v.x),
            Axis::Z => (v.z, v.x, v.y),
        };
        let facing = match self.direction {
            Direction::Positive => vi > 0,
            Direction::Negative => vi < 0,
        };
        if !facing {
            return false;
        }
        assert((vi as int, vj as int, vk as int) == axis_components(self.axis, *v));
        let vi = vi as i64;
        let vj = vj as i64;
        let vk = vk as i64;
        let p = if vi > 0 {
            FracPoint2 { u: vj + vi, v: vk + vi, den: 2 * vi }
        } else {
            FracPoint2 { u: -vj - vi, v: -vk - vi, den: 2 * (0 - vi) }
        };
        assert(p == face_point(self.axis, *v));
        self.flat_quad.contains(&p)
    }
}

impl Subdivide for Quad {
    open spec fn can_subdivide(&self) -> bool {
        self.flat_quad.can_subdivide()
    }

    /// The flat cell's children, each on the same face.
    open spec fn subdivide_spec(&self) -> Seq<Quad> {
        self.flat_quad.subdivide_spec().map_values(|f: UnitQuad| self.with_flat(f))
    }

    fn can_split(&self) -> (r: bool) {
        self.flat_quad.can_split()
    }

    fn subdivide(&self) -> (r: Vec<Quad>) {
        let flat = self.flat_quad.subdivide();
        let mut r: Vec<Quad> = Vec::new();
        let mut i: usize = 0;
        while i < flat.len()
            invariant
                i <= flat.len(),
                flat@ == self.flat_quad.subdivide_spec(),
                r@ =~= flat@.take(i as int).map_values(|f: UnitQuad| self.with_flat(f)),
            decreases flat.len() - i,
        {
            r.push(Quad { axis: self.axis, direction: self.direction, flat_quad: flat[i] });
            i = i + 1;
            assert(r@ =~= flat@.take(i as int).map_values(|f: UnitQuad| self.with_flat(f)));
        }
        assert(flat@.take(i as int) =~= flat@);
        r
    }
}

/// A cubemap partition of a 3-vector space
///
/// This has no radial partitioning, as it is intended mainly for the surface
/// of a 2-sphere. It is either the full spherical dome or some subdivision
/// stage on one of the six quad-shaped sides obtained by projecting the
/// sphere onto a cube.
#[derive(Clone, Copy, Debug, PartialEq, Eq, Hash, Structural)]
pub enum CubeMap {
    /// The full sphere
    Sphere,
    /// A quad-based subdivision
    Quad(Quad),
}

/// The face of the cube with normal `axis` pointing along `direction`,
/// carrying the whole unit square.
pub open spec fn face(direction: Direction, axis: Axis) -> CubeMap {
    CubeMap::Quad(Quad { axis, direction, flat_quad: UnitQuad { depth: 0, x: 0, y: 0 } })
}

/// The six faces in the order the sphere splits into them.
pub open spec fn sphere_faces() -> Seq<CubeMap> {
    seq![
        face(Direction::Positive, Axis::X),
        face(Direction::Positive, Axis::Y),
        face(Direction::Positive, Axis::Z),
        face(Direction::Negative, Axis::X),
        face(Direction::Negative, Axis::Y),
        face(Direction::Negative, Axis::Z),
    ]
}

impl Partition<Point3> for CubeMap {
    /// The sphere holds every point; a quad defers to its face patch.
    open spec fn contains_spec(&self, v: Point3) -> bool {
        match self {
            CubeMap::Sphere => true,
            CubeMap::Quad(q) => q.contains_spec(v),
        }
    }

    fn contains(&self, v: &Point3) -> (r: bool) {
        match self {
            CubeMap::Sphere => true,
            CubeMap::Quad(q) => q.contains(v),
        }
    }
}

impl Subdivide for CubeMap {
    /// The sphere always splits; a quad splits when its flat cell does.
    open spec fn can_subdivide(&self) -> bool {
        match self {
            CubeMap::Sphere => true,
            CubeMap::Quad(q) => q.can_subdivide(),
        }
    }

    /// The sphere splits into its six faces; a quad into its children,
    /// wrapped back into the cubemap.
    open spec fn subdivide_spec(&self) -> Seq<CubeMap> {
        match self {
            CubeMap::Sphere => sphere_faces(),
            CubeMap::Quad(q) => q.subdivide_spec().map_values(|c: Quad| CubeMap::Quad(c)),
        }
    }

    fn can_split(&self) -> (r: bool) {
        match self {
            CubeMap::Sphere => true,
            CubeMap::Quad(q) => q.can_split(),
        }
    }

    fn subdivide(&self) -> (r: Vec<CubeMap>) {
        match self {
            CubeMap::Sphere => {
                let pairs = [
                    (Direction::Positive, Axis::X),
                    (Direction::Positive, Axis::Y),
                    (Direction::Positive, Axis::Z),
                    (Direction::Negative, Axis::X),
                    (Direction::Negative, Axis::Y),
                    (Direction::Negative, Axis::Z),
                ];
                let mut r: Vec<CubeMap> = Vec::new();
                let mut i: usize = 0;
                while i < 6
                    invariant
                        i <= 6,
                        forall|k: int| 0 <= k < 6 ==> #[trigger] face(pairs[k].0, pairs[k].1) == sphere_faces()[k],
                        r@ =~= sphere_faces().take(i as int),
                    decreases 6 - i,
                {
                    let (dir, ax) = pairs[i];
                    r.push(CubeMap::Quad(Quad { axis: ax, direction: dir, flat_quad: UnitQuad::new(0, [0, 0]) }));
                    i = i + 1;
                    assert(r@ =~= sphere_faces().take(i as int));
                }
                assert(sphere_faces().take(6) =~= sphere_faces());
                r
            },
            CubeMap::Quad(q) => {
                let qs = q.subdivide();
                let mut r: Vec<CubeMap> = Vec::new();
                let mut i: usize = 0;
                while i < qs.len()
                    invariant
                        i <= qs.len(),
                        qs@ == q.subdivide_spec(),
                        r@ =~= qs@.take(i as int).map_values(|c: Quad| CubeMap::Quad(c)),
                    decreases qs.len() - i,
                {
                    r.push(CubeMap::Quad(qs[i]));
                    i = i + 1;
                    assert(r@ =~= qs@.take(i as int).map_values(|c: Quad| CubeMap::Quad(c)));
                }
                assert(qs@.take(i as int) =~= qs@);
                r
            },
        }
    }
}

/// Absolute value.
pub open spec fn abs(a: int) -> int {
    if a < 0 {
        -a
    } else {
        a
    }
}

/// One component of `v` is strictly larger in magnitude than the other two:
/// the point lies inside one face of the cube and not on an edge between
/// faces (nor is it the origin).
pub open spec fn dominant_unique(v: Point3) -> bool {
    let (x, y, z) = (abs(v.x as int), abs(v.y as int), abs(v.z as int));
    (x > y && x > z) || (y > x && y > z) || (z > x && z > y)
}

/// A whole face holds exactly the points on its side whose two cross
/// components are no larger in magnitude than the one along its axis.
proof fn lemma_face_contains(direction: Direction, axis: Axis, v: Point3)
    ensures
        face(direction, axis).contains_spec(v) <==> {
            let c = axis_components(axis, v);
            faces(direction, c.0) && abs(c.1) <= abs(c.0) && abs(c.2) <= abs(c.0)
        },
{
    let c = axis_components(axis, v);
    let fp = face_point(axis, v);
    let root = UnitQuad { depth: 0, x: 0, y: 0 };
    assert(pow2(0) == 1);
    assert(root.wf());
    if c.0 != 0 {
        assert(fp.den == 2 * abs(c.0));
        assert(fp.u == abs(c.0) + (if c.0 > 0 { c.1 } else { -c.1 }));
        assert(fp.v == abs(c.0) + (if c.0 > 0 { c.2 } else { -c.2 }));
        assert(in_cell(0, 1, fp.u as int, fp.den as int) <==> 0 <= fp.u <= fp.den);
        assert(in_cell(0, 1, fp.v as int, fp.den as int) <==> 0 <= fp.v <= fp.den);
    }
}

proof fn lemma_sphere_faces(v: Point3)
    ensures
        forall|k: int|
            0 <= k < 6 ==> ((#[trigger] sphere_faces()[k]).contains_spec(v) <==> match sphere_faces()[k] {
                CubeMap::Quad(q) => {
                    let c = axis_components(q.axis, v);
                    faces(q.direction, c.0) && abs(c.1) <= abs(c.0) && abs(c.2) <= abs(c.0)
                },
                CubeMap::Sphere => false,
            }),
{
    lemma_face_contains(Direction::Positive, Axis::X, v);
    lemma_face_contains(Direction::Positive, Axis::Y, v);
    lemma_face_contains(Direction::Positive, Axis::Z, v);
    lemma_face_contains(Direction::Negative, Axis::X, v);
    lemma_face_contains(Direction::Negative, Axis::Y, v);
    lemma_face_contains(Direction::Negative, Axis::Z, v);
}

/// The sphere, the root of the cubemap, holds every point.
pub proof fn lemma_sphere_covers(v: Point3)
    ensures
        CubeMap::Sphere.contains_spec(v),
{
}

/// Every point but the origin lies on at least one of the sphere's six faces.
pub proof fn lemma_faces_cover(v: Point3)
    requires
        v.x != 0 || v.y != 0 || v.z != 0,
    ensures
        exists|i: int| 0 <= i < 6 && (#[trigger] CubeMap::Sphere.subdivide_spec()[i]).contains_spec(v),
{
    lemma_sphere_faces(v);
    let (x, y, z) = (abs(v.x as int), abs(v.y as int), abs(v.z as int));
    let s = CubeMap::Sphere.subdivide_spec();
    let i: int = if x >= y && x >= z {
        if v.x > 0 { 0 } else { 3 }
    } else if y >= z {
        if v.y > 0 { 1 } else { 4 }
    } else {
        if v.z > 0 { 2 } else { 5 }
    };
    assert(s[i].contains_spec(v));
}

/// A point of a quad lies in exactly one of the quad's children.
proof fn lemma_quad_sound(q: Quad, v: Point3)
    requires
        q.can_subdivide(),
        q.contains_spec(v),
    ensures
        exists|i: int| sole_container(q.subdivide_spec(), v, i),
{
    let fp = face_point(q.axis, v);
    lemma_flat_sound(q.flat_quad, fp);
    let i = choose|i: int| sole_container(q.flat_quad.subdivide_spec(), fp, i);
    let fs = q.flat_quad.subdivide_spec();
    assert forall|j: int| 0 <= j < fs.len() implies
        (#[trigger] q.subdivide_spec()[j]).contains_spec(v) == fs[j].contains_spec(fp) by {}
    assert(sole_container(q.subdivide_spec(), v, i));
}

/// A point outside a quad lies in none of its children.
proof fn lemma_quad_closed(q: Quad, v: Point3)
    requires
        q.can_subdivide(),
        !q.contains_spec(v),
    ensures
        none_contains(q.subdivide_spec(), v),
{
    let fp = face_point(q.axis, v);
    let fs = q.flat_quad.subdivide_spec();
    if faces(q.direction, axis_components(q.axis, v).0) {
        lemma_flat_closed(q.flat_quad, fp);
        assert forall|j: int| 0 <= j < fs.len() implies
            !(#[trigger] q.subdivide_spec()[j]).contains_spec(v) by {
            assert(!fs[j].contains_spec(fp));
        }
    } else {
        assert forall|j: int| 0 <= j < fs.len() implies
            !(#[trigger] q.subdivide_spec()[j]).contains_spec(v) by {
            assert(q.subdivide_spec()[j].direction == q.direction);
        }
    }
}

/// A point of a partition lies in exactly one of its children. For the
/// sphere this asks that the point not lie on an edge between faces: such a
/// point lies on every face that meets there.
pub proof fn lemma_subdivide_sound(p: CubeMap, v: Point3)
    requires
        p.can_subdivide(),
        p.contains_spec(v),
        p is Quad || dominant_unique(v),
    ensures
        exists|i: int| sole_container(p.subdivide_spec(), v, i),
{
    match p {
        CubeMap::Sphere => {
            lemma_sphere_faces(v);
            let s = sphere_faces();
            let (x, y, z) = (abs(v.x as int), abs(v.y as int), abs(v.z as int));
            let i: int = if x > y && x > z {
                if v.x > 0 { 0 } else { 3 }
            } else if y > x && y > z {
                if v.y > 0 { 1 } else { 4 }
            } else {
                if v.z > 0 { 2 } else { 5 }
            };
            assert(sole_container(s, v, i));
        },
        CubeMap::Quad(q) => {
            lemma_quad_sound(q, v);
            let i = choose|i: int| sole_container(q.subdivide_spec(), v, i);
            assert(sole_container(p.subdivide_spec(), v, i));
        },
    }
}

/// A point outside a partition lies in none of its children.
pub proof fn lemma_subdivide_closed(p: CubeMap, v: Point3)
    requires
        p.can_subdivide(),
        !p.contains_spec(v),
    ensures
        none_contains(p.subdivide_spec(), v),
{
    match p {
        CubeMap::Sphere => {},
        CubeMap::Quad(q) => {
            lemma_quad_closed(q, v);
            assert forall|j: int| 0 <= j < p.subdivide_spec().len() implies
                !(#[trigger] p.subdivide_spec()[j]).contains_spec(v) by {
                assert(!q.subdivide_spec()[j].contains_spec(v));
            }
        },
    }
}

/// The axis permutation of the +X face: a point with positive x whose face
/// projection lies in the flat cell is held, and a point with negative x is
/// never held, whatever its other coordinates.
pub proof fn lemma_positive_x_quad(flat_quad: UnitQuad, v: Point3)
    ensures
        ({
            let q = Quad { axis: Axis::X, direction: Direction::Positive, flat_quad };
            &&& v.x > 0 ==> face_point(Axis::X, v).u == v.y + v.x && face_point(Axis::X, v).v
                == v.z + v.x && face_point(Axis::X, v).den == 2 * v.x
            &&& v.x > 0 && flat_quad.contains_spec(face_point(Axis::X, v)) ==> q.contains_spec(v)
            &&& v.x > 0 && abs(v.y as int) <= v.x && abs(v.z as int) <= v.x && flat_quad == UnitQuad {
                depth: 0,
                x: 0,
                y: 0,
            } ==> q.contains_spec(v)
            &&& v.x < 0 ==> !q.contains_spec(v)
        }),
{
    lemma_face_contains(Direction::Positive, Axis::X, v);
}

} // verus!
