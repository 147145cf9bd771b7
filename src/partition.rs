//! Partition and subdivision capabilities, and the geometries built on them.

use vstd::prelude::*;

pub mod container;
pub mod unit_quad;
pub mod cubemap;

pub use container::Container;
pub use unit_quad::{UnitQuad, FracPoint2};
pub use cubemap::{Axis, CubeMap, Direction, Point3, Quad};

verus! {

/// A region of some domain over elements of type `E`, given by a pure
/// membership predicate.
pub trait Partition<E>: Sized {
    /// Whether `elem` lies in this region.
    spec fn contains_spec(&self, elem: E) -> bool;

    /// Tests whether `elem` lies in this region.
    fn contains(&self, elem: &E) -> (r: bool)
        ensures
            r == self.contains_spec(*elem),
    ;
}

/// A region that can be split into an ordered sequence of child regions of
/// the same kind.
pub trait Subdivide: Sized {
    /// Whether this value can be split (some geometries stop at a finest level).
    spec fn can_subdivide(&self) -> bool;

    /// Tests whether this value can be split.
    fn can_split(&self) -> (r: bool)
        ensures
            r == self.can_subdivide(),
    ;

    /// The children that splitting this value yields, in order.
    spec fn subdivide_spec(&self) -> Seq<Self>;

    /// Splits this region into its children.
    fn subdivide(&self) -> (r: Vec<Self>)
        requires
            self.can_subdivide(),
        ensures
            r@ == self.subdivide_spec(),
    ;
}

/// Index `i` is the one and only position of `children` whose region holds `elem`.
pub open spec fn sole_container<E, P: Partition<E>>(children: Seq<P>, elem: E, i: int) -> bool {
    &&& 0 <= i < children.len()
    &&& children[i].contains_spec(elem)
    &&& forall|j: int| 0 <= j < children.len() && j != i ==> !#[trigger] children[j].contains_spec(elem)
}

/// No position of `children` holds `elem`.
pub open spec fn none_contains<E, P: Partition<E>>(children: Seq<P>, elem: E) -> bool {
    forall|j: int| 0 <= j < children.len() ==> !#[trigger] children[j].contains_spec(elem)
}

/// Subdividing is a function of the value: equal regions split into equal,
/// equally ordered children.
pub proof fn lemma_subdivide_deterministic<P: Subdivide>(a: P, b: P)
    requires
        a == b,
    ensures
        a.subdivide_spec() == b.subdivide_spec(),
{
}

/// Membership is a function of the region and the element: equal pairs give
/// the same answer.
pub proof fn lemma_contains_deterministic<E, P: Partition<E>>(a: P, b: P, x: E, y: E)
    requires
        a == b,
        x == y,
    ensures
        a.contains_spec(x) == b.contains_spec(y),
{
}

} // verus!
