//! The flat unit square [0,1]², split recursively into quadtree cells.

use vstd::prelude::*;
use crate::partition::{Partition, Subdivide, sole_container, none_contains};

verus! {

/// The finest level a cell can be at; finer cells would not fit the
/// integer arithmetic of the membership test.
pub const MAX_DEPTH: u32 = 30;

/// `2^d`.
pub open spec fn pow2(d: nat) -> nat
    decreases d,
{
    if d == 0 {
        1
    } else {
        2 * pow2((d - 1) as nat)
    }
}

proof fn lemma_pow2_mono(a: nat, b: nat)
    requires
        a <= b,
    ensures
        1 <= pow2(a) <= pow2(b),
    decreases b,
{
    if b > 0 {
        lemma_pow2_mono(if a < b { a } else { (b - 1) as nat }, (b - 1) as nat);
    }
}

proof fn lemma_pow2_max()
    ensures
        pow2(MAX_DEPTH as nat) == 0x4000_0000,
{
    reveal_with_fuel(pow2, 31);
}

/// The side of the cell grid at `depth`, proved equal to `2^depth`.
fn side_len(depth: u32) -> (r: u64)
    requires
        depth <= MAX_DEPTH,
    ensures
        r == pow2(depth as nat),
{
    let mut r: u64 = 1;
    let mut i: u32 = 0;
    while i < depth
        invariant
            i <= depth <= MAX_DEPTH,
            r == pow2(i as nat),
        decreases depth - i,
    {
        proof {
            lemma_pow2_mono((i + 1) as nat, MAX_DEPTH as nat);
            lemma_pow2_max();
        }
        r = r * 2;
        i = i + 1;
    }
    r
}

/// A point of the plane with rational coordinates `(u / den, v / den)`.
#[derive(Clone, Copy, Debug, PartialEq, Eq, Hash, Structural)]
pub struct FracPoint2 {
    /// Numerator of the first coordinate.
    pub u: i64,
    /// Numerator of the second coordinate.
    pub v: i64,
    /// Common denominator; a point is meaningful only when it is positive.
    pub den: i64,
}

/// The coordinate `a / den` lies in cell `o` of a row of `side` equal cells
/// covering [0,1]: the half-open interval `[o / side, (o + 1) / side)`, closed
/// on the right for the last cell so that 1 itself is covered.
pub open spec fn in_cell(o: int, side: int, a: int, den: int) -> bool {
    &&& o * den <= side * a
    &&& (side * a < (o + 1) * den || (o + 1 == side && side * a == (o + 1) * den))
}

/// A cell of the unit square at subdivision level `depth`, with column `x`
/// and row `y`; the level-0 cell is the whole square.
#[derive(Clone, Copy, Debug, PartialEq, Eq, Hash, Structural)]
pub struct UnitQuad {
    /// Subdivision level: the square is cut into `2^depth` cells per side.
    pub depth: u32,
    /// Column of the cell, counted from 0.
    pub x: u64,
    /// Row of the cell, counted from 0.
    pub y: u64,
}

impl UnitQuad {
    /// A cell names a real cell of its level.
    pub open spec fn wf(&self) -> bool {
        &&& self.depth <= MAX_DEPTH
        &&& self.x < pow2(self.depth as nat)
        &&& self.y < pow2(self.depth as nat)
    }

    /// The child of this cell in column half `dx` and row half `dy`.
    pub open spec fn child(&self, dx: int, dy: int) -> UnitQuad {
        UnitQuad {
            depth: (self.depth + 1) as u32,
            x: (2 * self.x + dx) as u64,
            y: (2 * self.y + dy) as u64,
        }
    }

    /// Makes the cell at level `depth` with column `offset[0]` and row `offset[1]`.
    pub fn new(depth: u32, offset: [u64; 2]) -> (r: UnitQuad)
        ensures
            r.depth == depth,
            r.x == offset[0],
            r.y == offset[1],
    {
        UnitQuad { depth, x: offset[0], y: offset[1] }
    }
}

fn in_cell_exec(o: u64, side: u64, a: i64, den: i64) -> (r: bool)
    requires
        o < side <= pow2(MAX_DEPTH as nat),
        den > 0,
    ensures
        r == in_cell(o as int, side as int, a as int, den as int),
{
    proof {
        lemma_pow2_max();
    }
    let o = o as i128;
    let side = side as i128;
    let a = a as i128;
    let den = den as i128;
    assert(-0x4000_0000 * 0x8000_0000_0000_0000 <= side * a <= 0x4000_0000 * 0x8000_0000_0000_0000)
        by (nonlinear_arith)
        requires
            0 < side <= 0x4000_0000,
            -0x8000_0000_0000_0000 <= a < 0x8000_0000_0000_0000,
    ;
    assert(0 <= (o + 1) * den <= 0x4000_0000 * 0x8000_0000_0000_0000) by (nonlinear_arith)
        requires
            0 <= o < 0x4000_0000,
            0 < den < 0x8000_0000_0000_0000,
    ;
    assert(0 <= o * den <= (o + 1) * den) by (nonlinear_arith)
        requires
            0 <= o,
            0 < den,
    ;
    let sa = side * a;
    let lo = o * den;
    let hi = (o + 1) * den;
    lo <= sa && (sa < hi || (o + 1 == side && sa == hi))
}

impl Partition<FracPoint2> for UnitQuad {
    /// A point lies in a well-formed cell when its denominator is positive and
    /// each coordinate lies in the cell's interval of its axis.
    open spec fn contains_spec(&self, p: FracPoint2) -> bool {
        &&& self.wf()
        &&& p.den > 0
        &&& in_cell(self.x as int, pow2(self.depth as nat) as int, p.u as int, p.den as int)
        &&& in_cell(self.y as int, pow2(self.depth as nat) as int, p.v as int, p.den as int)
    }

    fn contains(&self, p: &FracPoint2) -> (r: bool) {
        if self.depth > MAX_DEPTH || p.den <= 0 {
            return false;
        }
        let side = side_len(self.depth);
        if self.x >= side || self.y >= side {
            return false;
        }
        proof {
            lemma_pow2_mono(self.depth as nat, MAX_DEPTH as nat);
        }
        in_cell_exec(self.x, side, p.u, p.den) && in_cell_exec(self.y, side, p.v, p.den)
    }
}

impl Subdivide for UnitQuad {
    /// A well-formed cell above the finest level splits.
    open spec fn can_subdivide(&self) -> bool {
        self.wf() && self.depth < MAX_DEPTH
    }

    /// The four children, by column half then row half.
    open spec fn subdivide_spec(&self) -> Seq<UnitQuad> {
        seq![self.child(0, 0), self.child(0, 1), self.child(1, 0), self.child(1, 1)]
    }

    fn can_split(&self) -> (r: bool) {
        if self.depth >= MAX_DEPTH {
            return false;
        }
        let side = side_len(self.depth);
        self.x < side && self.y < side
    }

    fn subdivide(&self) -> (r: Vec<UnitQuad>) {
        proof {
            lemma_pow2_mono(self.depth as nat, (MAX_DEPTH - 1) as nat);
            reveal_with_fuel(pow2, 30);
        }
        let depth = self.depth + 1;
        let x = 2 * self.x;
        let y = 2 * self.y;
        let mut r: Vec<UnitQuad> = Vec::new();
        r.push(UnitQuad { depth, x, y });
        r.push(UnitQuad { depth, x, y: y + 1 });
        r.push(UnitQuad { depth, x: x + 1, y });
        r.push(UnitQuad { depth, x: x + 1, y: y + 1 });
        assert(r@ =~= self.subdivide_spec());
        r
    }
}

/// Splitting one axis: a coordinate lies in cell `o` of `side` cells exactly
/// when it lies in one of the two halves `2o`, `2o + 1` of the row of
/// `2 * side` cells, and never in both.
proof fn lemma_cell_halves(o: int, side: int, a: int, den: int)
    requires
        0 <= o < side,
        den > 0,
    ensures
        in_cell(o, side, a, den) <==> (in_cell(2 * o, 2 * side, a, den) || in_cell(
            2 * o + 1,
            2 * side,
            a,
            den,
        )),
        !(in_cell(2 * o, 2 * side, a, den) && in_cell(2 * o + 1, 2 * side, a, den)),
{
    assert((2 * side) * a == 2 * (side * a)) by (nonlinear_arith);
    assert((2 * o) * den == 2 * (o * den)) by (nonlinear_arith);
    assert((2 * o + 1) * den == 2 * (o * den) + den) by (nonlinear_arith);
    assert((2 * o + 1 + 1) * den == 2 * (o * den) + 2 * den) by (nonlinear_arith);
    assert((o + 1) * den == o * den + den) by (nonlinear_arith);
}

proof fn lemma_children_cells(q: UnitQuad)
    requires
        q.can_subdivide(),
    ensures
        forall|dx: int, dy: int|
            0 <= dx < 2 && 0 <= dy < 2 ==> {
                let c = #[trigger] q.child(dx, dy);
                &&& c.wf()
                &&& c.x == 2 * q.x + dx
                &&& c.y == 2 * q.y + dy
                &&& pow2(c.depth as nat) == 2 * pow2(q.depth as nat)
            },
{
    lemma_pow2_mono(q.depth as nat, (MAX_DEPTH - 1) as nat);
    lemma_pow2_max();
    assert(pow2((q.depth + 1) as nat) == 2 * pow2(q.depth as nat));
}

impl UnitQuad {
    /// The whole unit square: the level-0 cell.
    pub fn root() -> (r: UnitQuad)
        ensures
            r.depth == 0 && r.x == 0 && r.y == 0,
            r.wf(),
    {
        UnitQuad::new(0, [0, 0])
    }
}

/// The level-0 cell holds every point of the closed unit square.
pub proof fn lemma_root_covers(p: FracPoint2)
    requires
        p.den > 0,
        0 <= p.u <= p.den,
        0 <= p.v <= p.den,
    ensures
        (UnitQuad { depth: 0, x: 0, y: 0 }).contains_spec(p),
{
    assert(pow2(0) == 1);
}

/// A point of a cell lies in exactly one of the cell's four children.
pub proof fn lemma_subdivide_sound(q: UnitQuad, p: FracPoint2)
    requires
        q.can_subdivide(),
        q.contains_spec(p),
    ensures
        exists|i: int| sole_container(q.subdivide_spec(), p, i),
{
    let side = pow2(q.depth as nat) as int;
    lemma_children_cells(q);
    lemma_cell_halves(q.x as int, side, p.u as int, p.den as int);
    lemma_cell_halves(q.y as int, side, p.v as int, p.den as int);
    let s = q.subdivide_spec();
    let dx: int = if in_cell(2 * q.x, 2 * side, p.u as int, p.den as int) { 0 } else { 1 };
    let dy: int = if in_cell(2 * q.y, 2 * side, p.v as int, p.den as int) { 0 } else { 1 };
    let c00 = q.child(0, 0);
    let c01 = q.child(0, 1);
    let c10 = q.child(1, 0);
    let c11 = q.child(1, 1);
    assert(sole_container(s, p, 2 * dx + dy));
}

/// A point outside a cell lies in none of its children.
pub proof fn lemma_subdivide_closed(q: UnitQuad, p: FracPoint2)
    requires
        q.can_subdivide(),
        !q.contains_spec(p),
    ensures
        none_contains(q.subdivide_spec(), p),
{
    let side = pow2(q.depth as nat) as int;
    lemma_children_cells(q);
    if p.den > 0 {
        lemma_cell_halves(q.x as int, side, p.u as int, p.den as int);
        lemma_cell_halves(q.y as int, side, p.v as int, p.den as int);
    }
    let c00 = q.child(0, 0);
    let c01 = q.child(0, 1);
    let c10 = q.child(1, 0);
    let c11 = q.child(1, 1);
}

} // verus!
