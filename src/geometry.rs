use vstd::prelude::*;

verus! {

/// A point of the plane in fixed-point units.
#[derive(Clone, Copy, Debug, PartialEq, Eq, Structural)]
pub struct Coord {
    pub x: i32,
    pub y: i32,
}

impl Coord {
    pub open spec fn new_spec(x: i32, y: i32) -> Coord {
        Coord { x, y }
    }

    pub fn new(x: i32, y: i32) -> (r: Coord)
        ensures
            r == Coord::new_spec(x, y),
    {
        Coord { x, y }
    }
}

/// The role a relation gives to one of its member ways.
#[derive(Clone, Copy, Debug, PartialEq, Eq, Structural)]
pub enum Role {
    Outer,
    Inner,
    Unknown,
}

/// An open line of a boundary, as a relation lists it.
#[derive(Clone, Debug)]
pub struct Segment {
    pub points: Vec<Coord>,
    pub role: Role,
}

/// Why a relation's boundary could not be assembled.
#[derive(Clone, Copy, Debug, PartialEq, Eq, Structural)]
pub enum BoundaryError {
    /// The segments cannot be closed into rings, or there are none.
    MalformedBoundary,
    /// An inner ring lies in no outer ring.
    UnassignableHole,
    /// The relation yields no polygon at all.
    EmptyBoundary,
}

/// A ring: closed, with at least a triangle and its closing point.
pub open spec fn is_ring(r: Seq<Coord>) -> bool {
    r.len() >= 4 && r[0] == r[r.len() - 1]
}

/// The lines of `segs` as sequences of points.
pub open spec fn lines(segs: Seq<Vec<Coord>>) -> Seq<Seq<Coord>> {
    segs.map_values(|v: Vec<Coord>| v@)
}

/// Copies a line of points.
pub fn copy_points(v: &Vec<Coord>) -> (r: Vec<Coord>)
    ensures
        r@ == v@,
{
    let mut r: Vec<Coord> = Vec::new();
    let mut i: usize = 0;
    while i < v.len()
        invariant
            i <= v.len(),
            r@ == v@.subrange(0, i as int),
        decreases v.len() - i,
    {
        r.push(v[i]);
        i = i + 1;
        proof {
            assert(r@ =~= v@.subrange(0, i as int));
        }
    }
    proof {
        assert(r@ =~= v@);
    }
    r
}

} // verus!
