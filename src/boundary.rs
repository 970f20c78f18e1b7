use vstd::prelude::*;

use crate::geometry::{copy_points, is_ring, lines, BoundaryError, Coord, Role, Segment};
use crate::polygons::{
    lemma_orient,
    orient,
    orient_ring,
    all_rings,
    as_ints,
    orphans,
    assemble_polygons,
    holes_of,
    inside,
    lemma_holes_are_rings,
    lemma_shells_in_range,
    shells,
    Polygon,
};
use crate::rings::{assemble_rings, assembled};

verus! {

/// The polygons of one relation, as one feature.
#[derive(Clone, Debug)]
pub struct MultiPolygon {
    pub relation_id: i64,
    pub name: String,
    pub polygons: Vec<Polygon>,
}

/// Whether every polygon is made of closed rings, with each hole's first
/// point inside its outer ring.
pub open spec fn well_formed_polygons(ps: Seq<Polygon>) -> bool {
    forall|m: int|
        0 <= m < ps.len() ==> {
            &&& is_ring((#[trigger] ps[m]).outer_line())
            &&& forall|h: int|
                0 <= h < ps[m].hole_lines().len() ==> is_ring(ps[m].hole_lines()[h]) && inside(
                    ps[m].hole_lines()[h][0],
                    ps[m].outer_line(),
                )
        }
}

/// Holes turned clockwise.
pub open spec fn holes_cw(hs: Seq<Seq<Coord>>) -> Seq<Seq<Coord>> {
    hs.map_values(|h: Seq<Coord>| orient(h, false))
}

/// A polygon as GeoJSON wants it: its outer ring counter-clockwise, its
/// holes clockwise.
fn orient_polygon(p: &Polygon) -> (r: Polygon)
    ensures
        r.outer_line() == orient(p.outer_line(), true),
        r.hole_lines() == holes_cw(p.hole_lines()),
{
    let outer = orient_ring(&p.outer, true);
    let mut holes: Vec<Vec<Coord>> = Vec::new();
    let mut i: usize = 0;
    while i < p.holes.len()
        invariant
            i <= p.holes@.len(),
            lines(holes@) == holes_cw(p.hole_lines()).subrange(0, i as int),
        decreases p.holes.len() - i,
    {
        let ghost prev = lines(holes@);
        holes.push(orient_ring(&p.holes[i], false));
        i = i + 1;
        proof {
            assert(lines(holes@) =~= prev.push(orient(p.holes@[i - 1]@, false)));
            assert(lines(holes@) =~= holes_cw(p.hole_lines()).subrange(0, i as int));
        }
    }
    proof {
        assert(lines(holes@) =~= holes_cw(p.hole_lines()));
    }
    Polygon { outer, holes }
}

impl MultiPolygon {
    /// Gathers the polygons of a relation, each turned the way GeoJSON
    /// wants it (outer rings counter-clockwise, holes clockwise); a relation
    /// without polygons is an empty boundary.
    pub fn build(relation_id: i64, name: String, polygons: Vec<Polygon>) -> (r: Result<
        MultiPolygon,
        BoundaryError,
    >)
        ensures
            polygons@.len() == 0 <==> r == Err::<MultiPolygon, BoundaryError>(
                BoundaryError::EmptyBoundary,
            ),
            r matches Err(e) ==> e == BoundaryError::EmptyBoundary,
            r matches Ok(mp) ==> {
                &&& mp.relation_id == relation_id
                &&& mp.name@ == name@
                &&& mp.polygons@.len() == polygons@.len()
                &&& forall|m: int|
                    0 <= m < polygons@.len() ==> (#[trigger] mp.polygons@[m]).outer_line()
                        == orient(polygons@[m].outer_line(), true) && mp.polygons@[m].hole_lines()
                        == holes_cw(polygons@[m].hole_lines())
            },
    {
        if polygons.len() == 0 {
            return Err(BoundaryError::EmptyBoundary);
        }
        let mut out: Vec<Polygon> = Vec::new();
        let mut i: usize = 0;
        while i < polygons.len()
            invariant
                i <= polygons@.len(),
                out@.len() == i,
                forall|m: int|
                    0 <= m < i ==> (#[trigger] out@[m]).outer_line() == orient(
                        polygons@[m].outer_line(),
                        true,
                    ) && out@[m].hole_lines() == holes_cw(polygons@[m].hole_lines()),
            decreases polygons.len() - i,
        {
            out.push(orient_polygon(&polygons[i]));
            i = i + 1;
        }
        Ok(MultiPolygon { relation_id, name, polygons: out })
    }
}

/// A relation's assembled boundary, and the number of holes that had to be
/// dropped because no outer ring holds them.
#[derive(Clone, Debug)]
pub struct Boundary {
    pub shape: MultiPolygon,
    pub dropped_holes: usize,
}

/// The lines of the first `k` segments that have role `role`, in order.
pub open spec fn of_role(segs: Seq<Segment>, role: Role, k: int) -> Seq<Seq<Coord>>
    decreases k,
{
    if k <= 0 {
        Seq::empty()
    } else if segs[k - 1].role == role {
        of_role(segs, role, k - 1).push(segs[k - 1].points@)
    } else {
        of_role(segs, role, k - 1)
    }
}

/// The rings closed from the segments of one role (none without such
/// segments), or nothing when they do not close.
pub open spec fn role_rings(segs: Seq<Segment>, role: Role) -> Option<Seq<Seq<Coord>>> {
    let g = of_role(segs, role, segs.len() as int);
    if g.len() == 0 {
        Some(Seq::empty())
    } else {
        assembled(g)
    }
}

/// The rings of a relation, outer ones first, then inner ones, then those
/// without a role, each with its role; nothing when some do not close.
pub open spec fn relation_rings(segs: Seq<Segment>) -> Option<(Seq<Seq<Coord>>, Seq<Role>)> {
    match (
        role_rings(segs, Role::Outer),
        role_rings(segs, Role::Inner),
        role_rings(segs, Role::Unknown),
    ) {
        (Some(a), Some(b), Some(c)) => Some(
            (
                a + b + c,
                Seq::new(a.len(), |i: int| Role::Outer) + Seq::new(b.len(), |i: int| Role::Inner)
                    + Seq::new(c.len(), |i: int| Role::Unknown),
            ),
        ),
        _ => None,
    }
}

/// Copies the lines of the segments that have role `role`.
fn lines_of_role(segments: &Vec<Segment>, role: Role) -> (r: Vec<Vec<Coord>>)
    ensures
        lines(r@) == of_role(segments@, role, segments@.len() as int),
{
    let mut r: Vec<Vec<Coord>> = Vec::new();
    let mut i: usize = 0;
    while i < segments.len()
        invariant
            i <= segments@.len(),
            lines(r@) == of_role(segments@, role, i as int),
        decreases segments.len() - i,
    {
        if segments[i].role == role {
            r.push(copy_points(&segments[i].points));
        }
        i = i + 1;
        proof {
            assert(lines(r@) =~= of_role(segments@, role, i as int));
        }
    }
    r
}

/// The rings of one role: Verus then knows them as `role_rings`.
fn rings_of_role(segments: &Vec<Segment>, role: Role) -> (r: Result<Vec<Vec<Coord>>, BoundaryError>)
    ensures
        r is Ok <==> role_rings(segments@, role) is Some,
        r matches Ok(v) ==> role_rings(segments@, role) == Some(lines(v@)) && all_rings(v@),
        r matches Err(e) ==> e == BoundaryError::MalformedBoundary,
{
    let group = lines_of_role(segments, role);
    if group.len() == 0 {
        let v: Vec<Vec<Coord>> = Vec::new();
        proof {
            assert(lines(v@) =~= Seq::empty());
        }
        return Ok(v);
    }
    assemble_rings(&group)
}

/// Moves the rings of one role onto the list of all rings.
fn add_rings(all: &mut Vec<Vec<Coord>>, roles: &mut Vec<Role>, group: &Vec<Vec<Coord>>, role: Role)
    requires
        old(all)@.len() == old(roles)@.len(),
        all_rings(old(all)@),
        all_rings(group@),
    ensures
        final(all)@.len() == final(roles)@.len(),
        all_rings(final(all)@),
        lines(final(all)@) == lines(old(all)@) + lines(group@),
        final(roles)@ == old(roles)@ + Seq::new(group@.len(), |i: int| role),
{
    let mut i: usize = 0;
    while i < group.len()
        invariant
            all@.len() == roles@.len(),
            all_rings(all@),
            all_rings(group@),
            i <= group@.len(),
            lines(all@) == lines(old(all)@) + lines(group@).subrange(0, i as int),
            roles@ == old(roles)@ + Seq::new(i as nat, |k: int| role),
        decreases group.len() - i,
    {
        assert(is_ring(group@[i as int]@));
        let ghost prev = lines(all@);
        all.push(copy_points(&group[i]));
        roles.push(role);
        i = i + 1;
        proof {
            assert(lines(all@) =~= prev.push(group@[i - 1]@));
            assert(lines(group@).subrange(0, i as int) =~= lines(group@).subrange(
                0,
                i - 1,
            ).push(group@[i - 1]@));
            assert(is_ring(all@[all@.len() - 1]@));
            assert forall|k: int| 0 <= k < all@.len() implies is_ring(#[trigger] all@[k]@) by {}
            assert(lines(all@) =~= lines(old(all)@) + lines(group@).subrange(0, i as int));
            assert(roles@ =~= old(roles)@ + Seq::new(i as nat, |k: int| role));
        }
    }
    proof {
        assert(lines(group@).subrange(0, i as int) =~= lines(group@));
    }
}

/// Assembles the boundary of one relation from its member segments.
///
/// The segments of each role are stitched into rings on their own; the
/// rings (outer, then inner, then untagged) then make polygons, which make
/// the relation's multi-polygon. A relation without segments, or whose
/// segments do not close, is malformed; one without a shell is empty.
/// Holes that lie in no shell are dropped and counted.
pub fn build_boundary(relation_id: i64, name: String, segments: &Vec<Segment>) -> (r: Result<
    Boundary,
    BoundaryError,
>)
    ensures
        segments@.len() == 0 ==> r == Err::<Boundary, BoundaryError>(
            BoundaryError::MalformedBoundary,
        ),
        segments@.len() > 0 ==> match relation_rings(segments@) {
            None => r == Err::<Boundary, BoundaryError>(BoundaryError::MalformedBoundary),
            Some((rs, roles)) => {
                let sh = shells(rs, roles, rs.len() as int);
                if sh.len() == 0 {
                    r == Err::<Boundary, BoundaryError>(BoundaryError::EmptyBoundary)
                } else {
                    r matches Ok(b) && {
                        &&& b.shape.polygons@.len() == sh.len()
                        &&& forall|m: int|
                            0 <= m < sh.len() ==> (#[trigger] b.shape.polygons@[m]).outer_line()
                                == orient(rs[sh[m]], true) && b.shape.polygons@[m].hole_lines()
                                == holes_cw(holes_of(rs, roles, sh[m], rs.len() as int))
                        &&& b.dropped_holes == orphans(rs, roles, rs.len() as int).len()
                    }
                }
            },
        },
        r matches Ok(b) ==> {
            &&& b.shape.relation_id == relation_id
            &&& b.shape.name@ == name@
            &&& b.shape.polygons@.len() >= 1
            &&& well_formed_polygons(b.shape.polygons@)
        },
{
    if segments.len() == 0 {
        return Err(BoundaryError::MalformedBoundary);
    }
    let outer = rings_of_role(segments, Role::Outer);
    let inner = rings_of_role(segments, Role::Inner);
    let unknown = rings_of_role(segments, Role::Unknown);
    let (outer, inner, unknown) = match (outer, inner, unknown) {
        (Ok(a), Ok(b), Ok(c)) => (a, b, c),
        _ => {
            return Err(BoundaryError::MalformedBoundary);
        },
    };
    let mut rings: Vec<Vec<Coord>> = Vec::new();
    let mut roles: Vec<Role> = Vec::new();
    proof {
        assert(lines(rings@) =~= Seq::empty());
        assert(roles@ =~= Seq::empty());
    }
    add_rings(&mut rings, &mut roles, &outer, Role::Outer);
    add_rings(&mut rings, &mut roles, &inner, Role::Inner);
    add_rings(&mut rings, &mut roles, &unknown, Role::Unknown);
    proof {
        let (rs0, roles0) = relation_rings(segments@)->Some_0;
        assert(lines(rings@) =~= rs0);
        assert(roles@ =~= roles0);
    }
    let assembly = match assemble_polygons(&rings, &roles) {
        Ok(a) => a,
        Err(e) => {
            return Err(e);
        },
    };
    let dropped_holes = assembly.unassigned.len();
    let ghost ps = assembly.polygons@;
    proof {
        assert(as_ints(assembly.unassigned@).len() == assembly.unassigned@.len());
    }
    let shape = match MultiPolygon::build(relation_id, name, assembly.polygons) {
        Ok(shape) => shape,
        Err(e) => {
            return Err(e);
        },
    };
    proof {
        let rs = lines(rings@);
        let n = rs.len() as int;
        let sh = shells(rs, roles@, n);
        let qs = shape.polygons@;
        lemma_shells_in_range(rs, roles@, n);
        assert forall|j: int| 0 <= j < rs.len() implies is_ring(#[trigger] rs[j]) by {
            assert(is_ring(rings@[j]@));
        }
        assert forall|m: int| 0 <= m < qs.len() implies {
            &&& is_ring((#[trigger] qs[m]).outer_line())
            &&& forall|h: int|
                0 <= h < qs[m].hole_lines().len() ==> is_ring(qs[m].hole_lines()[h]) && inside(
                    qs[m].hole_lines()[h][0],
                    qs[m].outer_line(),
                )
        } by {
            let outer = rs[sh[m]];
            let hs = holes_of(rs, roles@, sh[m], n);
            assert(is_ring(outer));
            lemma_orient(outer, true);
            lemma_holes_are_rings(rs, roles@, sh[m], n);
            assert(ps[m].hole_lines() == hs);
            assert forall|h: int| 0 <= h < qs[m].hole_lines().len() implies is_ring(
                qs[m].hole_lines()[h],
            ) && inside(qs[m].hole_lines()[h][0], qs[m].outer_line()) by {
                assert(is_ring(hs[h]));
                lemma_orient(hs[h], false);
                assert(qs[m].hole_lines()[h] == orient(hs[h], false));
                assert(inside(hs[h][0], ps[m].outer_line()));
            }
        }
    }
    Ok(Boundary { shape, dropped_holes })
}

} // verus!
