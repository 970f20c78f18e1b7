use vstd::prelude::*;

use crate::geometry::{copy_points, is_ring, lines, BoundaryError, Coord};

verus! {

/// The first unused segment, from index `j` on, that touches `end`: with
/// its first point (walked forwards), else with its last (walked backwards).
pub open spec fn next_from(segs: Seq<Seq<Coord>>, used: Seq<bool>, end: Coord, j: int) -> Option<
    (int, bool),
>
    decreases segs.len() - j,
{
    if j < 0 || j >= segs.len() {
        None
    } else if !used[j] && segs[j].len() >= 2 && segs[j][0] == end {
        Some((j, false))
    } else if !used[j] && segs[j].len() >= 2 && segs[j].last() == end {
        Some((j, true))
    } else {
        next_from(segs, used, end, j + 1)
    }
}

/// The points that `seg` adds to a ring: all but the shared one.
pub open spec fn tail_of(seg: Seq<Coord>, rev: bool, m: int) -> Seq<Coord> {
    Seq::new(m as nat, |q: int| if rev { seg[seg.len() - 2 - q] } else { seg[q + 1] })
}

pub open spec fn extend(ring: Seq<Coord>, seg: Seq<Coord>, rev: bool) -> Seq<Coord> {
    ring + tail_of(seg, rev, seg.len() - 1)
}

/// Walks from the open end of `ring` until it closes, with the segments
/// marked in `used` taken already; the closed ring and the segments taken
/// then, or nothing at a dangling end. At most one step per segment.
pub open spec fn walk(segs: Seq<Seq<Coord>>, used: Seq<bool>, ring: Seq<Coord>, steps: int) -> Option<
    (Seq<Coord>, Seq<bool>),
>
    decreases segs.len() - steps,
{
    if ring.len() >= 1 && ring[0] == ring.last() {
        Some((ring, used))
    } else if steps >= segs.len() || ring.len() == 0 {
        None
    } else {
        match next_from(segs, used, ring.last(), 0) {
            None => None,
            Some((j, rev)) => walk(segs, used.update(j, true), extend(ring, segs[j], rev), steps + 1),
        }
    }
}

/// The rings that start at segments `s` and after, with the segments in
/// `used` taken already; nothing when the boundary is malformed.
pub open spec fn rings_from(segs: Seq<Seq<Coord>>, used: Seq<bool>, s: int) -> Option<
    Seq<Seq<Coord>>,
>
    decreases segs.len() - s,
{
    if s < 0 || s >= segs.len() {
        Some(Seq::empty())
    } else if used[s] {
        rings_from(segs, used, s + 1)
    } else if segs[s].len() < 2 {
        None
    } else {
        match walk(segs, used.update(s, true), segs[s], 0) {
            None => None,
            Some((ring, used2)) => if ring.len() < 4 {
                None
            } else {
                match rings_from(segs, used2, s + 1) {
                    None => None,
                    Some(rest) => Some(seq![ring] + rest),
                }
            },
        }
    }
}

/// `prefix` followed by the rings from segment `s` on.
pub open spec fn after(prefix: Seq<Seq<Coord>>, segs: Seq<Seq<Coord>>, used: Seq<bool>, s: int) -> Option<
    Seq<Seq<Coord>>,
> {
    match rings_from(segs, used, s) {
        None => None,
        Some(rest) => Some(prefix + rest),
    }
}

/// The rings that the segments close into, or nothing when they are
/// malformed.
pub open spec fn assembled(segs: Seq<Seq<Coord>>) -> Option<Seq<Seq<Coord>>> {
    if segs.len() == 0 {
        None
    } else {
        rings_from(segs, Seq::new(segs.len(), |i: int| false), 0)
    }
}

pub open spec fn opt_pair(o: Option<(usize, bool)>) -> Option<(int, bool)> {
    match o {
        Some((j, rev)) => Some((j as int, rev)),
        None => None,
    }
}

/// The first unused segment that touches `end`, and whether it must be
/// walked backwards (it touches `end` with its last point only).
fn find_next(segs: &Vec<Vec<Coord>>, used: &Vec<bool>, end: Coord) -> (r: Option<(usize, bool)>)
    requires
        used@.len() == segs@.len(),
    ensures
        opt_pair(r) == next_from(lines(segs@), used@, end, 0),
        r matches Some((j, rev)) ==> {
            &&& j < segs@.len()
            &&& !used@[j as int]
            &&& segs@[j as int]@.len() >= 2
            &&& if rev {
                segs@[j as int]@.last() == end
            } else {
                segs@[j as int]@[0] == end
            }
        },
{
    let mut j: usize = 0;
    while j < segs.len()
        invariant
            used@.len() == segs@.len(),
            j <= segs@.len(),
            next_from(lines(segs@), used@, end, 0) == next_from(lines(segs@), used@, end, j as int),
        decreases segs.len() - j,
    {
        let seg = &segs[j];
        if !used[j] && seg.len() >= 2 {
            if seg[0] == end {
                return Some((j, false));
            }
            if seg[seg.len() - 1] == end {
                return Some((j, true));
            }
        }
        j = j + 1;
    }
    None
}

/// Appends `seg` to `ring` without its first point (or, when `rev`, the
/// reverse of `seg` without its last point).
fn append_segment(ring: &mut Vec<Coord>, seg: &Vec<Coord>, rev: bool)
    requires
        old(ring)@.len() >= 1,
        seg@.len() >= 2,
    ensures
        final(ring)@ == extend(old(ring)@, seg@, rev),
        final(ring)@.len() == old(ring)@.len() + seg@.len() - 1,
        final(ring)@[0] == old(ring)@[0],
        final(ring)@.last() == (if rev { seg@[0] } else { seg@.last() }),
{
    let n = seg.len();
    let mut k: usize = 1;
    while k < n
        invariant
            1 <= k <= n,
            n == seg@.len(),
            old(ring)@.len() >= 1,
            ring@.len() == old(ring)@.len() + k - 1,
            ring@[0] == old(ring)@[0],
            k > 1 ==> ring@.last() == (if rev { seg@[n - k] } else { seg@[k - 1] }),
            ring@ == old(ring)@ + tail_of(seg@, rev, k - 1),
        decreases n - k,
    {
        if rev {
            ring.push(seg[n - 1 - k]);
        } else {
            ring.push(seg[k]);
        }
        k = k + 1;
        proof {
            assert(ring@ =~= old(ring)@ + tail_of(seg@, rev, k - 1));
        }
    }
}

/// Stitches open segments into closed rings.
///
/// Each ring starts with the first unused segment (in order) and follows, at
/// its open end, the first unused segment that shares that point, forwards or
/// backwards, until the ring returns to its start. A segment that is closed
/// already is a ring by itself. Dangling ends, an empty input, a segment of
/// fewer than two points or a ring of fewer than four points make the
/// boundary malformed.
pub fn assemble_rings(segments: &Vec<Vec<Coord>>) -> (r: Result<Vec<Vec<Coord>>, BoundaryError>)
    ensures
        segments@.len() == 0 ==> r == Err::<Vec<Vec<Coord>>, BoundaryError>(
            BoundaryError::MalformedBoundary,
        ),
        r matches Err(e) ==> e == BoundaryError::MalformedBoundary,
        r is Ok <==> assembled(lines(segments@)) is Some,
        r matches Ok(rings) ==> assembled(lines(segments@)) == Some(lines(rings@)),
        r matches Ok(rings) ==> rings@.len() >= 1 && forall|i: int|
            0 <= i < rings@.len() ==> is_ring(#[trigger] rings@[i]@),
        segments@.len() == 1 && is_ring(segments@[0]@) ==> (r matches Ok(rings) && rings@.len()
            == 1 && rings@[0]@ == segments@[0]@),
{
    let n = segments.len();
    if n == 0 {
        return Err(BoundaryError::MalformedBoundary);
    }
    let mut used: Vec<bool> = Vec::new();
    let mut i: usize = 0;
    while i < n
        invariant
            i <= n,
            used@.len() == i,
            forall|k: int| 0 <= k < i ==> !used@[k],
        decreases n - i,
    {
        used.push(false);
        i = i + 1;
    }
    let ghost segs = lines(segments@);
    proof {
        assert(used@ =~= Seq::new(segs.len(), |i: int| false));
        assert(lines(Seq::<Vec<Coord>>::empty()) =~= Seq::empty());
    }
    let mut rings: Vec<Vec<Coord>> = Vec::new();
    let mut s: usize = 0;
    while s < n
        invariant
            segs == lines(segments@),
            assembled(segs) == after(lines(rings@), segs, used@, s as int),
            n == segments@.len(),
            s <= n,
            used@.len() == n,
            s == 0 ==> forall|k: int| 0 <= k < n ==> !used@[k],
            s == 0 ==> rings@.len() == 0,
            s > 0 ==> rings@.len() >= 1,
            forall|k: int| 0 <= k < rings@.len() ==> is_ring(#[trigger] rings@[k]@),
            n == 1 && is_ring(segments@[0]@) && s == 1 ==> rings@.len() == 1 && rings@[0]@
                == segments@[0]@,
        decreases n - s,
    {
        if !used[s] {
            let ghost used_pre = used@;
            used.set(s, true);
            if segments[s].len() < 2 {
                return Err(BoundaryError::MalformedBoundary);
            }
            let ghost used0 = used@;
            let mut ring = copy_points(&segments[s]);
            let mut steps: usize = 0;
            while ring[0] != ring[ring.len() - 1]
                invariant
                    segs == lines(segments@),
                    s < n,
                    !used_pre[s as int],
                    segs[s as int].len() >= 2,
                    used0 == used_pre.update(s as int, true),
                    assembled(segs) == after(lines(rings@), segs, used_pre, s as int),
                    walk(segs, used0, segs[s as int], 0) == walk(segs, used@, ring@, steps as int),
                    n == segments@.len(),
                    used@.len() == n,
                    ring@.len() >= 2,
                    steps <= n,
                    n == 1 && is_ring(segments@[0]@) ==> ring@ == segments@[0]@,
                decreases n - steps,
            {
                if steps == n {
                    return Err(BoundaryError::MalformedBoundary);
                }
                match find_next(segments, &used, ring[ring.len() - 1]) {
                    None => {
                        return Err(BoundaryError::MalformedBoundary);
                    },
                    Some((j, rev)) => {
                        used.set(j, true);
                        append_segment(&mut ring, &segments[j], rev);
                        assert(ring@.len() >= 2);
                    },
                }
                steps = steps + 1;
            }
            if ring.len() < 4 {
                return Err(BoundaryError::MalformedBoundary);
            }
            let ghost before = lines(rings@);
            rings.push(ring);
            proof {
                assert(lines(rings@) =~= before.push(ring@));
                match rings_from(segs, used@, s + 1) {
                    None => {},
                    Some(rest) => {
                        assert(before + (seq![ring@] + rest) =~= before.push(ring@) + rest);
                    },
                }
            }
        }
        s = s + 1;
    }
    proof {
        assert(lines(rings@) + Seq::<Seq<Coord>>::empty() =~= lines(rings@));
    }
    Ok(rings)
}

} // verus!
