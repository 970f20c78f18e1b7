use vstd::prelude::*;

use crate::geometry::{copy_points, is_ring, lines, BoundaryError, Coord, Role};

verus! {

/// Whether the edge from `a` to `b` crosses the ray that leaves `p` towards
/// growing x. An edge counts when its ends lie on either side of the line
/// y = p.y (a point on the line counts as below it) and it meets that line
/// strictly to the right of `p`.
pub open spec fn crosses(p: Coord, a: Coord, b: Coord) -> bool {
    &&& (a.y > p.y) != (b.y > p.y)
    &&& {
        let d = b.y - a.y;
        let c = (p.x - a.x) * d - (p.y - a.y) * (b.x - a.x);
        if d > 0 {
            c < 0
        } else {
            c > 0
        }
    }
}

/// How many of the first `k` edges of `r` the ray from `p` crosses.
pub open spec fn crossings(p: Coord, r: Seq<Coord>, k: int) -> nat
    decreases k,
{
    if k <= 0 || r.len() < k + 1 {
        0
    } else {
        crossings(p, r, k - 1) + if crosses(p, r[k - 1], r[k]) {
            1nat
        } else {
            0nat
        }
    }
}

/// Whether `p` lies inside the closed ring `r` (even-odd rule).
pub open spec fn inside(p: Coord, r: Seq<Coord>) -> bool {
    crossings(p, r, r.len() - 1) % 2 == 1
}

/// Whether `j` is the index of a ring tagged outer that holds the first
/// point of ring `i`.
pub open spec fn outer_holds(rs: Seq<Seq<Coord>>, roles: Seq<Role>, j: int, i: int) -> bool {
    0 <= j < rs.len() && roles[j] == Role::Outer && inside(rs[i][0], rs[j])
}

/// Whether ring `i` is the shell of a polygon: it is tagged outer, or it has
/// no role and lies in no ring tagged outer.
pub open spec fn is_shell(rs: Seq<Seq<Coord>>, roles: Seq<Role>, i: int) -> bool {
    roles[i] == Role::Outer || (roles[i] == Role::Unknown && !exists|j: int|
        #[trigger] outer_holds(rs, roles, j, i))
}

/// The shells among the first `k` rings, in order.
pub open spec fn shells(rs: Seq<Seq<Coord>>, roles: Seq<Role>, k: int) -> Seq<int>
    decreases k,
{
    if k <= 0 {
        Seq::empty()
    } else if is_shell(rs, roles, k - 1) {
        shells(rs, roles, k - 1).push(k - 1)
    } else {
        shells(rs, roles, k - 1)
    }
}

/// The first shell, from index `k` on, other than ring `j`, whose area holds
/// the first point of ring `j`.
pub open spec fn host_from(rs: Seq<Seq<Coord>>, roles: Seq<Role>, j: int, k: int) -> Option<int>
    decreases rs.len() - k,
{
    if k < 0 || k >= rs.len() {
        None
    } else if k != j && is_shell(rs, roles, k) && inside(rs[j][0], rs[k]) {
        Some(k)
    } else {
        host_from(rs, roles, j, k + 1)
    }
}

/// The shell that a ring which is no shell becomes a hole of.
pub open spec fn host(rs: Seq<Seq<Coord>>, roles: Seq<Role>, j: int) -> Option<int> {
    host_from(rs, roles, j, 0)
}

/// Whether ring `j` is a hole of shell `s`.
pub open spec fn is_hole_of(rs: Seq<Seq<Coord>>, roles: Seq<Role>, j: int, s: int) -> bool {
    !is_shell(rs, roles, j) && host(rs, roles, j) == Some(s)
}

/// The holes of shell `s` among the first `k` rings, in order.
pub open spec fn holes_of(rs: Seq<Seq<Coord>>, roles: Seq<Role>, s: int, k: int) -> Seq<Seq<Coord>>
    decreases k,
{
    if k <= 0 {
        Seq::empty()
    } else if is_hole_of(rs, roles, k - 1, s) {
        holes_of(rs, roles, s, k - 1).push(rs[k - 1])
    } else {
        holes_of(rs, roles, s, k - 1)
    }
}

/// The rings among the first `k` that are no shell and lie in none.
pub open spec fn orphans(rs: Seq<Seq<Coord>>, roles: Seq<Role>, k: int) -> Seq<int>
    decreases k,
{
    if k <= 0 {
        Seq::empty()
    } else if !is_shell(rs, roles, k - 1) && host(rs, roles, k - 1) is None {
        orphans(rs, roles, k - 1).push(k - 1)
    } else {
        orphans(rs, roles, k - 1)
    }
}

/// One outer ring and the holes cut out of it.
#[derive(Clone, Debug)]
pub struct Polygon {
    pub outer: Vec<Coord>,
    pub holes: Vec<Vec<Coord>>,
}

impl Polygon {
    pub open spec fn outer_line(&self) -> Seq<Coord> {
        self.outer@
    }

    pub open spec fn hole_lines(&self) -> Seq<Seq<Coord>> {
        lines(self.holes@)
    }
}

/// Exact ray test of one edge.
fn edge_crosses(p: Coord, a: Coord, b: Coord) -> (r: bool)
    ensures
        r == crosses(p, a, b),
{
    if (a.y > p.y) == (b.y > p.y) {
        return false;
    }
    let d: i128 = b.y as i128 - a.y as i128;
    let dx: i128 = p.x as i128 - a.x as i128;
    let dy: i128 = p.y as i128 - a.y as i128;
    let ex: i128 = b.x as i128 - a.x as i128;
    proof {
        let lim: int = 0x1_0000_0000;
        assert(-lim * lim <= dx * d <= lim * lim) by (nonlinear_arith)
            requires
                -lim <= dx <= lim,
                -lim <= d <= lim,
        ;
        assert(-lim * lim <= dy * ex <= lim * lim) by (nonlinear_arith)
            requires
                -lim <= dy <= lim,
                -lim <= ex <= lim,
        ;
        assert(lim * lim == 0x1_0000_0000_0000_0000);
    }
    let c: i128 = dx * d - dy * ex;
    if d > 0 {
        c < 0
    } else {
        c > 0
    }
}

/// Whether `p` lies inside the closed ring `ring` (even-odd rule).
pub fn point_in_ring(p: Coord, ring: &Vec<Coord>) -> (r: bool)
    requires
        ring@.len() >= 1,
    ensures
        r == inside(p, ring@),
{
    let n = ring.len();
    let mut odd = false;
    let mut k: usize = 0;
    while k + 1 < n
        invariant
            n == ring@.len(),
            n >= 1,
            k + 1 <= n,
            odd == (crossings(p, ring@, k as int) % 2 == 1),
        decreases n - k,
    {
        if edge_crosses(p, ring[k], ring[k + 1]) {
            odd = !odd;
        }
        k = k + 1;
    }
    odd
}

/// The points of `r` in reverse order.
pub open spec fn reversed(r: Seq<Coord>) -> Seq<Coord> {
    Seq::new(r.len(), |i: int| r[r.len() - 1 - i])
}

/// Twice the signed area enclosed by the first `k` edges of `r` (shoelace
/// formula): positive when the ring turns counter-clockwise.
pub open spec fn twice_area(r: Seq<Coord>, k: int) -> int
    decreases k,
{
    if k <= 0 || r.len() < k + 1 {
        0
    } else {
        twice_area(r, k - 1) + (r[k - 1].x * r[k].y - r[k].x * r[k - 1].y)
    }
}

/// `r` turned counter-clockwise (when `ccw`) or clockwise: reversed if it
/// turns the other way, else as it is.
pub open spec fn orient(r: Seq<Coord>, ccw: bool) -> Seq<Coord> {
    let a = twice_area(r, r.len() - 1);
    if (ccw && a < 0) || (!ccw && a > 0) {
        reversed(r)
    } else {
        r
    }
}

proof fn lemma_crosses_symmetric(p: Coord, a: Coord, b: Coord)
    ensures
        crosses(p, a, b) == crosses(p, b, a),
{
    let d = b.y - a.y;
    let c = (p.x - a.x) * d - (p.y - a.y) * (b.x - a.x);
    let d2 = a.y - b.y;
    let c2 = (p.x - b.x) * d2 - (p.y - b.y) * (a.x - b.x);
    assert(c2 == -c) by (nonlinear_arith)
        requires
            d == b.y - a.y,
            c == (p.x - a.x) * d - (p.y - a.y) * (b.x - a.x),
            d2 == a.y - b.y,
            c2 == (p.x - b.x) * d2 - (p.y - b.y) * (a.x - b.x),
    ;
}

proof fn lemma_crossings_reversed(p: Coord, r: Seq<Coord>, k: int)
    requires
        r.len() >= 1,
        0 <= k <= r.len() - 1,
    ensures
        crossings(p, reversed(r), k) == crossings(p, r, r.len() - 1) - crossings(
            p,
            r,
            r.len() - 1 - k,
        ),
    decreases k,
{
    let l = r.len() as int;
    if k > 0 {
        lemma_crossings_reversed(p, r, k - 1);
        let rv = reversed(r);
        assert(rv[k - 1] == r[l - k]);
        assert(rv[k] == r[l - 1 - k]);
        lemma_crosses_symmetric(p, r[l - 1 - k], r[l - k]);
        assert(crossings(p, r, l - k) == crossings(p, r, l - 1 - k) + if crosses(
            p,
            r[l - 1 - k],
            r[l - k],
        ) {
            1nat
        } else {
            0nat
        });
    }
}

/// Turning a ring round keeps it a ring, and keeps what lies inside it.
pub proof fn lemma_orient(r: Seq<Coord>, ccw: bool)
    requires
        is_ring(r),
    ensures
        is_ring(orient(r, ccw)),
        orient(r, ccw)[0] == r[0],
        forall|p: Coord| #[trigger] inside(p, orient(r, ccw)) == inside(p, r),
{
    assert forall|p: Coord| #[trigger] inside(p, reversed(r)) == inside(p, r) by {
        lemma_crossings_reversed(p, r, r.len() - 1);
    }
}

/// Twice the signed area of a ring.
fn ring_twice_area(ring: &Vec<Coord>) -> (r: i128)
    ensures
        r == twice_area(ring@, ring@.len() - 1),
{
    let n = ring.len();
    if n < 2 {
        return 0;
    }
    let lim: i128 = 0x8000_0000_0000_0000;
    let mut acc: i128 = 0;
    let mut k: usize = 1;
    while k < n
        invariant
            n == ring@.len(),
            1 <= k <= n,
            lim == 0x8000_0000_0000_0000,
            acc == twice_area(ring@, k - 1),
            -(k - 1) * lim <= acc <= (k - 1) * lim,
        decreases n - k,
    {
        let a = ring[k - 1];
        let b = ring[k];
        proof {
            let h: int = 0x8000_0000;
            let ax = a.x as int;
            let ay = a.y as int;
            let bx = b.x as int;
            let by = b.y as int;
            assert(-h * h <= ax * by <= h * h) by (nonlinear_arith)
                requires
                    -h <= ax <= h,
                    -h <= by <= h,
            ;
            assert(-h * h <= bx * ay <= h * h) by (nonlinear_arith)
                requires
                    -h <= bx <= h,
                    -h <= ay <= h,
            ;
            assert(h * h * 2 == lim);
            assert(k < 0x1_0000_0000_0000_0000);
        }
        let t1: i128 = a.x as i128 * b.y as i128;
        let t2: i128 = b.x as i128 * a.y as i128;
        acc = acc + (t1 - t2);
        k = k + 1;
    }
    acc
}

/// A copy of `ring` turned counter-clockwise (when `ccw`) or clockwise.
pub fn orient_ring(ring: &Vec<Coord>, ccw: bool) -> (r: Vec<Coord>)
    ensures
        r@ == orient(ring@, ccw),
{
    let a = ring_twice_area(ring);
    if (ccw && a < 0) || (!ccw && a > 0) {
        let n = ring.len();
        let mut r: Vec<Coord> = Vec::new();
        let mut i: usize = 0;
        while i < n
            invariant
                n == ring@.len(),
                i <= n,
                r@ == reversed(ring@).subrange(0, i as int),
            decreases n - i,
        {
            r.push(ring[n - 1 - i]);
            i = i + 1;
            proof {
                assert(r@ =~= reversed(ring@).subrange(0, i as int));
            }
        }
        proof {
            assert(r@ =~= reversed(ring@));
        }
        r
    } else {
        copy_points(ring)
    }
}

/// What the polygon assembly yields: the polygons, and the rings that
/// should have been holes but lie in no shell.
#[derive(Clone, Debug)]
pub struct Assembly {
    pub polygons: Vec<Polygon>,
    pub unassigned: Vec<usize>,
}

pub open spec fn as_ints(v: Seq<usize>) -> Seq<int> {
    v.map_values(|u: usize| u as int)
}

pub open spec fn opt_int(o: Option<usize>) -> Option<int> {
    match o {
        Some(u) => Some(u as int),
        None => None,
    }
}

pub open spec fn all_rings(rings: Seq<Vec<Coord>>) -> bool {
    forall|i: int| 0 <= i < rings.len() ==> is_ring(#[trigger] rings[i]@)
}

/// Whether some ring tagged outer holds the first point of ring `i`.
fn in_tagged_outer(rings: &Vec<Vec<Coord>>, roles: &Vec<Role>, i: usize) -> (r: bool)
    requires
        rings@.len() == roles@.len(),
        all_rings(rings@),
        i < rings@.len(),
    ensures
        r == exists|j: int| #[trigger] outer_holds(lines(rings@), roles@, j, i as int),
{
    let ghost rs = lines(rings@);
    assert(is_ring(rings@[i as int]@));
    let p = rings[i][0];
    let mut j: usize = 0;
    while j < rings.len()
        invariant
            rs == lines(rings@),
            rings@.len() == roles@.len(),
            all_rings(rings@),
            i < rings@.len(),
            p == rs[i as int][0],
            j <= rings@.len(),
            forall|k: int| 0 <= k < j ==> !#[trigger] outer_holds(rs, roles@, k, i as int),
        decreases rings.len() - j,
    {
        assert(is_ring(rings@[j as int]@));
        if roles[j] == Role::Outer && point_in_ring(p, &rings[j]) {
            assert(outer_holds(rs, roles@, j as int, i as int));
            return true;
        }
        j = j + 1;
    }
    false
}

/// Whether ring `i` is the shell of a polygon.
fn ring_is_shell(rings: &Vec<Vec<Coord>>, roles: &Vec<Role>, i: usize) -> (r: bool)
    requires
        rings@.len() == roles@.len(),
        all_rings(rings@),
        i < rings@.len(),
    ensures
        r == is_shell(lines(rings@), roles@, i as int),
{
    match roles[i] {
        Role::Outer => true,
        Role::Inner => false,
        Role::Unknown => !in_tagged_outer(rings, roles, i),
    }
}

/// The shell that ring `j` is a hole of, given which rings are shells.
fn find_host(rings: &Vec<Vec<Coord>>, roles: &Vec<Role>, shell: &Vec<bool>, j: usize) -> (r:
    Option<usize>)
    requires
        rings@.len() == roles@.len(),
        shell@.len() == rings@.len(),
        all_rings(rings@),
        j < rings@.len(),
        forall|k: int|
            0 <= k < shell@.len() ==> shell@[k] == is_shell(lines(rings@), roles@, k),
    ensures
        opt_int(r) == host(lines(rings@), roles@, j as int),
{
    let ghost rs = lines(rings@);
    assert(is_ring(rings@[j as int]@));
    let p = rings[j][0];
    let mut k: usize = 0;
    while k < rings.len()
        invariant
            rs == lines(rings@),
            rings@.len() == roles@.len(),
            shell@.len() == rings@.len(),
            all_rings(rings@),
            j < rings@.len(),
            p == rs[j as int][0],
            k <= rings@.len(),
            forall|i: int| 0 <= i < shell@.len() ==> shell@[i] == is_shell(rs, roles@, i),
            host(rs, roles@, j as int) == host_from(rs, roles@, j as int, k as int),
        decreases rings.len() - k,
    {
        assert(is_ring(rings@[k as int]@));
        if k != j && shell[k] && point_in_ring(p, &rings[k]) {
            return Some(k);
        }
        k = k + 1;
    }
    None
}

proof fn lemma_host_from(rs: Seq<Seq<Coord>>, roles: Seq<Role>, j: int, k: int)
    ensures
        host_from(rs, roles, j, k) matches Some(s) ==> s != j && 0 <= s < rs.len() && is_shell(
            rs,
            roles,
            s,
        ) && inside(rs[j][0], rs[s]),
    decreases rs.len() - k,
{
    if 0 <= k < rs.len() {
        lemma_host_from(rs, roles, j, k + 1);
    }
}

proof fn lemma_holes_inside(rs: Seq<Seq<Coord>>, roles: Seq<Role>, s: int, k: int)
    requires
        k <= rs.len(),
    ensures
        forall|h: int|
            0 <= h < holes_of(rs, roles, s, k).len() ==> inside(
                (#[trigger] holes_of(rs, roles, s, k)[h])[0],
                rs[s],
            ),
    decreases k,
{
    if k > 0 {
        lemma_holes_inside(rs, roles, s, k - 1);
        lemma_host_from(rs, roles, k - 1, 0);
        let prev = holes_of(rs, roles, s, k - 1);
        let cur = holes_of(rs, roles, s, k);
        if is_hole_of(rs, roles, k - 1, s) {
            assert forall|h: int| 0 <= h < cur.len() implies inside(
                (#[trigger] cur[h])[0],
                rs[s],
            ) by {
                if h < prev.len() {
                    assert(cur[h] == prev[h]);
                }
            }
        }
    }
}

/// Every shell is the index of one of the rings.
pub proof fn lemma_shells_in_range(rs: Seq<Seq<Coord>>, roles: Seq<Role>, k: int)
    ensures
        forall|m: int|
            0 <= m < shells(rs, roles, k).len() ==> 0 <= #[trigger] shells(rs, roles, k)[m] < k,
    decreases k,
{
    if k > 0 {
        lemma_shells_in_range(rs, roles, k - 1);
        let prev = shells(rs, roles, k - 1);
        let cur = shells(rs, roles, k);
        assert forall|m: int| 0 <= m < cur.len() implies 0 <= #[trigger] cur[m] < k by {
            if m < prev.len() {
                assert(cur[m] == prev[m]);
            }
        }
    }
}

/// Where all rings are closed, so are all holes.
pub proof fn lemma_holes_are_rings(rs: Seq<Seq<Coord>>, roles: Seq<Role>, s: int, k: int)
    requires
        k <= rs.len(),
        forall|j: int| 0 <= j < rs.len() ==> is_ring(#[trigger] rs[j]),
    ensures
        forall|h: int|
            0 <= h < holes_of(rs, roles, s, k).len() ==> is_ring(
                #[trigger] holes_of(rs, roles, s, k)[h],
            ),
    decreases k,
{
    if k > 0 {
        lemma_holes_are_rings(rs, roles, s, k - 1);
        let prev = holes_of(rs, roles, s, k - 1);
        let cur = holes_of(rs, roles, s, k);
        assert forall|h: int| 0 <= h < cur.len() implies is_ring(#[trigger] cur[h]) by {
            if h < prev.len() {
                assert(cur[h] == prev[h]);
            } else {
                assert(cur[h] == rs[k - 1]);
            }
        }
    }
}

/// Groups closed rings into polygons.
///
/// Every shell (a ring tagged outer, or one without a role that lies in no
/// ring tagged outer) becomes the outer ring of one polygon, in the order of
/// the rings. Every other ring becomes a hole of the first shell that holds
/// its first point; a ring that lies in no shell is dropped and reported in
/// `unassigned`. Without any shell the boundary is empty.
pub fn assemble_polygons(rings: &Vec<Vec<Coord>>, roles: &Vec<Role>) -> (r: Result<
    Assembly,
    BoundaryError,
>)
    requires
        rings@.len() == roles@.len(),
        all_rings(rings@),
    ensures
        ({
            let rs = lines(rings@);
            let sh = shells(rs, roles@, rs.len() as int);
            match r {
                Ok(a) => {
                    &&& sh.len() > 0
                    &&& a.polygons@.len() == sh.len()
                    &&& forall|m: int|
                        0 <= m < sh.len() ==> (#[trigger] a.polygons@[m]).outer_line() == rs[sh[m]]
                            && a.polygons@[m].hole_lines() == holes_of(
                            rs,
                            roles@,
                            sh[m],
                            rs.len() as int,
                        )
                    &&& forall|m: int, h: int|
                        0 <= m < sh.len() && 0 <= h < a.polygons@[m].hole_lines().len() ==> inside(
                            (#[trigger] a.polygons@[m].hole_lines()[h])[0],
                            a.polygons@[m].outer_line(),
                        )
                    &&& as_ints(a.unassigned@) == orphans(rs, roles@, rs.len() as int)
                },
                Err(e) => sh.len() == 0 && e == BoundaryError::EmptyBoundary,
            }
        }),
{
    let ghost rs = lines(rings@);
    let n = rings.len();
    let mut shell: Vec<bool> = Vec::new();
    let mut i: usize = 0;
    while i < n
        invariant
            n == rings@.len(),
            rings@.len() == roles@.len(),
            all_rings(rings@),
            rs == lines(rings@),
            i <= n,
            shell@.len() == i,
            forall|k: int| 0 <= k < i ==> shell@[k] == is_shell(rs, roles@, k),
        decreases n - i,
    {
        shell.push(ring_is_shell(rings, roles, i));
        i = i + 1;
    }
    let mut hosts: Vec<Option<usize>> = Vec::new();
    let mut unassigned: Vec<usize> = Vec::new();
    let mut j: usize = 0;
    while j < n
        invariant
            n == rings@.len(),
            rings@.len() == roles@.len(),
            all_rings(rings@),
            rs == lines(rings@),
            shell@.len() == n,
            forall|k: int| 0 <= k < n ==> shell@[k] == is_shell(rs, roles@, k),
            j <= n,
            hosts@.len() == j,
            forall|k: int| 0 <= k < j ==> opt_int(#[trigger] hosts@[k]) == host(rs, roles@, k),
            as_ints(unassigned@) == orphans(rs, roles@, j as int),
        decreases n - j,
    {
        let h = find_host(rings, roles, &shell, j);
        if !shell[j] && h.is_none() {
            unassigned.push(j);
        }
        hosts.push(h);
        j = j + 1;
        proof {
            assert(as_ints(unassigned@) =~= orphans(rs, roles@, j as int));
        }
    }
    let mut polygons: Vec<Polygon> = Vec::new();
    let mut s: usize = 0;
    while s < n
        invariant
            n == rings@.len(),
            rings@.len() == roles@.len(),
            all_rings(rings@),
            rs == lines(rings@),
            shell@.len() == n,
            forall|k: int| 0 <= k < n ==> shell@[k] == is_shell(rs, roles@, k),
            hosts@.len() == n,
            forall|k: int| 0 <= k < n ==> opt_int(#[trigger] hosts@[k]) == host(rs, roles@, k),
            s <= n,
            polygons@.len() == shells(rs, roles@, s as int).len(),
            forall|m: int|
                0 <= m < polygons@.len() ==> (#[trigger] polygons@[m]).outer_line() == rs[shells(
                    rs,
                    roles@,
                    s as int,
                )[m]] && polygons@[m].hole_lines() == holes_of(
                    rs,
                    roles@,
                    shells(rs, roles@, s as int)[m],
                    n as int,
                ),
        decreases n - s,
    {
        if shell[s] {
            let mut holes: Vec<Vec<Coord>> = Vec::new();
            let mut k: usize = 0;
            while k < n
                invariant
                    n == rings@.len(),
                    rs == lines(rings@),
                    shell@.len() == n,
                    forall|q: int| 0 <= q < n ==> shell@[q] == is_shell(rs, roles@, q),
                    hosts@.len() == n,
                    forall|q: int|
                        0 <= q < n ==> opt_int(#[trigger] hosts@[q]) == host(rs, roles@, q),
                    s < n,
                    k <= n,
                    lines(holes@) == holes_of(rs, roles@, s as int, k as int),
                decreases n - k,
            {
                if !shell[k] {
                    match hosts[k] {
                        Some(h) => {
                            if h == s {
                                holes.push(copy_points(&rings[k]));
                            }
                        },
                        None => {},
                    }
                }
                k = k + 1;
                proof {
                    assert(lines(holes@) =~= holes_of(rs, roles@, s as int, k as int));
                }
            }
            polygons.push(Polygon { outer: copy_points(&rings[s]), holes });
        }
        s = s + 1;
    }
    proof {
        let sh = shells(rs, roles@, n as int);
        assert forall|m: int, h: int|
            0 <= m < sh.len() && 0 <= h < polygons@[m].hole_lines().len() implies inside(
            (#[trigger] polygons@[m].hole_lines()[h])[0],
            polygons@[m].outer_line(),
        ) by {
            lemma_holes_inside(rs, roles@, sh[m], n as int);
            assert(polygons@[m].hole_lines()[h] == holes_of(rs, roles@, sh[m], n as int)[h]);
        }
    }
    if polygons.len() == 0 {
        return Err(BoundaryError::EmptyBoundary);
    }
    Ok(Assembly { polygons, unassigned })
}

} // verus!
