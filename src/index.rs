use vstd::multiset::Multiset;
use vstd::prelude::*;

use rstar::primitives::{GeomWithData, Rectangle};
use rstar::RTree;

use crate::geometry::Coord;

verus! {

/// An r-tree of boxes, each carrying the position of its piece. The tree
/// is rstar's; Verus sees it only through `tree_entries`.
#[verifier::external_body]
pub struct BoxTree {
    tree: RTree<GeomWithData<Rectangle<[i128; 2]>, usize>>,
}

/// What a tree of boxes holds: per box its lower x, lower y, upper x, upper y
/// and the position it carries.
pub uninterp spec fn tree_entries(t: BoxTree) -> Multiset<(i32, i32, i32, i32, usize)>;

/// Relies on rstar's `RTree::bulk_load`: the tree holds exactly the boxes it
/// is given (with corners in order, `Rectangle::from_corners` keeps them).
#[verifier::external_body]
fn load_tree(entries: Vec<(i32, i32, i32, i32, usize)>) -> (r: BoxTree)
    requires
        forall|i: int|
            0 <= i < entries@.len() ==> (#[trigger] entries@[i]).0 <= entries@[i].2
                && entries@[i].1 <= entries@[i].3,
    ensures
        tree_entries(r) == entries@.to_multiset(),
{
    let items = entries.into_iter().map(
        |e| GeomWithData::new(Rectangle::from_corners([e.0 as i128, e.1 as i128], [e.2 as i128, e.3 as i128]), e.4),
    ).collect();
    BoxTree { tree: RTree::bulk_load(items) }
}

/// A box entry of the tree: lower x, lower y, upper x, upper y, position.
pub type Entry = (i32, i32, i32, i32, usize);

/// Whether the box of `e` holds the point, its border included.
pub open spec fn box_holds(e: Entry, x: i32, y: i32) -> bool {
    e.0 <= x <= e.2 && e.1 <= y <= e.3
}

pub open spec fn clamp(v: int, lo: int, hi: int) -> int {
    if v < lo {
        lo
    } else if v > hi {
        hi
    } else {
        v
    }
}

/// The squared distance from the point to the nearest point of the box of
/// `e` (zero inside the box).
pub open spec fn box_dist2(e: Entry, x: i32, y: i32) -> int {
    let dx = clamp(x as int, e.0 as int, e.2 as int) - x;
    let dy = clamp(y as int, e.1 as int, e.3 as int) - y;
    dx * dx + dy * dy
}

/// Relies on rstar's `RTree::locate_all_at_point`: every entry whose box
/// holds the point (`AABB::contains_point`, borders included), each once.
#[verifier::external_body]
fn tree_at_point(t: &BoxTree, x: i32, y: i32) -> (r: Vec<Entry>)
    ensures
        forall|e: Entry|
            #[trigger] r@.to_multiset().count(e) == if box_holds(e, x, y) {
                tree_entries(*t).count(e)
            } else {
                0
            },
{
    t.tree.locate_all_at_point([x as i128, y as i128]).map(
        |g| { let (a, b) = (g.geom().lower(), g.geom().upper()); (a[0] as i32, a[1] as i32, b[0] as i32, b[1] as i32, g.data) },
    ).collect()
}

/// Relies on rstar's `RTree::nearest_neighbor`: nothing for an empty tree,
/// else an entry whose squared distance to the point (`distance_2` of a
/// rectangle) is least.
#[verifier::external_body]
fn tree_nearest(t: &BoxTree, x: i32, y: i32) -> (r: Option<Entry>)
    ensures
        r is None <==> tree_entries(*t).len() == 0,
        r matches Some(e) ==> tree_entries(*t).count(e) > 0 && forall|f: Entry|
            #[trigger] tree_entries(*t).count(f) > 0 ==> box_dist2(e, x, y) <= box_dist2(f, x, y),
{
    t.tree.nearest_neighbor([x as i128, y as i128]).map(
        |g| { let (a, b) = (g.geom().lower(), g.geom().upper()); (a[0] as i32, a[1] as i32, b[0] as i32, b[1] as i32, g.data) },
    )
}

/// Relies on rstar's `RTree::locate_within_distance`: every entry whose
/// squared distance to the point is at most `d2`, each once.
#[verifier::external_body]
fn tree_within(t: &BoxTree, x: i32, y: i32, d2: i128) -> (r: Vec<Entry>)
    ensures
        forall|e: Entry|
            #[trigger] r@.to_multiset().count(e) == if box_dist2(e, x, y) <= d2 {
                tree_entries(*t).count(e)
            } else {
                0
            },
{
    t.tree.locate_within_distance([x as i128, y as i128], d2).map(
        |g| { let (a, b) = (g.geom().lower(), g.geom().upper()); (a[0] as i32, a[1] as i32, b[0] as i32, b[1] as i32, g.data) },
    ).collect()
}

/// A labelled box of the index, with its area.
#[derive(Clone, Debug)]
pub struct Piece {
    pub lower: Coord,
    pub upper: Coord,
    pub name: String,
    pub area: u64,
}

pub open spec fn min_i32(a: i32, b: i32) -> i32 {
    if a <= b {
        a
    } else {
        b
    }
}

pub open spec fn max_i32(a: i32, b: i32) -> i32 {
    if a >= b {
        a
    } else {
        b
    }
}

impl Piece {
    /// Whether the corners are in order and the area is the box's.
    pub open spec fn wf(&self) -> bool {
        &&& self.lower.x <= self.upper.x
        &&& self.lower.y <= self.upper.y
        &&& self.area == (self.upper.x - self.lower.x) * (self.upper.y - self.lower.y)
    }

    /// Whether the box holds `p`, its border included.
    pub open spec fn holds(&self, p: Coord) -> bool {
        self.lower.x <= p.x <= self.upper.x && self.lower.y <= p.y <= self.upper.y
    }

    /// The squared distance from `p` to the box (zero inside it).
    pub open spec fn dist2(&self, p: Coord) -> int {
        let dx = clamp(p.x as int, self.lower.x as int, self.upper.x as int) - p.x;
        let dy = clamp(p.y as int, self.lower.y as int, self.upper.y as int) - p.y;
        dx * dx + dy * dy
    }

    /// The box spanned by two opposite corners, in any order.
    pub fn new(lower: Coord, upper: Coord, name: String) -> (r: Piece)
        ensures
            r.lower == Coord::new_spec(min_i32(lower.x, upper.x), min_i32(lower.y, upper.y)),
            r.upper == Coord::new_spec(max_i32(lower.x, upper.x), max_i32(lower.y, upper.y)),
            r.name@ == name@,
            r.wf(),
    {
        let lo = Coord {
            x: if lower.x <= upper.x { lower.x } else { upper.x },
            y: if lower.y <= upper.y { lower.y } else { upper.y },
        };
        let hi = Coord {
            x: if lower.x >= upper.x { lower.x } else { upper.x },
            y: if lower.y >= upper.y { lower.y } else { upper.y },
        };
        let w: u64 = (hi.x as i64 - lo.x as i64) as u64;
        let h: u64 = (hi.y as i64 - lo.y as i64) as u64;
        proof {
            let lim: int = 0x1_0000_0000;
            assert(w * h < lim * lim) by (nonlinear_arith)
                requires
                    0 <= w < lim,
                    0 <= h < lim,
            ;
            assert(lim * lim == 0x1_0000_0000_0000_0000);
        }
        Piece { lower: lo, upper: hi, name, area: w * h }
    }

    pub fn name(&self) -> (r: &str)
        ensures
            r@ == self.name@,
    {
        self.name.as_str()
    }
}

/// The entry that stands for piece `i` of `s` in the tree.
pub open spec fn piece_entry(s: Seq<Piece>, i: int) -> Entry {
    (s[i].lower.x, s[i].lower.y, s[i].upper.x, s[i].upper.y, i as usize)
}

pub open spec fn entries_of(s: Seq<Piece>) -> Seq<Entry> {
    Seq::new(s.len(), |i: int| piece_entry(s, i))
}

/// The positions of the pieces of `s` whose box holds `p`.
pub open spec fn at_point(s: Seq<Piece>, p: Coord) -> Set<int> {
    Set::new(|i: int| 0 <= i < s.len() && s[i].holds(p))
}

/// Whether piece `i` is the one nearest to `p`: no piece is nearer, and
/// every piece before it is farther (on a tie the first inserted wins).
pub open spec fn is_nearest(s: Seq<Piece>, p: Coord, i: int) -> bool {
    &&& 0 <= i < s.len()
    &&& forall|j: int| 0 <= j < s.len() ==> s[i].dist2(p) <= #[trigger] s[j].dist2(p)
    &&& forall|j: int| 0 <= j < i ==> s[i].dist2(p) < #[trigger] s[j].dist2(p)
}

/// A static spatial index over pieces, built once and then only queried.
pub struct SpatialIndex {
    pieces: Vec<Piece>,
    tree: BoxTree,
}

impl View for SpatialIndex {
    type V = Seq<Piece>;

    closed spec fn view(&self) -> Seq<Piece> {
        self.pieces@
    }
}

proof fn lemma_entries(s: Seq<Piece>)
    requires
        s.len() <= usize::MAX,
    ensures
        forall|e: Entry|
            #[trigger] entries_of(s).to_multiset().count(e) > 0 <==> (e.4 < s.len() && e
                == piece_entry(s, e.4 as int)),
        forall|e: Entry|
            #[trigger] entries_of(s).to_multiset().count(e) > 0 ==> entries_of(
                s,
            ).to_multiset().count(e) == 1,
        entries_of(s).to_multiset().len() == s.len(),
{
    let es = entries_of(s);
    es.to_multiset_ensures();
    assert(es.no_duplicates()) by {
        assert forall|a: int, b: int|
            0 <= a < es.len() && 0 <= b < es.len() && a != b implies es[a] != es[b] by {
            assert(es[a].4 == a as usize && es[b].4 == b as usize);
        }
    }
    es.lemma_multiset_has_no_duplicates();
    assert forall|e: Entry| #[trigger] es.to_multiset().count(e) > 0 <==> (e.4 < s.len() && e
        == piece_entry(s, e.4 as int)) by {
        if e.4 < s.len() && e == piece_entry(s, e.4 as int) {
            assert(es[e.4 as int] == e);
        }
        if es.to_multiset().count(e) > 0 {
            assert(es.contains(e));
            let i = choose|i: int| 0 <= i < es.len() && es[i] == e;
            assert(es[i] == piece_entry(s, i));
        }
    }
}

/// The squared distance from a point to the box of an entry.
fn entry_dist2(e: Entry, x: i32, y: i32) -> (r: i128)
    requires
        e.0 <= e.2,
        e.1 <= e.3,
    ensures
        r == box_dist2(e, x, y),
{
    let cx: i128 = if x < e.0 { e.0 as i128 } else if x > e.2 { e.2 as i128 } else { x as i128 };
    let cy: i128 = if y < e.1 { e.1 as i128 } else if y > e.3 { e.3 as i128 } else { y as i128 };
    let dx: i128 = cx - x as i128;
    let dy: i128 = cy - y as i128;
    proof {
        let lim: int = 0x1_0000_0000;
        assert(0 <= dx * dx <= lim * lim) by (nonlinear_arith)
            requires
                -lim <= dx <= lim,
        ;
        assert(0 <= dy * dy <= lim * lim) by (nonlinear_arith)
            requires
                -lim <= dy <= lim,
        ;
        assert(lim * lim == 0x1_0000_0000_0000_0000);
    }
    dx * dx + dy * dy
}

impl SpatialIndex {
    /// The tree holds one entry per piece, carrying the piece's position.
    pub closed spec fn wf(&self) -> bool {
        &&& self.pieces@.len() <= usize::MAX
        &&& forall|i: int| 0 <= i < self.pieces@.len() ==> (#[trigger] self.pieces@[i]).wf()
        &&& tree_entries(self.tree) == entries_of(self.pieces@).to_multiset()
    }

    /// Builds the index over `pieces` in one pass.
    pub fn bulk_load(pieces: Vec<Piece>) -> (r: SpatialIndex)
        requires
            forall|i: int| 0 <= i < pieces@.len() ==> (#[trigger] pieces@[i]).wf(),
        ensures
            r.wf(),
            r@ == pieces@,
    {
        let mut entries: Vec<Entry> = Vec::new();
        let mut i: usize = 0;
        while i < pieces.len()
            invariant
                i <= pieces@.len(),
                entries@ == entries_of(pieces@).subrange(0, i as int),
            decreases pieces.len() - i,
        {
            let pc = &pieces[i];
            entries.push((pc.lower.x, pc.lower.y, pc.upper.x, pc.upper.y, i));
            i = i + 1;
            proof {
                assert(entries@ =~= entries_of(pieces@).subrange(0, i as int));
            }
        }
        proof {
            assert(entries@ =~= entries_of(pieces@));
        }
        let tree = load_tree(entries);
        SpatialIndex { pieces, tree }
    }

    /// The positions of all pieces whose box holds `p`, its border
    /// included, each once, in no particular order.
    pub fn locate_all_at_point(&self, p: Coord) -> (r: Vec<usize>)
        requires
            self.wf(),
        ensures
            r@.no_duplicates(),
            forall|i: usize| #[trigger] r@.contains(i) <==> at_point(self@, p).contains(i as int),
    {
        let found = tree_at_point(&self.tree, p.x, p.y);
        let ghost s = self.pieces@;
        let ghost m = entries_of(s).to_multiset();
        proof {
            lemma_entries(s);
            found@.to_multiset_ensures();
            assert forall|x: Entry| found@.to_multiset().contains(x) implies found@.to_multiset().count(x) == 1 by {}
            found@.lemma_multiset_has_no_duplicates_conv();
        }
        let mut r: Vec<usize> = Vec::new();
        let mut k: usize = 0;
        while k < found.len()
            invariant
                k <= found@.len(),
                r@.len() == k,
                forall|q: int| 0 <= q < k ==> #[trigger] r@[q] == found@[q].4,
            decreases found.len() - k,
        {
            r.push(found[k].4);
            k = k + 1;
        }
        proof {
            assert forall|q: int| 0 <= q < found@.len() implies {
                &&& #[trigger] found@[q] == piece_entry(s, found@[q].4 as int)
                &&& found@[q].4 < s.len()
                &&& s[found@[q].4 as int].holds(p)
            } by {
                let x = found@[q];
                assert(found@.contains(x));
                assert(found@.to_multiset().count(x) > 0);
                assert(tree_entries(self.tree).count(x) > 0);
                assert(m.count(x) > 0);
            }
            assert forall|a: int, b: int|
                0 <= a < r@.len() && 0 <= b < r@.len() && a != b implies r@[a] != r@[b] by {
                assert(found@[a] != found@[b]);
            }
            assert forall|i: usize| #[trigger] r@.contains(i) <==> at_point(s, p).contains(
                i as int,
            ) by {
                if at_point(s, p).contains(i as int) {
                    let e = piece_entry(s, i as int);
                    assert(m.count(e) > 0);
                    assert(found@.to_multiset().count(e) > 0);
                    let q = choose|q: int| 0 <= q < found@.len() && found@[q] == e;
                    assert(r@[q] == i as usize);
                }
                if r@.contains(i) {
                    let q = choose|q: int| 0 <= q < r@.len() && r@[q] == i;
                    assert(found@[q] == piece_entry(s, found@[q].4 as int));
                }
            }
        }
        r
    }

    /// The position of the piece nearest to `p` by squared distance to its
    /// box; of pieces at the same distance, the first inserted. Nothing for
    /// an empty index.
    pub fn nearest(&self, p: Coord) -> (r: Option<usize>)
        requires
            self.wf(),
        ensures
            r is None <==> self@.len() == 0,
            r matches Some(i) ==> is_nearest(self@, p, i as int),
    {
        let ghost s = self.pieces@;
        let ghost m = entries_of(s).to_multiset();
        proof {
            lemma_entries(s);
        }
        let e = match tree_nearest(&self.tree, p.x, p.y) {
            None => {
                return None;
            },
            Some(e) => e,
        };
        proof {
            assert(s[e.4 as int].wf());
        }
        let d = entry_dist2(e, p.x, p.y);
        let near = tree_within(&self.tree, p.x, p.y, d);
        proof {
            near@.to_multiset_ensures();
            assert(near@.to_multiset().count(e) > 0);
            assert forall|q: int| 0 <= q < near@.len() implies {
                &&& #[trigger] near@[q] == piece_entry(s, near@[q].4 as int)
                &&& near@[q].4 < s.len()
                &&& box_dist2(near@[q], p.x, p.y) <= d
            } by {
                let x = near@[q];
                assert(near@.contains(x));
                assert(near@.to_multiset().count(x) > 0);
                assert(tree_entries(self.tree).count(x) > 0);
                assert(m.count(x) > 0);
            }
        }
        let mut best: usize = near[0].4;
        let mut k: usize = 1;
        while k < near.len()
            invariant
                1 <= k <= near@.len(),
                exists|q: int| 0 <= q < k && #[trigger] near@[q].4 == best,
                forall|q: int| 0 <= q < k ==> best <= #[trigger] near@[q].4,
            decreases near.len() - k,
        {
            if near[k].4 < best {
                best = near[k].4;
            }
            k = k + 1;
        }
        proof {
            let q0 = choose|q: int| 0 <= q < k && #[trigger] near@[q].4 == best;
            assert(near@[q0] == piece_entry(s, best as int));
            let b = best as int;
            assert forall|j: int| 0 <= j < s.len() implies s[b].dist2(p) <= #[trigger] s[j].dist2(
                p,
            ) by {
                assert(m.count(piece_entry(s, j)) > 0);
            }
            assert forall|j: int| 0 <= j < b implies s[b].dist2(p) < #[trigger] s[j].dist2(p) by {
                let ej = piece_entry(s, j);
                if s[j].dist2(p) <= s[b].dist2(p) {
                    assert(m.count(ej) > 0);
                    assert(near@.to_multiset().count(ej) > 0);
                    let q = choose|q: int| 0 <= q < near@.len() && near@[q] == ej;
                    assert(best <= near@[q].4);
                }
            }
        }
        Some(best)
    }

    /// The number of pieces.
    pub fn len(&self) -> (r: usize)
        ensures
            r == self@.len(),
    {
        self.pieces.len()
    }

    /// The piece at position `i`.
    pub fn piece(&self, i: usize) -> (r: &Piece)
        requires
            i < self@.len(),
        ensures
            *r == self@[i as int],
    {
        &self.pieces[i]
    }
}

/// Two indexes loaded from the same pieces answer every query alike: the
/// same set of pieces at each point, and the same nearest piece.
pub proof fn lemma_same_load_same_answers(
    a: SpatialIndex,
    b: SpatialIndex,
    p: Coord,
    i: int,
    j: int,
)
    requires
        a@ == b@,
        is_nearest(a@, p, i),
        is_nearest(b@, p, j),
    ensures
        at_point(a@, p) == at_point(b@, p),
        i == j,
{
    let s = a@;
    if i < j {
        assert(s[j].dist2(p) < s[i].dist2(p));
    } else if j < i {
        assert(s[i].dist2(p) < s[j].dist2(p));
    }
}

} // verus!
