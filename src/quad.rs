use vstd::prelude::*;
use vstd::multiset::Multiset;
use crate::structs::{ID, IdView, Position, Size, Vector2d};

verus! {

broadcast use {
    vstd::seq_lib::lemma_multiset_commutative,
    vstd::seq_lib::to_multiset_build,
    vstd::seq_lib::to_multiset_contains,
};

/// Depth at which a node stops subdividing and keeps every entity it receives.
pub const MAX_DEPTH: i32 = 16;

/// An axis-aligned rectangle given by an origin and a size.
#[derive(Clone, Copy)]
pub struct AABB {
    pub position: Position,
    pub size: Size,
}

/// Whether the point `(x, y)` lies within `±size` of the origin of `b`, bounds included.
pub open spec fn accepts(b: AABB, x: int, y: int) -> bool {
    &&& b.position.x - b.size.x <= x <= b.position.x + b.size.x
    &&& b.position.y - b.size.y <= y <= b.position.y + b.size.y
}

/// Whether the `±size` extents of two rectangles are not separated along either axis.
pub open spec fn overlaps(a: AABB, b: AABB) -> bool {
    !(b.position.x - b.size.x > a.position.x + a.size.x || b.position.x + b.size.x < a.position.x
        - a.size.x || b.position.y - b.size.y > a.position.y + a.size.y || b.position.y + b.size.y
        < a.position.y - a.size.y)
}

/// Whether `(x, y)` lies in the rectangle spanned from the origin of `b` by its size.
pub open spec fn within(b: AABB, x: int, y: int) -> bool {
    &&& b.position.x <= x <= b.position.x + b.size.x
    &&& b.position.y <= y <= b.position.y + b.size.y
}

/// A rectangle with a non-negative size whose far corner is representable.
pub open spec fn fits(b: AABB) -> bool {
    &&& 0 <= b.size.x
    &&& 0 <= b.size.y
    &&& b.position.x + b.size.x <= i64::MAX
    &&& b.position.y + b.size.y <= i64::MAX
}

/// Quadrant `q` of `b`: 0 top-left, 1 top-right, 2 bottom-left, 3 bottom-right.
/// The left and top quadrants take half of each side, rounded down; the right
/// and bottom ones take the rest, so that the four tile `b` exactly.
pub open spec fn quadrant(b: AABB, q: int) -> AABB {
    let hw = b.size.x / 2;
    let hh = b.size.y / 2;
    let rw = b.size.x - hw;
    let rh = b.size.y - hh;
    let x = b.position.x;
    let y = b.position.y;
    if q == 0 {
        AABB { position: Position { x, y }, size: Size { x: hw as i64, y: hh as i64 } }
    } else if q == 1 {
        AABB { position: Position { x: (x + hw) as i64, y }, size: Size { x: rw as i64, y: hh as i64 } }
    } else if q == 2 {
        AABB { position: Position { x, y: (y + hh) as i64 }, size: Size { x: hw as i64, y: rh as i64 } }
    } else {
        AABB {
            position: Position { x: (x + hw) as i64, y: (y + hh) as i64 },
            size: Size { x: rw as i64, y: rh as i64 },
        }
    }
}

/// The quadrant of `b` that takes `(x, y)` first, in the order top-left,
/// top-right, bottom-left, bottom-right; the last when none before it does.
pub open spec fn first_quadrant(b: AABB, x: int, y: int) -> int {
    if accepts(quadrant(b, 0), x, y) {
        0
    } else if accepts(quadrant(b, 1), x, y) {
        1
    } else if accepts(quadrant(b, 2), x, y) {
        2
    } else {
        3
    }
}

impl AABB {
    /// Builds the rectangle at `origin` = `(x, y)` with `extent` = `(height, width)`.
    pub fn new(origin: (i64, i64), extent: (i64, i64)) -> (r: AABB)
        ensures
            r.position.x == origin.0,
            r.position.y == origin.1,
            r.size.x == extent.1,
            r.size.y == extent.0,
    {
        let (x, y) = origin;
        let (height, width) = extent;
        AABB { position: Position { x, y }, size: Size { x: width, y: height } }
    }

    pub fn half_width(&self) -> (r: i64)
        requires
            self.size.x >= 0,
        ensures
            r == self.size.x / 2,
    {
        self.size.x / 2
    }

    pub fn half_height(&self) -> (r: i64)
        requires
            self.size.y >= 0,
        ensures
            r == self.size.y / 2,
    {
        self.size.y / 2
    }

    pub fn horizontal_midpoint(&self) -> (r: i64)
        requires
            fits(*self),
        ensures
            r == self.position.x + self.size.x / 2,
    {
        self.position.x + self.half_width()
    }

    pub fn vertical_midpoint(&self) -> (r: i64)
        requires
            fits(*self),
        ensures
            r == self.position.y + self.size.y / 2,
    {
        self.position.y + self.half_height()
    }

    pub fn overlaps_vec2d(&self, vec: &Vector2d) -> (r: bool)
        ensures
            r == accepts(*self, vec.x as int, vec.y as int),
    {
        let px = self.position.x as i128;
        let py = self.position.y as i128;
        let sx = self.size.x as i128;
        let sy = self.size.y as i128;
        let x = vec.x as i128;
        let y = vec.y as i128;
        px - sx <= x && x <= px + sx && py - sy <= y && y <= py + sy
    }

    pub fn overlaps_aabb(&self, aabb: &AABB) -> (r: bool)
        ensures
            r == overlaps(*self, *aabb),
    {
        let ax = self.position.x as i128;
        let ay = self.position.y as i128;
        let aw = self.size.x as i128;
        let ah = self.size.y as i128;
        let bx = aabb.position.x as i128;
        let by = aabb.position.y as i128;
        let bw = aabb.size.x as i128;
        let bh = aabb.size.y as i128;
        !(bx - bw > ax + aw || bx + bw < ax - aw || by - bh > ay + ah || by + bh < ay - ah)
    }

    pub fn position(&self) -> (r: Position)
        ensures
            r == self.position,
    {
        self.position
    }

    pub fn size(&self) -> (r: Size)
        ensures
            r == self.size,
    {
        self.size
    }
}

/// A node of the quadtree. `mass` counts the entities inserted into its subtree, and
/// `sum_x`, `sum_y` add up their coordinates, so that the center of mass is
/// `(sum_x / mass, sum_y / mass)`.
pub struct QuadTree {
    pub bounds: AABB,
    pub depth: i32,
    pub divided: bool,
    pub mass: u64,
    pub sum_x: i128,
    pub sum_y: i128,
    pub tl: Option<Box<QuadTree>>,
    pub tr: Option<Box<QuadTree>>,
    pub bl: Option<Box<QuadTree>>,
    pub br: Option<Box<QuadTree>>,
    pub elements: Vec<(ID, Vector2d)>,
}

/// 2 to the 63rd: no coordinate exceeds it in magnitude.
pub open spec fn coord_span() -> int {
    0x8000_0000_0000_0000
}

pub open spec fn sum_x_of(c: Option<Box<QuadTree>>) -> int {
    match c {
        Some(n) => n.sum_x as int,
        None => 0,
    }
}

pub open spec fn sum_y_of(c: Option<Box<QuadTree>>) -> int {
    match c {
        Some(n) => n.sum_y as int,
        None => 0,
    }
}

/// No two entries of `es` share an identifier.
pub open spec fn unique_ids(es: Seq<EntryView>) -> bool {
    forall|i: int, j: int| 0 <= i < j < es.len() ==> (#[trigger] es[i]).0 != (#[trigger] es[j]).0
}

pub open spec fn entries_sum_x(s: Seq<EntryView>) -> int
    decreases s.len(),
{
    if s.len() == 0 {
        0
    } else {
        entries_sum_x(s.drop_last()) + s.last().1.0
    }
}

pub open spec fn entries_sum_y(s: Seq<EntryView>) -> int
    decreases s.len(),
{
    if s.len() == 0 {
        0
    } else {
        entries_sum_y(s.drop_last()) + s.last().1.1
    }
}

pub proof fn lemma_sums_add(a: Seq<EntryView>, b: Seq<EntryView>)
    ensures
        entries_sum_x(a + b) == entries_sum_x(a) + entries_sum_x(b),
        entries_sum_y(a + b) == entries_sum_y(a) + entries_sum_y(b),
    decreases b.len(),
{
    if b.len() == 0 {
        assert(a + b =~= a);
    } else {
        lemma_sums_add(a, b.drop_last());
        assert((a + b).drop_last() =~= a + b.drop_last());
    }
}

pub open spec fn mass_of(c: Option<Box<QuadTree>>) -> int {
    match c {
        Some(n) => n.mass as int,
        None => 0,
    }
}


/// An entry of a node's own map, as `(id, (x, y))`.
pub type EntryView = (IdView, (int, int));

pub open spec fn elements_view(es: Seq<(ID, Vector2d)>) -> Seq<EntryView> {
    es.map_values(|e: (ID, Vector2d)| (e.0@, (e.1.x as int, e.1.y as int)))
}

/// `es` with the entry for `id` set to `(x, y)`: in place when `id` is present, appended otherwise.
#[verifier::opaque]
pub open spec fn put_entry(es: Seq<EntryView>, id: IdView, x: int, y: int) -> Seq<EntryView> {
    if exists|j: int| 0 <= j < es.len() && es[j].0 == id {
        let j = choose|j: int| 0 <= j < es.len() && es[j].0 == id && forall|k: int| 0 <= k < j ==> es[k].0 != id;
        es.update(j, (id, (x, y)))
    } else {
        es.push((id, (x, y)))
    }
}

pub proof fn lemma_put_entry(es: Seq<EntryView>, id: IdView, x: int, y: int)
    ensures
        forall|i: int| 0 <= i < es.len() && es[i].0 == id && (forall|k: int| 0 <= k < i ==> es[k].0 != id)
            ==> put_entry(es, id, x, y) == es.update(i, (id, (x, y))),
        (forall|k: int| 0 <= k < es.len() ==> es[k].0 != id) ==> put_entry(es, id, x, y) == es.push((id, (x, y))),
{
    reveal(put_entry);
    assert forall|i: int| 0 <= i < es.len() && es[i].0 == id && (forall|k: int| 0 <= k < i ==> es[k].0 != id)
        implies put_entry(es, id, x, y) == es.update(i, (id, (x, y))) by {
        let j = choose|j: int| 0 <= j < es.len() && es[j].0 == id && forall|k: int| 0 <= k < j ==> es[k].0 != id;
        if j < i {
            assert(es[j].0 != id);
        } else if i < j {
            assert(es[i].0 != id);
        }
    }
}

/// No entry of `s` has the identifier `id`.
pub open spec fn lacks(s: Seq<EntryView>, id: IdView) -> bool {
    forall|p: (int, int)| #[trigger] s.to_multiset().count((id, p)) == 0
}

pub proof fn lemma_lacks_concat(a: Seq<EntryView>, b: Seq<EntryView>, id: IdView)
    requires
        lacks(a + b, id),
    ensures
        lacks(a, id),
        lacks(b, id),
{
    assert forall|p: (int, int)| #[trigger] a.to_multiset().count((id, p)) == 0 by {
        assert((a + b).to_multiset().count((id, p)) == 0);
    }
    assert forall|p: (int, int)| #[trigger] b.to_multiset().count((id, p)) == 0 by {
        assert((a + b).to_multiset().count((id, p)) == 0);
    }
}

pub proof fn lemma_lacks_entries(s: Seq<EntryView>, id: IdView)
    requires
        lacks(s, id),
    ensures
        forall|k: int| 0 <= k < s.len() ==> (#[trigger] s[k]).0 != id,
{
    assert forall|k: int| 0 <= k < s.len() implies (#[trigger] s[k]).0 != id by {
        assert(s.to_multiset().count((id, s[k].1)) == 0);
        assert(s.contains(s[k]));
        assert(s.to_multiset().count(s[k]) > 0);
    }
}

/// A position within a rectangle lies within the first quadrant,
/// in the order top-left, top-right, bottom-left, bottom-right, whose `±size`
/// extent takes it; the last one always takes it.
pub proof fn lemma_quadrant_route(b: AABB, x: int, y: int)
    requires
        fits(b),
        within(b, x, y),
    ensures
        accepts(quadrant(b, 0), x, y) ==> within(quadrant(b, 0), x, y),
        !accepts(quadrant(b, 0), x, y) && accepts(quadrant(b, 1), x, y) ==> within(quadrant(b, 1), x, y),
        !accepts(quadrant(b, 0), x, y) && !accepts(quadrant(b, 1), x, y) && accepts(quadrant(b, 2), x, y)
            ==> within(quadrant(b, 2), x, y),
        !accepts(quadrant(b, 0), x, y) && !accepts(quadrant(b, 1), x, y) && !accepts(quadrant(b, 2), x, y)
            ==> within(quadrant(b, 3), x, y),
{
}

/// The `±size` extent of each quadrant lies inside that of the parent.
pub proof fn lemma_quadrant_inside(b: AABB, q: int, x: int, y: int)
    requires
        fits(b),
        accepts(quadrant(b, q), x, y),
    ensures
        accepts(b, x, y),
{
}

/// The identifiers of a sequence of ids.
pub open spec fn ids_view(v: Seq<ID>) -> Seq<IdView> {
    v.map_values(|i: ID| i@)
}

/// The identifiers of the entries of `s` whose position `area` takes, in order.
pub open spec fn select(s: Seq<EntryView>, area: AABB) -> Seq<IdView>
    decreases s.len(),
{
    if s.len() == 0 {
        Seq::empty()
    } else {
        let rest = select(s.drop_last(), area);
        let e = s.last();
        if accepts(area, e.1.0, e.1.1) {
            rest.push(e.0)
        } else {
            rest
        }
    }
}

/// Every entry of `s` lies within the `±size` extent of `b`.
pub open spec fn inside(s: Seq<EntryView>, b: AABB) -> bool {
    forall|k: int| 0 <= k < s.len() ==> accepts(b, (#[trigger] s[k]).1.0, s[k].1.1)
}

pub proof fn lemma_select_add(a: Seq<EntryView>, b: Seq<EntryView>, area: AABB)
    ensures
        select(a + b, area) == select(a, area) + select(b, area),
    decreases b.len(),
{
    if b.len() == 0 {
        assert(a + b =~= a);
        assert(select(a, area) + select(b, area) =~= select(a, area));
    } else {
        lemma_select_add(a, b.drop_last(), area);
        assert((a + b).drop_last() =~= a + b.drop_last());
        assert((a + b).last() == b.last());
        assert(select(a, area) + select(b.drop_last(), area).push(b.last().0)
            =~= (select(a, area) + select(b.drop_last(), area)).push(b.last().0));
    }
}

pub proof fn lemma_select_outside(s: Seq<EntryView>, b: AABB, area: AABB)
    requires
        inside(s, b),
        !overlaps(b, area),
    ensures
        select(s, area) == Seq::<IdView>::empty(),
    decreases s.len(),
{
    if s.len() > 0 {
        assert(inside(s.drop_last(), b)) by {
            assert forall|k: int| 0 <= k < s.drop_last().len() implies accepts(
                b,
                (#[trigger] s.drop_last()[k]).1.0,
                s.drop_last()[k].1.1,
            ) by {
                assert(s.drop_last()[k] == s[k]);
            }
        }
        lemma_select_outside(s.drop_last(), b, area);
        assert(accepts(b, s[s.len() - 1].1.0, s[s.len() - 1].1.1));
    }
}

pub proof fn lemma_inside_add(a: Seq<EntryView>, b: Seq<EntryView>, r: AABB)
    requires
        inside(a, r),
        inside(b, r),
    ensures
        inside(a + b, r),
{
    assert forall|k: int| 0 <= k < (a + b).len() implies accepts(r, (#[trigger] (a + b)[k]).1.0, (a + b)[k].1.1) by {
        if k < a.len() {
            assert((a + b)[k] == a[k]);
        } else {
            assert((a + b)[k] == b[k - a.len()]);
        }
    }
}

pub proof fn lemma_inside_quadrant(s: Seq<EntryView>, b: AABB, q: int)
    requires
        fits(b),
        inside(s, quadrant(b, q)),
    ensures
        inside(s, b),
{
    assert forall|k: int| 0 <= k < s.len() implies accepts(b, (#[trigger] s[k]).1.0, s[k].1.1) by {
        lemma_quadrant_inside(b, q, s[k].1.0, s[k].1.1);
    }
}

/// Querying an area returns the identifier of every entry whose position the
/// area takes.
pub proof fn lemma_query_finds_entry(s: Seq<EntryView>, area: AABB, id: IdView, x: int, y: int)
    requires
        s.contains((id, (x, y))),
        accepts(area, x, y),
    ensures
        select(s, area).contains(id),
    decreases s.len(),
{
    if s.last() == (id, (x, y)) {
        assert(select(s, area).last() == id);
    } else {
        let k = choose|k: int| 0 <= k < s.len() && s[k] == (id, (x, y));
        assert(s.drop_last()[k] == s[k]);
        lemma_query_finds_entry(s.drop_last(), area, id, x, y);
        let j = choose|j: int| 0 <= j < select(s.drop_last(), area).len() && select(s.drop_last(), area)[j] == id;
        if accepts(area, s.last().1.0, s.last().1.1) {
            assert(select(s, area)[j] == id);
        }
    }
}

/// Once an insertion has added the entry `(id, (x, y))` to a tree's leaves, a
/// query of any area that takes `(x, y)` returns `id`.
pub proof fn lemma_insertion_containment(
    before: Seq<EntryView>,
    after: Seq<EntryView>,
    area: AABB,
    id: IdView,
    x: int,
    y: int,
)
    requires
        after.to_multiset() == before.to_multiset().insert((id, (x, y))),
        accepts(area, x, y),
    ensures
        select(after, area).contains(id),
{
    assert(after.to_multiset().count((id, (x, y))) > 0);
    assert(after.contains((id, (x, y))));
    lemma_query_finds_entry(after, area, id, x, y);
}

/// An area that takes every entry selects all of them, each once, in order.
pub proof fn lemma_select_all(s: Seq<EntryView>, area: AABB)
    requires
        inside(s, area),
    ensures
        select(s, area) == s.map_values(|e: EntryView| e.0),
    decreases s.len(),
{
    if s.len() == 0 {
        assert(s.map_values(|e: EntryView| e.0) =~= Seq::<IdView>::empty());
    } else {
        assert forall|k: int| 0 <= k < s.drop_last().len() implies accepts(
            area,
            (#[trigger] s.drop_last()[k]).1.0,
            s.drop_last()[k].1.1,
        ) by {
            assert(s.drop_last()[k] == s[k]);
        }
        lemma_select_all(s.drop_last(), area);
        assert(accepts(area, s[s.len() - 1].1.0, s[s.len() - 1].1.1));
        assert(s.map_values(|e: EntryView| e.0) =~= s.drop_last().map_values(|e: EntryView| e.0).push(s.last().0));
    }
}

impl QuadTree {
    /// The facts about a node that do not look into its children.
    pub open spec fn local_ok(self) -> bool {
        &&& 0 <= self.depth <= MAX_DEPTH
        &&& fits(self.bounds)
        &&& -(self.mass * coord_span()) <= self.sum_x <= self.mass * coord_span()
        &&& -(self.mass * coord_span()) <= self.sum_y <= self.mass * coord_span()
        &&& self.elements@.len() <= self.mass
        &&& unique_ids(elements_view(self.elements@))
        &&& self.divided ==> self.depth < MAX_DEPTH && self.mass >= 1
        &&& !self.divided ==> {
            &&& self.tl is None
            &&& self.tr is None
            &&& self.bl is None
            &&& self.br is None
            &&& self.depth < MAX_DEPTH ==> self.mass == self.elements@.len() <= 1
            &&& forall|i: int|
                0 <= i < self.elements@.len() ==> accepts(
                    self.bounds,
                    (#[trigger] self.elements@[i]).1.x as int,
                    self.elements@[i].1.y as int,
                )
        }
    }

    /// `c` is a well-formed quadrant `q` of this node.
    pub open spec fn child_ok(self, c: QuadTree, q: int) -> bool {
        &&& c.bounds == quadrant(self.bounds, q)
        &&& c.depth == self.depth + 1
    }

    pub open spec fn children_mass(self) -> int {
        mass_of(self.tl) + mass_of(self.tr) + mass_of(self.bl) + mass_of(self.br)
    }

    pub open spec fn children_sum_x(self) -> int {
        sum_x_of(self.tl) + sum_x_of(self.tr) + sum_x_of(self.bl) + sum_x_of(self.br)
    }

    pub open spec fn children_sum_y(self) -> int {
        sum_y_of(self.tl) + sum_y_of(self.tr) + sum_y_of(self.bl) + sum_y_of(self.br)
    }

    /// Child `q`: 0 top-left, 1 top-right, 2 bottom-left, 3 bottom-right.
    pub open spec fn child(self, q: int) -> Option<Box<QuadTree>> {
        if q == 0 {
            self.tl
        } else if q == 1 {
            self.tr
        } else if q == 2 {
            self.bl
        } else {
            self.br
        }
    }

    /// Between `before` and `after`, child `q` gained the entry `e` if it is the
    /// first quadrant to take `e`'s position, and kept its entries otherwise.
    pub open spec fn routed(before: QuadTree, after: QuadTree, e: EntryView, q: int) -> bool {
        Self::stored_of(after.child(q)).to_multiset() == if q == first_quadrant(before.bounds, e.1.0, e.1.1) {
            Self::stored_of(before.child(q)).to_multiset().insert(e)
        } else {
            Self::stored_of(before.child(q)).to_multiset()
        }
    }

    /// Child `q` holds `e` if it is the first quadrant to take `e`'s position,
    /// and holds no entry with `e`'s identifier otherwise.
    pub open spec fn lands(self, e: EntryView, q: int) -> bool {
        if q == first_quadrant(self.bounds, e.1.0, e.1.1) {
            Self::stored_of(self.child(q)).contains(e)
        } else {
            lacks(Self::stored_of(self.child(q)), e.0)
        }
    }

    /// All four children are present and tidy.
    pub open spec fn children_tidy(self) -> bool {
        &&& match self.tl {
            Some(c) => c.tidy(),
            None => false,
        }
        &&& match self.tr {
            Some(c) => c.tidy(),
            None => false,
        }
        &&& match self.bl {
            Some(c) => c.tidy(),
            None => false,
        }
        &&& match self.br {
            Some(c) => c.tidy(),
            None => false,
        }
    }

    /// The entries held in the leaves of this subtree, leaf by leaf, children in
    /// the order top-left, top-right, bottom-left, bottom-right.
    pub open spec fn stored(self) -> Seq<EntryView>
        decreases self,
    {
        if self.divided {
            let a = match self.tl {
                Some(c) => c.stored(),
                None => Seq::empty(),
            };
            let b = match self.tr {
                Some(c) => c.stored(),
                None => Seq::empty(),
            };
            let c = match self.bl {
                Some(c) => c.stored(),
                None => Seq::empty(),
            };
            let d = match self.br {
                Some(c) => c.stored(),
                None => Seq::empty(),
            };
            a + b + c + d
        } else {
            elements_view(self.elements@)
        }
    }

    /// Every leaf entry lies within the rectangle spanned by its leaf's bounds,
    /// and every node's mass and sums are those of the entries below it: a leaf's
    /// are those of its own map, a divided node's add up those of its children,
    /// and a divided node holds at least two units of mass.
    pub open spec fn tidy(self) -> bool
        decreases self,
    {
        if self.divided {
            &&& match self.tl {
                Some(c) => c.tidy(),
                None => false,
            }
            &&& match self.tr {
                Some(c) => c.tidy(),
                None => false,
            }
            &&& match self.bl {
                Some(c) => c.tidy(),
                None => false,
            }
            &&& match self.br {
                Some(c) => c.tidy(),
                None => false,
            }
            &&& self.mass == self.children_mass()
            &&& self.sum_x == self.children_sum_x()
            &&& self.sum_y == self.children_sum_y()
            &&& self.mass >= 2
        } else {
            &&& forall|i: int|
                0 <= i < self.elements@.len() ==> within(
                    self.bounds,
                    (#[trigger] self.elements@[i]).1.x as int,
                    self.elements@[i].1.y as int,
                )
            &&& self.mass == self.elements@.len()
            &&& self.sum_x == entries_sum_x(elements_view(self.elements@))
            &&& self.sum_y == entries_sum_y(elements_view(self.elements@))
        }
    }

    /// Well-formedness of the whole subtree.
    pub open spec fn wf(self) -> bool
        decreases self,
    {
        &&& self.local_ok()
        &&& self.divided ==> {
            &&& match self.tl {
                Some(c) => c.wf() && self.child_ok(*c, 0),
                None => false,
            }
            &&& match self.tr {
                Some(c) => c.wf() && self.child_ok(*c, 1),
                None => false,
            }
            &&& match self.bl {
                Some(c) => c.wf() && self.child_ok(*c, 2),
                None => false,
            }
            &&& match self.br {
                Some(c) => c.wf() && self.child_ok(*c, 3),
                None => false,
            }
            &&& self.children_mass() <= self.mass
        }
    }

    pub open spec fn stored_of(c: Option<Box<QuadTree>>) -> Seq<EntryView> {
        match c {
            Some(n) => n.stored(),
            None => Seq::empty(),
        }
    }

    /// All four children are present, well formed, and cover their quadrants.
    pub open spec fn children_ok(self) -> bool {
        &&& match self.tl {
            Some(c) => c.wf() && self.child_ok(*c, 0),
            None => false,
        }
        &&& match self.tr {
            Some(c) => c.wf() && self.child_ok(*c, 1),
            None => false,
        }
        &&& match self.bl {
            Some(c) => c.wf() && self.child_ok(*c, 2),
            None => false,
        }
        &&& match self.br {
            Some(c) => c.wf() && self.child_ok(*c, 3),
            None => false,
        }
    }

    /// An empty leaf covering `bounds` at `depth`.
    pub fn new(bounds: AABB, depth: i32) -> (r: QuadTree)
        requires
            fits(bounds),
            0 <= depth <= MAX_DEPTH,
        ensures
            r.wf(),
            r.bounds == bounds,
            r.depth == depth,
            !r.divided,
            r.mass == 0,
            r.sum_x == 0,
            r.sum_y == 0,
            r.elements@.len() == 0,
    {
        QuadTree {
            bounds,
            depth,
            divided: false,
            mass: 0,
            sum_x: 0,
            sum_y: 0,
            tl: None,
            tr: None,
            bl: None,
            br: None,
            elements: Vec::new(),
        }
    }

    /// Puts `node` at `position` into this node's own map: a key already present
    /// has its position replaced, a new key is appended.
    fn store_element(&mut self, node: &ID, position: &Vector2d)
        ensures
            final(self).bounds == old(self).bounds,
            final(self).depth == old(self).depth,
            final(self).divided == old(self).divided,
            final(self).mass == old(self).mass,
            final(self).sum_x == old(self).sum_x,
            final(self).sum_y == old(self).sum_y,
            final(self).tl == old(self).tl,
            final(self).tr == old(self).tr,
            final(self).bl == old(self).bl,
            final(self).br == old(self).br,
            elements_view(final(self).elements@) == put_entry(elements_view(old(self).elements@), node@, position.x as int, position.y as int),
            old(self).elements@.len() <= final(self).elements@.len() <= old(self).elements@.len() + 1,
            old(self).elements@.len() == 0 ==> final(self).elements@.len() == 1,
            unique_ids(elements_view(old(self).elements@)) ==> unique_ids(elements_view(final(self).elements@)),
            forall|i: int|
                0 <= i < final(self).elements@.len() ==> (#[trigger] final(self).elements@[i]).1 == *position
                    || (i < old(self).elements@.len() && final(self).elements@[i] == old(self).elements@[i]),
    {
        let len = self.elements.len();
        let mut i: usize = 0;
        while i < len
            invariant
                len == self.elements@.len(),
                0 <= i <= len,
                forall|j: int| 0 <= j < i ==> (#[trigger] self.elements@[j]).0@ != node@,
            ensures
                0 <= i <= len,
                forall|j: int| 0 <= j < i ==> (#[trigger] self.elements@[j]).0@ != node@,
                i < len ==> self.elements@[i as int].0@ == node@,
            decreases len - i,
        {
            if self.elements[i].0 == *node {
                break;
            }
            i = i + 1;
        }
        proof {
            lemma_put_entry(elements_view(self.elements@), node@, position.x as int, position.y as int);
        }
        if i < len {
            self.elements[i] = (node.clone(), *position);
            proof {
                assert(elements_view(self.elements@) =~= elements_view(old(self).elements@).update(i as int, (node@, (position.x as int, position.y as int))));
            }
        } else {
            self.elements.push((node.clone(), *position));
            proof {
                assert(elements_view(self.elements@) =~= elements_view(old(self).elements@).push((node@, (position.x as int, position.y as int))));
            }
        }
    }

    /// An entry routed into the children of a node that held no entry with its
    /// identifier lands in the first quadrant that takes it, and only there.
    pub proof fn lemma_lands(before: QuadTree, after: QuadTree, e: EntryView)
        requires
            before.divided,
            after.bounds == before.bounds,
            lacks(before.stored(), e.0),
            Self::routed(before, after, e, 0),
            Self::routed(before, after, e, 1),
            Self::routed(before, after, e, 2),
            Self::routed(before, after, e, 3),
        ensures
            after.lands(e, 0),
            after.lands(e, 1),
            after.lands(e, 2),
            after.lands(e, 3),
    {
        let a = Self::stored_of(before.tl);
        let b = Self::stored_of(before.tr);
        let c = Self::stored_of(before.bl);
        let d = Self::stored_of(before.br);
        assert(before.stored() == a + b + c + d);
        lemma_lacks_concat(a + b + c, d, e.0);
        lemma_lacks_concat(a + b, c, e.0);
        lemma_lacks_concat(a, b, e.0);
        let fq = first_quadrant(before.bounds, e.1.0, e.1.1);
        assert(Self::stored_of(after.child(fq)).to_multiset().count(e) > 0);
    }

    /// Inserts `node` at `position` into the subtree. Returns false, and changes
    /// nothing, when the position lies outside this node's bounds.
    pub fn insert(&mut self, node: &ID, position: &Vector2d) -> (r: bool)
        requires
            old(self).wf(),
            old(self).mass < u64::MAX,
        ensures
            final(self).wf(),
            final(self).bounds == old(self).bounds,
            final(self).depth == old(self).depth,
            r ==> final(self).mass == old(self).mass + 1,
            r ==> final(self).sum_x == old(self).sum_x + position.x,
            r ==> final(self).sum_y == old(self).sum_y + position.y,
            !r ==> final(self).mass == old(self).mass,
            !r ==> final(self).sum_x == old(self).sum_x,
            !r ==> final(self).sum_y == old(self).sum_y,
            !accepts(old(self).bounds, position.x as int, position.y as int) ==> !r && *final(self) == *old(self),
            old(self).divided ==> final(self).divided,
            accepts(old(self).bounds, position.x as int, position.y as int) && (old(self).depth == MAX_DEPTH || (!old(self).divided && old(self).elements@.len() == 0)) ==> {
                &&& r
                &&& !final(self).divided
                &&& elements_view(final(self).elements@) == put_entry(
                    elements_view(old(self).elements@),
                    node@,
                    position.x as int,
                    position.y as int,
                )
            },
            accepts(old(self).bounds, position.x as int, position.y as int) && !old(self).divided
                && old(self).elements@.len() == 0 ==> elements_view(final(self).elements@) == seq![
                (node@, (position.x as int, position.y as int)),
            ],
            accepts(old(self).bounds, position.x as int, position.y as int) && old(self).depth < MAX_DEPTH && (old(self).divided || old(self).elements@.len() > 0) ==> final(self).divided,
            within(old(self).bounds, position.x as int, position.y as int) ==> r,
            old(self).tidy() && within(old(self).bounds, position.x as int, position.y as int) && lacks(
                old(self).stored(),
                node@,
            ) ==> {
                &&& final(self).tidy()
                &&& final(self).stored().to_multiset() == old(self).stored().to_multiset().insert(
                    (node@, (position.x as int, position.y as int)),
                )
            },
            old(self).divided && within(old(self).bounds, position.x as int, position.y as int) && accepts(quadrant(old(self).bounds, 0), position.x as int, position.y as int) ==> final(self).tr == old(self).tr && final(self).bl == old(self).bl
                && final(self).br == old(self).br,
            old(self).divided && within(old(self).bounds, position.x as int, position.y as int) && !accepts(quadrant(old(self).bounds, 0), position.x as int, position.y as int) && accepts(quadrant(old(self).bounds, 1), position.x as int, position.y as int) ==> final(self).tl == old(self).tl
                && final(self).bl == old(self).bl && final(self).br == old(self).br,
            old(self).divided && within(old(self).bounds, position.x as int, position.y as int) && !accepts(quadrant(old(self).bounds, 0), position.x as int, position.y as int) && !accepts(quadrant(old(self).bounds, 1), position.x as int, position.y as int) && accepts(quadrant(old(self).bounds, 2), position.x as int, position.y as int) ==> final(self).tl == old(self).tl
                && final(self).tr == old(self).tr && final(self).br == old(self).br,
            old(self).divided && within(old(self).bounds, position.x as int, position.y as int) && !accepts(quadrant(old(self).bounds, 0), position.x as int, position.y as int) && !accepts(quadrant(old(self).bounds, 1), position.x as int, position.y as int) && !accepts(quadrant(old(self).bounds, 2), position.x as int, position.y as int) ==> final(self).tl == old(self).tl
                && final(self).tr == old(self).tr && final(self).bl == old(self).bl,
            old(self).tidy() && within(old(self).bounds, position.x as int, position.y as int) && lacks(
                old(self).stored(),
                node@,
            ) && old(self).depth < MAX_DEPTH && (old(self).divided || old(self).elements@.len() > 0) ==> {
                &&& final(self).divided
                &&& final(self).lands((node@, (position.x as int, position.y as int)), 0)
                &&& final(self).lands((node@, (position.x as int, position.y as int)), 1)
                &&& final(self).lands((node@, (position.x as int, position.y as int)), 2)
                &&& final(self).lands((node@, (position.x as int, position.y as int)), 3)
            },
            old(self).divided && within(old(self).bounds, position.x as int, position.y as int) ==> {
                let q = first_quadrant(old(self).bounds, position.x as int, position.y as int);
                &&& mass_of(final(self).child(q)) == mass_of(old(self).child(q)) + 1
                &&& sum_x_of(final(self).child(q)) == sum_x_of(old(self).child(q)) + position.x
                &&& sum_y_of(final(self).child(q)) == sum_y_of(old(self).child(q)) + position.y
            },
        decreases MAX_DEPTH - old(self).depth, 2int,
    {
        if !self.bounds.overlaps_vec2d(position) {
            return false;
        }
        if self.depth == MAX_DEPTH || (!self.divided && self.elements.len() == 0) {
            let ghost leaf = *self;
            self.store_element(node, position);
            self.update_mass(position);
            proof {
                let px = position.x as int;
                let py = position.y as int;
                assert forall|i: int| 0 <= i < self.elements@.len() implies accepts(
                    self.bounds,
                    (#[trigger] self.elements@[i]).1.x as int,
                    self.elements@[i].1.y as int,
                ) by {
                    if self.elements@[i].1 != *position {
                        assert(self.elements@[i] == leaf.elements@[i]);
                    }
                }
                if leaf.tidy() && within(leaf.bounds, px, py) {
                    assert forall|i: int| 0 <= i < self.elements@.len() implies within(
                        self.bounds,
                        (#[trigger] self.elements@[i]).1.x as int,
                        self.elements@[i].1.y as int,
                    ) by {
                        if self.elements@[i].1 != *position {
                            assert(self.elements@[i] == leaf.elements@[i]);
                        }
                    }
                    if lacks(leaf.stored(), node@) {
                        let es = elements_view(leaf.elements@);
                        lemma_lacks_entries(leaf.stored(), node@);
                        lemma_put_entry(es, node@, px, py);
                        assert(es.push((node@, (px, py))).drop_last() =~= es);
                    }
                }
                if leaf.elements@.len() == 0 {
                    let es = elements_view(leaf.elements@);
                    lemma_put_entry(es, node@, px, py);
                    assert(es.push((node@, (px, py))) =~= seq![(node@, (px, py))]);
                }
            }
            return true;
        }
        if !self.divided {
            self.divide();
        }
        let ghost before = *self;
        let inserted = self.insert_into_children(node, position);
        proof {
            let e = (node@, (position.x as int, position.y as int));
            if old(self).tidy() && within(old(self).bounds, e.1.0, e.1.1) && lacks(old(self).stored(), node@) {
                Self::lemma_lands(before, *self, e);
            }
        }
        if inserted {
            self.update_mass(position);
        }
        inserted
    }

    /// Offers the entity to the children in the order top-left, top-right,
    /// bottom-left, bottom-right, stopping at the first that stores it.
    fn insert_into_children(&mut self, node: &ID, position: &Vector2d) -> (r: bool)
        requires
            old(self).local_ok(),
            old(self).divided,
            old(self).children_ok(),
            old(self).children_mass() < u64::MAX,
        ensures
            final(self).local_ok(),
            final(self).divided,
            final(self).children_ok(),
            final(self).bounds == old(self).bounds,
            final(self).depth == old(self).depth,
            final(self).mass == old(self).mass,
            final(self).sum_x == old(self).sum_x,
            final(self).sum_y == old(self).sum_y,
            final(self).elements == old(self).elements,
            final(self).children_mass() == old(self).children_mass() + if r { 1int } else { 0int },
            final(self).children_sum_x() == old(self).children_sum_x() + if r { position.x as int } else { 0int },
            final(self).children_sum_y() == old(self).children_sum_y() + if r { position.y as int } else { 0int },
            within(old(self).bounds, position.x as int, position.y as int) ==> r,
            old(self).children_tidy() && within(old(self).bounds, position.x as int, position.y as int) && lacks(
                old(self).stored(),
                node@,
            ) ==> {
                &&& Self::routed(*old(self), *final(self), (node@, (position.x as int, position.y as int)), 0)
                &&& Self::routed(*old(self), *final(self), (node@, (position.x as int, position.y as int)), 1)
                &&& Self::routed(*old(self), *final(self), (node@, (position.x as int, position.y as int)), 2)
                &&& Self::routed(*old(self), *final(self), (node@, (position.x as int, position.y as int)), 3)
                &&& final(self).children_tidy()
                &&& final(self).stored().to_multiset() == old(self).stored().to_multiset().insert(
                    (node@, (position.x as int, position.y as int)),
                )
            },
            within(old(self).bounds, position.x as int, position.y as int) && accepts(quadrant(old(self).bounds, 0), position.x as int, position.y as int) ==> final(self).tr == old(self).tr && final(self).bl == old(self).bl
                && final(self).br == old(self).br,
            within(old(self).bounds, position.x as int, position.y as int) && !accepts(quadrant(old(self).bounds, 0), position.x as int, position.y as int) && accepts(quadrant(old(self).bounds, 1), position.x as int, position.y as int) ==> final(self).tl == old(self).tl
                && final(self).bl == old(self).bl && final(self).br == old(self).br,
            within(old(self).bounds, position.x as int, position.y as int) && !accepts(quadrant(old(self).bounds, 0), position.x as int, position.y as int) && !accepts(quadrant(old(self).bounds, 1), position.x as int, position.y as int) && accepts(quadrant(old(self).bounds, 2), position.x as int, position.y as int) ==> final(self).tl == old(self).tl
                && final(self).tr == old(self).tr && final(self).br == old(self).br,
            within(old(self).bounds, position.x as int, position.y as int) && !accepts(quadrant(old(self).bounds, 0), position.x as int, position.y as int) && !accepts(quadrant(old(self).bounds, 1), position.x as int, position.y as int) && !accepts(quadrant(old(self).bounds, 2), position.x as int, position.y as int) ==> final(self).tl == old(self).tl
                && final(self).tr == old(self).tr && final(self).bl == old(self).bl,
        decreases MAX_DEPTH - old(self).depth, 0int,
    {
        let ghost px = position.x as int;
        let ghost py = position.y as int;
        let ghost hyp = old(self).children_tidy() && within(old(self).bounds, px, py);
        proof {
            if within(old(self).bounds, px, py) {
                lemma_quadrant_route(self.bounds, px, py);
            }
            if hyp {
                if lacks(self.stored(), node@) {
                    let a = Self::stored_of(self.tl);
                    let b = Self::stored_of(self.tr);
                    let c = Self::stored_of(self.bl);
                    let d = Self::stored_of(self.br);
                    assert(self.stored() == a + b + c + d);
                    lemma_lacks_concat(a + b + c, d, node@);
                    lemma_lacks_concat(a + b, c, node@);
                    lemma_lacks_concat(a, b, node@);
                }
            }
        }
        let mut inserted = false;
        if let Some(c) = &mut self.tl {
            inserted = c.insert(node, position);
        }
        if !inserted {
            if let Some(c) = &mut self.tr {
                inserted = c.insert(node, position);
            }
        }
        if !inserted {
            if let Some(c) = &mut self.bl {
                inserted = c.insert(node, position);
            }
        }
        if !inserted {
            if let Some(c) = &mut self.br {
                inserted = c.insert(node, position);
            }
        }
        proof {
            if hyp && lacks(old(self).stored(), node@) {
                let e = (node@, (px, py));
                assert(self.stored() == Self::stored_of(self.tl) + Self::stored_of(self.tr)
                    + Self::stored_of(self.bl) + Self::stored_of(self.br));
                assert(self.stored().to_multiset() =~= old(self).stored().to_multiset().insert(e));
            }
        }
        inserted
    }

    /// Splits this leaf into four empty quadrant children and pushes each entity
    /// of its own map down into the first child that takes it. The node's own map
    /// is left as it was.
    fn divide(&mut self)
        requires
            old(self).wf(),
            !old(self).divided,
            old(self).depth < MAX_DEPTH,
            old(self).elements@.len() > 0,
        ensures
            final(self).wf(),
            final(self).divided,
            final(self).children_mass() <= old(self).elements@.len(),
            final(self).bounds == old(self).bounds,
            final(self).depth == old(self).depth,
            final(self).mass == old(self).mass,
            final(self).sum_x == old(self).sum_x,
            final(self).sum_y == old(self).sum_y,
            final(self).elements == old(self).elements,
            old(self).tidy() ==> {
                &&& final(self).children_tidy()
                &&& final(self).children_mass() == old(self).elements@.len()
                &&& final(self).children_sum_x() == old(self).sum_x
                &&& final(self).children_sum_y() == old(self).sum_y
                &&& final(self).stored().to_multiset() == old(self).stored().to_multiset()
                &&& final(self).lands(elements_view(old(self).elements@)[0], 0)
                &&& final(self).lands(elements_view(old(self).elements@)[0], 1)
                &&& final(self).lands(elements_view(old(self).elements@)[0], 2)
                &&& final(self).lands(elements_view(old(self).elements@)[0], 3)
            },
        decreases MAX_DEPTH - old(self).depth, 1int,
    {
        let hw = self.bounds.half_width();
        let hh = self.bounds.half_height();
        let new_depth = self.depth + 1;
        let x = self.bounds.position.x;
        let y = self.bounds.position.y;
        let rw = self.bounds.size.x - hw;
        let rh = self.bounds.size.y - hh;
        self.tl = Some(Box::new(QuadTree::new(AABB::new((x, y), (hh, hw)), new_depth)));
        self.tr = Some(Box::new(QuadTree::new(AABB::new((x + hw, y), (hh, rw)), new_depth)));
        self.bl = Some(Box::new(QuadTree::new(AABB::new((x, y + hh), (rh, hw)), new_depth)));
        self.br = Some(Box::new(QuadTree::new(AABB::new((x + hw, y + hh), (rh, rw)), new_depth)));
        self.divided = true;
        assert(self.tl.unwrap().bounds == quadrant(self.bounds, 0));
        assert(self.tr.unwrap().bounds == quadrant(self.bounds, 1));
        assert(self.bl.unwrap().bounds == quadrant(self.bounds, 2));
        assert(self.br.unwrap().bounds == quadrant(self.bounds, 3));
        let len = self.elements.len();
        proof {
            assert(elements_view(self.tl.unwrap().elements@) =~= Seq::<EntryView>::empty());
            assert(elements_view(self.tr.unwrap().elements@) =~= Seq::<EntryView>::empty());
            assert(elements_view(self.bl.unwrap().elements@) =~= Seq::<EntryView>::empty());
            assert(elements_view(self.br.unwrap().elements@) =~= Seq::<EntryView>::empty());
            assert(Self::stored_of(self.tl) =~= Seq::<EntryView>::empty());
            assert(Self::stored_of(self.tr) =~= Seq::<EntryView>::empty());
            assert(Self::stored_of(self.bl) =~= Seq::<EntryView>::empty());
            assert(Self::stored_of(self.br) =~= Seq::<EntryView>::empty());
            assert(self.stored() =~= Seq::<EntryView>::empty());
            assert(Seq::<EntryView>::empty().to_multiset() =~= Multiset::empty());
            assert(self.tl.unwrap().tidy());
            assert(self.tr.unwrap().tidy());
            assert(self.bl.unwrap().tidy());
            assert(self.br.unwrap().tidy());
            if len == 0 {
                assert(elements_view(self.elements@) =~= Seq::<EntryView>::empty());
            }
        }
        let mut i: usize = 0;
        while i < len
            invariant
                0 <= i <= len,
                len == self.elements@.len(),
                self.elements == old(self).elements,
                self.wf(),
                self.divided,
                self.children_mass() <= i,
                self.depth < MAX_DEPTH,
                self.mass >= 1,
                self.bounds == old(self).bounds,
                self.depth == old(self).depth,
                self.mass == old(self).mass,
                self.sum_x == old(self).sum_x,
                self.sum_y == old(self).sum_y,
                len <= 1,
                !old(self).divided,
                old(self).wf(),
                i == 0 ==> self.stored().to_multiset() =~= Multiset::empty(),
                i == 0 ==> self.children_mass() == 0 && self.children_sum_x() == 0 && self.children_sum_y() == 0,
                old(self).tidy() ==> {
                    &&& self.children_tidy()
                    &&& self.children_mass() == i
                    &&& i == len ==> self.stored().to_multiset() == old(self).stored().to_multiset()
                    &&& i == len ==> self.children_sum_x() == old(self).sum_x
                    &&& i == len ==> self.children_sum_y() == old(self).sum_y
                    &&& i == len ==> self.lands(elements_view(old(self).elements@)[0], 0) && self.lands(elements_view(old(self).elements@)[0], 1) && self.lands(elements_view(old(self).elements@)[0], 2)
                        && self.lands(elements_view(old(self).elements@)[0], 3)
                },
                len >= 1,
            decreases len - i,
        {
            let id = self.elements[i].0.clone();
            let pos = self.elements[i].1;
            proof {
                if old(self).tidy() {
                    assert(i == 0);
                    let ev = (id@, (pos.x as int, pos.y as int));
                    assert(elements_view(self.elements@) =~= Seq::<EntryView>::empty().push(ev));
                    assert(Seq::<EntryView>::empty().to_multiset() =~= Multiset::empty());
                }
            }
            let ghost pre = *self;
            let inserted = self.insert_into_children(&id, &pos);
            proof {
                if old(self).tidy() {
                    let ev = (id@, (pos.x as int, pos.y as int));
                    let es = elements_view(self.elements@);
                    assert(es =~= Seq::<EntryView>::empty().push(ev));
                    assert(es.drop_last() =~= Seq::<EntryView>::empty());
                    assert(old(self).stored() == es);
                    assert(es.to_multiset() =~= Multiset::empty().insert(ev));
                    assert(inserted);
                    assert(self.children_mass() == 1);
                    assert(self.children_tidy());
                    assert(entries_sum_x(es.drop_last()) == 0);
                    assert(entries_sum_y(es.drop_last()) == 0);
                    assert(es.last() == ev);
                    assert(entries_sum_x(es) == pos.x);
                    assert(entries_sum_y(es) == pos.y);
                    assert(es[0] == ev);
                    Self::lemma_lands(pre, *self, ev);
                }
            }
            i = i + 1;
        }
    }

    /// Every leaf entry of a well-formed subtree lies within the `±size` extent of its bounds.
    pub proof fn lemma_stored_inside(self)
        requires
            self.wf(),
        ensures
            inside(self.stored(), self.bounds),
        decreases self,
    {
        if self.divided {
            let a = Self::stored_of(self.tl);
            let b = Self::stored_of(self.tr);
            let c = Self::stored_of(self.bl);
            let d = Self::stored_of(self.br);
            self.tl.unwrap().lemma_stored_inside();
            self.tr.unwrap().lemma_stored_inside();
            self.bl.unwrap().lemma_stored_inside();
            self.br.unwrap().lemma_stored_inside();
            lemma_inside_quadrant(a, self.bounds, 0);
            lemma_inside_quadrant(b, self.bounds, 1);
            lemma_inside_quadrant(c, self.bounds, 2);
            lemma_inside_quadrant(d, self.bounds, 3);
            lemma_inside_add(a, b, self.bounds);
            lemma_inside_add(a + b, c, self.bounds);
            lemma_inside_add(a + b + c, d, self.bounds);
        } else {
            let s = self.stored();
            assert forall|k: int| 0 <= k < s.len() implies accepts(self.bounds, (#[trigger] s[k]).1.0, s[k].1.1) by {
                assert(s[k] == (self.elements@[k].0@, (self.elements@[k].1.x as int, self.elements@[k].1.y as int)));
            }
        }
    }

    /// In a tidy tree every node's mass is the number of leaf entries below it,
    /// and its sums are the sums of their positions.
    pub proof fn lemma_tidy_counts(self)
        requires
            self.tidy(),
        ensures
            self.stored().len() == self.mass,
            entries_sum_x(self.stored()) == self.sum_x,
            entries_sum_y(self.stored()) == self.sum_y,
        decreases self,
    {
        if self.divided {
            let a = Self::stored_of(self.tl);
            let b = Self::stored_of(self.tr);
            let c = Self::stored_of(self.bl);
            let d = Self::stored_of(self.br);
            self.tl.unwrap().lemma_tidy_counts();
            self.tr.unwrap().lemma_tidy_counts();
            self.bl.unwrap().lemma_tidy_counts();
            self.br.unwrap().lemma_tidy_counts();
            lemma_sums_add(a, b);
            lemma_sums_add(a + b, c);
            lemma_sums_add(a + b + c, d);
        }
    }

    /// A tidy tree holding one unit of mass is a single leaf with one entry, and
    /// its sums are that entry's position.
    pub proof fn lemma_single_entity(self)
        requires
            self.tidy(),
            self.mass == 1,
        ensures
            !self.divided,
            self.elements@.len() == 1,
            self.sum_x == self.elements@[0].1.x,
            self.sum_y == self.elements@[0].1.y,
    {
        let es = elements_view(self.elements@);
        assert(es.drop_last() =~= Seq::<EntryView>::empty());
        assert(entries_sum_x(es.drop_last()) == 0);
        assert(entries_sum_y(es.drop_last()) == 0);
    }

    /// Querying the tree's own bounds returns the identifier of every stored
    /// entry exactly once, in the order of `stored`.
    pub proof fn lemma_query_completeness(self)
        requires
            self.wf(),
        ensures
            select(self.stored(), self.bounds) == self.stored().map_values(|e: EntryView| e.0),
    {
        self.lemma_stored_inside();
        lemma_select_all(self.stored(), self.bounds);
    }

    /// A well-formed node below the maximum depth that holds two or more units of
    /// mass has been split into four children.
    pub proof fn lemma_subdivided(self)
        requires
            self.wf(),
            self.depth < MAX_DEPTH,
            self.mass >= 2,
        ensures
            self.divided,
            self.tl is Some,
            self.tr is Some,
            self.bl is Some,
            self.br is Some,
    {
    }

    /// The identifiers of the leaf entries of this subtree whose position `area`
    /// takes, leaves in the order of `stored`.
    pub fn query(&self, area: &AABB) -> (out: Vec<ID>)
        requires
            self.wf(),
        ensures
            ids_view(out@) == select(self.stored(), *area),
        decreases MAX_DEPTH - self.depth,
    {
        let mut out: Vec<ID> = Vec::new();
        proof {
            self.lemma_stored_inside();
        }
        if self.bounds.overlaps_aabb(area) {
            if !self.divided {
                let ghost es = elements_view(self.elements@);
                let mut i: usize = 0;
                while i < self.elements.len()
                    invariant
                        0 <= i <= self.elements@.len(),
                        es == elements_view(self.elements@),
                        ids_view(out@) == select(es.take(i as int), *area),
                    decreases self.elements@.len() - i,
                {
                    let id = &self.elements[i].0;
                    let pos = &self.elements[i].1;
                    assert(es.take(i as int + 1).drop_last() =~= es.take(i as int));
                    if area.overlaps_vec2d(pos) {
                        out.push(id.clone());
                    }
                    assert(ids_view(out@) =~= select(es.take(i as int + 1), *area));
                    i = i + 1;
                }
                assert(es.take(self.elements@.len() as int) =~= es);
            } else {
                let ghost a = Self::stored_of(self.tl);
                let ghost b = Self::stored_of(self.tr);
                let ghost c = Self::stored_of(self.bl);
                let ghost d = Self::stored_of(self.br);
                proof {
                    lemma_select_add(a, b, *area);
                    lemma_select_add(a + b, c, *area);
                    lemma_select_add(a + b + c, d, *area);
                }
                if let Some(n) = &self.tl {
                    let mut q = n.query(area);
                    out.append(&mut q);
                }
                assert(ids_view(out@) =~= select(a, *area));
                if let Some(n) = &self.tr {
                    let ghost prev = out@;
                    let mut q = n.query(area);
                    let ghost qv = q@;
                    out.append(&mut q);
                    assert(ids_view(out@) =~= ids_view(prev) + ids_view(qv));
                }
                if let Some(n) = &self.bl {
                    let ghost prev = out@;
                    let mut q = n.query(area);
                    let ghost qv = q@;
                    out.append(&mut q);
                    assert(ids_view(out@) =~= ids_view(prev) + ids_view(qv));
                }
                if let Some(n) = &self.br {
                    let ghost prev = out@;
                    let mut q = n.query(area);
                    let ghost qv = q@;
                    out.append(&mut q);
                    assert(ids_view(out@) =~= ids_view(prev) + ids_view(qv));
                }
            }
        } else {
            proof {
                lemma_select_outside(self.stored(), self.bounds, *area);
            }
            assert(ids_view(out@) =~= Seq::<IdView>::empty());
        }
        out
    }

    /// Whether `node` is one of the entities held in this node's own map.
    pub fn holds_id(&self, node: &ID) -> (r: bool)
        ensures
            r == exists|i: int| 0 <= i < self.elements@.len() && (#[trigger] self.elements@[i]).0@ == node@,
    {
        let mut i: usize = 0;
        while i < self.elements.len()
            invariant
                0 <= i <= self.elements@.len(),
                forall|j: int| 0 <= j < i ==> (#[trigger] self.elements@[j]).0@ != node@,
            decreases self.elements@.len() - i,
        {
            if self.elements[i].0 == *node {
                return true;
            }
            i = i + 1;
        }
        false
    }

    /// Adds one unit of mass at `pos` to this node's aggregate.
    fn update_mass(&mut self, pos: &Vector2d)
        requires
            old(self).mass < u64::MAX,
            -(old(self).mass * coord_span()) <= old(self).sum_x <= old(self).mass * coord_span(),
            -(old(self).mass * coord_span()) <= old(self).sum_y <= old(self).mass * coord_span(),
        ensures
            final(self).mass == old(self).mass + 1,
            final(self).sum_x == old(self).sum_x + pos.x,
            final(self).sum_y == old(self).sum_y + pos.y,
            final(self).bounds == old(self).bounds,
            final(self).depth == old(self).depth,
            final(self).divided == old(self).divided,
            final(self).tl == old(self).tl,
            final(self).tr == old(self).tr,
            final(self).bl == old(self).bl,
            final(self).br == old(self).br,
            final(self).elements == old(self).elements,
    {
        self.sum_x = self.sum_x + pos.x as i128;
        self.sum_y = self.sum_y + pos.y as i128;
        self.mass = self.mass + 1;
    }
}

} // verus!
