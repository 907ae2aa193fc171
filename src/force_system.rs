use vstd::prelude::*;
use vstd::multiset::Multiset;
use crate::quad::{AABB, EntryView, QuadTree, MAX_DEPTH, entries_sum_x, entries_sum_y, fits, lacks, within};
use crate::structs::{ID, IdView, Position, Vector2d};

verus! {

broadcast use {
    vstd::seq_lib::lemma_multiset_commutative,
    vstd::seq_lib::to_multiset_build,
    vstd::seq_lib::to_multiset_contains,
};

/// Parameters of the repulsion: the gravitational constant, negative for
/// repulsion, and the approximation threshold `theta`, held as the ratio
/// `theta_num / theta_den`.
#[derive(Clone, Copy)]
pub struct ForceSystemOptions {
    pub gravitational_constant: i32,
    pub theta_num: u32,
    pub theta_den: u32,
}

/// The Barnes-Hut evaluator: the spatial index of the current step and its options.
pub struct ForceSystem {
    pub barnes_hut_tree: QuadTree,
    pub options: ForceSystemOptions,
}

pub open spec fn entry_of(p: (ID, Position)) -> EntryView {
    (p.0@, (p.1.x as int, p.1.y as int))
}

/// The entries of the present slots of `s`, in slot order.
pub open spec fn present(s: Seq<Option<(ID, Position)>>) -> Seq<EntryView>
    decreases s.len(),
{
    if s.len() == 0 {
        Seq::empty()
    } else {
        let rest = present(s.drop_last());
        match s.last() {
            Some(p) => rest.push(entry_of(p)),
            None => rest,
        }
    }
}

/// Every present slot holds a position within the rectangle spanned by `b`.
pub open spec fn all_within(s: Seq<Option<(ID, Position)>>, b: AABB) -> bool {
    forall|i: int|
        0 <= i < s.len() && (#[trigger] s[i]) is Some ==> within(
            b,
            s[i].unwrap().1.x as int,
            s[i].unwrap().1.y as int,
        )
}

/// No two present slots hold the same identifier.
pub open spec fn distinct_ids(s: Seq<Option<(ID, Position)>>) -> bool {
    forall|i: int, j: int|
        0 <= i < j < s.len() && (#[trigger] s[i]) is Some && (#[trigger] s[j]) is Some ==> s[i].unwrap().0@
            != s[j].unwrap().0@
}


/// A branch of the tree taken as one point mass: its mass and coordinate sums,
/// so that it sits at `(sum_x / mass, sum_y / mass)`.
#[derive(Clone, Copy)]
pub struct Interaction {
    pub mass: u64,
    pub sum_x: i128,
    pub sum_y: i128,
}

pub type InteractionView = (int, int, int);

pub open spec fn interaction_view(i: Interaction) -> InteractionView {
    (i.mass as int, i.sum_x as int, i.sum_y as int)
}

pub open spec fn interactions_view(v: Seq<Interaction>) -> Seq<InteractionView> {
    v.map_values(|i: Interaction| interaction_view(i))
}

pub open spec fn body_of(t: QuadTree) -> InteractionView {
    (t.mass as int, t.sum_x as int, t.sum_y as int)
}

/// Whether `branch` is far enough from `(px, py)` to stand as one point mass:
/// `s / d < theta`, where `s` is the larger side of the branch and `d` the
/// distance from its center of mass, squared and cleared of fractions as
/// `(s * den * m)^2 < num^2 * ((sum_x - m * px)^2 + (sum_y - m * py)^2)`.
/// A branch for which these quantities do not fit in 128 bits is opened instead.
pub open spec fn approximates(opts: ForceSystemOptions, branch: QuadTree, px: int, py: int) -> bool {
    let m = branch.mass as int;
    let s = if branch.bounds.size.x > branch.bounds.size.y {
        branch.bounds.size.x as int
    } else {
        branch.bounds.size.y as int
    };
    let mx = m * px;
    let my = m * py;
    let dx = branch.sum_x - mx;
    let dy = branch.sum_y - my;
    let lhs = (s * opts.theta_den * m) * (s * opts.theta_den * m);
    let rhs = (opts.theta_num * opts.theta_num) * (dx * dx + dy * dy);
    &&& i128::MIN <= mx <= i128::MAX
    &&& i128::MIN <= my <= i128::MAX
    &&& i128::MIN <= dx <= i128::MAX
    &&& i128::MIN <= dy <= i128::MAX
    &&& rhs <= u128::MAX
    &&& lhs < rhs
}

/// The point masses that act on `node` at `(px, py)` from `branch`: an empty
/// branch gives none; a branch that `approximates` gives itself; a divided one
/// gives those of its children in order; a leaf gives itself unless it holds `node`.
pub open spec fn bodies(opts: ForceSystemOptions, node: IdView, px: int, py: int, branch: QuadTree) -> Seq<InteractionView>
    decreases branch,
{
    if !(branch.divided || branch.elements@.len() > 0) {
        Seq::empty()
    } else if approximates(opts, branch, px, py) {
        seq![body_of(branch)]
    } else if branch.divided {
        let a = match branch.tl {
            Some(c) => bodies(opts, node, px, py, *c),
            None => Seq::empty(),
        };
        let b = match branch.tr {
            Some(c) => bodies(opts, node, px, py, *c),
            None => Seq::empty(),
        };
        let c = match branch.bl {
            Some(c) => bodies(opts, node, px, py, *c),
            None => Seq::empty(),
        };
        let d = match branch.br {
            Some(c) => bodies(opts, node, px, py, *c),
            None => Seq::empty(),
        };
        a + b + c + d
    } else if holds(branch, node) {
        Seq::empty()
    } else {
        seq![body_of(branch)]
    }
}

/// `node` is one of the entities in the node's own map.
pub open spec fn holds(t: QuadTree, node: IdView) -> bool {
    exists|i: int| 0 <= i < t.elements@.len() && (#[trigger] t.elements@[i]).0@ == node
}

/// The magnitude of `v`, as an unsigned number.
fn magnitude(v: i128) -> (r: u128)
    ensures
        r == if v < 0 { -v } else { v as int },
{
    if v < 0 {
        ((-(v + 1)) as u128) + 1
    } else {
        v as u128
    }
}

proof fn lemma_square_grows(a: int, b: int)
    requires
        0 <= a <= b,
    ensures
        a * a <= b * b,
{
    assert(a * a <= b * b) by (nonlinear_arith)
        requires
            0 <= a <= b,
    ;
}

proof fn lemma_rhs_bound(num: int, a: int, b: int)
    requires
        0 <= num,
        0 <= a,
        0 <= b,
    ensures
        num == 0 ==> (num * num) * (a + b) == 0,
        num >= 1 ==> a + b <= (num * num) * (a + b),
{
    assert(num == 0 ==> (num * num) * (a + b) == 0) by (nonlinear_arith);
    assert(num >= 1 ==> a + b <= (num * num) * (a + b)) by (nonlinear_arith)
        requires
            0 <= a,
            0 <= b,
    ;
}

proof fn lemma_square_nonneg(q: int)
    ensures
        q * q >= 0,
{
    assert(q * q >= 0) by (nonlinear_arith);
}

proof fn lemma_product_at_least(a: int, k: int)
    requires
        0 <= a,
        1 <= k,
    ensures
        a <= a * k,
{
    assert(a <= a * k) by (nonlinear_arith)
        requires
            0 <= a,
            1 <= k,
    ;
}


/// The non-empty leaves of `branch` that do not hold `node`, each as a point mass,
/// in the order of the traversal.
pub open spec fn leaf_bodies(node: IdView, branch: QuadTree) -> Seq<InteractionView>
    decreases branch,
{
    if branch.divided {
        let a = match branch.tl {
            Some(c) => leaf_bodies(node, *c),
            None => Seq::empty(),
        };
        let b = match branch.tr {
            Some(c) => leaf_bodies(node, *c),
            None => Seq::empty(),
        };
        let c = match branch.bl {
            Some(c) => leaf_bodies(node, *c),
            None => Seq::empty(),
        };
        let d = match branch.br {
            Some(c) => leaf_bodies(node, *c),
            None => Seq::empty(),
        };
        a + b + c + d
    } else if branch.elements@.len() == 0 || holds(branch, node) {
        Seq::empty()
    } else {
        seq![body_of(branch)]
    }
}

/// With theta zero no branch is approximated: the bodies acting on `node` are
/// exactly the non-empty leaves that do not hold it.
pub proof fn lemma_zero_theta_is_exact(opts: ForceSystemOptions, node: IdView, px: int, py: int, branch: QuadTree)
    requires
        opts.theta_num == 0,
    ensures
        bodies(opts, node, px, py, branch) == leaf_bodies(node, branch),
    decreases branch,
{
    let m = branch.mass as int;
    let s = if branch.bounds.size.x > branch.bounds.size.y {
        branch.bounds.size.x as int
    } else {
        branch.bounds.size.y as int
    };
    let dx = branch.sum_x - m * px;
    let dy = branch.sum_y - m * py;
    lemma_square_nonneg(s * opts.theta_den * m);
    lemma_square_nonneg(dx);
    lemma_square_nonneg(dy);
    lemma_rhs_bound(0, dx * dx, dy * dy);
    assert(!approximates(opts, branch, px, py));
    if branch.divided {
        match branch.tl {
            Some(c) => lemma_zero_theta_is_exact(opts, node, px, py, *c),
            None => {},
        }
        match branch.tr {
            Some(c) => lemma_zero_theta_is_exact(opts, node, px, py, *c),
            None => {},
        }
        match branch.bl {
            Some(c) => lemma_zero_theta_is_exact(opts, node, px, py, *c),
            None => {},
        }
        match branch.br {
            Some(c) => lemma_zero_theta_is_exact(opts, node, px, py, *c),
            None => {},
        }
    }
}

/// In a tidy tree that holds a single entity, that entity feels no force.
pub proof fn lemma_single_entity_feels_nothing(opts: ForceSystemOptions, t: QuadTree)
    requires
        t.tidy(),
        t.mass == 1,
    ensures
        t.elements@.len() == 1,
        bodies(opts, t.elements@[0].0@, t.elements@[0].1.x as int, t.elements@[0].1.y as int, t)
            == Seq::<InteractionView>::empty(),
{
    t.lemma_single_entity();
    assert(holds(t, t.elements@[0].0@));
    lemma_self_exclusion(opts, t.elements@[0].0@, t.elements@[0].1.x as int, t.elements@[0].1.y as int, t);
}

/// A leaf that holds `node`, with all of its mass at `node`'s position, exerts no
/// force on it: the distance to its center of mass is zero, so it is never
/// approximated, and the leaf itself is excluded.
pub proof fn lemma_self_exclusion(opts: ForceSystemOptions, node: IdView, px: int, py: int, leaf: QuadTree)
    requires
        !leaf.divided,
        holds(leaf, node),
        leaf.sum_x == leaf.mass * px,
        leaf.sum_y == leaf.mass * py,
    ensures
        bodies(opts, node, px, py, leaf) == Seq::<InteractionView>::empty(),
{
    let m = leaf.mass as int;
    let s = if leaf.bounds.size.x > leaf.bounds.size.y {
        leaf.bounds.size.x as int
    } else {
        leaf.bounds.size.y as int
    };
    lemma_square_nonneg(s * opts.theta_den * m);
    assert((opts.theta_num * opts.theta_num) * (0int * 0 + 0int * 0) == 0) by (nonlinear_arith);
    assert(!approximates(opts, leaf, px, py));
}

pub proof fn lemma_present_from(s: Seq<Option<(ID, Position)>>, e: EntryView)
    requires
        present(s).contains(e),
    ensures
        exists|j: int| 0 <= j < s.len() && (#[trigger] s[j]) is Some && entry_of(s[j].unwrap()) == e,
    decreases s.len(),
{
    if s.len() > 0 {
        let rest = present(s.drop_last());
        if rest.contains(e) {
            lemma_present_from(s.drop_last(), e);
            let j = choose|j: int| 0 <= j < s.drop_last().len() && (#[trigger] s.drop_last()[j]) is Some && entry_of(s.drop_last()[j].unwrap()) == e;
            assert(s[j] == s.drop_last()[j]);
        } else {
            let k = choose|k: int| 0 <= k < present(s).len() && present(s)[k] == e;
            assert(s[s.len() - 1] == s.last());
        }
    }
}

impl ForceSystem {
    /// An evaluator over `bounds` with the gravitational constant -2000 and theta 0.7.
    pub fn new(bounds: AABB) -> (r: ForceSystem)
        requires
            fits(bounds),
        ensures
            r.barnes_hut_tree.wf(),
            r.barnes_hut_tree.bounds == bounds,
            r.barnes_hut_tree.mass == 0,
            r.barnes_hut_tree.depth == 0,
            !r.barnes_hut_tree.divided,
            r.barnes_hut_tree.elements@.len() == 0,
            r.options.gravitational_constant == -2000,
            r.options.theta_num == 7,
            r.options.theta_den == 10,
    {
        ForceSystem {
            barnes_hut_tree: QuadTree::new(bounds, 0),
            options: ForceSystemOptions { gravitational_constant: -2000, theta_num: 7, theta_den: 10 },
        }
    }

    /// Decides `approximates` for `branch` and the position `pos`.
    pub fn approximates(&self, branch: &QuadTree, pos: &Vector2d) -> (r: bool)
        requires
            fits(branch.bounds),
        ensures
            r == approximates(self.options, *branch, pos.x as int, pos.y as int),
    {
        let m = branch.mass as i128;
        let side = if branch.bounds.size.x > branch.bounds.size.y {
            branch.bounds.size.x
        } else {
            branch.bounds.size.y
        };
        let mx = match m.checked_mul(pos.x as i128) {
            Some(v) => v,
            None => return false,
        };
        let my = match m.checked_mul(pos.y as i128) {
            Some(v) => v,
            None => return false,
        };
        let dx = match branch.sum_x.checked_sub(mx) {
            Some(v) => v,
            None => return false,
        };
        let dy = match branch.sum_y.checked_sub(my) {
            Some(v) => v,
            None => return false,
        };
        let ax = magnitude(dx);
        let ay = magnitude(dy);
        let num = self.options.theta_num as u128;
        assert(num * num <= u64::MAX as int * u64::MAX as int) by (nonlinear_arith)
            requires
                0 <= num <= u64::MAX,
        ;
        let num2 = num * num;
        assert(ax * ax == dx * dx && ay * ay == dy * dy) by (nonlinear_arith)
            requires
                ax == if dx < 0 { -dx } else { dx as int },
                ay == if dy < 0 { -dy } else { dy as int },
        ;
        let ghost q = (side as int) * (self.options.theta_den as int) * (m as int);
        proof {
            lemma_square_nonneg(q);
            lemma_rhs_bound(num as int, ax * ax, ay * ay);
            lemma_square_nonneg(ax as int);
            lemma_square_nonneg(ay as int);
        }
        let ax2 = match ax.checked_mul(ax) {
            Some(v) => v,
            None => return false,
        };
        let ay2 = match ay.checked_mul(ay) {
            Some(v) => v,
            None => return false,
        };
        let d2 = match ax2.checked_add(ay2) {
            Some(v) => v,
            None => return false,
        };
        let rhs = match num2.checked_mul(d2) {
            Some(v) => v,
            None => return false,
        };
        let den = self.options.theta_den as u128;
        assert(side * (branch.mass as int) <= i64::MAX as int * u64::MAX as int) by (nonlinear_arith)
            requires
                0 <= side <= i64::MAX,
                0 <= branch.mass <= u64::MAX,
        ;
        let sm = side as u128 * branch.mass as u128;
        if side == 0 || branch.mass == 0 || den == 0 {
            assert((side * den * m) * (side * den * m) == 0) by (nonlinear_arith)
                requires
                    side == 0 || m == 0 || den == 0,
            ;
            assert(rhs == (num * num) * (dx * dx + dy * dy));
            return 0 < rhs;
        }
        let t = match sm.checked_mul(den) {
            Some(v) => v,
            None => {
                proof {
                    assert(side * den * m == sm * den) by (nonlinear_arith)
                        requires
                            sm == side * m,
                    ;
                    lemma_square_grows(u128::MAX as int, sm * den);
                    lemma_product_at_least(u128::MAX as int, u128::MAX as int);
                }
                return false;
            },
        };
        let lhs = match t.checked_mul(t) {
            Some(v) => v,
            None => {
                proof {
                    assert(side * den * m == sm * den) by (nonlinear_arith)
                        requires
                            sm == side * m,
                    ;
                }
                return false;
            },
        };
        proof {
            assert(side * den * m == sm * den) by (nonlinear_arith)
                requires
                    sm == side * m,
            ;
        }
        lhs < rhs
    }

    /// The point masses that act on `node` at `pos` from `branch`, as `bodies`
    /// describes them; the force is the sum of their contributions.
    pub fn get_force_contributions(&self, node: &ID, pos: &Vector2d, branch: &QuadTree) -> (r: Vec<Interaction>)
        requires
            branch.wf(),
        ensures
            interactions_view(r@) == bodies(self.options, node@, pos.x as int, pos.y as int, *branch),
            forall|i: int| 0 <= i < r@.len() ==> (#[trigger] r@[i]).mass >= 1,
        decreases MAX_DEPTH - branch.depth,
    {
        let ghost px = pos.x as int;
        let ghost py = pos.y as int;
        let mut out: Vec<Interaction> = Vec::new();
        if branch.divided || branch.elements.len() > 0 {
            let whole = Interaction { mass: branch.mass, sum_x: branch.sum_x, sum_y: branch.sum_y };
            if self.approximates(branch, pos) {
                out.push(whole);
                assert(interactions_view(out@) =~= seq![body_of(*branch)]);
            } else if branch.divided {
                let ghost prev = out@;
                if let Some(c) = &branch.tl {
                    let mut q = self.get_force_contributions(node, pos, c);
                    out.append(&mut q);
                }
                if let Some(c) = &branch.tr {
                    let ghost prev = out@;
                    let mut q = self.get_force_contributions(node, pos, c);
                    let ghost qv = q@;
                    out.append(&mut q);
                    assert(interactions_view(out@) =~= interactions_view(prev) + interactions_view(qv));
                }
                if let Some(c) = &branch.bl {
                    let ghost prev = out@;
                    let mut q = self.get_force_contributions(node, pos, c);
                    let ghost qv = q@;
                    out.append(&mut q);
                    assert(interactions_view(out@) =~= interactions_view(prev) + interactions_view(qv));
                }
                if let Some(c) = &branch.br {
                    let ghost prev = out@;
                    let mut q = self.get_force_contributions(node, pos, c);
                    let ghost qv = q@;
                    out.append(&mut q);
                    assert(interactions_view(out@) =~= interactions_view(prev) + interactions_view(qv));
                }
            } else if !branch.holds_id(node) {
                out.push(whole);
                assert(interactions_view(out@) =~= seq![body_of(*branch)]);
            } else {
                assert(interactions_view(out@) =~= Seq::<InteractionView>::empty());
            }
        } else {
            assert(interactions_view(out@) =~= Seq::<InteractionView>::empty());
        }
        out
    }

    /// Rebuilds the spatial index over `bounds` from the present slots of `positions`.
    pub fn construct_tree(&mut self, bounds: AABB, positions: &Vec<Option<(ID, Position)>>)
        requires
            fits(bounds),
            positions@.len() < u64::MAX,
        ensures
            final(self).options == old(self).options,
            final(self).barnes_hut_tree.wf(),
            final(self).barnes_hut_tree.bounds == bounds,
            final(self).barnes_hut_tree.depth == 0,
            final(self).barnes_hut_tree.mass <= present(positions@).len(),
            all_within(positions@, bounds) && distinct_ids(positions@) ==> {
                &&& final(self).barnes_hut_tree.tidy()
                &&& final(self).barnes_hut_tree.mass == present(positions@).len()
                &&& final(self).barnes_hut_tree.sum_x == entries_sum_x(present(positions@))
                &&& final(self).barnes_hut_tree.sum_y == entries_sum_y(present(positions@))
                &&& final(self).barnes_hut_tree.stored().to_multiset()
                    == present(positions@).to_multiset()
            },
    {
        self.barnes_hut_tree = QuadTree::new(bounds, 0);
        let ghost good = all_within(positions@, bounds) && distinct_ids(positions@);
        proof {
            assert(Seq::<EntryView>::empty().to_multiset() =~= Multiset::empty());
            assert(self.barnes_hut_tree.stored() =~= Seq::<EntryView>::empty());
            assert(positions@.take(0) =~= Seq::<Option<(ID, Position)>>::empty());
        }
        let mut i: usize = 0;
        while i < positions.len()
            invariant
                0 <= i <= positions@.len() < u64::MAX,
                self.options == old(self).options,
                self.barnes_hut_tree.wf(),
                self.barnes_hut_tree.bounds == bounds,
                self.barnes_hut_tree.depth == 0,
                self.barnes_hut_tree.mass <= present(positions@.take(i as int)).len(),
                present(positions@.take(i as int)).len() <= i,
                good == (all_within(positions@, bounds) && distinct_ids(positions@)),
                good ==> {
                    &&& self.barnes_hut_tree.tidy()
                    &&& self.barnes_hut_tree.mass == present(positions@.take(i as int)).len()
                    &&& self.barnes_hut_tree.sum_x == entries_sum_x(present(positions@.take(i as int)))
                    &&& self.barnes_hut_tree.sum_y == entries_sum_y(present(positions@.take(i as int)))
                    &&& self.barnes_hut_tree.stored().to_multiset()
                        == present(positions@.take(i as int)).to_multiset()
                },
            decreases positions@.len() - i,
        {
            let ghost before = present(positions@.take(i as int));
            assert(positions@.take(i as int + 1).drop_last() =~= positions@.take(i as int));
            if let Some(pos) = &positions[i] {
                let (id, p) = pos;
                let v = p.to_vec2d();
                proof {
                    if good {
                        assert forall|q: (int, int)| #[trigger] before.to_multiset().count((id@, q)) == 0 by {
                            if before.to_multiset().count((id@, q)) > 0 {
                                assert(before.contains((id@, q)));
                                lemma_present_from(positions@.take(i as int), (id@, q));
                                let j = choose|j: int| 0 <= j < i && (#[trigger] positions@.take(i as int)[j]) is Some
                                    && entry_of(positions@.take(i as int)[j].unwrap()) == (id@, q);
                                assert(positions@[j] == positions@.take(i as int)[j]);
                                assert(positions@[i as int] is Some);
                            }
                        }
                        assert(lacks(self.barnes_hut_tree.stored(), id@));
                    }
                    if good {
                        assert(positions@[i as int] is Some);
                        assert(within(bounds, v.x as int, v.y as int));
                    }
                }
                let inserted = self.barnes_hut_tree.insert(id, &v);
                proof {
                    let cur = positions@.take(i as int + 1);
                    assert(before.push(entry_of(*pos)).drop_last() =~= before);
                    if good {
                        assert(inserted);
                    }
                    assert(cur.last() == positions@[i as int]);
                    assert(present(cur) == before.push(entry_of(*pos)));
                }
            } else {
                proof {
                    let cur = positions@.take(i as int + 1);
                    assert(cur.last() == positions@[i as int]);
                    assert(present(cur) == before);
                }
            }
            i = i + 1;
        }
        assert(positions@.take(positions@.len() as int) =~= positions@);
    }
}

} // verus!
