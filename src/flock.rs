use vstd::prelude::*;
use crate::boid::{
    alignement_pair, cohesion_pair, color_pair, separation_pair, speed_sq, Boid, Vec2, DT_LIMIT,
    MIN_SPEED,
};
use crate::geom::{Entry, Rect, COORD_LIMIT};
use crate::quadtree::{SpatialIndex, IndexError, clamp_all, in_window};

verus! {

broadcast use vstd::seq_lib::group_to_multiset_ensures;

/// Number of equal sub-steps a tick is split into.
pub const PHYSIC_SUB_STEP: i64 = 10;

/// One entry per agent: its position, keyed by its slot.
pub open spec fn entries_of(s: Seq<Boid>) -> Seq<Entry> {
    Seq::new(s.len(), |i: int| Entry { x: s[i].position.x, y: s[i].position.y, id: i as usize })
}

/// Every agent moves at least at the floor speed.
pub open spec fn all_at_floor(s: Seq<Boid>) -> bool {
    forall|i: int| 0 <= i < s.len() ==> speed_sq(#[trigger] s[i].velocity) >= MIN_SPEED * MIN_SPEED
}

pub open spec fn all_wf(s: Seq<Boid>) -> bool {
    forall|i: int| 0 <= i < s.len() ==> (#[trigger] s[i]).wf()
}

/// The box `[0, w] x [0, h]`.
pub open spec fn bounds_of(w: int, h: int) -> Rect {
    Rect { min_x: 0, min_y: 0, max_x: w as i64, max_y: h as i64 }
}

/// The boundary `b` cut down to a window of size `w` by `h`.
pub open spec fn shrunk(b: Rect, w: int, h: int) -> Rect {
    bounds_of(
        if w < b.max_x { w } else { b.max_x as int },
        if h < b.max_y { h } else { b.max_y as int },
    )
}

/// Every agent after its border rule against a window of size `w` by `h`.
pub open spec fn border_only(bs: Seq<Boid>, w: int, h: int) -> Seq<Boid> {
    Seq::new(bs.len(), |i: int| bs[i].after_border(w, h))
}

pub open spec fn boundary_ok(r: Rect) -> bool {
    r.min_x == 0 && r.min_y == 0 && 0 <= r.max_x <= COORD_LIMIT && 0 <= r.max_y <= COORD_LIMIT
}

/// The flock: agents addressed by slot, the boundary they live in, and an index
/// of their positions (clamped into the boundary) for neighbour search.
pub struct Flock {
    pub boids: Vec<Boid>,
    pub index: SpatialIndex,
    pub boundary: Rect,
}

/// An index over `boundary` of the agents' positions, clamped into it.
fn build_index(boids: &Vec<Boid>, boundary: Rect) -> (t: SpatialIndex)
    requires
        boundary_ok(boundary),
    ensures
        t.wf(),
        t.region == boundary,
        t@.to_multiset() == clamp_all(entries_of(boids@), boundary).to_multiset(),
{
    let mut entries: Vec<Entry> = Vec::new();
    let mut i: usize = 0;
    while i < boids.len()
        invariant
            i <= boids@.len(),
            boundary_ok(boundary),
            entries@.len() == i,
            forall|k: int| 0 <= k < i ==> #[trigger] entries@[k] == clamp_all(entries_of(boids@), boundary)[k],
            forall|k: int| 0 <= k < i ==> boundary.holds(#[trigger] entries@[k]),
        decreases boids@.len() - i,
    {
        let p = boids[i].position;
        let e = boundary.clamp_entry_exec(Entry { x: p.x, y: p.y, id: i });
        entries.push(e);
        i = i + 1;
    }
    proof {
        assert(entries@ =~= clamp_all(entries_of(boids@), boundary));
    }
    match SpatialIndex::new(boundary, &entries) {
        Ok(t) => t,
        Err(_) => {
            proof {
                assert(false);
            }
            SpatialIndex::empty(boundary)
        },
    }
}

/// Resets every agent's accumulators and applies the border rule.
fn border_pass(boids: &mut Vec<Boid>, bx: i64, by: i64)
    requires
        all_wf(old(boids)@),
        0 <= bx <= COORD_LIMIT,
        0 <= by <= COORD_LIMIT,
    ensures
        final(boids)@.len() == old(boids)@.len(),
        all_wf(final(boids)@),
        final(boids)@ == border_all(old(boids)@, bx as int, by as int),
{
    let mut i: usize = 0;
    while i < boids.len()
        invariant
            i <= boids@.len() == old(boids)@.len(),
            0 <= bx <= COORD_LIMIT,
            0 <= by <= COORD_LIMIT,
            all_wf(old(boids)@),
            all_wf(boids@),
            forall|k: int| 0 <= k < i ==> #[trigger] boids@[k] == border_all(old(boids)@, bx as int, by as int)[k],
            forall|k: int| i <= k < boids@.len() ==> #[trigger] boids@[k] == old(boids)@[k],
        decreases boids@.len() - i,
    {
        let mut b = boids[i];
        b.reset_forces();
        b.handle_border_colision((bx, by));
        boids[i] = b;
        i = i + 1;
    }
    proof {
        assert(boids@ =~= border_all(old(boids)@, bx as int, by as int));
    }
}

/// Applies the accumulated colour and forces to every agent and moves it.
fn apply_pass(boids: &mut Vec<Boid>, dt: i64)
    requires
        all_wf(old(boids)@),
        0 <= dt <= DT_LIMIT,
    ensures
        final(boids)@.len() == old(boids)@.len(),
        all_wf(final(boids)@),
        final(boids)@ == apply_all(old(boids)@, dt as int),
        all_at_floor(final(boids)@),
{
    let mut i: usize = 0;
    while i < boids.len()
        invariant
            i <= boids@.len() == old(boids)@.len(),
            0 <= dt <= DT_LIMIT,
            all_wf(old(boids)@),
            all_wf(boids@),
            forall|k: int| 0 <= k < i ==> #[trigger] boids@[k] == apply_all(old(boids)@, dt as int)[k],
            forall|k: int| 0 <= k < i ==> speed_sq(#[trigger] boids@[k].velocity) >= MIN_SPEED
                * MIN_SPEED,
            forall|k: int| i <= k < boids@.len() ==> #[trigger] boids@[k] == old(boids)@[k],
        decreases boids@.len() - i,
    {
        let mut b = boids[i];
        b.apply_color();
        b.apply_separation(dt);
        b.apply_alignement(dt);
        b.apply_cohesion(dt);
        b.apply_forces(dt);
        boids[i] = b;
        i = i + 1;
    }
    proof {
        assert(boids@ =~= apply_all(old(boids)@, dt as int));
    }
}

/// The pairwise rules in the order a neighbour pass applies them: colour,
/// separation, alignment, cohesion.
pub open spec fn interaction(a: Boid, b: Boid) -> (Boid, Boid) {
    let (a1, b1) = color_pair(a, b);
    let (a2, b2) = separation_pair(a1, b1);
    let (a3, b3) = alignement_pair(a2, b2);
    cohesion_pair(a3, b3)
}

pub open spec fn reach(b: Boid) -> int {
    let r1 = if b.separation > b.alignement { b.separation } else { b.alignement };
    if r1 > b.cohesion { r1 as int } else { b.cohesion as int }
}

/// The square window around an agent that its largest interaction radius reaches.
pub open spec fn window_of(b: Boid) -> Rect {
    Rect {
        min_x: (b.position.x - reach(b)) as i64,
        min_y: (b.position.y - reach(b)) as i64,
        max_x: (b.position.x + reach(b)) as i64,
        max_y: (b.position.y + reach(b)) as i64,
    }
}

/// Agent `i` meets agent `j`: both are updated by the pairwise rules, unless
/// `j` is `i` itself or no agent.
pub open spec fn pair_step(bs: Seq<Boid>, i: int, j: int) -> Seq<Boid> {
    if j != i && 0 <= j < bs.len() && 0 <= i < bs.len() {
        bs.update(i, interaction(bs[i], bs[j]).0).update(j, interaction(bs[i], bs[j]).1)
    } else {
        bs
    }
}

/// Agent `i` meets the first `k` agents that its query returned, in order.
pub open spec fn scan(bs: Seq<Boid>, i: int, hits: Seq<Entry>, k: nat) -> Seq<Boid>
    decreases k,
{
    if k == 0 {
        bs
    } else {
        pair_step(scan(bs, i, hits, (k - 1) as nat), i, hits[k - 1].id as int)
    }
}

/// The neighbour pass over the first `n` agents: each in turn queries the
/// index entries `index` around its current position and meets what it finds.
pub open spec fn neighbor_all(bs: Seq<Boid>, index: Seq<Entry>, n: nat) -> Seq<Boid>
    decreases n,
{
    if n == 0 {
        bs
    } else {
        let prev = neighbor_all(bs, index, (n - 1) as nat);
        let hits = index.filter(in_window(window_of(prev[n - 1])));
        scan(prev, n - 1, hits, hits.len())
    }
}

pub open spec fn border_all(bs: Seq<Boid>, bx: int, by: int) -> Seq<Boid> {
    Seq::new(bs.len(), |i: int| bs[i].after_reset().after_border(bx, by))
}

pub open spec fn apply_all(bs: Seq<Boid>, dt: int) -> Seq<Boid> {
    Seq::new(
        bs.len(),
        |i: int|
            bs[i].after_color().after_separation(dt).after_alignement(dt).after_cohesion(dt).after_forces(dt),
    )
}

fn reach_window(b: &Boid) -> (w: Rect)
    requires
        b.wf(),
    ensures
        w == window_of(*b),
{
    let r1 = if b.separation > b.alignement { b.separation } else { b.alignement };
    let r = if r1 > b.cohesion { r1 } else { b.cohesion };
    Rect {
        min_x: b.position.x - r,
        min_y: b.position.y - r,
        max_x: b.position.x + r,
        max_y: b.position.y + r,
    }
}

/// Runs the pairwise handlers of agent `i` against agent `j`, on copies written back.
fn interact(boids: &mut Vec<Boid>, i: usize, j: usize)
    requires
        all_wf(old(boids)@),
        i < old(boids)@.len(),
        j < old(boids)@.len(),
        i != j,
    ensures
        final(boids)@ == pair_step(old(boids)@, i as int, j as int),
        all_wf(final(boids)@),
{
    let mut a = boids[i];
    let mut b = boids[j];
    a.handle_color(&mut b);
    a.handle_separation(&mut b);
    a.handle_alignement(&mut b);
    a.handle_cohesion(&mut b);
    boids[i] = a;
    boids[j] = b;
}

/// For each agent, queries the index around it and pairs it with every other
/// agent found; a pair met from both sides is handled twice.
fn neighbor_pass(boids: &mut Vec<Boid>, index: &SpatialIndex)
    requires
        all_wf(old(boids)@),
        index.wf(),
    ensures
        final(boids)@ == neighbor_all(old(boids)@, index@, old(boids)@.len() as nat),
        final(boids)@.len() == old(boids)@.len(),
        all_wf(final(boids)@),
{
    let mut i: usize = 0;
    while i < boids.len()
        invariant
            i <= boids@.len() == old(boids)@.len(),
            all_wf(boids@),
            index.wf(),
            boids@ == neighbor_all(old(boids)@, index@, i as nat),
        decreases boids@.len() - i,
    {
        let ghost start = boids@;
        let w = reach_window(&boids[i]);
        let hits = index.query_range(&w);
        let mut k: usize = 0;
        while k < hits.len()
            invariant
                i < boids@.len() == old(boids)@.len(),
                start.len() == boids@.len(),
                k <= hits@.len(),
                all_wf(boids@),
                boids@ == scan(start, i as int, hits@, k as nat),
            decreases hits@.len() - k,
        {
            let j = hits[k].id;
            if j != i && j < boids.len() {
                interact(boids, i, j);
            }
            k = k + 1;
        }
        i = i + 1;
    }
}

impl Flock {
    pub open spec fn wf(&self) -> bool {
        boundary_ok(self.boundary) && all_wf(self.boids@) && self.boids@.len() < usize::MAX
            && self.index.wf() && self.index.region == self.boundary
            && self.index@.to_multiset() == clamp_all(entries_of(self.boids@), self.boundary).to_multiset()
    }

    /// A flock of `boids` living in `bound`, a box with its low corner at the origin.
    pub fn new(boids: Vec<Boid>, bound: Rect) -> (f: Flock)
        requires
            boundary_ok(bound),
            all_wf(boids@),
            boids@.len() < usize::MAX,
        ensures
            f.wf(),
            f.boids@ == boids@,
            f.boundary == bound,
    {
        let index = build_index(&boids, bound);
        Flock { boids, index, boundary: bound }
    }

    pub fn len(&self) -> (n: usize)
        requires
            self.wf(),
        ensures
            n == self.boids@.len(),
    {
        self.boids.len()
    }

    /// One sub-step of `dt` microseconds, given the order in which the rebuilt
    /// index hands out its entries: border pass, neighbour pass, then integration.
    pub open spec fn sub_step_result(bs: Seq<Boid>, order: Seq<Entry>, r: Rect, dt: int) -> Seq<Boid> {
        apply_all(neighbor_all(border_all(bs, r.max_x as int, r.max_y as int), order, bs.len()), dt)
    }

    /// What a sub-step's rebuilt index must hold: the agents after the border
    /// pass, with positions clamped into `r`.
    pub open spec fn order_ok(bs: Seq<Boid>, order: Seq<Entry>, r: Rect) -> bool {
        order.to_multiset() == clamp_all(
            entries_of(border_all(bs, r.max_x as int, r.max_y as int)),
            r,
        ).to_multiset()
    }

    /// `n` sub-steps of `dt`, the `k`-th with its index handing out entries in
    /// the order `orders[k]`.
    pub open spec fn steps_result(bs: Seq<Boid>, orders: Seq<Seq<Entry>>, r: Rect, dt: int, n: nat) -> Seq<Boid>
        decreases n,
    {
        if n == 0 {
            bs
        } else {
            let prev = Flock::steps_result(bs, orders, r, dt, (n - 1) as nat);
            Flock::sub_step_result(prev, orders[n - 1], r, dt)
        }
    }

    /// Each of the first `n` orders is one that the matching sub-step's index can give.
    pub open spec fn orders_ok(bs: Seq<Boid>, orders: Seq<Seq<Entry>>, r: Rect, dt: int, n: nat) -> bool {
        orders.len() == n && forall|k: int| 0 <= k < n ==> Flock::order_ok(
            #[trigger] Flock::steps_result(bs, orders, r, dt, k as nat),
            orders[k],
            r,
        )
    }

    proof fn lemma_steps_prefix(bs: Seq<Boid>, orders: Seq<Seq<Entry>>, o: Seq<Entry>, r: Rect, dt: int, k: nat)
        requires
            k <= orders.len(),
        ensures
            Flock::steps_result(bs, orders.push(o), r, dt, k) == Flock::steps_result(bs, orders, r, dt, k),
        decreases k,
    {
        if k > 0 {
            Flock::lemma_steps_prefix(bs, orders, o, r, dt, (k - 1) as nat);
            assert(orders.push(o)[k - 1] == orders[k - 1]);
        }
    }

    /// Runs one sub-step of `dt` microseconds: every agent is reset and kept
    /// away from the edges, the index is rebuilt from the new positions, each
    /// agent meets the agents the index finds within its reach, and each then
    /// applies its forces and moves. The result is exact up to the order in
    /// which the index returns entries, which hold the agents' positions clamped
    /// into the boundary.
    pub fn sub_step(&mut self, dt: i64)
        requires
            old(self).wf(),
            0 <= dt <= DT_LIMIT,
        ensures
            final(self).wf(),
            final(self).boundary == old(self).boundary,
            final(self).boids@.len() == old(self).boids@.len(),
            exists|order: Seq<Entry>|
                Flock::order_ok(old(self).boids@, order, old(self).boundary)
                    && final(self).boids@ == #[trigger] Flock::sub_step_result(
                    old(self).boids@,
                    order,
                    old(self).boundary,
                    dt as int,
                ),
            all_at_floor(final(self).boids@),
    {
        let bx = self.boundary.max_x;
        let by = self.boundary.max_y;
        border_pass(&mut self.boids, bx, by);
        self.index = build_index(&self.boids, self.boundary);
        let ghost order = self.index@;
        neighbor_pass(&mut self.boids, &self.index);
        apply_pass(&mut self.boids, dt);
        proof {
            assert(self.boids@ == Flock::sub_step_result(old(self).boids@, order, self.boundary, dt as int));
            assert(all_at_floor(self.boids@)) by {
                assert forall|i: int| 0 <= i < self.boids@.len() implies speed_sq(
                    #[trigger] self.boids@[i].velocity,
                ) >= MIN_SPEED * MIN_SPEED by {
                    assert(self.boids@[i].velocity == Flock::sub_step_result(old(self).boids@, order, self.boundary, dt as int)[i].velocity);
                }
            }
        }
        self.index = build_index(&self.boids, self.boundary);
    }

    /// Advances the simulation by `dt` microseconds, in `PHYSIC_SUB_STEP` equal
    /// sub-steps of `dt / PHYSIC_SUB_STEP` (the remainder is dropped). The result
    /// is exact up to the order in which each sub-step's index returns entries.
    pub fn tick(&mut self, dt: i64)
        requires
            old(self).wf(),
            0 <= dt <= PHYSIC_SUB_STEP * DT_LIMIT,
        ensures
            final(self).wf(),
            final(self).boundary == old(self).boundary,
            final(self).boids@.len() == old(self).boids@.len(),
            exists|orders: Seq<Seq<Entry>>|
                Flock::orders_ok(
                    old(self).boids@,
                    orders,
                    old(self).boundary,
                    dt / PHYSIC_SUB_STEP,
                    PHYSIC_SUB_STEP as nat,
                ) && final(self).boids@ == #[trigger] Flock::steps_result(
                    old(self).boids@,
                    orders,
                    old(self).boundary,
                    dt / PHYSIC_SUB_STEP,
                    PHYSIC_SUB_STEP as nat,
                ),
            all_at_floor(final(self).boids@),
    {
        let sub_dt = dt / PHYSIC_SUB_STEP;
        let ghost bs0 = self.boids@;
        let ghost r = self.boundary;
        let ghost mut orders: Seq<Seq<Entry>> = Seq::empty();
        let mut step: i64 = 0;
        while step < PHYSIC_SUB_STEP
            invariant
                0 <= step <= PHYSIC_SUB_STEP,
                sub_dt == dt / PHYSIC_SUB_STEP,
                0 <= sub_dt <= DT_LIMIT,
                self.wf(),
                bs0 == old(self).boids@,
                r == old(self).boundary,
                self.boundary == r,
                self.boids@.len() == bs0.len(),
                Flock::orders_ok(bs0, orders, r, sub_dt as int, step as nat),
                self.boids@ == Flock::steps_result(bs0, orders, r, sub_dt as int, step as nat),
                step > 0 ==> all_at_floor(self.boids@),
            decreases PHYSIC_SUB_STEP - step,
        {
            let ghost before = self.boids@;
            self.sub_step(sub_dt);
            proof {
                let o = choose|o: Seq<Entry>|
                    Flock::order_ok(before, o, r) && self.boids@ == #[trigger] Flock::sub_step_result(
                        before,
                        o,
                        r,
                        sub_dt as int,
                    );
                let n = step as nat;
                let next = orders.push(o);
                assert forall|k: nat| k <= n implies Flock::steps_result(bs0, next, r, sub_dt as int, k)
                    == Flock::steps_result(bs0, orders, r, sub_dt as int, k) by {
                    Flock::lemma_steps_prefix(bs0, orders, o, r, sub_dt as int, k);
                }
                assert(next[n as int] == o);
                assert(Flock::steps_result(bs0, next, r, sub_dt as int, n + 1) == self.boids@);
                assert forall|k: int| 0 <= k < n + 1 implies Flock::order_ok(
                    #[trigger] Flock::steps_result(bs0, next, r, sub_dt as int, k as nat),
                    next[k],
                    r,
                ) by {
                    if k < n {
                        assert(next[k] == orders[k]);
                    }
                }
                orders = next;
            }
            step = step + 1;
        }
    }

    /// Every entry of the index names the slot of an agent and holds that
    /// agent's position clamped into the boundary.
    pub proof fn lemma_index_ids(&self)
        requires
            self.wf(),
        ensures
            forall|k: int| 0 <= k < self.index@.len() ==> (#[trigger] self.index@[k]).id < self.boids@.len()
                && self.index@[k] == self.boundary.clamp_entry(entries_of(self.boids@)[self.index@[k].id as int]),
    {
        let c = clamp_all(entries_of(self.boids@), self.boundary);
        assert forall|k: int| 0 <= k < self.index@.len() implies (#[trigger] self.index@[k]).id < self.boids@.len()
            && self.index@[k] == self.boundary.clamp_entry(entries_of(self.boids@)[self.index@[k].id as int]) by {
            let e = self.index@[k];
            assert(self.index@.contains(e));
            assert(self.index@.to_multiset().count(e) > 0);
            assert(c.to_multiset().count(e) > 0);
            assert(c.contains(e));
            let j = choose|j: int| 0 <= j < c.len() && c[j] == e;
            assert(c[j].id == j);
        }
    }

    /// Each agent's entry, clamped into the boundary, is in the index.
    proof fn lemma_agents_indexed(&self, i: int)
        requires
            self.wf(),
            0 <= i < self.boids@.len(),
        ensures
            self.index@.contains(self.boundary.clamp_entry(entries_of(self.boids@)[i])),
    {
        let c = clamp_all(entries_of(self.boids@), self.boundary);
        let e = self.boundary.clamp_entry(entries_of(self.boids@)[i]);
        assert(c[i] == e);
        assert(c.contains(e));
        assert(c.to_multiset().count(e) > 0);
        assert(self.index@.to_multiset().count(e) > 0);
    }

    /// Adds an agent at rest at `coord`, coloured after the current population
    /// size. A position outside the boundary is refused and nothing changes.
    pub fn spawn(&mut self, coord: (i64, i64)) -> (res: Result<(), IndexError>)
        requires
            old(self).wf(),
            old(self).boids@.len() + 1 < usize::MAX,
        ensures
            final(self).wf(),
            final(self).boundary == old(self).boundary,
            res is Ok <==> old(self).boundary.contains(coord.0 as int, coord.1 as int),
            res is Ok ==> final(self).boids@ == old(self).boids@.push(
                Boid::spawned(Vec2 { x: coord.0, y: coord.1 }, old(self).boids@.len() as nat),
            ),
            res is Err ==> *final(self) == *old(self) && res == Err::<(), IndexError>(IndexError::OutOfRegion),
    {
        if !self.boundary.contains_point(coord.0, coord.1) {
            return Err(IndexError::OutOfRegion);
        }
        let id = self.boids.len();
        let b = Boid::new(coord, id);
        let e = Entry { x: coord.0, y: coord.1, id };
        let ghost old_boids = self.boids@;
        let ghost old_index = self.index@;
        proof {
            assert(old_index.len() == old_boids.len()) by {
                assert(old_index.to_multiset().len() == clamp_all(entries_of(old_boids), self.boundary).to_multiset().len());
            }
        }
        let res = self.index.insert(e);
        self.boids.push(b);
        proof {
            let c_old = clamp_all(entries_of(old_boids), self.boundary);
            let c_new = clamp_all(entries_of(self.boids@), self.boundary);
            assert(self.boundary.clamp_entry(e) == e);
            assert(c_new =~= c_old.push(e));
            assert(all_wf(self.boids@)) by {
                assert forall|i: int| 0 <= i < self.boids@.len() implies (#[trigger] self.boids@[i]).wf() by {
                    if i < old_boids.len() {
                        assert(self.boids@[i] == old_boids[i]);
                    }
                }
            }
        }
        res
    }

    /// Shrinks or keeps the boundary to its intersection with a window of
    /// `new_size`, applies every agent's border rule against `new_size`, and
    /// rebuilds the index for the new boundary.
    pub fn resize(&mut self, new_size: (i64, i64))
        requires
            old(self).wf(),
            0 <= new_size.0 <= COORD_LIMIT,
            0 <= new_size.1 <= COORD_LIMIT,
        ensures
            final(self).wf(),
            final(self).boundary == shrunk(old(self).boundary, new_size.0 as int, new_size.1 as int),
            final(self).boids@.len() == old(self).boids@.len(),
            final(self).boids@ == border_only(old(self).boids@, new_size.0 as int, new_size.1 as int),
    {
        let w = if new_size.0 < self.boundary.max_x { new_size.0 } else { self.boundary.max_x };
        let h = if new_size.1 < self.boundary.max_y { new_size.1 } else { self.boundary.max_y };
        let mut i: usize = 0;
        while i < self.boids.len()
            invariant
                i <= self.boids@.len() == old(self).boids@.len(),
                0 <= new_size.0 <= COORD_LIMIT,
                0 <= new_size.1 <= COORD_LIMIT,
                all_wf(old(self).boids@),
                all_wf(self.boids@),
                forall|k: int| 0 <= k < i ==> #[trigger] self.boids@[k] == border_only(
                    old(self).boids@,
                    new_size.0 as int,
                    new_size.1 as int,
                )[k],
                forall|k: int| i <= k < self.boids@.len() ==> #[trigger] self.boids@[k] == old(self).boids@[k],
            decreases self.boids@.len() - i,
        {
            let mut b = self.boids[i];
            b.handle_border_colision(new_size);
            self.boids[i] = b;
            i = i + 1;
        }
        proof {
            assert(self.boids@ =~= border_only(old(self).boids@, new_size.0 as int, new_size.1 as int));
        }
        self.boundary = Rect { min_x: 0, min_y: 0, max_x: w, max_y: h };
        self.index = build_index(&self.boids, self.boundary);
    }

    /// The agents that `hits` name whose own position lies in `viewport`, in
    /// the order of `hits`.
    #[verifier::spinoff_prover]
    fn pick_visible(&self, hits: &Vec<Entry>, viewport: &Rect) -> (out: Vec<Boid>)
        requires
            forall|q: int| 0 <= q < hits@.len() ==> (#[trigger] hits@[q]).id < self.boids@.len(),
        ensures
            forall|q: int| 0 <= q < out@.len() ==> viewport.contains(
                (#[trigger] out@[q]).position.x as int,
                out@[q].position.y as int,
            ) && exists|i: int| 0 <= i < self.boids@.len() && out@[q] == self.boids@[i],
            forall|q: int| 0 <= q < hits@.len() && viewport.contains(
                self.boids@[(#[trigger] hits@[q]).id as int].position.x as int,
                self.boids@[hits@[q].id as int].position.y as int,
            ) ==> exists|t: int| 0 <= t < out@.len() && out@[t] == self.boids@[hits@[q].id as int],
    {
        let mut out: Vec<Boid> = Vec::new();
        let ghost mut slots: Seq<int> = Seq::empty();
        let mut k: usize = 0;
        while k < hits.len()
            invariant
                k <= hits@.len(),
                forall|q: int| 0 <= q < hits@.len() ==> (#[trigger] hits@[q]).id < self.boids@.len(),
                slots.len() == out@.len(),
                forall|q: int| 0 <= q < out@.len() ==> viewport.contains(
                    (#[trigger] out@[q]).position.x as int,
                    out@[q].position.y as int,
                ) && 0 <= slots[q] < self.boids@.len() && out@[q] == self.boids@[slots[q]],
                forall|q: int| 0 <= q < k && viewport.contains(
                    self.boids@[(#[trigger] hits@[q]).id as int].position.x as int,
                    self.boids@[hits@[q].id as int].position.y as int,
                ) ==> exists|t: int| 0 <= t < out@.len() && out@[t] == self.boids@[hits@[q].id as int],
            decreases hits@.len() - k,
        {
            let j = hits[k].id;
            let b = self.boids[j];
            let ghost before = out@;
            if viewport.contains_point(b.position.x, b.position.y) {
                out.push(b);
                proof {
                    let old_slots = slots;
                    slots = slots.push(j as int);
                    assert forall|q: int| 0 <= q < out@.len() implies viewport.contains(
                        (#[trigger] out@[q]).position.x as int,
                        out@[q].position.y as int,
                    ) && 0 <= slots[q] < self.boids@.len() && out@[q] == self.boids@[slots[q]] by {
                        if q < before.len() {
                            assert(out@[q] == before[q]);
                            assert(slots[q] == old_slots[q]);
                        }
                    }
                    assert(out@[out@.len() - 1] == self.boids@[j as int]);
                }
            }
            proof {
                assert(slots.len() == out@.len());
                assert forall|q: int| 0 <= q < out@.len() implies viewport.contains(
                    (#[trigger] out@[q]).position.x as int,
                    out@[q].position.y as int,
                ) && 0 <= slots[q] < self.boids@.len() && out@[q] == self.boids@[slots[q]] by {}
                assert forall|q: int| 0 <= q < k + 1 && viewport.contains(
                    self.boids@[(#[trigger] hits@[q]).id as int].position.x as int,
                    self.boids@[hits@[q].id as int].position.y as int,
                ) implies exists|t: int| 0 <= t < out@.len() && out@[t] == self.boids@[hits@[q].id as int] by {
                    if q == k {
                        assert(out@[out@.len() - 1] == self.boids@[j as int]);
                    } else {
                        let t = choose|t: int| 0 <= t < before.len() && before[t] == self.boids@[hits@[q].id as int];
                        assert(out@[t] == before[t]);
                    }
                }
            }
            k = k + 1;
        }
        proof {
            assert forall|q: int| 0 <= q < out@.len() implies viewport.contains(
                (#[trigger] out@[q]).position.x as int,
                out@[q].position.y as int,
            ) && exists|i: int| 0 <= i < self.boids@.len() && out@[q] == self.boids@[i] by {
                assert(out@[q] == self.boids@[slots[q]]);
            }
        }
        out
    }

    /// The agents whose position lies in `viewport`, in index order: every
    /// agent returned is a stored agent lying in it, and every agent lying in it
    /// is returned. The index is queried with the viewport clamped into the
    /// boundary, which holds the clamped entry of every agent in the viewport.
    #[verifier::spinoff_prover]
    pub fn export_visible(&self, viewport: &Rect) -> (r: Vec<Boid>)
        requires
            self.wf(),
        ensures
            forall|k: int| 0 <= k < r@.len() ==> viewport.contains(
                (#[trigger] r@[k]).position.x as int,
                r@[k].position.y as int,
            ) && exists|i: int| 0 <= i < self.boids@.len() && r@[k] == self.boids@[i],
            forall|i: int| 0 <= i < self.boids@.len() && viewport.contains(
                (#[trigger] self.boids@[i]).position.x as int,
                self.boids@[i].position.y as int,
            ) ==> exists|k: int| 0 <= k < r@.len() && r@[k] == self.boids@[i],
    {
        let lo = self.boundary.clamp_entry_exec(Entry { x: viewport.min_x, y: viewport.min_y, id: 0 });
        let hi = self.boundary.clamp_entry_exec(Entry { x: viewport.max_x, y: viewport.max_y, id: 0 });
        let w = Rect { min_x: lo.x, min_y: lo.y, max_x: hi.x, max_y: hi.y };
        let hits = self.index.query_range(&w);
        let ghost p = in_window(w);
        proof {
            self.lemma_index_ids();
            assert forall|k: int| 0 <= k < hits@.len() implies (#[trigger] hits@[k]).id < self.boids@.len() by {
                self.index@.lemma_filter_contains_rev(p, hits@[k]);
                let m = choose|m: int| 0 <= m < self.index@.len() && self.index@[m] == hits@[k];
            }
        }
        let out = self.pick_visible(&hits, viewport);
        proof {
            assert forall|i: int| 0 <= i < self.boids@.len() && viewport.contains(
                (#[trigger] self.boids@[i]).position.x as int,
                self.boids@[i].position.y as int,
            ) implies exists|t: int| 0 <= t < out@.len() && out@[t] == self.boids@[i] by {
                self.lemma_agents_indexed(i);
                let e = self.boundary.clamp_entry(entries_of(self.boids@)[i]);
                let m = choose|m: int| 0 <= m < self.index@.len() && self.index@[m] == e;
                assert(w.holds(e));
                self.index@.lemma_filter_contains(p, m);
                let q = choose|q: int| 0 <= q < hits@.len() && hits@[q] == e;
                assert(hits@[q].id == i);
            }
        }
        out
    }

}

/// After the border pass in a box at least twice as wide and high as each
/// agent's size, every agent lies in `[size, bound - size]` on each axis.
pub proof fn lemma_border_pass_clamps(bs: Seq<Boid>, bx: int, by: int)
    requires
        all_wf(bs),
        0 <= bx <= COORD_LIMIT,
        0 <= by <= COORD_LIMIT,
        forall|i: int| 0 <= i < bs.len() ==> 2 * (#[trigger] bs[i]).size <= bx && 2 * bs[i].size <= by,
    ensures
        forall|i: int| 0 <= i < bs.len() ==> {
            let a = #[trigger] border_all(bs, bx, by)[i];
            a.size <= a.position.x <= bx - a.size && a.size <= a.position.y <= by - a.size
        },
{
    assert forall|i: int| 0 <= i < bs.len() implies {
        let a = #[trigger] border_all(bs, bx, by)[i];
        a.size <= a.position.x <= bx - a.size && a.size <= a.position.y <= by - a.size
    } by {
        assert(bs[i].wf());
        crate::boid::lemma_border_clamps(bs[i].after_reset(), bx, by);
    }
}

/// In a well-formed flock, the index's leaves hold at most `CAP` entries
/// wherever their region can still be split, and every entry lies in the
/// boundary.
pub proof fn lemma_flock_index_shape(f: &Flock)
    requires
        f.wf(),
    ensures
        f.index.root.leaves_within_cap(f.boundary),
        forall|k: int| 0 <= k < f.index@.len() ==> f.boundary.holds(#[trigger] f.index@[k]),
{
    crate::quadtree::lemma_leaf_capacity(&f.index);
    crate::quadtree::lemma_entries_in_region(&f.index);
}

} // verus!
