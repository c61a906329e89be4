//! Colony events: regions of the colony, what an event does to the cells it
//! reaches, and how a backend applies events to the shards it hosts.

use vstd::prelude::*;
use rand::rngs::SmallRng;
use crate::arith::{clamp_i32, sat_add_i32, sat_mul_i32};
use crate::colony::Colony;
use crate::model::{Cell, ColonyLifeRules, Color, Shard, Traits, blanked, set_blank};
use crate::random::{coin_flip, gen_range_i32, random_chance, random_color};
use crate::shard::{ColonyShard, row_count, row_size, grid_index};

verus! {

/// A disc, in colony coordinates.
#[derive(Clone, Copy, Debug, PartialEq, Eq, Structural)]
pub struct Circle {
    pub x: i32,
    pub y: i32,
    pub radius: i32,
}

/// An axis-aligned ellipse, in colony coordinates.
#[derive(Clone, Copy, Debug, PartialEq, Eq, Structural)]
pub struct Ellipse {
    pub x: i32,
    pub y: i32,
    pub radius_x: i32,
    pub radius_y: i32,
}

/// The part of the colony a local event reaches.
#[derive(Clone, Copy, Debug, PartialEq, Eq, Structural)]
pub enum Region {
    Circle(Circle),
    Ellipse(Ellipse),
}

/// The creature an event creates in every cell of its region.
#[derive(Clone, Copy, Debug, PartialEq, Eq, Structural)]
pub struct CreateCreatureParams {
    pub color: Color,
    pub traits: Traits,
    pub starting_health: u16,
}

/// The traits an event gives every creature of its region.
#[derive(Clone, Copy, Debug, PartialEq, Eq, Structural)]
pub struct RandomTraitParams {
    pub traits: Traits,
}

/// New life rules, with a line that says what changed.
#[derive(Clone, Debug)]
pub struct ColonyRuleChange {
    pub new_rules: ColonyLifeRules,
    pub description: String,
}

/// Something that happens to the colony.
#[derive(Clone, Debug)]
pub enum ColonyEvent {
    LocalDeath(Region),
    RandomTrait(Region, RandomTraitParams),
    CreateCreature(Region, CreateCreatureParams),
    ChangeExtraFoodPerTick(i8),
    Extinction(),
    NewTopography(),
    ChangeColonyRules(ColonyRuleChange),
}

/// The centre of a region.
pub open spec fn region_center(region: Region) -> (int, int) {
    match region {
        Region::Circle(c) => (c.x as int, c.y as int),
        Region::Ellipse(e) => (e.x as int, e.y as int),
    }
}

/// Whether `(x, y)` lies in the region, with every square, product and sum
/// saturating at the bounds of `i32`.
pub open spec fn spec_point_inside(x: int, y: int, region: Region) -> bool {
    match region {
        Region::Circle(c) => {
            let dx = x - c.x;
            let dy = y - c.y;
            clamp_i32(clamp_i32(dx * dx) + clamp_i32(dy * dy)) <= clamp_i32(c.radius * c.radius)
        },
        Region::Ellipse(e) => {
            let dx = x - e.x;
            let dy = y - e.y;
            let dx2 = clamp_i32(dx * dx);
            let dy2 = clamp_i32(dy * dy);
            let rx2 = clamp_i32(e.radius_x * e.radius_x);
            let ry2 = clamp_i32(e.radius_y * e.radius_y);
            clamp_i32(clamp_i32(dx2 * ry2) + clamp_i32(dy2 * rx2)) <= clamp_i32(rx2 * ry2)
        },
    }
}

/// A coordinate no further than `2^32` from the origin: every coordinate of
/// the colony, its margins and the centres of regions is one, and offsets
/// between two such coordinates fit in `i64`.
pub open spec fn coord_in_reach(v: int) -> bool {
    -0x1_0000_0000 <= v <= 0x1_0000_0000
}

/// `v` clamped into `i32`.
fn clamp_to_i32(v: i64) -> (r: i32)
    ensures
        r == clamp_i32(v as int),
{
    if v > i32::MAX as i64 {
        i32::MAX
    } else if v < i32::MIN as i64 {
        i32::MIN
    } else {
        v as i32
    }
}

/// Clamping an offset into `i32` before squaring it leaves the saturated
/// square as it is.
proof fn lemma_clamped_square(d: int)
    ensures
        clamp_i32(clamp_i32(d) * clamp_i32(d)) == clamp_i32(d * d),
{
    if d > i32::MAX {
        assert(d * d > i32::MAX) by (nonlinear_arith)
            requires
                d > i32::MAX,
        ;
        assert(clamp_i32(d) * clamp_i32(d) > i32::MAX) by (nonlinear_arith)
            requires
                clamp_i32(d) == i32::MAX,
        ;
    } else if d < i32::MIN {
        assert(d * d > i32::MAX) by (nonlinear_arith)
            requires
                d < i32::MIN,
        ;
        assert(clamp_i32(d) * clamp_i32(d) > i32::MAX) by (nonlinear_arith)
            requires
                clamp_i32(d) == i32::MIN,
        ;
    }
}

/// The square of an offset, saturating at the bounds of `i32`.
fn saturated_square(d: i64) -> (r: i32)
    ensures
        r == clamp_i32(d * d),
{
    let c = clamp_to_i32(d);
    proof {
        lemma_clamped_square(d as int);
    }
    sat_mul_i32(c, c)
}

/// Whether the point `(x, y)` lies in the region.
pub fn point_inside_region(x: i64, y: i64, region: &Region) -> (r: bool)
    requires
        coord_in_reach(x as int),
        coord_in_reach(y as int),
    ensures
        r == spec_point_inside(x as int, y as int, *region),
{
    match region {
        Region::Circle(circle) => {
            let dx2 = saturated_square(x - circle.x as i64);
            let dy2 = saturated_square(y - circle.y as i64);
            let radius2 = sat_mul_i32(circle.radius, circle.radius);
            sat_add_i32(dx2, dy2) <= radius2
        },
        Region::Ellipse(ellipse) => {
            let dx2 = saturated_square(x - ellipse.x as i64);
            let dy2 = saturated_square(y - ellipse.y as i64);
            let rx2 = sat_mul_i32(ellipse.radius_x, ellipse.radius_x);
            let ry2 = sat_mul_i32(ellipse.radius_y, ellipse.radius_y);
            let left_side = sat_add_i32(sat_mul_i32(dx2, ry2), sat_mul_i32(dy2, rx2));
            let right_side = sat_mul_i32(rx2, ry2);
            left_side <= right_side
        },
    }
}

/// `lo <= v <= hi` clamps `v`; `min(max(v, lo), hi)`.
pub open spec fn clamp_between(v: int, lo: int, hi: int) -> int {
    let m = if v > lo { v } else { lo };
    if m < hi { m } else { hi }
}

/// Whether the region reaches the shard: the point of the shard nearest to
/// the centre lies in the region. The shard spans `x ..= x + width` and
/// `y ..= y + height` here.
pub open spec fn spec_region_overlaps(region: Region, shard: Shard) -> bool {
    let (cx, cy) = region_center(region);
    let closest_x = clamp_between(cx, shard.x as int, shard.x + shard.width);
    let closest_y = clamp_between(cy, shard.y as int, shard.y + shard.height);
    spec_point_inside(closest_x, closest_y, region)
}

/// A square does not shrink as its base grows in size.
proof fn lemma_square_grows(a: int, b: int)
    requires
        0 <= a <= b,
    ensures
        a * a <= b * b,
{
    assert(a * a <= b * b) by (nonlinear_arith)
        requires
            0 <= a <= b,
    ;
}

/// A point at least as close to the centre as an inside point, along both
/// axes, is inside too, saturating arithmetic included.
proof fn lemma_closer_point_inside(region: Region, px: int, py: int, qx: int, qy: int)
    requires
        spec_point_inside(px, py, region),
        (qx - region_center(region).0) * (qx - region_center(region).0) <= (px - region_center(region).0) * (px - region_center(region).0),
        (qy - region_center(region).1) * (qy - region_center(region).1) <= (py - region_center(region).1) * (py - region_center(region).1),
    ensures
        spec_point_inside(qx, qy, region),
{
    match region {
        Region::Circle(c) => {},
        Region::Ellipse(e) => {
            let (cx, cy) = region_center(region);
            let pdx2 = clamp_i32((px - cx) * (px - cx));
            let qdx2 = clamp_i32((qx - cx) * (qx - cx));
            let pdy2 = clamp_i32((py - cy) * (py - cy));
            let qdy2 = clamp_i32((qy - cy) * (qy - cy));
            let rx2 = clamp_i32(e.radius_x * e.radius_x);
            let ry2 = clamp_i32(e.radius_y * e.radius_y);
            assert(e.radius_x * e.radius_x >= 0) by (nonlinear_arith);
            assert(e.radius_y * e.radius_y >= 0) by (nonlinear_arith);
            assert(qdx2 <= pdx2 && qdy2 <= pdy2);
            assert(qdx2 * ry2 <= pdx2 * ry2) by (nonlinear_arith)
                requires
                    qdx2 <= pdx2,
                    ry2 >= 0,
            ;
            assert(qdy2 * rx2 <= pdy2 * rx2) by (nonlinear_arith)
                requires
                    qdy2 <= pdy2,
                    rx2 >= 0,
            ;
        },
    }
}

/// The clamped coordinate is at least as close to `c` as any point of
/// `[lo, hi]`.
proof fn lemma_clamp_closest(c: int, lo: int, hi: int, p: int)
    requires
        lo <= p <= hi,
    ensures
        lo <= clamp_between(c, lo, hi) <= hi,
        (clamp_between(c, lo, hi) - c) * (clamp_between(c, lo, hi) - c) <= (p - c) * (p - c),
{
    let q = clamp_between(c, lo, hi);
    if c < lo {
        assert(q == lo);
        lemma_square_grows(lo - c, p - c);
    } else if c > hi {
        assert(q == hi);
        lemma_square_grows(c - hi, c - p);
        assert((hi - c) * (hi - c) == (c - hi) * (c - hi)) by (nonlinear_arith);
        assert((p - c) * (p - c) == (c - p) * (c - p)) by (nonlinear_arith);
    } else {
        assert(q == c);
        assert((q - c) * (q - c) == 0) by (nonlinear_arith)
            requires
                q == c,
        ;
        assert((p - c) * (p - c) >= 0) by (nonlinear_arith);
    }
}

/// A region reaches a shard exactly when some point of the shard's span,
/// `x ..= x + width` by `y ..= y + height`, lies in the region: the
/// region's centre need not lie in the shard.
pub proof fn law_region_overlaps_exactly(region: Region, s: Shard)
    requires
        s.width >= 0,
        s.height >= 0,
    ensures
        spec_region_overlaps(region, s) <==> exists|px: int, py: int|
            s.x <= px <= s.x + s.width && s.y <= py <= s.y + s.height && #[trigger] spec_point_inside(px, py, region),
{
    let (cx, cy) = region_center(region);
    let qx = clamp_between(cx, s.x as int, s.x + s.width);
    let qy = clamp_between(cy, s.y as int, s.y + s.height);
    lemma_clamp_closest(cx, s.x as int, s.x + s.width, s.x as int);
    lemma_clamp_closest(cy, s.y as int, s.y + s.height, s.y as int);
    if spec_region_overlaps(region, s) {
        assert(spec_point_inside(qx, qy, region));
    }
    if exists|px: int, py: int| s.x <= px <= s.x + s.width && s.y <= py <= s.y + s.height && #[trigger] spec_point_inside(px, py, region) {
        let (px, py) = choose|px: int, py: int| s.x <= px <= s.x + s.width && s.y <= py <= s.y + s.height && #[trigger] spec_point_inside(px, py, region);
        lemma_clamp_closest(cx, s.x as int, s.x + s.width, px);
        lemma_clamp_closest(cy, s.y as int, s.y + s.height, py);
        lemma_closer_point_inside(region, px, py, qx, qy);
    }
}

/// Whether the region reaches the shard.
pub fn region_overlaps_shard(region: &Region, shard: &Shard) -> (r: bool)
    ensures
        r == spec_region_overlaps(*region, *shard),
{
    let shard_right: i64 = shard.x as i64 + shard.width as i64;
    let shard_bottom: i64 = shard.y as i64 + shard.height as i64;
    let (cx, cy) = match region {
        Region::Circle(c) => (c.x as i64, c.y as i64),
        Region::Ellipse(e) => (e.x as i64, e.y as i64),
    };
    let mx = if cx > shard.x as i64 { cx } else { shard.x as i64 };
    let closest_x = if mx < shard_right { mx } else { shard_right };
    let my = if cy > shard.y as i64 { cy } else { shard.y as i64 };
    let closest_y = if my < shard_bottom { my } else { shard_bottom };
    point_inside_region(closest_x, closest_y, region)
}

/// A local event is one that reaches a region.
pub open spec fn is_local(event: ColonyEvent) -> bool {
    event is LocalDeath || event is RandomTrait || event is CreateCreature
}

/// What a local event does to one cell of its region: a local death removes
/// the creature; a trait change reaches creatures only; a new creature
/// takes the cell whatever it held.
pub open spec fn event_effect(event: ColonyEvent, cell: Cell) -> Cell {
    match event {
        ColonyEvent::LocalDeath(_) => blanked(cell),
        ColonyEvent::RandomTrait(_, params) => if cell.health > 0 { Cell { traits: params.traits, ..cell } } else { cell },
        ColonyEvent::CreateCreature(_, params) => Cell {
            color: params.color,
            traits: params.traits,
            health: params.starting_health,
            ..cell
        },
        _ => cell,
    }
}

/// Applies `event_effect`.
fn apply_effect(event: &ColonyEvent, cell: &mut Cell)
    ensures
        *final(cell) == event_effect(*event, *old(cell)),
{
    match event {
        ColonyEvent::LocalDeath(_) => set_blank(cell),
        ColonyEvent::RandomTrait(_, params) => {
            if cell.health > 0 {
                cell.traits = params.traits;
            }
        },
        ColonyEvent::CreateCreature(_, params) => {
            cell.color = params.color;
            cell.traits = params.traits;
            cell.health = params.starting_health;
        },
        _ => {},
    }
}

/// The cell at grid position `(col, row)` after the event reached the shard.
/// Column and row 0 are the margin, so grid cell `(col, row)` stands for
/// colony point `(x + col - 1, y + row - 1)`.
pub open spec fn cell_after_event(cs: ColonyShard, event: ColonyEvent, region: Region, col: int, row: int) -> Cell {
    let c = cs.grid@[grid_index(row_size(cs.shard), col, row)];
    if spec_point_inside(cs.shard.x + col - 1, cs.shard.y + row - 1, region) { event_effect(event, c) } else { c }
}

/// `new` is `old` with the event applied to every grid cell in the region.
pub open spec fn region_applied(new: ColonyShard, old: ColonyShard, event: ColonyEvent, region: Region) -> bool {
    &&& new.shard == old.shard
    &&& new.colony_life_rules == old.colony_life_rules
    &&& new.current_tick == old.current_tick
    &&& new.grid@.len() == old.grid@.len()
    &&& forall|col: int, row: int| 0 <= col < row_size(old.shard) && 0 <= row < row_count(old.shard) ==>
        #[trigger] new.grid@[grid_index(row_size(old.shard), col, row)] == cell_after_event(old, event, region, col, row)
}

/// Applies a local event to every grid cell of a shard in its region.
fn apply_region_to_shard(shard: &mut ColonyShard, region: &Region, event: &ColonyEvent)
    requires
        old(shard).wf(),
    ensures
        final(shard).wf(),
        region_applied(*final(shard), *old(shard), *event, *region),
{
    let ghost old_shard = *old(shard);
    let w = shard.shard.width as usize;
    let h = shard.shard.height as usize;
    let rs = w + 2;
    let rc = h + 2;
    let len = shard.grid.len();
    let mut y: usize = 0;
    while y < rc
        invariant
            old_shard == *old(shard),
            shard.wf(),
            shard.shard == old_shard.shard,
            shard.colony_life_rules == old_shard.colony_life_rules,
            shard.current_tick == old_shard.current_tick,
            w == shard.shard.width,
            h == shard.shard.height,
            rs == w + 2,
            rc == h + 2,
            len == shard.grid@.len(),
            len == rs * rc,
            y <= rc,
            forall|cc: int, rr: int| 0 <= cc < rs && 0 <= rr < y ==>
                #[trigger] shard.grid@[grid_index(rs as int, cc, rr)] == cell_after_event(old_shard, *event, *region, cc, rr),
            forall|j: int| y * rs <= j < len ==> #[trigger] shard.grid@[j] == old_shard.grid@[j],
        decreases rc - y,
    {
        let mut x: usize = 0;
        while x < rs
            invariant
                old_shard == *old(shard),
                shard.wf(),
                shard.shard == old_shard.shard,
                shard.colony_life_rules == old_shard.colony_life_rules,
                shard.current_tick == old_shard.current_tick,
                w == shard.shard.width,
                h == shard.shard.height,
                rs == w + 2,
                rc == h + 2,
                len == shard.grid@.len(),
                len == rs * rc,
                y < rc,
                x <= rs,
                forall|cc: int, rr: int| 0 <= cc < rs && 0 <= rr < y ==>
                    #[trigger] shard.grid@[grid_index(rs as int, cc, rr)] == cell_after_event(old_shard, *event, *region, cc, rr),
                forall|cc: int| 0 <= cc < x ==>
                    #[trigger] shard.grid@[grid_index(rs as int, cc, y as int)] == cell_after_event(old_shard, *event, *region, cc, y as int),
                forall|j: int| y * rs + x <= j < len ==> #[trigger] shard.grid@[j] == old_shard.grid@[j],
            decreases rs - x,
        {
            proof {
                crate::arith::lemma_index_in_grid(rs as int, rc as int, x as int, y as int);
            }
            let global_x: i64 = shard.shard.x as i64 + x as i64 - 1;
            let global_y: i64 = shard.shard.y as i64 + y as i64 - 1;
            let idx = y * rs + x;
            if point_inside_region(global_x, global_y, region) {
                let ghost before = shard.grid@;
                apply_effect(event, &mut shard.grid[idx]);
                proof {
                    assert forall|cc: int, rr: int| 0 <= cc < rs && 0 <= rr < y implies
                        #[trigger] shard.grid@[grid_index(rs as int, cc, rr)] == cell_after_event(old_shard, *event, *region, cc, rr) by {
                        crate::arith::lemma_distinct_index(rs as int, cc, rr, x as int, y as int);
                        assert(grid_index(rs as int, cc, rr) != idx);
                        crate::arith::lemma_index_in_grid(rs as int, rc as int, cc, rr);
                        assert(before[grid_index(rs as int, cc, rr)] == cell_after_event(old_shard, *event, *region, cc, rr));
                    }
                    assert forall|cc: int| 0 <= cc < x + 1 implies
                        #[trigger] shard.grid@[grid_index(rs as int, cc, y as int)] == cell_after_event(old_shard, *event, *region, cc, y as int) by {
                        if cc < x {
                            crate::arith::lemma_distinct_index(rs as int, cc, y as int, x as int, y as int);
                            assert(before[grid_index(rs as int, cc, y as int)] == cell_after_event(old_shard, *event, *region, cc, y as int));
                        } else {
                            assert(grid_index(rs as int, cc, y as int) == idx);
                        }
                    }
                }
            } else {
                proof {
                    assert(grid_index(rs as int, x as int, y as int) == idx);
                    assert(shard.grid@[idx as int] == old_shard.grid@[idx as int]);
                }
            }
            x += 1;
        }
        proof {
            assert((y + 1) * rs == y * rs + rs) by (nonlinear_arith);
        }
        y += 1;
    }
}

/// The region of a local event.
pub open spec fn event_region(event: ColonyEvent) -> Region {
    match event {
        ColonyEvent::LocalDeath(r) => r,
        ColonyEvent::RandomTrait(r, _) => r,
        ColonyEvent::CreateCreature(r, _) => r,
        _ => Region::Circle(Circle { x: 0, y: 0, radius: 0 }),
    }
}

/// Applies a local event to the hosted shards that its region reaches;
/// the other shards are left as they were.
pub fn apply_local_event(colony: &mut Colony, event: &ColonyEvent, region: &Region)
    requires
        old(colony).wf(),
        is_local(*event),
    ensures
        final(colony).wf(),
        final(colony)._width == old(colony)._width,
        final(colony)._height == old(colony)._height,
        final(colony).shards@.len() == old(colony).shards@.len(),
        forall|i: int| 0 <= i < old(colony).shards@.len() ==> {
            let o = old(colony).shards@[i];
            let n = #[trigger] final(colony).shards@[i];
            if spec_region_overlaps(*region, o.shard) { region_applied(n, o, *event, *region) } else { n == o }
        },
{
    let ghost old_colony = *old(colony);
    let mut i: usize = 0;
    while i < colony.shards.len()
        invariant
            old_colony == *old(colony),
            is_local(*event),
            colony._width == old_colony._width,
            colony._height == old_colony._height,
            colony.shards@.len() == old_colony.shards@.len(),
            i <= colony.shards@.len(),
            forall|k: int| 0 <= k < colony.shards@.len() ==> (#[trigger] colony.shards@[k]).wf(),
            forall|k: int| 0 <= k < colony.shards@.len() ==> (#[trigger] colony.shards@[k]).shard == old_colony.shards@[k].shard,
            forall|k: int| 0 <= k < i ==> {
                let o = old_colony.shards@[k];
                let n = #[trigger] colony.shards@[k];
                if spec_region_overlaps(*region, o.shard) { region_applied(n, o, *event, *region) } else { n == o }
            },
            forall|k: int| i <= k < colony.shards@.len() ==> #[trigger] colony.shards@[k] == old_colony.shards@[k],
        decreases colony.shards@.len() - i,
    {
        let overlaps = region_overlaps_shard(region, &colony.shards[i].shard);
        if overlaps {
            apply_region_to_shard(&mut colony.shards[i], region, event);
        }
        i += 1;
    }
    proof {
        assert forall|a: int, b: int| 0 <= a < b < colony.shards@.len() implies
            (#[trigger] colony.shards@[a]).shard != (#[trigger] colony.shards@[b]).shard by {
            assert(old_colony.shards@[a].shard != old_colony.shards@[b].shard);
        }
    }
}

/// `extra` moved by `amount`, saturating at `0` and `u8::MAX`.
pub open spec fn shifted_extra_food(extra: u8, amount: i8) -> u8 {
    let v = extra + amount;
    if v < 0 { 0 } else if v > u8::MAX { u8::MAX } else { v as u8 }
}

/// Every cell's food growth moved by `amount`.
fn shift_extra_food(shard: &mut ColonyShard, amount: i8)
    requires
        amount > i8::MIN,
    ensures
        final(shard).shard == old(shard).shard,
        final(shard).colony_life_rules == old(shard).colony_life_rules,
        final(shard).current_tick == old(shard).current_tick,
        final(shard).grid@.len() == old(shard).grid@.len(),
        forall|j: int| 0 <= j < old(shard).grid@.len() ==> #[trigger] final(shard).grid@[j]
            == (Cell { extra_food_per_tick: shifted_extra_food(old(shard).grid@[j].extra_food_per_tick, amount), ..old(shard).grid@[j] }),
{
    let ghost g0 = shard.grid@;
    let mut i: usize = 0;
    while i < shard.grid.len()
        invariant
            g0 == old(shard).grid@,
            shard.shard == old(shard).shard,
            shard.colony_life_rules == old(shard).colony_life_rules,
            shard.current_tick == old(shard).current_tick,
            amount > i8::MIN,
            shard.grid@.len() == g0.len(),
            i <= g0.len(),
            forall|j: int| 0 <= j < i ==> #[trigger] shard.grid@[j]
                == (Cell { extra_food_per_tick: shifted_extra_food(g0[j].extra_food_per_tick, amount), ..g0[j] }),
            forall|j: int| i <= j < g0.len() ==> #[trigger] shard.grid@[j] == g0[j],
        decreases g0.len() - i,
    {
        let mut c = shard.grid[i];
        if amount >= 0 {
            c.extra_food_per_tick = c.extra_food_per_tick.saturating_add(amount as u8);
        } else {
            c.extra_food_per_tick = c.extra_food_per_tick.saturating_sub((-amount) as u8);
        }
        shard.grid.set(i, c);
        i += 1;
    }
}

/// Every cell of the shard loses its creature.
fn wipe_out(shard: &mut ColonyShard)
    ensures
        final(shard).shard == old(shard).shard,
        final(shard).colony_life_rules == old(shard).colony_life_rules,
        final(shard).current_tick == old(shard).current_tick,
        final(shard).grid@ == old(shard).grid@.map_values(|c: Cell| blanked(c)),
{
    let ghost g0 = shard.grid@;
    let mut i: usize = 0;
    while i < shard.grid.len()
        invariant
            g0 == old(shard).grid@,
            shard.shard == old(shard).shard,
            shard.colony_life_rules == old(shard).colony_life_rules,
            shard.current_tick == old(shard).current_tick,
            shard.grid@.len() == g0.len(),
            i <= g0.len(),
            forall|j: int| 0 <= j < i ==> #[trigger] shard.grid@[j] == blanked(g0[j]),
            forall|j: int| i <= j < g0.len() ==> #[trigger] shard.grid@[j] == g0[j],
        decreases g0.len() - i,
    {
        set_blank(&mut shard.grid[i]);
        i += 1;
    }
    assert(shard.grid@ =~= g0.map_values(|c: Cell| blanked(c)));
}

/// What `apply_event` makes of one hosted shard. An extinction either wipes
/// the shard out or leaves it, as its coin falls.
pub open spec fn event_applied_to_shard(n: ColonyShard, o: ColonyShard, event: ColonyEvent) -> bool {
    match event {
        ColonyEvent::ChangeExtraFoodPerTick(amount) => {
            &&& n.shard == o.shard
            &&& n.colony_life_rules == o.colony_life_rules
            &&& n.current_tick == o.current_tick
            &&& n.grid@.len() == o.grid@.len()
            &&& forall|j: int| 0 <= j < o.grid@.len() ==> #[trigger] n.grid@[j]
                == (Cell { extra_food_per_tick: shifted_extra_food(o.grid@[j].extra_food_per_tick, amount), ..o.grid@[j] })
        },
        ColonyEvent::Extinction() => n == o || {
            &&& n.shard == o.shard
            &&& n.colony_life_rules == o.colony_life_rules
            &&& n.current_tick == o.current_tick
            &&& n.grid@ == o.grid@.map_values(|c: Cell| blanked(c))
        },
        ColonyEvent::NewTopography() => n == o,
        ColonyEvent::ChangeColonyRules(change) => n == (ColonyShard { colony_life_rules: change.new_rules, ..o }),
        _ => if spec_region_overlaps(event_region(event), o.shard) {
            region_applied(n, o, event, event_region(event))
        } else {
            n == o
        },
    }
}

/// Applies an event to every shard hosted here. A local event reaches the
/// shards its region reaches; a change of food growth reaches every cell; an
/// extinction wipes out each shard with chance one half; new rules replace
/// the rules of every shard; a new topography arrives separately and changes
/// nothing here.
pub fn apply_event(rng: &mut SmallRng, colony: &mut Colony, event: &ColonyEvent)
    requires
        old(colony).wf(),
        event matches ColonyEvent::ChangeExtraFoodPerTick(amount) ==> amount > i8::MIN,
    ensures
        final(colony).wf(),
        final(colony)._width == old(colony)._width,
        final(colony)._height == old(colony)._height,
        final(colony).shards@.len() == old(colony).shards@.len(),
        forall|i: int| 0 <= i < old(colony).shards@.len() ==>
            event_applied_to_shard(#[trigger] final(colony).shards@[i], old(colony).shards@[i], *event),
{
    match event {
        ColonyEvent::LocalDeath(region) => {
            apply_local_event(colony, event, region);
            assert forall|i: int| 0 <= i < old(colony).shards@.len() implies
                event_applied_to_shard(#[trigger] colony.shards@[i], old(colony).shards@[i], *event) by {}
        },
        ColonyEvent::RandomTrait(region, _) => {
            apply_local_event(colony, event, region);
            assert forall|i: int| 0 <= i < old(colony).shards@.len() implies
                event_applied_to_shard(#[trigger] colony.shards@[i], old(colony).shards@[i], *event) by {}
        },
        ColonyEvent::CreateCreature(region, _) => {
            apply_local_event(colony, event, region);
            assert forall|i: int| 0 <= i < old(colony).shards@.len() implies
                event_applied_to_shard(#[trigger] colony.shards@[i], old(colony).shards@[i], *event) by {}
        },
        _ => {
            let ghost old_colony = *old(colony);
            let mut i: usize = 0;
            while i < colony.shards.len()
                invariant
                    old_colony == *old(colony),
                    !is_local(*event),
                    event matches ColonyEvent::ChangeExtraFoodPerTick(amount) ==> amount > i8::MIN,
                    colony._width == old_colony._width,
                    colony._height == old_colony._height,
                    colony.shards@.len() == old_colony.shards@.len(),
                    i <= colony.shards@.len(),
                    forall|k: int| 0 <= k < i ==>
                        event_applied_to_shard(#[trigger] colony.shards@[k], old_colony.shards@[k], *event),
                    forall|k: int| i <= k < colony.shards@.len() ==> #[trigger] colony.shards@[k] == old_colony.shards@[k],
                decreases colony.shards@.len() - i,
            {
                match event {
                    ColonyEvent::ChangeExtraFoodPerTick(amount) => {
                        shift_extra_food(&mut colony.shards[i], *amount);
                    },
                    ColonyEvent::Extinction() => {
                        if coin_flip(rng) {
                            wipe_out(&mut colony.shards[i]);
                        }
                    },
                    ColonyEvent::ChangeColonyRules(change) => {
                        colony.shards[i].colony_life_rules = change.new_rules;
                    },
                    _ => {},
                }
                i += 1;
            }
            proof {
                assert forall|k: int| 0 <= k < colony.shards@.len() implies (#[trigger] colony.shards@[k]).wf() by {
                    assert(old_colony.shards@[k].wf());
                    assert(event_applied_to_shard(colony.shards@[k], old_colony.shards@[k], *event));
                }
                assert forall|a: int, b: int| 0 <= a < b < colony.shards@.len() implies
                    (#[trigger] colony.shards@[a]).shard != (#[trigger] colony.shards@[b]).shard by {
                    assert(event_applied_to_shard(colony.shards@[a], old_colony.shards@[a], *event));
                    assert(event_applied_to_shard(colony.shards@[b], old_colony.shards@[b], *event));
                    assert(old_colony.shards@[a].shard != old_colony.shards@[b].shard);
                }
            }
        },
    }
}


/// A region a backend draws for a local event: a circle of radius 5 to 29
/// or an ellipse with radii 15 to 39, centred up to 100 cells outside the
/// colony.
pub open spec fn valid_local_region(region: Region, colony_width: int, colony_height: int) -> bool {
    match region {
        Region::Circle(c) => {
            &&& -100 <= c.x < colony_width + 100
            &&& -100 <= c.y < colony_height + 100
            &&& 5 <= c.radius < 30
        },
        Region::Ellipse(e) => {
            &&& -100 <= e.x < colony_width + 100
            &&& -100 <= e.y < colony_height + 100
            &&& 15 <= e.radius_x < 40
            &&& 15 <= e.radius_y < 40
        },
    }
}

/// A local event a backend draws: a local death, a trait change to a size
/// from 1 to 29, or a creature of size 1 to 29 with 250 health.
pub open spec fn valid_local_event(event: ColonyEvent, colony_width: int, colony_height: int) -> bool {
    match event {
        ColonyEvent::LocalDeath(region) => valid_local_region(region, colony_width, colony_height),
        ColonyEvent::RandomTrait(region, params) =>
            valid_local_region(region, colony_width, colony_height) && 1 <= params.traits.size < 30,
        ColonyEvent::CreateCreature(region, params) => {
            &&& valid_local_region(region, colony_width, colony_height)
            &&& 1 <= params.traits.size < 30
            &&& params.starting_health == 250
        },
        _ => false,
    }
}

/// The colony is small enough that drawn centres fit in `i32`.
pub open spec fn colony_drawable(colony: Colony) -> bool {
    &&& 0 <= colony._width <= i32::MAX - 200
    &&& 0 <= colony._height <= i32::MAX - 200
}

fn randomize_event_region(colony: &Colony, rng: &mut SmallRng) -> (r: Region)
    requires
        colony_drawable(*colony),
    ensures
        valid_local_region(r, colony._width as int, colony._height as int),
{
    if coin_flip(rng) {
        let x = gen_range_i32(rng, 0, colony._width + 200) - 100;
        let y = gen_range_i32(rng, 0, colony._height + 200) - 100;
        let radius = gen_range_i32(rng, 5, 30);
        Region::Circle(Circle { x, y, radius })
    } else {
        let x = gen_range_i32(rng, 0, colony._width + 200) - 100;
        let y = gen_range_i32(rng, 0, colony._height + 200) - 100;
        let radius_x = gen_range_i32(rng, 15, 40);
        let radius_y = gen_range_i32(rng, 15, 40);
        Region::Ellipse(Ellipse { x, y, radius_x, radius_y })
    }
}

fn randomize_traits(rng: &mut SmallRng) -> (t: Traits)
    ensures
        1 <= t.size < 30,
{
    let size = gen_range_i32(rng, 1, 30) as u8;
    let can_kill = coin_flip(rng);
    let can_move = coin_flip(rng);
    Traits { size, can_kill, can_move }
}

fn randomize_colony_event(colony: &Colony, rng: &mut SmallRng) -> (e: ColonyEvent)
    requires
        colony_drawable(*colony),
    ensures
        valid_local_event(e, colony._width as int, colony._height as int),
{
    let kind = gen_range_i32(rng, 0, 3);
    if kind == 0 {
        ColonyEvent::LocalDeath(randomize_event_region(colony, rng))
    } else if kind == 1 {
        let region = randomize_event_region(colony, rng);
        ColonyEvent::RandomTrait(region, RandomTraitParams { traits: randomize_traits(rng) })
    } else {
        let region = randomize_event_region(colony, rng);
        let color = random_color(rng);
        let traits = randomize_traits(rng);
        ColonyEvent::CreateCreature(region, CreateCreatureParams { color, traits, starting_health: 250 })
    }
}

/// The event of one backend tick, given what was drawn: an extinction comes
/// first, then a change of food growth by `food_step`, then the local event,
/// if one was drawn.
pub open spec fn spec_backend_event(extinction: bool, food_change: bool, food_step: i8, local_event: Option<ColonyEvent>) -> Option<ColonyEvent> {
    if extinction {
        Some(ColonyEvent::Extinction())
    } else if food_change {
        Some(ColonyEvent::ChangeExtraFoodPerTick(food_step))
    } else {
        local_event
    }
}

/// Picks the event of one backend tick from what was drawn.
pub fn backend_event_for(extinction: bool, food_change: bool, food_step: i8, local_event: Option<ColonyEvent>) -> (r: Option<ColonyEvent>)
    ensures
        r == spec_backend_event(extinction, food_change, food_step, local_event),
{
    if extinction {
        Some(ColonyEvent::Extinction())
    } else if food_change {
        Some(ColonyEvent::ChangeExtraFoodPerTick(food_step))
    } else {
        local_event
    }
}

/// Draws the event of one backend tick: an extinction with chance one in
/// 50000, else a change of food growth by one to four with chance one in
/// 1000, else a local event with chance one in ten, else nothing. Each
/// draw is made only when the ones before it came up empty.
pub fn randomize_event(colony: &Colony, rng: &mut SmallRng) -> (r: Option<ColonyEvent>)
    requires
        colony_drawable(*colony),
    ensures
        match r {
            None => true,
            Some(e) => {
                ||| e is Extinction
                ||| (e matches ColonyEvent::ChangeExtraFoodPerTick(a) && (1 <= a <= 4 || -4 <= a <= -1))
                ||| valid_local_event(e, colony._width as int, colony._height as int)
            },
        },
{
    let extinction = random_chance(rng, 50000);
    let food_change = !extinction && random_chance(rng, 1000);
    let food_step: i8 = if food_change {
        let up = coin_flip(rng);
        let step = gen_range_i32(rng, 1, 5) as i8;
        if up { step } else { -step }
    } else {
        0
    };
    let local_event = if !extinction && !food_change && random_chance(rng, 10) {
        Some(randomize_colony_event(colony, rng))
    } else {
        None
    };
    backend_event_for(extinction, food_change, food_step, local_event)
}

} // verus!
