//! A shard of the colony and its tick rule.
//!
//! The grid of a shard of `width x height` cells is stored row-major with a
//! one-cell shadow margin on every side, so it has `(width + 2) * (height + 2)`
//! cells; the margin mirrors the border cells of the neighbouring shards.

use vstd::prelude::*;
use rand::rngs::SmallRng;
use crate::model::{Cell, Color, ColonyLifeRules, Shard, Traits, blanked, initial_cell, is_blank, set_blank, spec_initial_cell, spec_is_blank};
use crate::arith::{lemma_distinct_index, lemma_index_coords, lemma_index_in_grid, lemma_unique_coords, sat_mul_u32, spec_sat_mul_u32};
use crate::shard_utils::ShardUtils;
use crate::random::{coin_flip, gen_range_i32, gen_range_u32, gen_range_usize, new_random_generator, random_chance, random_color};

verus! {

/// One shard of the colony together with the state it evolves.
#[derive(Debug)]
pub struct ColonyShard {
    pub shard: Shard,
    pub colony_life_rules: ColonyLifeRules,
    pub grid: Vec<Cell>,
    pub current_tick: u64,
}

/// Width of a grid row, margin included.
pub open spec fn row_size(shard: Shard) -> int {
    shard.width + 2
}

/// Number of grid rows, margin included.
pub open spec fn row_count(shard: Shard) -> int {
    shard.height + 2
}

/// The shape every shard grid has.
pub open spec fn shard_dims_ok(shard: Shard) -> bool {
    &&& 1 <= shard.width
    &&& 1 <= shard.height
    &&& shard.width + 2 <= i32::MAX
    &&& shard.height + 2 <= i32::MAX
}

impl ColonyShard {
    /// The grid has the shape its shard calls for.
    pub open spec fn wf(&self) -> bool {
        &&& shard_dims_ok(self.shard)
        &&& self.grid@.len() == row_size(self.shard) * row_count(self.shard)
    }

    /// The tick counter of the shard.
    pub fn get_current_tick(&self) -> (r: u64)
        ensures
            r == self.current_tick,
    {
        self.current_tick
    }
}

/// The grid index of `(x, y)` in a grid `w` cells wide.
pub open spec fn grid_index(w: int, x: int, y: int) -> int {
    y * w + x
}

/// Whether `(x, y)` lies in a `width x height` grid; the bounds are compared
/// as `isize`, as the grid code computes them.
pub fn in_grid_range(width: usize, height: usize, x: isize, y: isize) -> (r: bool)
    ensures
        r == (x >= 0 && x < width as isize && y >= 0 && y < height as isize),
{
    x >= 0 && x < width as isize && y >= 0 && y < height as isize
}

/// The neighbour an offset points at, if it lies in the grid.
pub open spec fn neighbor_at(x: int, y: int, w: int, h: int, off: (isize, isize)) -> Option<int> {
    let nx = x + off.0;
    let ny = y + off.1;
    if 0 <= nx < w && 0 <= ny < h {
        Some(grid_index(w, nx, ny))
    } else {
        None
    }
}

/// The neighbours that a list of offsets reaches from `(x, y)`, in offset
/// order, leaving out the cell itself.
pub open spec fn spec_neighbors(x: int, y: int, w: int, h: int, offs: Seq<(isize, isize)>, me: int) -> Seq<usize>
    decreases offs.len(),
{
    if offs.len() == 0 {
        Seq::empty()
    } else {
        let prev = spec_neighbors(x, y, w, h, offs.drop_last(), me);
        match neighbor_at(x, y, w, h, offs.last()) {
            Some(n) => if n != me { prev.push(n as usize) } else { prev },
            None => prev,
        }
    }
}

/// Offsets that step at most one cell in each direction.
pub open spec fn small_offsets(offs: Seq<(isize, isize)>) -> bool {
    forall|i: int| 0 <= i < offs.len() ==> -1 <= #[trigger] offs[i].0 <= 1 && -1 <= offs[i].1 <= 1
}

/// Every listed neighbour is a grid cell other than `me`.
pub open spec fn neighbors_ok(ns: Seq<usize>, len: int, me: int) -> bool {
    forall|k: int| 0 <= k < ns.len() ==> #[trigger] ns[k] < len && ns[k] != me
}

/// The in-grid neighbours of `(x, y)` in the order the offsets give.
pub fn get_neighbors(x: usize, y: usize, width: usize, height: usize, offsets: &[(isize, isize); 8], my_cell: usize) -> (ns: Vec<usize>)
    requires
        x < width,
        y < height,
        width <= i32::MAX,
        height <= i32::MAX,
        width * height <= usize::MAX,
        my_cell == grid_index(width as int, x as int, y as int),
        small_offsets(offsets@),
    ensures
        ns@ == spec_neighbors(x as int, y as int, width as int, height as int, offsets@, my_cell as int),
        neighbors_ok(ns@, width * height, my_cell as int),
        ns@.len() <= 8,
{
    let mut ns: Vec<usize> = Vec::new();
    let mut i: usize = 0;
    while i < 8
        invariant
            i <= 8,
            x < width,
            y < height,
            width <= i32::MAX,
            height <= i32::MAX,
            width * height <= usize::MAX,
            my_cell == grid_index(width as int, x as int, y as int),
            small_offsets(offsets@),
            offsets@.len() == 8,
            ns@ == spec_neighbors(x as int, y as int, width as int, height as int, offsets@.take(i as int), my_cell as int),
            neighbors_ok(ns@, width * height, my_cell as int),
            ns@.len() <= i,
        decreases 8 - i,
    {
        let (dx, dy) = offsets[i];
        assert(offsets@[i as int] == (dx, dy));
        assert(offsets@.take(i as int + 1).drop_last() =~= offsets@.take(i as int));
        let nx: isize = x as isize + dx;
        let ny: isize = y as isize + dy;
        if in_grid_range(width, height, nx, ny) {
            proof {
                lemma_index_in_grid(width as int, height as int, nx as int, ny as int);
            }
            let neighbour: usize = ny as usize * width + nx as usize;
            if neighbour != my_cell {
                ns.push(neighbour);
            }
        }
        i += 1;
    }
    assert(offsets@.take(8) =~= offsets@);
    ns
}

/// Health a creature pays each tick: its size times the per-size cost, plus
/// the killer's surcharge, stopping at `u32::MAX`.
pub open spec fn spec_health_cost(cell: Cell, rules: ColonyLifeRules) -> int {
    let base = cell.traits.size * rules.health_cost_per_size_unit;
    let kill = if cell.traits.can_kill { rules.health_cost_if_can_kill as int } else { 0 };
    if base + kill > u32::MAX { u32::MAX as int } else { base + kill }
}

/// Computes the health a creature pays each tick.
pub fn calculate_health_cost_for_cell(cell: &Cell, rules: &ColonyLifeRules) -> (r: u32)
    ensures
        r == spec_health_cost(*cell, *rules),
{
    let base = sat_mul_u32(cell.traits.size as u32, rules.health_cost_per_size_unit);
    let kill: u32 = if cell.traits.can_kill { rules.health_cost_if_can_kill } else { 0 };
    base.saturating_add(kill)
}

/// Food a creature eats: what the cell holds, up to its size times the
/// per-size capacity.
pub open spec fn spec_food_eaten(cell: Cell, rules: ColonyLifeRules) -> int {
    let cap = cell.traits.size * rules.eat_capacity_per_size_unit;
    if cell.food <= cap { cell.food as int } else { cap }
}

/// The cell after its creature ate: eaten food moves to health (which stops
/// at `u16::MAX`), then the tick's health cost is paid (stopping at zero).
pub open spec fn spec_eaten(cell: Cell, rules: ColonyLifeRules) -> Cell {
    let eaten = spec_food_eaten(cell, rules);
    let fed = if cell.health + eaten > u16::MAX { u16::MAX as int } else { cell.health + eaten };
    let cost = spec_health_cost(cell, rules);
    let health = if fed <= cost { 0 } else { fed - cost };
    Cell { health: health as u16, food: (cell.food - eaten) as u8, ..cell }
}

impl ColonyShard {
    /// The creature at `cell_idx` eats and pays its health cost.
    fn eat_food(&mut self, cell_idx: usize)
        requires
            cell_idx < old(self).grid@.len(),
        ensures
            final(self).shard == old(self).shard,
            final(self).colony_life_rules == old(self).colony_life_rules,
            final(self).current_tick == old(self).current_tick,
            final(self).grid@ == old(self).grid@.update(
                cell_idx as int,
                spec_eaten(old(self).grid@[cell_idx as int], old(self).colony_life_rules),
            ),
    {
        let cell = self.grid[cell_idx];
        let capacity = sat_mul_u32(cell.traits.size as u32, self.colony_life_rules.eat_capacity_per_size_unit);
        let food_eaten: u32 = if (cell.food as u32) <= capacity { cell.food as u32 } else { capacity };
        let cost = calculate_health_cost_for_cell(&cell, &self.colony_life_rules);
        let fed: u32 = if cell.health as u32 + food_eaten > u16::MAX as u32 {
            u16::MAX as u32
        } else {
            cell.health as u32 + food_eaten
        };
        let health: u32 = if fed <= cost { 0 } else { fed - cost };
        let mut new_cell = cell;
        new_cell.health = health as u16;
        new_cell.food = (cell.food as u32 - food_eaten) as u8;
        self.grid.set(cell_idx, new_cell);
    }
}

} // verus!

verus! {

/// `a + b` stopping at `u16::MAX`.
pub open spec fn spec_sat_add_u16(a: int, b: int) -> int {
    if a + b > u16::MAX { u16::MAX as int } else { a + b }
}

/// Cells other than `me` that changed now carry `bit`; food, extra food and
/// the tick bit of `me` stay as they were.
pub open spec fn creature_step(old: Seq<Cell>, new: Seq<Cell>, me: int, bit: bool) -> bool {
    &&& new.len() == old.len()
    &&& forall|j: int| 0 <= j < new.len() ==> {
        &&& #[trigger] new[j].food == old[j].food
        &&& new[j].extra_food_per_tick == old[j].extra_food_per_tick
        &&& (j != me && new[j] != old[j] ==> new[j].tick_bit == bit)
        &&& (j == me ==> new[j].tick_bit == old[j].tick_bit)
    }
}

/// A killer may attack a live neighbour smaller than itself.
pub open spec fn can_prey_on(me: Cell, prey: Cell) -> bool {
    me.traits.can_kill && me.traits.size > prey.traits.size && prey.health > 0
}

/// The prey's cell after the killer moved in: it takes the killer's colour and
/// traits and the sum of both healths.
pub open spec fn spec_killed(me: Cell, prey: Cell, bit: bool) -> Cell {
    Cell {
        health: spec_sat_add_u16(me.health as int, prey.health as int) as u16,
        color: me.color,
        traits: me.traits,
        tick_bit: bit,
        ..prey
    }
}

/// Amount of food a cell offers this tick.
pub open spec fn food_level(c: Cell) -> int {
    c.food + c.extra_food_per_tick
}

/// A creature may move to an empty neighbour that offers more food.
pub open spec fn can_move_to(me: Cell, dest: Cell) -> bool {
    dest.health == 0 && food_level(dest) > food_level(me)
}

/// The destination cell after the creature moved there.
pub open spec fn spec_moved(me: Cell, dest: Cell, bit: bool) -> Cell {
    Cell { color: me.color, health: me.health, traits: me.traits, tick_bit: bit, ..dest }
}

/// Health a creature must exceed before it can breed.
pub open spec fn spec_breed_cost(me: Cell, rules: ColonyLifeRules) -> int {
    spec_sat_mul_u32(rules.health_cost_per_size_unit as int, me.traits.size as int)
}

/// A creature may breed into an empty neighbour when its health exceeds the cost.
pub open spec fn can_breed_into(me: Cell, dest: Cell, rules: ColonyLifeRules) -> bool {
    me.health > spec_breed_cost(me, rules) && spec_is_blank(dest)
}

/// The newborn: the parent's colour and traits and half its health.
pub open spec fn spec_offspring(me: Cell, dest: Cell, bit: bool) -> Cell {
    Cell { color: me.color, health: (me.health / 2) as u16, traits: me.traits, tick_bit: bit, ..dest }
}

/// The parent after breeding keeps the other half of its health.
pub open spec fn spec_parent(me: Cell) -> Cell {
    Cell { health: (me.health - me.health / 2) as u16, ..me }
}

/// A colour channel moved by at most three.
pub open spec fn channel_near(o: u8, n: u8) -> bool {
    o - 3 <= n <= o + 3
}

/// `m` is a mutation of `c`: the size moved by one (stopping at the bounds of
/// `u8`), the killer flag may flip, each colour channel moved by at most
/// three, and nothing else changed.
pub open spec fn is_mutation_of(c: Cell, m: Cell) -> bool {
    &&& m == Cell {
        color: m.color,
        traits: Traits { size: m.traits.size, can_kill: m.traits.can_kill, ..c.traits },
        ..c
    }
    &&& (m.traits.size == (if c.traits.size == 255 { 255 } else { c.traits.size + 1 })
        || m.traits.size == (if c.traits.size == 0 { 0 } else { c.traits.size - 1 }))
    &&& channel_near(c.color.red, m.color.red)
    &&& channel_near(c.color.green, m.color.green)
    &&& channel_near(c.color.blue, m.color.blue)
}

/// Moves a colour channel by `change`, staying within `0..=255`.
fn shift_channel(v: u8, change: i32) -> (r: u8)
    requires
        -3 <= change <= 3,
    ensures
        channel_near(v, r),
        r == (if v + change < 0 { 0 } else if v + change > 255 { 255 } else { v + change }),
{
    let s: i32 = v as i32 + change;
    if s < 0 {
        0
    } else if s > 255 {
        255
    } else {
        s as u8
    }
}

/// A mutated copy of `cell`.
pub fn mutate_cell(cell: &Cell, rng: &mut SmallRng) -> (m: Cell)
    ensures
        is_mutation_of(*cell, m),
{
    let mut new_cell = *cell;
    if coin_flip(rng) {
        new_cell.traits.size = cell.traits.size.saturating_add(1);
    } else {
        new_cell.traits.size = cell.traits.size.saturating_sub(1);
    }
    new_cell.traits.can_kill = if random_chance(rng, 100) { cell.traits.can_kill } else { !cell.traits.can_kill };
    let red_change = gen_range_i32(rng, -3, 4);
    let green_change = gen_range_i32(rng, -3, 4);
    let blue_change = gen_range_i32(rng, -3, 4);
    new_cell.color.red = shift_channel(cell.color.red, red_change);
    new_cell.color.green = shift_channel(cell.color.green, green_change);
    new_cell.color.blue = shift_channel(cell.color.blue, blue_change);
    new_cell
}

impl ColonyShard {
    /// A killer creature attacks the first smaller live neighbour it may take;
    /// a neighbour that can kill too is only taken one time in ten. The
    /// killer moves into the prey's cell and its own cell empties.
    fn kill_neighbour(&mut self, my_cell: usize, neighbors: &Vec<usize>, next_bit: bool, rng: &mut SmallRng) -> (r: bool)
        requires
            my_cell < old(self).grid@.len(),
            neighbors_ok(neighbors@, old(self).grid@.len() as int, my_cell as int),
        ensures
            final(self).shard == old(self).shard,
            final(self).colony_life_rules == old(self).colony_life_rules,
            final(self).current_tick == old(self).current_tick,
            !r ==> final(self).grid@ == old(self).grid@,
            !r ==> forall|i: int| 0 <= i < neighbors@.len() ==> !(can_prey_on(old(self).grid@[my_cell as int],
                old(self).grid@[#[trigger] neighbors@[i] as int]) && !old(self).grid@[neighbors@[i] as int].traits.can_kill),
            r ==> exists|i: int| #![trigger neighbors@[i]] 0 <= i < neighbors@.len() && {
                let n = neighbors@[i] as int;
                let me = old(self).grid@[my_cell as int];
                &&& can_prey_on(me, old(self).grid@[n])
                &&& final(self).grid@ == old(self).grid@.update(n, spec_killed(me, old(self).grid@[n], next_bit)).update(
                    my_cell as int,
                    blanked(me),
                )
            },
            creature_step(old(self).grid@, final(self).grid@, my_cell as int, next_bit),
    {
        let me = self.grid[my_cell];
        if !me.traits.can_kill {
            return false;
        }
        let my_size = me.traits.size;
        let mut i: usize = 0;
        while i < neighbors.len()
            invariant
                i <= neighbors@.len(),
                self.grid@ == old(self).grid@,
                self.shard == old(self).shard,
                self.colony_life_rules == old(self).colony_life_rules,
                self.current_tick == old(self).current_tick,
                me == old(self).grid@[my_cell as int],
                my_size == me.traits.size,
                me.traits.can_kill,
                my_cell < old(self).grid@.len(),
                neighbors_ok(neighbors@, old(self).grid@.len() as int, my_cell as int),
                forall|j: int| 0 <= j < i ==> !(can_prey_on(me, old(self).grid@[#[trigger] neighbors@[j] as int])
                    && !old(self).grid@[neighbors@[j] as int].traits.can_kill),
            decreases neighbors@.len() - i,
        {
            let n = neighbors[i];
            let prey = self.grid[n];
            if my_size > prey.traits.size && prey.health > 0 {
                if prey.traits.can_kill && !random_chance(rng, 10) {
                    i += 1;
                    continue;
                }
                let mut taken = prey;
                taken.health = me.health.saturating_add(prey.health);
                taken.color = me.color;
                taken.traits = me.traits;
                taken.tick_bit = next_bit;
                self.grid.set(n, taken);
                let mut emptied = me;
                set_blank(&mut emptied);
                self.grid.set(my_cell, emptied);
                assert(self.grid@ == old(self).grid@.update(n as int, spec_killed(me, prey, next_bit)).update(
                    my_cell as int,
                    blanked(me),
                ));
                return true;
            }
            i += 1;
        }
        false
    }

    /// The creature moves to the first empty neighbour that offers more food,
    /// unless a one-in-five chance holds it back; its own cell empties.
    fn move_to_higher_food_neighbor(&mut self, my_cell: usize, neighbors: &Vec<usize>, next_bit: bool, rng: &mut SmallRng) -> (r: bool)
        requires
            my_cell < old(self).grid@.len(),
            neighbors_ok(neighbors@, old(self).grid@.len() as int, my_cell as int),
        ensures
            final(self).shard == old(self).shard,
            final(self).colony_life_rules == old(self).colony_life_rules,
            final(self).current_tick == old(self).current_tick,
            !r ==> final(self).grid@ == old(self).grid@,
            r ==> exists|i: int| #![trigger neighbors@[i]] 0 <= i < neighbors@.len() && {
                let n = neighbors@[i] as int;
                let me = old(self).grid@[my_cell as int];
                &&& can_move_to(me, old(self).grid@[n])
                &&& forall|j: int| 0 <= j < i ==> !can_move_to(me, old(self).grid@[#[trigger] neighbors@[j] as int])
                &&& final(self).grid@ == old(self).grid@.update(n, spec_moved(me, old(self).grid@[n], next_bit)).update(
                    my_cell as int,
                    blanked(me),
                )
            },
            creature_step(old(self).grid@, final(self).grid@, my_cell as int, next_bit),
    {
        let me = self.grid[my_cell];
        let my_food: u16 = me.food as u16 + me.extra_food_per_tick as u16;
        let mut i: usize = 0;
        while i < neighbors.len()
            invariant
                i <= neighbors@.len(),
                self.grid@ == old(self).grid@,
                self.shard == old(self).shard,
                self.colony_life_rules == old(self).colony_life_rules,
                self.current_tick == old(self).current_tick,
                me == old(self).grid@[my_cell as int],
                my_food == food_level(me),
                my_cell < old(self).grid@.len(),
                neighbors_ok(neighbors@, old(self).grid@.len() as int, my_cell as int),
                forall|j: int| 0 <= j < i ==> !can_move_to(me, old(self).grid@[#[trigger] neighbors@[j] as int]),
            decreases neighbors@.len() - i,
        {
            let n = neighbors[i];
            let dest = self.grid[n];
            let n_food: u16 = dest.food as u16 + dest.extra_food_per_tick as u16;
            if dest.health == 0 && n_food > my_food {
                if random_chance(rng, 5) {
                    return false;
                }
                let mut arrived = dest;
                arrived.color = me.color;
                arrived.health = me.health;
                arrived.traits = me.traits;
                arrived.tick_bit = next_bit;
                self.grid.set(n, arrived);
                let mut emptied = me;
                set_blank(&mut emptied);
                self.grid.set(my_cell, emptied);
                assert(self.grid@ == old(self).grid@.update(n as int, spec_moved(me, dest, next_bit)).update(
                    my_cell as int,
                    blanked(me),
                ));
                return true;
            }
            i += 1;
        }
        false
    }

    /// A creature whose health exceeds its breeding cost gives half its health
    /// to a newborn in the first empty neighbour, unless a one-in-five chance
    /// holds it back; the newborn mutates with the rules' mutation chance.
    fn breed(&mut self, my_cell: usize, neighbors: &Vec<usize>, next_bit: bool, rng: &mut SmallRng) -> (r: bool)
        requires
            my_cell < old(self).grid@.len(),
            neighbors_ok(neighbors@, old(self).grid@.len() as int, my_cell as int),
        ensures
            final(self).shard == old(self).shard,
            final(self).colony_life_rules == old(self).colony_life_rules,
            final(self).current_tick == old(self).current_tick,
            !r ==> final(self).grid@ == old(self).grid@,
            r ==> exists|i: int| #![trigger neighbors@[i]] 0 <= i < neighbors@.len() && {
                let n = neighbors@[i] as int;
                let me = old(self).grid@[my_cell as int];
                let born = spec_offspring(me, old(self).grid@[n], next_bit);
                let child = final(self).grid@[n];
                &&& can_breed_into(me, old(self).grid@[n], old(self).colony_life_rules)
                &&& forall|j: int| 0 <= j < i ==> !spec_is_blank(old(self).grid@[#[trigger] neighbors@[j] as int])
                &&& (child == born || is_mutation_of(born, child))
                &&& final(self).grid@ == old(self).grid@.update(n, child).update(my_cell as int, spec_parent(me))
            },
            creature_step(old(self).grid@, final(self).grid@, my_cell as int, next_bit),
    {
        let me = self.grid[my_cell];
        let cost_per_tick = sat_mul_u32(self.colony_life_rules.health_cost_per_size_unit, me.traits.size as u32);
        if me.health as u32 <= cost_per_tick {
            return false;
        }
        let mut i: usize = 0;
        while i < neighbors.len()
            invariant
                i <= neighbors@.len(),
                self.grid@ == old(self).grid@,
                self.shard == old(self).shard,
                self.colony_life_rules == old(self).colony_life_rules,
                self.current_tick == old(self).current_tick,
                me == old(self).grid@[my_cell as int],
                me.health > spec_breed_cost(me, self.colony_life_rules),
                my_cell < old(self).grid@.len(),
                neighbors_ok(neighbors@, old(self).grid@.len() as int, my_cell as int),
                forall|j: int| 0 <= j < i ==> !spec_is_blank(old(self).grid@[#[trigger] neighbors@[j] as int]),
            decreases neighbors@.len() - i,
        {
            let n = neighbors[i];
            let dest = self.grid[n];
            if is_blank(&dest) {
                if random_chance(rng, 5) {
                    return false;
                }
                let half_health = me.health / 2;
                let mut born = dest;
                born.color = me.color;
                born.health = half_health;
                born.traits = me.traits;
                born.tick_bit = next_bit;
                let ghost born_spec = born;
                let mut child = born;
                if random_chance(rng, self.colony_life_rules.mutation_chance) {
                    child = mutate_cell(&born, rng);
                }
                self.grid.set(n, child);
                let mut parent = me;
                parent.health = me.health - half_health;
                self.grid.set(my_cell, parent);
                assert(born_spec == spec_offspring(me, dest, next_bit));
                assert(self.grid@ == old(self).grid@.update(n as int, child).update(my_cell as int, spec_parent(me)));
                return true;
            }
            i += 1;
        }
        false
    }
}

} // verus!

verus! {

/// `a + b` stopping at `u8::MAX`.
pub open spec fn spec_sat_add_u8(a: int, b: int) -> int {
    if a + b > u8::MAX { u8::MAX as int } else { a + b }
}

/// Only the tick bits of the cells differ.
pub open spec fn same_but_tick_bits(old: Seq<Cell>, new: Seq<Cell>) -> bool {
    &&& new.len() == old.len()
    &&& forall|j: int| 0 <= j < new.len() ==> #[trigger] new[j] == Cell { tick_bit: new[j].tick_bit, ..old[j] }
}

/// The eight steps to the neighbouring cells.
pub open spec fn neighbor_offsets() -> Seq<(isize, isize)> {
    seq![(-1isize, -1isize), (0isize, -1isize), (1isize, -1isize), (-1isize, 0isize), (1isize, 0isize), (-1isize, 1isize), (0isize, 1isize), (1isize, 1isize)]
}

/// The eight steps to the neighbouring cells, in reading order.
pub fn neighbor_offsets_array() -> (a: [(isize, isize); 8])
    ensures
        a@ == neighbor_offsets(),
{
    let a: [(isize, isize); 8] = [(-1, -1), (0, -1), (1, -1), (-1, 0), (1, 0), (-1, 1), (0, 1), (1, 1)];
    assert(a@ =~= neighbor_offsets());
    a
}

/// A table of orders in which a creature looks at its neighbours.
pub struct NeighborPermutations {
    pub perms: Vec<[(isize, isize); 8]>,
}

impl NeighborPermutations {
    /// The table is not empty and each entry orders the eight neighbour steps.
    pub open spec fn wf(&self) -> bool {
        &&& self.perms@.len() > 0
        &&& forall|p: int| 0 <= p < self.perms@.len() ==> #[trigger] self.perms@[p]@.to_multiset()
            == neighbor_offsets().to_multiset()
    }
}

/// An order of the neighbour steps holds only single steps.
pub proof fn lemma_permutation_small(offs: Seq<(isize, isize)>)
    requires
        offs.to_multiset() == neighbor_offsets().to_multiset(),
    ensures
        small_offsets(offs),
{
    broadcast use vstd::seq_lib::to_multiset_contains;
    let n = neighbor_offsets();
    assert forall|i: int| 0 <= i < offs.len() implies -1 <= #[trigger] offs[i].0 <= 1 && -1 <= offs[i].1 <= 1 by {
        assert(offs.contains(offs[i]));
        assert(offs.to_multiset().count(offs[i]) > 0);
        assert(n.contains(offs[i]));
        let j = choose|j: int| 0 <= j < n.len() && n[j] == offs[i];
        assert(n[j] == offs[i]);
    }
}

/// Calls `rand::seq::SliceRandom::shuffle` on the eight steps. Shuffling
/// reorders the slice in place, so the steps stay the same as a multiset.
#[verifier::external_body]
fn shuffle_offsets(arr: &mut [(isize, isize); 8], rng: &mut SmallRng)
    ensures
        final(arr)@.to_multiset() == old(arr)@.to_multiset(),
{
    rand::seq::SliceRandom::shuffle(&mut arr[..], rng);
}

/// Builds a table of one hundred shuffled neighbour orders, drawn from a
/// freshly seeded generator.
pub fn get_neighbor_permutations() -> (t: NeighborPermutations)
    ensures
        t.wf(),
        t.perms@.len() == 100,
{
    let mut rng = new_random_generator();
    let mut perms: Vec<[(isize, isize); 8]> = Vec::new();
    let mut k: usize = 0;
    while k < 100
        invariant
            k <= 100,
            perms@.len() == k,
            forall|p: int| 0 <= p < perms@.len() ==> #[trigger] perms@[p]@.to_multiset()
                == neighbor_offsets().to_multiset(),
        decreases 100 - k,
    {
        let mut arr = neighbor_offsets_array();
        shuffle_offsets(&mut arr, &mut rng);
        perms.push(arr);
        k += 1;
    }
    NeighborPermutations { perms }
}

impl ShardUtils {
    /// Sets the tick bit of every shadow-margin cell to `tick_bit`.
    #[verifier::spinoff_prover]
    pub fn set_shadow_margin_tick_bits(colony_shard: &mut ColonyShard, tick_bit: bool)
        requires
            old(colony_shard).wf(),
        ensures
            final(colony_shard).wf(),
            final(colony_shard).shard == old(colony_shard).shard,
            final(colony_shard).colony_life_rules == old(colony_shard).colony_life_rules,
            final(colony_shard).current_tick == old(colony_shard).current_tick,
            same_but_tick_bits(old(colony_shard).grid@, final(colony_shard).grid@),
            forall|x: int| 0 <= x < row_size(old(colony_shard).shard) ==> {
                &&& (#[trigger] final(colony_shard).grid@[x]).tick_bit == tick_bit
                &&& final(colony_shard).grid@[grid_index(row_size(old(colony_shard).shard), x, row_count(old(colony_shard).shard) - 1)].tick_bit
                    == tick_bit
            },
            forall|y: int| 1 <= y < row_count(old(colony_shard).shard) - 1 ==> {
                &&& final(colony_shard).grid@[#[trigger] grid_index(row_size(old(colony_shard).shard), 0, y)].tick_bit == tick_bit
                &&& final(colony_shard).grid@[grid_index(row_size(old(colony_shard).shard), row_size(old(colony_shard).shard) - 1, y)].tick_bit
                    == tick_bit
            },
            forall|x: int, y: int|
                1 <= x < row_size(old(colony_shard).shard) - 1 && 1 <= y < row_count(old(colony_shard).shard) - 1
                    ==> final(colony_shard).grid@[#[trigger] grid_index(row_size(old(colony_shard).shard), x, y)]
                    == old(colony_shard).grid@[grid_index(row_size(old(colony_shard).shard), x, y)],
    {
        let width = (colony_shard.shard.width + 2) as usize;
        let height = (colony_shard.shard.height + 2) as usize;
        let ghost w = width as int;
        let ghost h = height as int;
        let ghost g = old(colony_shard).grid@;
        let len = colony_shard.grid.len();
        assert(len == w * h);
        proof {
            lemma_index_in_grid(w, h, 0, h - 1);
        }
        let bottom_start = (height - 1) * width;
        let mut x: usize = 0;
        while x < width
            invariant
                x <= width,
                width == w,
                height == h,
                w >= 3,
                h >= 3,
                bottom_start == (h - 1) * w,
                len == w * h,
                colony_shard.wf(),
                colony_shard.grid@.len() == w * h,
                colony_shard.shard == old(colony_shard).shard,
                colony_shard.colony_life_rules == old(colony_shard).colony_life_rules,
                colony_shard.current_tick == old(colony_shard).current_tick,
                w == row_size(colony_shard.shard),
                h == row_count(colony_shard.shard),
                same_but_tick_bits(g, colony_shard.grid@),
                forall|i: int| 0 <= i < x ==> (#[trigger] colony_shard.grid@[i]).tick_bit == tick_bit,
                forall|i: int| 0 <= i < x ==> colony_shard.grid@[#[trigger] grid_index(w, i, h - 1)].tick_bit == tick_bit,
                forall|i: int, j: int|
                    1 <= i < w - 1 && 1 <= j < h - 1 ==> colony_shard.grid@[#[trigger] grid_index(w, i, j)] == g[grid_index(w, i, j)],
            decreases width - x,
        {
            proof {
                lemma_index_in_grid(w, h, x as int, h - 1);
            }
            let ghost before = colony_shard.grid@;
            let mut top = colony_shard.grid[x];
            top.tick_bit = tick_bit;
            colony_shard.grid.set(x, top);
            let mut bottom = colony_shard.grid[bottom_start + x];
            bottom.tick_bit = tick_bit;
            colony_shard.grid.set(bottom_start + x, bottom);
            proof {
                assert forall|i: int, j: int| 1 <= i < w - 1 && 1 <= j < h - 1 implies
                    colony_shard.grid@[#[trigger] grid_index(w, i, j)] == g[grid_index(w, i, j)] by {
                    lemma_index_in_grid(w, h, i, j);
                    if grid_index(w, i, j) == x as int {
                        lemma_unique_coords(w, i, j, x as int, 0);
                    }
                    if grid_index(w, i, j) == bottom_start + x {
                        lemma_unique_coords(w, i, j, x as int, h - 1);
                    }
                    assert(before[grid_index(w, i, j)] == g[grid_index(w, i, j)]);
                }
                assert forall|i: int| 0 <= i <= x implies {
                    &&& colony_shard.grid@[i].tick_bit == tick_bit
                    &&& colony_shard.grid@[#[trigger] grid_index(w, i, h - 1)].tick_bit == tick_bit
                } by {
                    lemma_index_in_grid(w, h, i, h - 1);
                    lemma_distinct_index(w, i, 0, x as int, h - 1);
                    lemma_distinct_index(w, x as int, 0, i, h - 1);
                    if i < x {
                        lemma_distinct_index(w, i, 0, x as int, 0);
                        lemma_distinct_index(w, i, h - 1, x as int, 0);
                        lemma_distinct_index(w, i, h - 1, x as int, h - 1);
                        assert(before[i].tick_bit == tick_bit);
                        assert(before[grid_index(w, i, h - 1)].tick_bit == tick_bit);
                    }
                }
                assert forall|i: int| 0 <= i <= x implies (#[trigger] colony_shard.grid@[i]).tick_bit == tick_bit by {
                    assert(colony_shard.grid@[grid_index(w, i, h - 1)].tick_bit == tick_bit);
                }
            }
            x += 1;
        }
        let mut y: usize = 1;
        while y < height - 1
            invariant
                1 <= y <= height - 1,
                width == w,
                height == h,
                w >= 3,
                h >= 3,
                len == w * h,
                colony_shard.wf(),
                colony_shard.grid@.len() == w * h,
                colony_shard.shard == old(colony_shard).shard,
                colony_shard.colony_life_rules == old(colony_shard).colony_life_rules,
                colony_shard.current_tick == old(colony_shard).current_tick,
                w == row_size(colony_shard.shard),
                h == row_count(colony_shard.shard),
                same_but_tick_bits(g, colony_shard.grid@),
                forall|i: int| 0 <= i < w ==> {
                    &&& (#[trigger] colony_shard.grid@[i]).tick_bit == tick_bit
                    &&& colony_shard.grid@[grid_index(w, i, h - 1)].tick_bit == tick_bit
                },
                forall|j: int| 1 <= j < y ==> colony_shard.grid@[#[trigger] grid_index(w, 0, j)].tick_bit == tick_bit,
                forall|j: int| 1 <= j < y ==> colony_shard.grid@[#[trigger] grid_index(w, w - 1, j)].tick_bit == tick_bit,
                forall|i: int, j: int|
                    1 <= i < w - 1 && 1 <= j < h - 1 ==> colony_shard.grid@[#[trigger] grid_index(w, i, j)] == g[grid_index(w, i, j)],
            decreases height - 1 - y,
        {
            proof {
                lemma_index_in_grid(w, h, 0, y as int);
                lemma_index_in_grid(w, h, w - 1, y as int);
            }
            let ghost before = colony_shard.grid@;
            let left_idx = y * width;
            let right_idx = y * width + (width - 1);
            let mut left = colony_shard.grid[left_idx];
            left.tick_bit = tick_bit;
            colony_shard.grid.set(left_idx, left);
            let mut right = colony_shard.grid[right_idx];
            right.tick_bit = tick_bit;
            colony_shard.grid.set(right_idx, right);
            proof {
                assert forall|i: int, j: int| 1 <= i < w - 1 && 1 <= j < h - 1 implies
                    colony_shard.grid@[#[trigger] grid_index(w, i, j)] == g[grid_index(w, i, j)] by {
                    lemma_index_in_grid(w, h, i, j);
                    if grid_index(w, i, j) == left_idx as int {
                        lemma_unique_coords(w, i, j, 0, y as int);
                    }
                    if grid_index(w, i, j) == right_idx as int {
                        lemma_unique_coords(w, i, j, w - 1, y as int);
                    }
                    assert(before[grid_index(w, i, j)] == g[grid_index(w, i, j)]);
                }
                assert forall|i: int| 0 <= i < w implies {
                    &&& (#[trigger] colony_shard.grid@[i]).tick_bit == tick_bit
                    &&& colony_shard.grid@[grid_index(w, i, h - 1)].tick_bit == tick_bit
                } by {
                    lemma_index_in_grid(w, h, i, h - 1);
                    lemma_distinct_index(w, i, 0, 0, y as int);
                    lemma_distinct_index(w, i, 0, w - 1, y as int);
                    lemma_distinct_index(w, i, h - 1, 0, y as int);
                    lemma_distinct_index(w, i, h - 1, w - 1, y as int);
                    assert(before[i].tick_bit == tick_bit);
                    assert(before[grid_index(w, i, h - 1)].tick_bit == tick_bit);
                }
                assert forall|j: int| 1 <= j <= y implies {
                    &&& colony_shard.grid@[grid_index(w, 0, j)].tick_bit == tick_bit
                    &&& colony_shard.grid@[#[trigger] grid_index(w, w - 1, j)].tick_bit == tick_bit
                } by {
                    lemma_index_in_grid(w, h, 0, j);
                    lemma_index_in_grid(w, h, w - 1, j);
                    lemma_distinct_index(w, 0, j, w - 1, y as int);
                    lemma_distinct_index(w, w - 1, j, 0, y as int);
                    if j < y {
                        lemma_distinct_index(w, 0, j, 0, y as int);
                        lemma_distinct_index(w, w - 1, j, w - 1, y as int);
                        assert(before[grid_index(w, 0, j)].tick_bit == tick_bit);
                        assert(before[grid_index(w, w - 1, j)].tick_bit == tick_bit);
                    }
                }
                assert forall|j: int| 1 <= j <= y implies colony_shard.grid@[#[trigger] grid_index(w, 0, j)].tick_bit == tick_bit by {
                    assert(colony_shard.grid@[grid_index(w, w - 1, j)].tick_bit == tick_bit);
                }
            }
            y += 1;
        }
    }
}

} // verus!

verus! {

/// `n` is one of the cells around `k`, in a grid `w` cells wide and `h`
/// high: in the grid, not `k` itself, and at most one step away in each
/// direction.
pub open spec fn adjacent_cell(w: int, h: int, k: int, n: int) -> bool {
    &&& 0 <= n < w * h
    &&& n != k
    &&& k % w - 1 <= n % w <= k % w + 1
    &&& k / w - 1 <= n / w <= k / w + 1
}

/// Every listed neighbour lies around the cell.
pub proof fn lemma_neighbors_adjacent(x: int, y: int, w: int, h: int, offs: Seq<(isize, isize)>, me: int)
    requires
        0 <= x < w,
        0 <= y < h,
        w * h <= usize::MAX,
        me == grid_index(w, x, y),
        small_offsets(offs),
    ensures
        forall|i: int| 0 <= i < spec_neighbors(x, y, w, h, offs, me).len()
            ==> adjacent_cell(w, h, me, #[trigger] spec_neighbors(x, y, w, h, offs, me)[i] as int),
    decreases offs.len(),
{
    if offs.len() > 0 {
        let rest = offs.drop_last();
        assert(small_offsets(rest)) by {
            assert forall|i: int| 0 <= i < rest.len() implies -1 <= #[trigger] rest[i].0 <= 1 && -1 <= rest[i].1 <= 1 by {
                assert(rest[i] == offs[i]);
            }
        }
        lemma_neighbors_adjacent(x, y, w, h, rest, me);
        let prev = spec_neighbors(x, y, w, h, rest, me);
        let ns = spec_neighbors(x, y, w, h, offs, me);
        let off = offs.last();
        assert(-1 <= offs[offs.len() - 1].0 <= 1 && -1 <= offs[offs.len() - 1].1 <= 1);
        lemma_index_in_grid(w, h, x, y);
        lemma_index_coords(w, h, me);
        lemma_unique_coords(w, me % w, me / w, x, y);
        match neighbor_at(x, y, w, h, off) {
            Some(n) => {
                if n != me {
                    let nx = x + off.0;
                    let ny = y + off.1;
                    lemma_index_in_grid(w, h, nx, ny);
                    lemma_index_coords(w, h, n);
                    lemma_unique_coords(w, n % w, n / w, nx, ny);
                    assert(adjacent_cell(w, h, me, n));
                    assert(ns == prev.push(n as usize));
                    assert forall|i: int| 0 <= i < ns.len() implies adjacent_cell(w, h, me, #[trigger] ns[i] as int) by {
                        if i < prev.len() {
                            assert(ns[i] == prev[i]);
                        } else {
                            assert(ns[i] == n as usize);
                        }
                    }
                } else {
                    assert(ns == prev);
                }
            },
            None => {
                assert(ns == prev);
            },
        }
    }
}

/// A listed step that reaches a grid cell other than `me` puts that cell in
/// the list.
proof fn lemma_neighbors_include(x: int, y: int, w: int, h: int, offs: Seq<(isize, isize)>, me: int, i: int)
    requires
        0 <= i < offs.len(),
        neighbor_at(x, y, w, h, offs[i]) matches Some(n) && n != me,
    ensures
        spec_neighbors(x, y, w, h, offs, me).contains(neighbor_at(x, y, w, h, offs[i]).unwrap() as usize),
    decreases offs.len(),
{
    let n = neighbor_at(x, y, w, h, offs[i]).unwrap();
    let ns = spec_neighbors(x, y, w, h, offs, me);
    let rest = offs.drop_last();
    let prev = spec_neighbors(x, y, w, h, rest, me);
    if i == offs.len() - 1 {
        assert(ns == prev.push(n as usize));
        assert(ns[ns.len() - 1] == n as usize);
    } else {
        assert(rest[i] == offs[i]);
        lemma_neighbors_include(x, y, w, h, rest, me, i);
        let j = choose|j: int| 0 <= j < prev.len() && prev[j] == n as usize;
        match neighbor_at(x, y, w, h, offs.last()) {
            Some(m) => if m != me {
                assert(ns == prev.push(m as usize));
                assert(ns[j] == prev[j]);
            } else {
                assert(ns == prev);
            },
            None => {
                assert(ns == prev);
            },
        }
    }
}

/// Every cell around `me` is listed, whatever order the steps come in.
pub proof fn lemma_neighbors_complete(x: int, y: int, w: int, h: int, offs: Seq<(isize, isize)>, me: int, n: int)
    requires
        0 <= x < w,
        0 <= y < h,
        me == grid_index(w, x, y),
        offs.to_multiset() == neighbor_offsets().to_multiset(),
        adjacent_cell(w, h, me, n),
    ensures
        spec_neighbors(x, y, w, h, offs, me).contains(n as usize),
{
    broadcast use vstd::seq_lib::to_multiset_contains;
    lemma_index_in_grid(w, h, x, y);
    lemma_index_coords(w, h, me);
    lemma_unique_coords(w, me % w, me / w, x, y);
    lemma_index_coords(w, h, n);
    let dx = n % w - x;
    let dy = n / w - y;
    assert(dx != 0 || dy != 0);
    let off: (isize, isize) = (dx as isize, dy as isize);
    let no = neighbor_offsets();
    if dy == -1 {
        if dx == -1 { assert(no[0] == off); } else if dx == 0 { assert(no[1] == off); } else { assert(no[2] == off); }
    } else if dy == 0 {
        if dx == -1 { assert(no[3] == off); } else { assert(no[4] == off); }
    } else {
        if dx == -1 { assert(no[5] == off); } else if dx == 0 { assert(no[6] == off); } else { assert(no[7] == off); }
    }
    assert(no.contains(off));
    assert(no.to_multiset().count(off) > 0);
    assert(offs.contains(off));
    let i = choose|i: int| 0 <= i < offs.len() && offs[i] == off;
    assert(neighbor_at(x, y, w, h, offs[i]) == Some(grid_index(w, n % w, n / w)));
    lemma_neighbors_include(x, y, w, h, offs, me, i);
}

/// A live, smaller neighbour that cannot kill: a killer always takes such
/// prey when it has one around.
pub open spec fn sure_prey(s: Seq<Cell>, k: int, w: int, h: int) -> bool {
    exists|n: int| #[trigger] adjacent_cell(w, h, k, n) && can_prey_on(s[k], s[n]) && !s[n].traits.can_kill
}

/// The cell after its food grew by its extra food, stopping at `u8::MAX`.
pub open spec fn grown(c: Cell) -> Cell {
    Cell { food: spec_sat_add_u8(c.food as int, c.extra_food_per_tick as int) as u8, ..c }
}

/// What a creature that lived through its meal did, in the grid `s`: it
/// killed a cell around it; or, having no sure prey around, it stayed, or
/// bred into or moved to a cell around it; in each case only where the rule
/// lets it.
pub open spec fn creature_acted(s: Seq<Cell>, after: Seq<Cell>, k: int, w: int, h: int, bit: bool, rules: ColonyLifeRules) -> bool {
    let me = s[k];
    ||| exists|n: int| #[trigger] adjacent_cell(w, h, k, n) && can_prey_on(me, s[n])
            && after == s.update(n, spec_killed(me, s[n], bit)).update(k, blanked(me))
    ||| !sure_prey(s, k, w, h) && {
        ||| after == s
        ||| exists|n: int| #[trigger] adjacent_cell(w, h, k, n) && can_breed_into(me, s[n], rules)
                && (after[n] == spec_offspring(me, s[n], bit) || is_mutation_of(spec_offspring(me, s[n], bit), after[n]))
                && after == s.update(n, after[n]).update(k, spec_parent(me))
        ||| exists|n: int| #[trigger] adjacent_cell(w, h, k, n) && can_move_to(me, s[n])
                && after == s.update(n, spec_moved(me, s[n], bit)).update(k, blanked(me))
    }
}

/// The number of values a death roll is drawn from: a creature that still
/// has health after eating dies with chance one in this many.
pub open spec fn death_roll_range() -> u32 {
    5000
}

/// Whether a creature dies after eating, given its death roll: it dies when
/// its health ran out, or when the roll comes up 0.
pub open spec fn visit_kills(fed: Cell, roll: u32) -> bool {
    fed.health == 0 || roll == 0
}

/// Of the `death_roll_range()` possible rolls, exactly one kills a creature
/// that still has health after eating, and every roll kills one whose
/// health ran out. So, with an even roll, such a creature dies of chance in
/// one tick out of 5000.
pub proof fn law_death_is_one_roll_in_range(fed: Cell)
    ensures
        fed.health == 0 ==> forall|r: u32| #[trigger] visit_kills(fed, r),
        fed.health > 0 ==> forall|r: u32| r < death_roll_range() ==> (#[trigger] visit_kills(fed, r) <==> r == 0),
        fed.health > 0 ==> visit_kills(fed, 0) && !visit_kills(fed, 1),
{
}

/// One visit of a tick: cell `k` of `before` turns `before` into `after`.
/// The cell's food grows. A cell already reached this tick (its bit shows
/// `bit`) is left at that; otherwise its bit turns to `bit`, and a creature
/// in it eats, then dies when its health ran out or its death roll `roll`
/// came up 0, and otherwise acts.
pub open spec fn cell_visit(before: Seq<Cell>, after: Seq<Cell>, k: int, w: int, h: int, bit: bool, rules: ColonyLifeRules, roll: u32) -> bool {
    let c = grown(before[k]);
    if before[k].tick_bit == bit {
        after == before.update(k, c)
    } else {
        let flipped = Cell { tick_bit: bit, ..c };
        let s1 = before.update(k, flipped);
        if spec_is_blank(flipped) {
            after == s1
        } else {
            let fed = spec_eaten(flipped, rules);
            let s2 = s1.update(k, fed);
            if visit_kills(fed, roll) {
                after == s2.update(k, blanked(fed))
            } else {
                creature_acted(s2, after, k, w, h, bit, rules)
            }
        }
    }
}

/// In a visit of a creature that still has health after eating, the roll
/// alone decides its death: roll 0 removes it from its cell with nothing
/// else changed, and any other roll lets it act (kill, stay, breed or move)
/// instead.
pub proof fn law_visit_death_by_roll(before: Seq<Cell>, after: Seq<Cell>, k: int, w: int, h: int, bit: bool, rules: ColonyLifeRules, roll: u32)
    requires
        cell_visit(before, after, k, w, h, bit, rules, roll),
        before[k].tick_bit != bit,
        !spec_is_blank(before[k]),
        spec_eaten(Cell { tick_bit: bit, ..grown(before[k]) }, rules).health > 0,
    ensures
        ({
            let fed = spec_eaten(Cell { tick_bit: bit, ..grown(before[k]) }, rules);
            let s2 = before.update(k, Cell { tick_bit: bit, ..grown(before[k]) }).update(k, fed);
            &&& roll == 0 ==> after == s2.update(k, blanked(fed))
            &&& roll != 0 ==> creature_acted(s2, after, k, w, h, bit, rules)
        }),
{
}

/// The grids a tick goes through, one visit of each cell in row-major order,
/// with the death roll of each visit.
pub open spec fn tick_trace(trace: Seq<Seq<Cell>>, rolls: Seq<u32>, w: int, h: int, bit: bool, rules: ColonyLifeRules) -> bool {
    forall|k: int| 0 <= k < trace.len() - 1 ==> cell_visit(#[trigger] trace[k], trace[k + 1], k, w, h, bit, rules, rolls[k])
}

/// `new` is `old` with the tick bit of every shadow-margin cell set to `bit`.
pub open spec fn margins_marked(old: Seq<Cell>, new: Seq<Cell>, w: int, h: int, bit: bool) -> bool {
    &&& same_but_tick_bits(old, new)
    &&& forall|x: int| 0 <= x < w ==> {
        &&& (#[trigger] new[x]).tick_bit == bit
        &&& new[grid_index(w, x, h - 1)].tick_bit == bit
    }
    &&& forall|y: int| 1 <= y < h - 1 ==> {
        &&& new[#[trigger] grid_index(w, 0, y)].tick_bit == bit
        &&& new[grid_index(w, w - 1, y)].tick_bit == bit
    }
    &&& forall|x: int, y: int| 1 <= x < w - 1 && 1 <= y < h - 1
        ==> new[#[trigger] grid_index(w, x, y)] == old[grid_index(w, x, y)]
}

/// `new` is `old` one tick later: the same shard and rules, the counter one
/// up, every cell's tick bit flipped to the new tick's, extra food kept and
/// food grown at most by it, and the grid the end of a run of cell visits
/// in row-major order that starts from `old` with its shadow margin marked
/// with the old tick's bit.
pub open spec fn ticked(old: ColonyShard, new: ColonyShard) -> bool {
    let w = row_size(old.shard);
    let h = row_count(old.shard);
    let old_bit = old.grid@[w + 4].tick_bit;
    &&& new.shard == old.shard
    &&& new.colony_life_rules == old.colony_life_rules
    &&& new.grid@.len() == old.grid@.len()
    &&& new.current_tick == old.current_tick + 1
    &&& forall|j: int| 0 <= j < new.grid@.len() ==> {
        let before = old.grid@[j];
        let after = #[trigger] new.grid@[j];
        &&& after.tick_bit == !old_bit
        &&& after.extra_food_per_tick == before.extra_food_per_tick
        &&& after.food <= spec_sat_add_u8(before.food as int, before.extra_food_per_tick as int)
    }
    &&& exists|trace: Seq<Seq<Cell>>, rolls: Seq<u32>| #![trigger trace.len(), rolls.len()] {
        &&& trace.len() == old.grid@.len() + 1
        &&& rolls.len() == old.grid@.len()
        &&& forall|k: int| 0 <= k < rolls.len() ==> #[trigger] rolls[k] < death_roll_range()
        &&& margins_marked(old.grid@, trace[0], w, h, old_bit)
        &&& tick_trace(trace, rolls, w, h, !old_bit, old.colony_life_rules)
        &&& trace.last() == new.grid@
    }
}

impl ColonyShard {
    /// Advances the shard by one tick.
    ///
    /// Every cell, margin included, is visited once in row-major order. Its
    /// food grows by its extra food. A cell whose tick bit already shows the
    /// new tick was reached by a creature this tick and is skipped; otherwise
    /// its bit is flipped and, if it holds a creature, the creature eats,
    /// may die (of hunger or a one-in-5000 chance), and then tries in turn
    /// to kill a neighbour, to breed, or to move to richer ground, looking at
    /// its neighbours in an order drawn from `perms`.
    #[verifier::spinoff_prover]
    pub fn tick(&mut self, rng: &mut SmallRng, perms: &NeighborPermutations)
        requires
            old(self).wf(),
            perms.wf(),
            old(self).current_tick < u64::MAX,
        ensures
            final(self).wf(),
            ticked(*old(self), *final(self)),
    {
        let ghost w = row_size(self.shard);
        let ghost h = row_count(self.shard);
        proof {
            assert(w * h >= w + 6) by (nonlinear_arith)
                requires
                    w >= 3,
                    h >= 3,
            ;
        }
        let width = (self.shard.width + 2) as usize;
        let height = (self.shard.height + 2) as usize;
        let len = self.grid.len();
        let tick_bit = self.grid[width + 4].tick_bit;
        let next_bit = !tick_bit;
        ShardUtils::set_shadow_margin_tick_bits(self, tick_bit);
        let ghost g0 = self.grid@;
        let ghost mut trace: Seq<Seq<Cell>> = seq![g0];
        let ghost mut rolls: Seq<u32> = Seq::empty();
        assert(margins_marked(old(self).grid@, g0, w, h, tick_bit));
        let mut my_cell: usize = 0;
        while my_cell < len
            invariant
                my_cell <= len,
                len == self.grid@.len(),
                len == w * h,
                width == w,
                height == h,
                w == row_size(self.shard),
                h == row_count(self.shard),
                self.wf(),
                perms.wf(),
                self.shard == old(self).shard,
                self.colony_life_rules == old(self).colony_life_rules,
                self.current_tick == old(self).current_tick,
                g0.len() == len,
                same_but_tick_bits(old(self).grid@, g0),
                forall|j: int| 0 <= j < len ==> (#[trigger] self.grid@[j]).extra_food_per_tick == g0[j].extra_food_per_tick,
                forall|j: int| 0 <= j < my_cell ==> {
                    &&& (#[trigger] self.grid@[j]).tick_bit == next_bit
                    &&& self.grid@[j].food <= spec_sat_add_u8(g0[j].food as int, g0[j].extra_food_per_tick as int)
                },
                forall|j: int| my_cell <= j < len ==> (#[trigger] self.grid@[j]).food == g0[j].food,
                trace.len() == my_cell + 1,
                rolls.len() == my_cell,
                forall|j: int| 0 <= j < rolls.len() ==> #[trigger] rolls[j] < death_roll_range(),
                trace[0] == g0,
                trace[my_cell as int] == self.grid@,
                tick_trace(trace, rolls, w, h, next_bit, self.colony_life_rules),
            decreases len - my_cell,
        {
            proof {
                lemma_index_coords(w, h, my_cell as int);
            }
            let x = my_cell % width;
            let y = my_cell / width;
            let ghost before = self.grid@;
            let ghost k = my_cell as int;
            let mut cell = self.grid[my_cell];
            cell.food = cell.food.saturating_add(cell.extra_food_per_tick);
            assert(cell == grown(before[k]));
            if cell.tick_bit == next_bit {
                self.grid.set(my_cell, cell);
                proof {
                    assert(cell_visit(before, self.grid@, k, w, h, next_bit, self.colony_life_rules, 1));
                    lemma_trace_push(trace, rolls, self.grid@, 1, w, h, next_bit, self.colony_life_rules);
                    trace = trace.push(self.grid@);
                    rolls = rolls.push(1);
                }
                my_cell += 1;
                continue;
            }
            cell.tick_bit = next_bit;
            self.grid.set(my_cell, cell);
            if is_blank(&cell) {
                proof {
                    assert(cell_visit(before, self.grid@, k, w, h, next_bit, self.colony_life_rules, 1));
                    lemma_trace_push(trace, rolls, self.grid@, 1, w, h, next_bit, self.colony_life_rules);
                    trace = trace.push(self.grid@);
                    rolls = rolls.push(1);
                }
                my_cell += 1;
                continue;
            }
            let p = gen_range_usize(rng, 0, perms.perms.len());
            proof {
                lemma_permutation_small(perms.perms@[p as int]@);
            }
            let offsets = &perms.perms[p];
            let neighbors = get_neighbors(x, y, width, height, offsets, my_cell);
            proof {
                lemma_neighbors_adjacent(x as int, y as int, w, h, offsets@, k);
            }
            self.eat_food(my_cell);
            let ghost fed = self.grid@;
            let death_roll: u32 = if self.grid[my_cell].health == 0 { 1 } else { gen_range_u32(rng, 0, 5000) };
            if self.grid[my_cell].health == 0 || death_roll == 0 {
                let mut dead = self.grid[my_cell];
                set_blank(&mut dead);
                self.grid.set(my_cell, dead);
                proof {
                    assert(cell_visit(before, self.grid@, k, w, h, next_bit, self.colony_life_rules, death_roll));
                    lemma_trace_push(trace, rolls, self.grid@, death_roll, w, h, next_bit, self.colony_life_rules);
                    trace = trace.push(self.grid@);
                    rolls = rolls.push(death_roll);
                }
                my_cell += 1;
                continue;
            }
            let rules = self.colony_life_rules;
            let killed = self.kill_neighbour(my_cell, &neighbors, next_bit, rng);
            if killed {
                proof {
                    let i = choose|i: int| #![trigger neighbors@[i]] 0 <= i < neighbors@.len() && {
                        let n = neighbors@[i] as int;
                        let me = fed[k];
                        &&& can_prey_on(me, fed[n])
                        &&& self.grid@ == fed.update(n, spec_killed(me, fed[n], next_bit)).update(k, blanked(me))
                    };
                    assert(adjacent_cell(w, h, k, neighbors@[i] as int));
                }
            } else {
                proof {
                    if sure_prey(fed, k, w, h) {
                        let n = choose|n: int| #[trigger] adjacent_cell(w, h, k, n) && can_prey_on(fed[k], fed[n])
                            && !fed[n].traits.can_kill;
                        lemma_neighbors_complete(x as int, y as int, w, h, offsets@, k, n);
                        let i = choose|i: int| 0 <= i < neighbors@.len() && neighbors@[i] == n as usize;
                        assert(!(can_prey_on(fed[k], fed[neighbors@[i] as int]) && !fed[neighbors@[i] as int].traits.can_kill));
                    }
                }
                let bred = self.breed(my_cell, &neighbors, next_bit, rng);
                if bred {
                    proof {
                        let i = choose|i: int| #![trigger neighbors@[i]] 0 <= i < neighbors@.len() && {
                            let n = neighbors@[i] as int;
                            let me = fed[k];
                            let born = spec_offspring(me, fed[n], next_bit);
                            let child = self.grid@[n];
                            &&& can_breed_into(me, fed[n], rules)
                            &&& (child == born || is_mutation_of(born, child))
                            &&& self.grid@ == fed.update(n, child).update(k, spec_parent(me))
                        };
                        assert(adjacent_cell(w, h, k, neighbors@[i] as int));
                    }
                } else {
                    let moved = self.move_to_higher_food_neighbor(my_cell, &neighbors, next_bit, rng);
                    if moved {
                        proof {
                            let i = choose|i: int| #![trigger neighbors@[i]] 0 <= i < neighbors@.len() && {
                                let n = neighbors@[i] as int;
                                let me = fed[k];
                                &&& can_move_to(me, fed[n])
                                &&& self.grid@ == fed.update(n, spec_moved(me, fed[n], next_bit)).update(k, blanked(me))
                            };
                            assert(adjacent_cell(w, h, k, neighbors@[i] as int));
                        }
                    }
                }
            }
            proof {
                assert(creature_step(fed, self.grid@, my_cell as int, next_bit));
                assert(creature_acted(fed, self.grid@, k, w, h, next_bit, rules));
                assert(cell_visit(before, self.grid@, k, w, h, next_bit, self.colony_life_rules, death_roll));
                lemma_trace_push(trace, rolls, self.grid@, death_roll, w, h, next_bit, self.colony_life_rules);
                trace = trace.push(self.grid@);
                rolls = rolls.push(death_roll);
            }
            my_cell += 1;
        }
        self.current_tick = self.current_tick + 1;
    }
}

/// A visit that starts from the last grid of a trace extends the trace.
proof fn lemma_trace_push(trace: Seq<Seq<Cell>>, rolls: Seq<u32>, next: Seq<Cell>, roll: u32, w: int, h: int, bit: bool, rules: ColonyLifeRules)
    requires
        trace.len() > 0,
        rolls.len() == trace.len() - 1,
        tick_trace(trace, rolls, w, h, bit, rules),
        cell_visit(trace.last(), next, trace.len() - 1, w, h, bit, rules, roll),
    ensures
        tick_trace(trace.push(next), rolls.push(roll), w, h, bit, rules),
{
    let t = trace.push(next);
    let r = rolls.push(roll);
    assert forall|k: int| 0 <= k < t.len() - 1 implies cell_visit(#[trigger] t[k], t[k + 1], k, w, h, bit, rules, r[k]) by {
        if k < trace.len() - 1 {
            assert(t[k] == trace[k] && t[k + 1] == trace[k + 1] && r[k] == rolls[k]);
        } else {
            assert(t[k] == trace.last() && t[k + 1] == next && r[k] == roll);
        }
    }
}

} // verus!

verus! {

/// A cell seeded with a start-up creature: the given colour, health 20 and
/// size 18, all else kept.
pub open spec fn spec_seeded(c: Cell, color: Color) -> Cell {
    Cell { color: color, health: 20, traits: Traits { size: 18, ..c.traits }, ..c }
}

/// Number of cells whose tick bit equals `bit`.
pub open spec fn count_bits(s: Seq<Cell>, bit: bool) -> nat
    decreases s.len(),
{
    if s.len() == 0 {
        0
    } else {
        count_bits(s.drop_last(), bit) + if s.last().tick_bit == bit { 1nat } else { 0nat }
    }
}

impl ColonyShard {
    /// Seeds creatures at random: three colours are drawn, and each cell
    /// gets, with chance one in ten, a creature of one of them with health 20
    /// and size 18.
    pub fn randomize_at_start(&mut self, rng: &mut SmallRng)
        requires
            old(self).wf(),
        ensures
            final(self).wf(),
            final(self).shard == old(self).shard,
            final(self).colony_life_rules == old(self).colony_life_rules,
            final(self).current_tick == old(self).current_tick,
            final(self).grid@.len() == old(self).grid@.len(),
            exists|colors: Seq<Color>| colors.len() == 3 && forall|j: int| 0 <= j < final(self).grid@.len() ==> {
                let c = old(self).grid@[j];
                let n = #[trigger] final(self).grid@[j];
                n == c || (colors.contains(n.color) && n == spec_seeded(c, n.color))
            },
    {
        let mut templates: Vec<Color> = Vec::new();
        let mut t: usize = 0;
        while t < 3
            invariant
                t <= 3,
                templates@.len() == t,
            decreases 3 - t,
        {
            let c = random_color(rng);
            templates.push(c);
            t += 1;
        }
        let len = self.grid.len();
        let mut id: usize = 0;
        while id < len
            invariant
                id <= len,
                len == self.grid@.len(),
                len == old(self).grid@.len(),
                templates@.len() == 3,
                self.shard == old(self).shard,
                self.colony_life_rules == old(self).colony_life_rules,
                self.current_tick == old(self).current_tick,
                forall|j: int| 0 <= j < len ==> {
                    let c = old(self).grid@[j];
                    let n = #[trigger] self.grid@[j];
                    n == c || (templates@.contains(n.color) && n == spec_seeded(c, n.color))
                },
                forall|j: int| id <= j < len ==> #[trigger] self.grid@[j] == old(self).grid@[j],
            decreases len - id,
        {
            if random_chance(rng, 10) {
                let k = gen_range_usize(rng, 0, templates.len());
                let template = templates[k];
                let mut cell = self.grid[id];
                cell.color = template;
                cell.health = 20;
                cell.traits.size = 18;
                self.grid.set(id, cell);
                assert(templates@.contains(template)) by {
                    assert(templates@[k as int] == template);
                }
            }
            id += 1;
        }
    }

}

impl ShardUtils {
    /// Number of cells whose tick bit is set, and number whose bit is clear.
    pub fn count_tick_bits(colony_shard: &ColonyShard) -> (r: (usize, usize))
        ensures
            r.0 == count_bits(colony_shard.grid@, true),
            r.1 == count_bits(colony_shard.grid@, false),
            r.0 + r.1 == colony_shard.grid@.len(),
    {
        let mut true_count: usize = 0;
        let mut false_count: usize = 0;
        let mut i: usize = 0;
        while i < colony_shard.grid.len()
            invariant
                i <= colony_shard.grid@.len(),
                true_count == count_bits(colony_shard.grid@.take(i as int), true),
                false_count == count_bits(colony_shard.grid@.take(i as int), false),
                true_count + false_count == i,
            decreases colony_shard.grid@.len() - i,
        {
            assert(colony_shard.grid@.take(i as int + 1).drop_last() =~= colony_shard.grid@.take(i as int));
            if colony_shard.grid[i].tick_bit {
                true_count += 1;
            } else {
                false_count += 1;
            }
            i += 1;
        }
        assert(colony_shard.grid@.take(i as int) =~= colony_shard.grid@);
        (true_count, false_count)
    }
}

/// Number of grid cells of a shard, margin included.
pub open spec fn grid_len(shard: Shard) -> int {
    row_size(shard) * row_count(shard)
}

/// A shard just set up: the given shard and rules, tick zero, and every
/// cell the initial empty cell or, in one of three colours, a start-up
/// creature on it.
pub open spec fn fresh_shard(cs: ColonyShard, shard: Shard, rules: ColonyLifeRules) -> bool {
    &&& cs.shard == shard
    &&& cs.colony_life_rules == rules
    &&& cs.current_tick == 0
    &&& exists|colors: Seq<Color>| colors.len() == 3 && forall|j: int| 0 <= j < cs.grid@.len() ==> {
        let n = #[trigger] cs.grid@[j];
        n == spec_initial_cell() || (colors.contains(n.color) && n == spec_seeded(spec_initial_cell(), n.color))
    }
}

impl ShardUtils {
    /// Builds a new shard: every cell fresh, then creatures seeded at random.
    pub fn new_colony_shard(shard: &Shard, colony_life_rules: &ColonyLifeRules, rng: &mut SmallRng) -> (cs: ColonyShard)
        requires
            shard_dims_ok(*shard),
            grid_len(*shard) <= usize::MAX,
        ensures
            cs.wf(),
            fresh_shard(cs, *shard, *colony_life_rules),
    {
        let total = (shard.width as usize + 2) * (shard.height as usize + 2);
        let mut grid: Vec<Cell> = Vec::new();
        let mut i: usize = 0;
        while i < total
            invariant
                i <= total,
                grid@.len() == i,
                forall|j: int| 0 <= j < i ==> #[trigger] grid@[j] == spec_initial_cell(),
            decreases total - i,
        {
            grid.push(crate::model::initial_cell());
            i += 1;
        }
        let mut colony_shard = ColonyShard { shard: *shard, colony_life_rules: *colony_life_rules, current_tick: 0, grid };
        colony_shard.randomize_at_start(rng);
        colony_shard
    }
}

} // verus!
