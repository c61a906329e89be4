//! Plain data of the colony: colours, creature traits, grid cells, shards
//! and the life rules that govern a tick.

use vstd::prelude::*;

verus! {

/// An RGB colour.
#[derive(Clone, Copy, Debug, PartialEq, Eq, Structural)]
pub struct Color {
    pub red: u8,
    pub green: u8,
    pub blue: u8,
}

/// The colour of a cell that holds no creature.
pub open spec fn spec_white() -> Color {
    Color { red: 255, green: 255, blue: 255 }
}

/// The colour of a cell that holds no creature.
pub fn white_color() -> (c: Color)
    ensures
        c == spec_white(),
{
    Color { red: 255, green: 255, blue: 255 }
}

/// Heritable traits of a creature.
#[derive(Clone, Copy, Debug, PartialEq, Eq, Structural)]
pub struct Traits {
    pub size: u8,
    pub can_kill: bool,
    pub can_move: bool,
}

/// One cell of a shard grid. A cell with `health == 0` holds no creature.
#[derive(Clone, Copy, Debug, PartialEq, Eq, Structural)]
pub struct Cell {
    pub color: Color,
    pub original_color: Color,
    pub tick_bit: bool,
    pub food: u8,
    pub extra_food_per_tick: u8,
    pub health: u16,
    pub age: u16,
    pub traits: Traits,
}

/// A rectangular part of the colony, in colony coordinates.
#[derive(Clone, Copy, Debug, PartialEq, Eq, Structural)]
pub struct Shard {
    pub x: i32,
    pub y: i32,
    pub width: i32,
    pub height: i32,
}

/// The tunable rules of creature life.
#[derive(Clone, Copy, Debug, PartialEq, Eq, Structural)]
pub struct ColonyLifeRules {
    pub health_cost_per_size_unit: u32,
    pub eat_capacity_per_size_unit: u32,
    pub health_cost_if_can_kill: u32,
    pub health_cost_if_can_move: u32,
    pub mutation_chance: u32,
    pub random_death_chance: u32,
}

/// The rules a colony starts with.
pub open spec fn spec_initial_rules() -> ColonyLifeRules {
    ColonyLifeRules {
        health_cost_per_size_unit: 2,
        eat_capacity_per_size_unit: 5,
        health_cost_if_can_kill: 10,
        health_cost_if_can_move: 5,
        mutation_chance: 100,
        random_death_chance: 100,
    }
}

/// The rules a colony starts with.
pub fn colony_life_initial_rules() -> (r: ColonyLifeRules)
    ensures
        r == spec_initial_rules(),
{
    ColonyLifeRules {
        health_cost_per_size_unit: 2,
        eat_capacity_per_size_unit: 5,
        health_cost_if_can_kill: 10,
        health_cost_if_can_move: 5,
        mutation_chance: 100,
        random_death_chance: 100,
    }
}

/// A cell holds no creature exactly when its health is zero.
pub open spec fn spec_is_blank(cell: Cell) -> bool {
    cell.health == 0
}

/// Whether a cell holds no creature.
pub fn is_blank(cell: &Cell) -> (r: bool)
    ensures
        r == spec_is_blank(*cell),
{
    cell.health == 0
}

/// The cell with its creature removed: white and with zero health, all else kept.
pub open spec fn blanked(cell: Cell) -> Cell {
    Cell { color: spec_white(), health: 0, ..cell }
}

/// Removes the creature of a cell.
pub fn set_blank(cell: &mut Cell)
    ensures
        *final(cell) == blanked(*old(cell)),
{
    cell.color = white_color();
    cell.health = 0;
}

/// The fresh cell that fills a new shard.
pub open spec fn spec_initial_cell() -> Cell {
    Cell {
        color: spec_white(),
        original_color: spec_white(),
        tick_bit: false,
        food: 50,
        extra_food_per_tick: 50,
        health: 0,
        age: 1,
        traits: Traits { size: 1, can_kill: true, can_move: true },
    }
}

/// Builds the fresh cell that fills a new shard.
pub fn initial_cell() -> (c: Cell)
    ensures
        c == spec_initial_cell(),
{
    let white = white_color();
    Cell {
        color: white,
        original_color: white,
        tick_bit: false,
        food: 50,
        extra_food_per_tick: 50,
        health: 0,
        age: 1,
        traits: Traits { size: 1, can_kill: true, can_move: true },
    }
}

/// Whether two shards have the same position and size.
pub fn same_shard(a: &Shard, b: &Shard) -> (r: bool)
    ensures
        r == (*a == *b),
{
    a.x == b.x && a.y == b.y && a.width == b.width && a.height == b.height
}

} // verus!
