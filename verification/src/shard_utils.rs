//! Views of a shard for other parts of the system: images, data layers,
//! statistics, and the exchange of border cells between neighbouring shards.

use vstd::prelude::*;
use crate::model::{Cell, Color, ColonyLifeRules, Shard, same_shard, spec_is_blank};
use crate::shard::{ColonyShard, calculate_health_cost_for_cell, row_count, row_size, shard_dims_ok, spec_health_cost};

verus! {

/// Operations on shards that the servers call.
pub struct ShardUtils;

/// A per-cell quantity that can be read out of a shard as a data layer.
#[derive(Clone, Copy, Debug, PartialEq, Eq, Structural)]
pub enum ShardLayer {
    CreatureSize,
    ExtraFood,
    CanKill,
    CanMove,
    CostPerTurn,
    Food,
    Health,
    Age,
}

/// The border lanes of a shard, sent to its neighbours after a tick.
#[derive(Clone, Debug)]
pub struct UpdatedShardContentsRequest {
    pub updated_shard: Shard,
    pub top: Vec<Cell>,
    pub bottom: Vec<Cell>,
    pub left: Vec<Cell>,
    pub right: Vec<Cell>,
}

/// The interior cells of a grid (the margin left out), row after row, for
/// the first `rows` rows of a shard `w` cells wide.
pub open spec fn interior(g: Seq<Cell>, w: int, rows: nat) -> Seq<Cell>
    decreases rows,
{
    if rows == 0 {
        Seq::empty()
    } else {
        let start = rows * (w + 2) + 1;
        interior(g, w, (rows - 1) as nat) + g.subrange(start, start + w)
    }
}

/// All interior cells of a shard, row after row.
pub open spec fn shard_interior(cs: ColonyShard) -> Seq<Cell> {
    interior(cs.grid@, cs.shard.width as int, cs.shard.height as nat)
}

/// Copies the interior cells of a shard, row after row.
fn interior_cells(cs: &ColonyShard) -> (r: Vec<Cell>)
    requires
        cs.wf(),
    ensures
        r@ == shard_interior(*cs),
{
    let w = cs.shard.width as usize;
    let h = cs.shard.height as usize;
    let rs = w + 2;
    let len = cs.grid.len();
    let mut out: Vec<Cell> = Vec::new();
    let mut row: usize = 1;
    while row <= h
        invariant
            cs.wf(),
            len == cs.grid@.len(),
            w == cs.shard.width,
            h == cs.shard.height,
            rs == w + 2,
            1 <= row <= h + 1,
            out@ == interior(cs.grid@, w as int, (row - 1) as nat),
        decreases h + 1 - row,
    {
        assert(row * rs + 1 + w < rs * (h + 2)) by (nonlinear_arith)
            requires
                1 <= row <= h,
                rs == w + 2,
        ;
        let start = row * rs + 1;
        let mut c: usize = 0;
        while c < w
            invariant
                cs.wf(),
                w == cs.shard.width,
                h == cs.shard.height,
                rs == w + 2,
                1 <= row <= h,
                start == row * rs + 1,
                len == cs.grid@.len(),
                start + w <= cs.grid@.len(),
                c <= w,
                out@ == interior(cs.grid@, w as int, (row - 1) as nat) + cs.grid@.subrange(start as int, start + c),
            decreases w - c,
        {
            out.push(cs.grid[start + c]);
            assert(cs.grid@.subrange(start as int, start + c + 1) =~= cs.grid@.subrange(start as int, start + c).push(cs.grid@[start + c]));
            c += 1;
        }
        assert(interior(cs.grid@, w as int, row as nat) == interior(cs.grid@, w as int, (row - 1) as nat) + cs.grid@.subrange(start as int, start + w));
        row += 1;
    }
    out
}

/// The value a data layer shows for one cell.
pub open spec fn layer_value(layer: ShardLayer, cell: Cell, rules: ColonyLifeRules) -> i32 {
    match layer {
        ShardLayer::CreatureSize => if spec_is_blank(cell) { 0 } else { cell.traits.size as i32 },
        ShardLayer::Age => if spec_is_blank(cell) { 0 } else { cell.age as i32 },
        ShardLayer::ExtraFood => cell.extra_food_per_tick as i32,
        ShardLayer::CanKill => if spec_is_blank(cell) { 0 } else if cell.traits.can_kill { 2 } else { 1 },
        ShardLayer::CanMove => if spec_is_blank(cell) { 0 } else if cell.traits.can_move { 2 } else { 1 },
        ShardLayer::CostPerTurn => if spec_is_blank(cell) { 0 } else { (spec_health_cost(cell, rules) as u32) as i32 },
        ShardLayer::Food => cell.food as i32,
        ShardLayer::Health => cell.health as i32,
    }
}

/// The flag layers tell the three kinds of cell apart: an empty cell shows
/// 0; a creature shows 2 when it has the flag and 1 when it has not, so a
/// creature that can move and one that cannot never look the same on the
/// `CanMove` layer, and likewise on the `CanKill` layer.
pub proof fn law_layer_flags(c: Cell, rules: ColonyLifeRules)
    ensures
        spec_is_blank(c) ==> layer_value(ShardLayer::CanMove, c, rules) == 0 && layer_value(ShardLayer::CanKill, c, rules) == 0,
        !spec_is_blank(c) ==> (layer_value(ShardLayer::CanMove, c, rules) == 2 <==> c.traits.can_move),
        !spec_is_blank(c) ==> (layer_value(ShardLayer::CanMove, c, rules) == 1 <==> !c.traits.can_move),
        !spec_is_blank(c) ==> (layer_value(ShardLayer::CanKill, c, rules) == 2 <==> c.traits.can_kill),
        !spec_is_blank(c) ==> (layer_value(ShardLayer::CanKill, c, rules) == 1 <==> !c.traits.can_kill),
{
}

/// Computes `layer_value` for one cell.
fn cell_layer_value(layer: ShardLayer, cell: &Cell, rules: &ColonyLifeRules) -> (v: i32)
    ensures
        v == layer_value(layer, *cell, *rules),
{
    let blank = cell.health == 0;
    match layer {
        ShardLayer::CreatureSize => if blank { 0 } else { cell.traits.size as i32 },
        ShardLayer::Age => if blank { 0 } else { cell.age as i32 },
        ShardLayer::ExtraFood => cell.extra_food_per_tick as i32,
        ShardLayer::CanKill => if blank { 0 } else if cell.traits.can_kill { 2 } else { 1 },
        ShardLayer::CanMove => if blank { 0 } else if cell.traits.can_move { 2 } else { 1 },
        ShardLayer::CostPerTurn => if blank { 0 } else { calculate_health_cost_for_cell(cell, rules) as i32 },
        ShardLayer::Food => cell.food as i32,
        ShardLayer::Health => cell.health as i32,
    }
}

impl ShardUtils {
    /// The colours of the interior cells, row after row, if `req_shard` is
    /// the shard held; `None` otherwise.
    pub fn get_shard_image(shard: &ColonyShard, req_shard: &Shard) -> (r: Option<Vec<Color>>)
        requires
            shard.wf(),
        ensures
            match r {
                None => shard.shard != *req_shard,
                Some(img) => shard.shard == *req_shard
                    && img@ == shard_interior(*shard).map_values(|c: Cell| c.color),
            },
    {
        if !same_shard(&shard.shard, req_shard) {
            return None;
        }
        let cells = interior_cells(shard);
        let mut image: Vec<Color> = Vec::new();
        let mut i: usize = 0;
        while i < cells.len()
            invariant
                i <= cells@.len(),
                image@ == cells@.take(i as int).map_values(|c: Cell| c.color),
            decreases cells@.len() - i,
        {
            image.push(cells[i].color);
            assert(cells@.take(i as int + 1) =~= cells@.take(i as int).push(cells@[i as int]));
            i += 1;
        }
        assert(cells@.take(i as int) =~= cells@);
        Some(image)
    }

    /// One data layer over the interior cells, row after row, if `req_shard`
    /// is the shard held; `None` otherwise.
    pub fn get_shard_layer(shard: &ColonyShard, req_shard: &Shard, layer: &ShardLayer) -> (r: Option<Vec<i32>>)
        requires
            shard.wf(),
        ensures
            match r {
                None => shard.shard != *req_shard,
                Some(data) => shard.shard == *req_shard
                    && data@ == shard_interior(*shard).map_values(|c: Cell| layer_value(*layer, c, shard.colony_life_rules)),
            },
    {
        if !same_shard(&shard.shard, req_shard) {
            return None;
        }
        let cells = interior_cells(shard);
        let mut data: Vec<i32> = Vec::new();
        let mut i: usize = 0;
        while i < cells.len()
            invariant
                i <= cells@.len(),
                data@ == cells@.take(i as int).map_values(|c: Cell| layer_value(*layer, c, shard.colony_life_rules)),
            decreases cells@.len() - i,
        {
            let v = cell_layer_value(*layer, &cells[i], &shard.colony_life_rules);
            data.push(v);
            assert(cells@.take(i as int + 1) =~= cells@.take(i as int).push(cells@[i as int]));
            i += 1;
        }
        assert(cells@.take(i as int) =~= cells@);
        Some(data)
    }
}


/// Which shadow lane of a shard a neighbour's border fills.
#[derive(Clone, Copy, Debug, PartialEq, Eq, Structural)]
pub enum Side {
    Top,
    Bottom,
    Left,
    Right,
}

/// `other` lies directly above `my`, with the same columns.
pub open spec fn is_above(other: Shard, my: Shard) -> bool {
    other.x == my.x && other.y + other.height == my.y && other.width == my.width
}

/// `other` lies directly below `my`, with the same columns.
pub open spec fn is_below(other: Shard, my: Shard) -> bool {
    other.x == my.x && my.y + my.height == other.y && other.width == my.width
}

/// `other` lies directly left of `my`, with the same rows.
pub open spec fn is_left_of(other: Shard, my: Shard) -> bool {
    other.y == my.y && other.x + other.width == my.x && other.height == my.height
}

/// `other` lies directly right of `my`, with the same rows.
pub open spec fn is_right_of(other: Shard, my: Shard) -> bool {
    other.y == my.y && my.x + my.width == other.x && other.height == my.height
}

/// The shadow lane of `my` that the borders of `other` fill, checked in the
/// order above, below, left, right.
pub open spec fn side_of(other: Shard, my: Shard) -> Option<Side> {
    if is_above(other, my) {
        Some(Side::Top)
    } else if is_below(other, my) {
        Some(Side::Bottom)
    } else if is_left_of(other, my) {
        Some(Side::Left)
    } else if is_right_of(other, my) {
        Some(Side::Right)
    } else {
        None
    }
}

/// Number of cells in a shadow lane.
pub open spec fn lane_len(my: Shard, side: Side) -> int {
    match side {
        Side::Top | Side::Bottom => my.width as int,
        Side::Left | Side::Right => my.height as int,
    }
}

/// Grid index of the `i`-th cell of a shadow lane.
pub open spec fn lane_pos(my: Shard, side: Side, i: int) -> int {
    let rs = row_size(my);
    match side {
        Side::Top => 1 + i,
        Side::Bottom => (my.height + 1) * rs + 1 + i,
        Side::Left => (i + 1) * rs,
        Side::Right => (i + 1) * rs + my.width + 1,
    }
}

/// The border of the sender that fills a given shadow lane of the receiver:
/// the top lane gets the bottom border of the shard above, and so on.
pub open spec fn lane_source(req: UpdatedShardContentsRequest, side: Side) -> Seq<Cell> {
    match side {
        Side::Top => req.bottom@,
        Side::Bottom => req.top@,
        Side::Left => req.right@,
        Side::Right => req.left@,
    }
}

/// A shadow cell after it took the creature of a neighbour's border cell.
/// A creature already shown there is not removed by a blank border cell.
pub open spec fn copied_cell(dst: Cell, src: Cell, tick_bit: bool) -> Cell {
    if dst.health > 0 && src.health == 0 {
        dst
    } else {
        Cell {
            color: src.color,
            original_color: src.original_color,
            health: src.health,
            age: src.age,
            traits: src.traits,
            food: src.food,
            extra_food_per_tick: src.extra_food_per_tick,
            tick_bit: tick_bit,
        }
    }
}

/// Copies the creature of `src` into the shadow cell `dst`.
fn copy_cell_creature_data(dst: &mut Cell, src: &Cell, tick_bit: bool)
    ensures
        *final(dst) == copied_cell(*old(dst), *src, tick_bit),
{
    if dst.health > 0 && src.health == 0 {
        return;
    }
    dst.color = src.color;
    dst.original_color = src.original_color;
    dst.health = src.health;
    dst.age = src.age;
    dst.traits = src.traits;
    dst.food = src.food;
    dst.extra_food_per_tick = src.extra_food_per_tick;
    dst.tick_bit = tick_bit;
}

/// Lane cells lie in the grid, one after another in grid order.
pub proof fn lemma_lane_pos(my: Shard, side: Side, i: int, j: int)
    requires
        shard_dims_ok(my),
        0 <= i < j < lane_len(my, side),
    ensures
        0 <= lane_pos(my, side, i) < lane_pos(my, side, j) < row_size(my) * row_count(my),
{
    let rs = row_size(my);
    let w = my.width as int;
    let h = my.height as int;
    assert(rs * (h + 2) == rs * h + 2 * rs) by (nonlinear_arith);
    match side {
        Side::Top => {},
        Side::Bottom => {
            assert((h + 1) * rs == rs * h + rs) by (nonlinear_arith);
        },
        Side::Left | Side::Right => {
            assert((i + 1) * rs < (j + 1) * rs) by (nonlinear_arith)
                requires
                    i < j,
                    rs > 0,
            ;
            assert((j + 1) * rs <= h * rs) by (nonlinear_arith)
                requires
                    j + 1 <= h,
                    rs > 0,
            ;
            assert(h * rs == rs * h) by (nonlinear_arith);
            assert(0 <= (i + 1) * rs) by (nonlinear_arith)
                requires
                    0 <= i,
                    rs > 0,
            ;
        },
    }
}

/// Where each shadow lane lies, in grid coordinates (column, row) of the
/// `(width + 2) x (height + 2)` grid: the top lane fills row 0 and the
/// bottom lane the last row, columns 1 to `width`; the left lane fills
/// column 0 and the right lane the last column, rows 1 to `height`. No lane
/// cell is an interior cell of the shard.
pub proof fn law_lanes_in_margin(my: Shard, side: Side, i: int, x: int, y: int)
    requires
        shard_dims_ok(my),
        0 <= i < lane_len(my, side),
        0 <= x < my.width,
        0 <= y < my.height,
    ensures
        side == Side::Top ==> lane_pos(my, side, i) == crate::shard::grid_index(row_size(my), i + 1, 0),
        side == Side::Bottom ==> lane_pos(my, side, i) == crate::shard::grid_index(row_size(my), i + 1, row_count(my) - 1),
        side == Side::Left ==> lane_pos(my, side, i) == crate::shard::grid_index(row_size(my), 0, i + 1),
        side == Side::Right ==> lane_pos(my, side, i) == crate::shard::grid_index(row_size(my), row_size(my) - 1, i + 1),
        lane_pos(my, side, i) != interior_index(my.width + 2, x, y),
{
    let rs = row_size(my);
    let w = my.width as int;
    let h = my.height as int;
    let (lx, ly) = match side {
        Side::Top => (i + 1, 0int),
        Side::Bottom => (i + 1, h + 1),
        Side::Left => (0int, i + 1),
        Side::Right => (rs - 1, i + 1),
    };
    assert(lane_pos(my, side, i) == ly * rs + lx) by (nonlinear_arith)
        requires
            side == Side::Top ==> lane_pos(my, side, i) == 1 + i && lx == i + 1 && ly == 0,
            side == Side::Bottom ==> lane_pos(my, side, i) == (h + 1) * rs + 1 + i && lx == i + 1 && ly == h + 1,
            side == Side::Left ==> lane_pos(my, side, i) == (i + 1) * rs && lx == 0 && ly == i + 1,
            side == Side::Right ==> lane_pos(my, side, i) == (i + 1) * rs + w + 1 && lx == rs - 1 && ly == i + 1,
            rs == w + 2,
    ;
    assert(0 <= lx < rs);
    assert(lx == 0 || lx == rs - 1 || ly == 0 || ly == h + 1);
    crate::arith::lemma_distinct_index(rs, lx, ly, x + 1, y + 1);
}

/// A border update never touches the interior of the receiving shard: only
/// cells of its one-cell margin can change.
pub proof fn law_update_keeps_interior(new: ColonyShard, old: ColonyShard, req: UpdatedShardContentsRequest, x: int, y: int)
    requires
        old.wf(),
        is_update_of(new, old, req),
        0 <= x < old.shard.width,
        0 <= y < old.shard.height,
    ensures
        new.grid@[interior_index(old.shard.width + 2, x, y)] == old.grid@[interior_index(old.shard.width + 2, x, y)],
{
    let j = interior_index(old.shard.width + 2, x, y);
    lemma_interior_index(old.shard.width as int, old.shard.height as int, x, y, x, y);
    match side_of(req.updated_shard, old.shard) {
        None => {},
        Some(side) => {
            if new.grid@[j] != old.grid@[j] {
                let i = choose|i: int| 0 <= i < lane_len(old.shard, side) && j == #[trigger] lane_pos(old.shard, side, i);
                law_lanes_in_margin(old.shard, side, i, x, y);
            }
        },
    }
}

/// Every lane cell lies in the grid.
pub proof fn lemma_lane_in_grid(my: Shard, side: Side, i: int)
    requires
        shard_dims_ok(my),
        0 <= i < lane_len(my, side),
    ensures
        0 <= lane_pos(my, side, i) < row_size(my) * row_count(my),
{
    let rs = row_size(my);
    let h = my.height as int;
    assert(rs * (h + 2) == rs * h + 2 * rs) by (nonlinear_arith);
    assert((h + 1) * rs == rs * h + rs) by (nonlinear_arith);
    assert(rs <= rs * h) by (nonlinear_arith)
        requires
            h >= 1,
            rs > 0,
    ;
    match side {
        Side::Left | Side::Right => {
            assert((i + 1) * rs <= h * rs) by (nonlinear_arith)
                requires
                    i + 1 <= h,
                    rs > 0,
            ;
            assert(h * rs == rs * h) by (nonlinear_arith);
            assert(0 <= (i + 1) * rs) by (nonlinear_arith)
                requires
                    0 <= i,
                    rs > 0,
            ;
        },
        _ => {},
    }
}

/// Computes `lane_pos`.
fn lane_index(my: &Shard, side: Side, i: usize) -> (r: usize)
    requires
        shard_dims_ok(*my),
        row_size(*my) * row_count(*my) <= usize::MAX,
        i < lane_len(*my, side),
    ensures
        r == lane_pos(*my, side, i as int),
{
    proof {
        lemma_lane_in_grid(*my, side, i as int);
    }
    let w = my.width as usize;
    let h = my.height as usize;
    let rs = w + 2;
    match side {
        Side::Top => 1 + i,
        Side::Bottom => (h + 1) * rs + 1 + i,
        Side::Left => (i + 1) * rs,
        Side::Right => (i + 1) * rs + w + 1,
    }
}

/// Computes `side_of`, with the coordinates taken as mathematical integers.
fn find_side(other: &Shard, my: &Shard) -> (r: Option<Side>)
    ensures
        r == side_of(*other, *my),
{
    let ox = other.x as i64;
    let oy = other.y as i64;
    let ow = other.width as i64;
    let oh = other.height as i64;
    let mx = my.x as i64;
    let my_y = my.y as i64;
    let mw = my.width as i64;
    let mh = my.height as i64;
    if ox == mx && oy + oh == my_y && ow == mw {
        Some(Side::Top)
    } else if ox == mx && my_y + mh == oy && ow == mw {
        Some(Side::Bottom)
    } else if oy == my_y && ox + ow == mx && oh == mh {
        Some(Side::Left)
    } else if oy == my_y && mx + mw == ox && oh == mh {
        Some(Side::Right)
    } else {
        None
    }
}

/// The border lanes of a shard as `export_shard_contents` sends them: its
/// first and last interior rows and its first and last interior columns.
pub open spec fn is_export_of(req: UpdatedShardContentsRequest, cs: ColonyShard) -> bool {
    let rs = row_size(cs.shard);
    let w = cs.shard.width as int;
    let h = cs.shard.height as int;
    &&& req.updated_shard == cs.shard
    &&& req.top@ == cs.grid@.subrange(rs + 1, rs + 1 + w)
    &&& req.bottom@ == cs.grid@.subrange(h * rs + 1, h * rs + 1 + w)
    &&& req.left@.len() == h
    &&& req.right@.len() == h
    &&& forall|i: int| 0 <= i < h ==> #[trigger] req.left@[i] == cs.grid@[(i + 1) * rs + 1]
    &&& forall|i: int| 0 <= i < h ==> #[trigger] req.right@[i] == cs.grid@[(i + 1) * rs + w]
}

/// The lanes of an export have the lengths of the shard's edges.
pub open spec fn export_shaped(req: UpdatedShardContentsRequest) -> bool {
    &&& req.top@.len() == req.updated_shard.width
    &&& req.bottom@.len() == req.updated_shard.width
    &&& req.left@.len() == req.updated_shard.height
    &&& req.right@.len() == req.updated_shard.height
}

/// The export of a well-formed shard has the lengths of its edges.
pub proof fn lemma_export_shaped(req: UpdatedShardContentsRequest, cs: ColonyShard)
    requires
        cs.wf(),
        is_export_of(req, cs),
    ensures
        export_shaped(req),
{
    let rs = row_size(cs.shard);
    let h = cs.shard.height as int;
    assert(rs * (h + 2) == rs * h + 2 * rs) by (nonlinear_arith);
    assert(rs <= rs * h) by (nonlinear_arith)
        requires
            h >= 1,
            rs > 0,
    ;
    assert(h * rs == rs * h) by (nonlinear_arith);
}

/// The tick bit that a shard's cells carry, read from its first interior row.
pub open spec fn shard_tick_bit(cs: ColonyShard) -> bool {
    cs.grid@[cs.shard.width + 4].tick_bit
}

/// `new` is `old` after the borders in `req` were copied into the matching
/// shadow lane; nothing else changed.
pub open spec fn is_update_of(new: ColonyShard, old: ColonyShard, req: UpdatedShardContentsRequest) -> bool {
    &&& new.shard == old.shard
    &&& new.colony_life_rules == old.colony_life_rules
    &&& new.current_tick == old.current_tick
    &&& new.grid@.len() == old.grid@.len()
    &&& match side_of(req.updated_shard, old.shard) {
        None => new.grid@ == old.grid@,
        Some(side) => {
            &&& forall|i: int| 0 <= i < lane_len(old.shard, side) ==>
                #[trigger] new.grid@[lane_pos(old.shard, side, i)]
                    == copied_cell(old.grid@[lane_pos(old.shard, side, i)], lane_source(req, side)[i], shard_tick_bit(old))
            &&& forall|j: int| 0 <= j < new.grid@.len() && new.grid@[j] != old.grid@[j] ==>
                exists|i: int| 0 <= i < lane_len(old.shard, side) && j == #[trigger] lane_pos(old.shard, side, i)
        },
    }
}

impl ShardUtils {
    /// The border lanes of a shard, to be sent to its neighbours.
    pub fn export_shard_contents(colony_shard: &ColonyShard) -> (r: UpdatedShardContentsRequest)
        requires
            colony_shard.wf(),
        ensures
            is_export_of(r, *colony_shard),
    {
        let w = colony_shard.shard.width as usize;
        let h = colony_shard.shard.height as usize;
        let rs = w + 2;
        let len = colony_shard.grid.len();
        let g = &colony_shard.grid;
        proof {
            let hh = h as int;
            assert(rs * (hh + 2) == rs * hh + 2 * rs) by (nonlinear_arith);
            assert(rs <= rs * hh) by (nonlinear_arith)
                requires
                    hh >= 1,
                    rs > 0,
            ;
            assert(hh * rs == rs * hh) by (nonlinear_arith);
        }
        let top = slice_copy(g, rs + 1, w);
        let bottom = slice_copy(g, h * rs + 1, w);
        let mut left: Vec<Cell> = Vec::new();
        let mut right: Vec<Cell> = Vec::new();
        let mut row: usize = 1;
        while row <= h
            invariant
                colony_shard.wf(),
                g == &colony_shard.grid,
                w == colony_shard.shard.width,
                h == colony_shard.shard.height,
                rs == w + 2,
                len == g@.len(),
                1 <= row <= h + 1,
                left@.len() == row - 1,
                right@.len() == row - 1,
                forall|i: int| 0 <= i < row - 1 ==> #[trigger] left@[i] == g@[(i + 1) * rs + 1],
                forall|i: int| 0 <= i < row - 1 ==> #[trigger] right@[i] == g@[(i + 1) * rs + w],
            decreases h + 1 - row,
        {
            assert(row * rs + w < rs * (h + 2)) by (nonlinear_arith)
                requires
                    1 <= row <= h,
                    rs == w + 2,
            ;
            left.push(g[row * rs + 1]);
            right.push(g[row * rs + w]);
            row += 1;
        }
        UpdatedShardContentsRequest { updated_shard: colony_shard.shard, top, bottom, left, right }
    }
}

/// Copies `n` consecutive cells starting at `start`.
fn slice_copy(g: &Vec<Cell>, start: usize, n: usize) -> (r: Vec<Cell>)
    requires
        start + n <= g@.len(),
    ensures
        r@ == g@.subrange(start as int, start + n),
{
    let len = g.len();
    let mut out: Vec<Cell> = Vec::new();
    let mut k: usize = 0;
    while k < n
        invariant
            len == g@.len(),
            start + n <= g@.len(),
            k <= n,
            out@ == g@.subrange(start as int, start + k),
        decreases n - k,
    {
        out.push(g[start + k]);
        assert(g@.subrange(start as int, start + k + 1) =~= g@.subrange(start as int, start + k).push(g@[start + k]));
        k += 1;
    }
    out
}


impl ShardUtils {
    /// Copies the borders sent by a neighbouring shard into the matching
    /// shadow lane of `my_shard`. A shard that is not a direct neighbour
    /// changes nothing.
    pub fn updated_shard_contents(my_shard: &mut ColonyShard, updated_shard_req: &UpdatedShardContentsRequest)
        requires
            old(my_shard).wf(),
            match side_of(updated_shard_req.updated_shard, old(my_shard).shard) {
                None => true,
                Some(side) => lane_source(*updated_shard_req, side).len() >= lane_len(old(my_shard).shard, side),
            },
        ensures
            final(my_shard).wf(),
            is_update_of(*final(my_shard), *old(my_shard), *updated_shard_req),
    {
        let w = my_shard.shard.width as usize;
        let h = my_shard.shard.height as usize;
        let len = my_shard.grid.len();
        proof {
            let rs = row_size(my_shard.shard);
            assert(rs * (h + 2) >= 3 * rs) by (nonlinear_arith)
                requires
                    h >= 1,
                    rs > 0,
            ;
        }
        let tick_bit = my_shard.grid[w + 4].tick_bit;
        let found = find_side(&updated_shard_req.updated_shard, &my_shard.shard);
        match found {
            None => {},
            Some(side) => {
                let src: &Vec<Cell> = match side {
                    Side::Top => &updated_shard_req.bottom,
                    Side::Bottom => &updated_shard_req.top,
                    Side::Left => &updated_shard_req.right,
                    Side::Right => &updated_shard_req.left,
                };
                let n: usize = match side {
                    Side::Top | Side::Bottom => w,
                    Side::Left | Side::Right => h,
                };
                let ghost old_shard = *old(my_shard);
                let mut i: usize = 0;
                while i < n
                    invariant
                        old_shard == *old(my_shard),
                        my_shard.wf(),
                        my_shard.shard == old_shard.shard,
                        my_shard.colony_life_rules == old_shard.colony_life_rules,
                        my_shard.current_tick == old_shard.current_tick,
                        len == my_shard.grid@.len(),
                        len == old_shard.grid@.len(),
                        src@ == lane_source(*updated_shard_req, side),
                        n == lane_len(old_shard.shard, side),
                        src@.len() >= n,
                        tick_bit == shard_tick_bit(old_shard),
                        i <= n,
                        forall|k: int| 0 <= k < i ==>
                            #[trigger] my_shard.grid@[lane_pos(old_shard.shard, side, k)]
                                == copied_cell(old_shard.grid@[lane_pos(old_shard.shard, side, k)], src@[k], tick_bit),
                        forall|j: int| 0 <= j < len && my_shard.grid@[j] != old_shard.grid@[j] ==>
                            exists|k: int| 0 <= k < i && j == #[trigger] lane_pos(old_shard.shard, side, k),
                    decreases n - i,
                {
                    let idx = lane_index(&my_shard.shard, side, i);
                    proof {
                        lemma_lane_in_grid(old_shard.shard, side, i as int);
                        if my_shard.grid@[idx as int] != old_shard.grid@[idx as int] {
                            let k = choose|k: int| 0 <= k < i && idx == #[trigger] lane_pos(old_shard.shard, side, k);
                            lemma_lane_pos(old_shard.shard, side, k, i as int);
                        }
                        assert forall|k: int| 0 <= k < i implies lane_pos(old_shard.shard, side, k) != idx by {
                            lemma_lane_pos(old_shard.shard, side, k, i as int);
                        }
                    }
                    let ghost before = my_shard.grid@;
                    let mut cell = my_shard.grid[idx];
                    assert(cell == old_shard.grid@[idx as int]);
                    copy_cell_creature_data(&mut cell, &src[i], tick_bit);
                    my_shard.grid.set(idx, cell);
                    proof {
                        assert forall|k: int| 0 <= k < i + 1 implies
                            #[trigger] my_shard.grid@[lane_pos(old_shard.shard, side, k)]
                                == copied_cell(old_shard.grid@[lane_pos(old_shard.shard, side, k)], src@[k], tick_bit) by {
                            if k < i {
                                lemma_lane_pos(old_shard.shard, side, k, i as int);
                                assert(before[lane_pos(old_shard.shard, side, k)]
                                    == copied_cell(old_shard.grid@[lane_pos(old_shard.shard, side, k)], src@[k], tick_bit));
                            }
                        }
                        assert forall|j: int| 0 <= j < len && my_shard.grid@[j] != old_shard.grid@[j] implies
                            exists|k: int| 0 <= k < i + 1 && j == #[trigger] lane_pos(old_shard.shard, side, k) by {
                            if j == idx {
                                assert(j == lane_pos(old_shard.shard, side, i as int));
                            } else {
                                let k = choose|k: int| 0 <= k < i && j == #[trigger] lane_pos(old_shard.shard, side, k);
                                assert(j == lane_pos(old_shard.shard, side, k));
                            }
                        }
                    }
                    i += 1;
                }
            },
        }
    }

    /// Whether `shard2` lies directly above, below, left or right of
    /// `shard1`, sharing a whole edge with it.
    pub fn is_adjacent_shard(shard1: &Shard, shard2: &Shard) -> (r: bool)
        ensures
            r == (side_of(*shard2, *shard1) is Some),
    {
        find_side(shard2, shard1).is_some()
    }
}


/// The border cell of the sender that faces the `i`-th cell of the receiving
/// lane: the last row of the shard above, the first row of the shard below,
/// the last column of the shard to the left, the first column of the shard
/// to the right.
pub open spec fn facing_border_cell(sender: ColonyShard, side: Side, i: int) -> Cell {
    let rs = row_size(sender.shard);
    let w = sender.shard.width as int;
    let h = sender.shard.height as int;
    match side {
        Side::Top => sender.grid@[h * rs + 1 + i],
        Side::Bottom => sender.grid@[rs + 1 + i],
        Side::Left => sender.grid@[(i + 1) * rs + w],
        Side::Right => sender.grid@[(i + 1) * rs + 1],
    }
}

/// Border exchange: when a shard receives the exported borders of a direct
/// neighbour, each cell of the receiving shadow lane takes the creature of
/// the facing border cell of the neighbour (a blank border cell does not
/// remove a creature already shown there).
pub proof fn law_border_exchange(
    sender: ColonyShard,
    req: UpdatedShardContentsRequest,
    before: ColonyShard,
    after: ColonyShard,
    side: Side,
    i: int,
)
    requires
        sender.wf(),
        before.wf(),
        is_export_of(req, sender),
        is_update_of(after, before, req),
        side_of(sender.shard, before.shard) == Some(side),
        0 <= i < lane_len(before.shard, side),
    ensures
        after.grid@[lane_pos(before.shard, side, i)]
            == copied_cell(before.grid@[lane_pos(before.shard, side, i)], facing_border_cell(sender, side, i), shard_tick_bit(before)),
{
    let rs = row_size(sender.shard);
    let w = sender.shard.width as int;
    let h = sender.shard.height as int;
    assert(rs * (h + 2) == rs * h + 2 * rs) by (nonlinear_arith);
    assert(rs <= rs * h) by (nonlinear_arith)
        requires
            h >= 1,
            rs > 0,
    ;
    assert(h * rs == rs * h) by (nonlinear_arith);
    assert(after.grid@[lane_pos(before.shard, side, i)]
        == copied_cell(before.grid@[lane_pos(before.shard, side, i)], lane_source(req, side)[i], shard_tick_bit(before)));
    match side {
        Side::Top => {
            assert(req.bottom@[i] == sender.grid@[h * rs + 1 + i]);
        },
        Side::Bottom => {
            assert(req.top@[i] == sender.grid@[rs + 1 + i]);
        },
        Side::Left => {
            assert(req.right@[i] == sender.grid@[(i + 1) * rs + w]);
        },
        Side::Right => {
            assert(req.left@[i] == sender.grid@[(i + 1) * rs + 1]);
        },
    }
}

/// Adjacency is symmetric: if one shard borders another, the other borders it.
pub proof fn law_adjacency_symmetric(a: Shard, b: Shard)
    ensures
        (side_of(a, b) is Some) == (side_of(b, a) is Some),
{
}


/// A per-cell quantity whose distribution over a shard can be counted.
#[derive(Clone, Copy, Debug, PartialEq, Eq, Structural)]
pub enum StatMetric {
    Health,
    Size,
    CanKill,
    CanMove,
    Food,
    Age,
    OriginalColor,
}

/// How many counted cells showed one value of a metric.
#[derive(Clone, Copy, Debug, PartialEq, Eq, Structural)]
pub struct StatBucket {
    pub value: i32,
    pub occs: u64,
}

/// The distributions of some metrics over one shard.
#[derive(Clone, Debug)]
pub struct ShardStatResult {
    pub shard: Shard,
    pub metrics: Vec<(StatMetric, Vec<StatBucket>)>,
}

/// The value a metric takes on a cell. Booleans count as 0 or 1; an
/// original colour counts as its packed RGB value `0xRRGGBB`.
pub open spec fn metric_value(m: StatMetric, c: Cell) -> i32 {
    match m {
        StatMetric::Health => c.health as i32,
        StatMetric::Size => c.traits.size as i32,
        StatMetric::CanKill => if c.traits.can_kill { 1 } else { 0 },
        StatMetric::CanMove => if c.traits.can_move { 1 } else { 0 },
        StatMetric::Food => c.food as i32,
        StatMetric::Age => c.age as i32,
        StatMetric::OriginalColor => ((c.original_color.red as int) * 65536 + (c.original_color.green as int) * 256
            + (c.original_color.blue as int)) as i32,
    }
}

/// Food is counted on every cell; the other metrics on cells with a creature.
pub open spec fn metric_counts_cell(m: StatMetric, c: Cell) -> bool {
    m == StatMetric::Food || !spec_is_blank(c)
}

/// The values of a metric over the counted cells, in order.
pub open spec fn metric_values(cells: Seq<Cell>, m: StatMetric) -> Seq<i32>
    decreases cells.len(),
{
    if cells.len() == 0 {
        Seq::empty()
    } else {
        let rest = metric_values(cells.drop_last(), m);
        if metric_counts_cell(m, cells.last()) {
            rest.push(metric_value(m, cells.last()))
        } else {
            rest
        }
    }
}

/// Number of occurrences of `v` in `s`.
pub open spec fn count_of(s: Seq<i32>, v: i32) -> nat
    decreases s.len(),
{
    if s.len() == 0 {
        0
    } else {
        count_of(s.drop_last(), v) + if s.last() == v { 1nat } else { 0nat }
    }
}

/// `b` lists, by increasing value, each value that occurs in `s` with the
/// number of its occurrences.
pub open spec fn is_histogram(b: Seq<StatBucket>, s: Seq<i32>) -> bool {
    &&& forall|i: int, j: int| 0 <= i < j < b.len() ==> b[i].value < b[j].value
    &&& forall|i: int| 0 <= i < b.len() ==> #[trigger] b[i].occs == count_of(s, b[i].value) && b[i].occs > 0
    &&& forall|v: i32| #[trigger] count_of(s, v) > 0 ==> exists|i: int| 0 <= i < b.len() && #[trigger] b[i].value == v
}

/// A value occurs no more often than the sequence is long.
pub proof fn lemma_count_le_len(s: Seq<i32>, v: i32)
    ensures
        count_of(s, v) <= s.len(),
    decreases s.len(),
{
    if s.len() > 0 {
        lemma_count_le_len(s.drop_last(), v);
    }
}

/// The counted values are no more than the cells.
pub proof fn lemma_metric_values_len(cells: Seq<Cell>, m: StatMetric)
    ensures
        metric_values(cells, m).len() <= cells.len(),
    decreases cells.len(),
{
    if cells.len() > 0 {
        lemma_metric_values_len(cells.drop_last(), m);
    }
}

/// The two trait flags are counted apart: a cell's `CanMove` value is 1
/// exactly when its creature can move and 0 otherwise, whatever it can kill,
/// and its `CanKill` value is 1 exactly when it can kill, whatever it can
/// move; cells that differ only in the other flag get the same value.
pub proof fn law_metric_flags(c: Cell, d: Cell)
    ensures
        metric_value(StatMetric::CanMove, c) == 1 <==> c.traits.can_move,
        metric_value(StatMetric::CanMove, c) == 0 <==> !c.traits.can_move,
        metric_value(StatMetric::CanKill, c) == 1 <==> c.traits.can_kill,
        metric_value(StatMetric::CanKill, c) == 0 <==> !c.traits.can_kill,
        c.traits.can_move == d.traits.can_move ==> metric_value(StatMetric::CanMove, c) == metric_value(StatMetric::CanMove, d),
        c.traits.can_kill == d.traits.can_kill ==> metric_value(StatMetric::CanKill, c) == metric_value(StatMetric::CanKill, d),
{
}

/// Computes `metric_value`.
fn cell_metric_value(m: StatMetric, c: &Cell) -> (v: i32)
    ensures
        v == metric_value(m, *c),
{
    match m {
        StatMetric::Health => c.health as i32,
        StatMetric::Size => c.traits.size as i32,
        StatMetric::CanKill => if c.traits.can_kill { 1 } else { 0 },
        StatMetric::CanMove => if c.traits.can_move { 1 } else { 0 },
        StatMetric::Food => c.food as i32,
        StatMetric::Age => c.age as i32,
        StatMetric::OriginalColor => (c.original_color.red as i32) * 65536 + (c.original_color.green as i32) * 256
            + (c.original_color.blue as i32),
    }
}

/// Counts one more occurrence of `v` in a histogram.
fn add_to_histogram(buckets: &mut Vec<StatBucket>, v: i32, Ghost(s): Ghost<Seq<i32>>)
    requires
        is_histogram(old(buckets)@, s),
        s.len() < u64::MAX,
    ensures
        is_histogram(final(buckets)@, s.push(v)),
{
    let ghost b0 = buckets@;
    let ghost s2 = s.push(v);
    assert forall|x: i32| #[trigger] count_of(s2, x) == count_of(s, x) + if x == v { 1nat } else { 0nat } by {
        assert(s2.drop_last() =~= s);
    }
    let mut p: usize = 0;
    while p < buckets.len() && buckets[p].value < v
        invariant
            buckets@ == b0,
            p <= b0.len(),
            forall|k: int| 0 <= k < p ==> #[trigger] b0[k].value < v,
        decreases b0.len() - p,
    {
        p += 1;
    }
    if p < buckets.len() && buckets[p].value == v {
        let old_b = buckets[p];
        proof {
            lemma_count_le_len(s, v);
        }
        buckets.set(p, StatBucket { value: v, occs: old_b.occs + 1 });
        proof {
            assert forall|x: i32| #[trigger] count_of(s2, x) > 0 implies exists|i: int| 0 <= i < buckets@.len() && #[trigger] buckets@[i].value == x by {
                if x == v {
                    assert(buckets@[p as int].value == x);
                } else {
                    assert(count_of(s, x) > 0);
                    let i = choose|i: int| 0 <= i < b0.len() && #[trigger] b0[i].value == x;
                    assert(buckets@[i].value == x);
                }
            }
        }
    } else {
        proof {
            assert(p < b0.len() ==> b0[p as int].value > v);
            if count_of(s, v) > 0 {
                let i = choose|i: int| 0 <= i < b0.len() && #[trigger] b0[i].value == v;
                if i < p {
                } else if i > p {
                    assert(b0[p as int].value < b0[i].value);
                }
            }
        }
        buckets.insert(p, StatBucket { value: v, occs: 1 });
        proof {
            let b1 = buckets@;
            assert(b1 == b0.insert(p as int, StatBucket { value: v, occs: 1 }));
            assert forall|i: int, j: int| 0 <= i < j < b1.len() implies b1[i].value < b1[j].value by {
                if j < p {
                } else if j == p {
                } else if i < p {
                    assert(b1[j] == b0[j - 1]);
                    assert(b0[p as int].value > v);
                    if i < j - 1 && p < j - 1 {
                        assert(b0[p as int].value < b0[j - 1].value);
                    }
                } else if i == p {
                    assert(b1[j] == b0[j - 1]);
                    if p < j - 1 {
                        assert(b0[p as int].value < b0[j - 1].value);
                    }
                } else {
                    assert(b1[i] == b0[i - 1]);
                    assert(b1[j] == b0[j - 1]);
                }
            }
            assert forall|i: int| 0 <= i < b1.len() implies #[trigger] b1[i].occs == count_of(s2, b1[i].value) && b1[i].occs > 0 by {
                if i < p {
                    assert(b1[i] == b0[i]);
                    assert(b0[i].value != v);
                } else if i > p {
                    assert(b1[i] == b0[i - 1]);
                    assert(b0[p as int].value > v);
                    if i - 1 > p {
                        assert(b0[p as int].value < b0[i - 1].value);
                    }
                }
            }
            assert forall|x: i32| #[trigger] count_of(s2, x) > 0 implies exists|i: int| 0 <= i < b1.len() && #[trigger] b1[i].value == x by {
                if x == v {
                    assert(b1[p as int].value == x);
                } else {
                    assert(count_of(s, x) > 0);
                    let i = choose|i: int| 0 <= i < b0.len() && #[trigger] b0[i].value == x;
                    if i < p {
                        assert(b1[i].value == x);
                    } else {
                        assert(b1[i + 1].value == x);
                    }
                }
            }
        }
    }
}

impl ShardUtils {
    /// The distribution of one metric over the interior cells, by value.
    fn accumulate_counts(shard: &ColonyShard, metric: StatMetric) -> (r: Vec<StatBucket>)
        requires
            shard.wf(),
        ensures
            is_histogram(r@, metric_values(shard_interior(*shard), metric)),
    {
        let cells = interior_cells(shard);
        let mut buckets: Vec<StatBucket> = Vec::new();
        let mut i: usize = 0;
        while i < cells.len()
            invariant
                i <= cells@.len(),
                is_histogram(buckets@, metric_values(cells@.take(i as int), metric)),
            decreases cells@.len() - i,
        {
            let ghost before = metric_values(cells@.take(i as int), metric);
            assert(cells@.take(i as int + 1).drop_last() =~= cells@.take(i as int));
            let c = cells[i];
            let counted = metric == StatMetric::Food || c.health != 0;
            if counted {
                let v = cell_metric_value(metric, &c);
                proof {
                    lemma_metric_values_len(cells@.take(i as int), metric);
                }
                add_to_histogram(&mut buckets, v, Ghost(before));
            }
            i += 1;
        }
        assert(cells@.take(i as int) =~= cells@);
        buckets
    }

    /// The distribution of each requested metric over the interior cells, if
    /// `req_shard` is the shard held; `None` otherwise.
    pub fn compute_stats(shard: &ColonyShard, req_shard: &Shard, stats: &[StatMetric]) -> (r: Option<Vec<ShardStatResult>>)
        requires
            shard.wf(),
        ensures
            match r {
                None => shard.shard != *req_shard,
                Some(results) => {
                    &&& shard.shard == *req_shard
                    &&& results@.len() == 1
                    &&& results@[0].shard == shard.shard
                    &&& results@[0].metrics@.len() == stats@.len()
                    &&& forall|i: int| 0 <= i < stats@.len() ==> {
                        let entry = #[trigger] results@[0].metrics@[i];
                        entry.0 == stats@[i] && is_histogram(entry.1@, metric_values(shard_interior(*shard), stats@[i]))
                    }
                },
            },
    {
        if !same_shard(&shard.shard, req_shard) {
            return None;
        }
        let mut metric_buckets: Vec<(StatMetric, Vec<StatBucket>)> = Vec::new();
        let mut i: usize = 0;
        while i < stats.len()
            invariant
                shard.wf(),
                i <= stats@.len(),
                metric_buckets@.len() == i,
                forall|k: int| 0 <= k < i ==> {
                    let entry = #[trigger] metric_buckets@[k];
                    entry.0 == stats@[k] && is_histogram(entry.1@, metric_values(shard_interior(*shard), stats@[k]))
                },
            decreases stats@.len() - i,
        {
            let stat = stats[i];
            let buckets = Self::accumulate_counts(shard, stat);
            metric_buckets.push((stat, buckets));
            i += 1;
        }
        let mut results: Vec<ShardStatResult> = Vec::new();
        results.push(ShardStatResult { shard: shard.shard, metrics: metric_buckets });
        Some(results)
    }
}


impl ShardUtils {
    /// Persisting a shard is switched off: this stores nothing and changes
    /// nothing.
    pub fn store_shard(_shard: &ColonyShard) {
    }
}

/// Sets up the food landscape of shards.
pub struct ShardTopography;

/// Grid index of interior cell `(x, y)` of a grid with rows `rs` cells wide.
pub open spec fn interior_index(rs: int, x: int, y: int) -> int {
    (y + 1) * rs + x + 1
}

/// `j` is the grid index of an interior cell of a `w x h` shard.
pub open spec fn is_interior_index(w: int, h: int, j: int) -> bool {
    exists|x: int, y: int| 0 <= x < w && 0 <= y < h && j == #[trigger] interior_index(w + 2, x, y)
}

/// A cell with its food and its food growth per tick both set to `v`.
pub open spec fn with_food(c: Cell, v: u8) -> Cell {
    Cell { food: v, extra_food_per_tick: v, ..c }
}

/// The interior of the first `rows` grid rows holds `rows * w` cells, and
/// interior cell `(x, y)` stands at position `y * w + x`.
pub proof fn lemma_interior_at(g: Seq<Cell>, w: int, rows: nat, x: int, y: int)
    requires
        w >= 0,
        g.len() >= (w + 2) * (rows + 2),
    ensures
        interior(g, w, rows).len() == rows * w,
        0 <= x < w && 0 <= y < rows ==> interior(g, w, rows)[y * w + x] == g[interior_index(w + 2, x, y)],
    decreases rows,
{
    if rows > 0 {
        let r = (rows - 1) as nat;
        assert((w + 2) * (r + 2) <= (w + 2) * (rows + 2)) by (nonlinear_arith)
            requires
                w >= 0,
                r + 2 <= rows + 2,
        ;
        lemma_interior_at(g, w, r, x, y);
        let start = rows * (w + 2) + 1;
        assert(start + w <= (w + 2) * (rows + 2)) by (nonlinear_arith)
            requires
                w >= 0,
                start == rows * (w + 2) + 1,
        ;
        assert(r * w + w == rows * w) by (nonlinear_arith)
            requires
                r + 1 == rows,
        ;
        if 0 <= x < w && 0 <= y < rows {
            if y < r {
                assert(y * w + x < r * w) by (nonlinear_arith)
                    requires
                        0 <= x < w,
                        0 <= y < r,
                ;
            } else {
                assert(y * w + x - r * w == x);
                assert(start + x == interior_index(w + 2, x, y)) by (nonlinear_arith)
                    requires
                        y == r,
                        r + 1 == rows,
                        start == rows * (w + 2) + 1,
                ;
            }
        }
    }
}

/// A data layer of a shard gives, at position `y * width + x`, the value of
/// interior cell `(x, y)`; it holds `width * height` values.
pub proof fn law_layer_value_at(cs: ColonyShard, layer: ShardLayer, x: int, y: int)
    requires
        cs.wf(),
        0 <= x < cs.shard.width,
        0 <= y < cs.shard.height,
    ensures
        ({
            let w = cs.shard.width as int;
            let data = shard_interior(cs).map_values(|c: Cell| layer_value(layer, c, cs.colony_life_rules));
            &&& data.len() == w * cs.shard.height
            &&& data[y * w + x] == layer_value(layer, cs.grid@[interior_index(w + 2, x, y)], cs.colony_life_rules)
        }),
{
    let w = cs.shard.width as int;
    lemma_interior_at(cs.grid@, w, cs.shard.height as nat, x, y);
    assert(0 <= y * w + x < w * cs.shard.height) by (nonlinear_arith)
        requires
            0 <= x < w,
            0 <= y < cs.shard.height,
    ;
}

/// Interior cells are distinct and inside the grid.
pub proof fn lemma_interior_index(w: int, h: int, x: int, y: int, x2: int, y2: int)
    requires
        0 <= x < w,
        0 <= y < h,
        0 <= x2 < w,
        0 <= y2 < h,
    ensures
        0 <= interior_index(w + 2, x, y) < (w + 2) * (h + 2),
        (x != x2 || y != y2) ==> interior_index(w + 2, x, y) != interior_index(w + 2, x2, y2),
{
    crate::arith::lemma_index_in_grid(w + 2, h + 2, x + 1, y + 1);
    if x != x2 || y != y2 {
        crate::arith::lemma_distinct_index(w + 2, x + 1, y + 1, x2 + 1, y2 + 1);
    }
}

impl ShardTopography {
    /// Sets the food landscape of a shard from one byte per interior cell,
    /// row after row: each interior cell gets that byte as its food and its
    /// food growth per tick, the shadow margin gets zero. Data of the wrong
    /// size is refused and changes nothing.
    pub fn init_shard_topography_from_data(shard: &mut ColonyShard, topography_data: &[u8]) -> (r: Result<(), ()>)
        requires
            old(shard).wf(),
        ensures
            final(shard).wf(),
            final(shard).shard == old(shard).shard,
            final(shard).colony_life_rules == old(shard).colony_life_rules,
            final(shard).current_tick == old(shard).current_tick,
            r is Ok <==> topography_data@.len() == old(shard).shard.width * old(shard).shard.height,
            r is Err ==> final(shard).grid@ == old(shard).grid@,
            r is Ok ==> {
                let w = old(shard).shard.width as int;
                let h = old(shard).shard.height as int;
                &&& final(shard).grid@.len() == old(shard).grid@.len()
                &&& forall|j: int| 0 <= j < old(shard).grid@.len() ==>
                    #[trigger] final(shard).grid@[j] == with_food(old(shard).grid@[j], final(shard).grid@[j].food)
                &&& forall|j: int| 0 <= j < old(shard).grid@.len() && !is_interior_index(w, h, j) ==>
                    #[trigger] final(shard).grid@[j].food == 0
                &&& forall|x: int, y: int| 0 <= x < w && 0 <= y < h ==>
                    #[trigger] final(shard).grid@[interior_index(w + 2, x, y)].food == topography_data@[y * w + x]
            },
    {
        let w = shard.shard.width as usize;
        let h = shard.shard.height as usize;
        let len = shard.grid.len();
        proof {
            assert(w * h <= (w + 2) * (h + 2)) by (nonlinear_arith);
        }
        let dlen = topography_data.len();
        if dlen != w * h {
            return Err(());
        }
        let ghost g0 = shard.grid@;
        let mut i: usize = 0;
        while i < len
            invariant
                shard.wf(),
                shard.shard == old(shard).shard,
                shard.colony_life_rules == old(shard).colony_life_rules,
                shard.current_tick == old(shard).current_tick,
                g0 == old(shard).grid@,
                len == shard.grid@.len(),
                i <= len,
                forall|j: int| 0 <= j < i ==> #[trigger] shard.grid@[j] == with_food(g0[j], 0),
                forall|j: int| i <= j < len ==> #[trigger] shard.grid@[j] == g0[j],
            decreases len - i,
        {
            let mut c = shard.grid[i];
            c.food = 0;
            c.extra_food_per_tick = 0;
            shard.grid.set(i, c);
            i += 1;
        }
        let rs = w + 2;
        let mut y: usize = 0;
        while y < h
            invariant
                shard.wf(),
                shard.shard == old(shard).shard,
                shard.colony_life_rules == old(shard).colony_life_rules,
                shard.current_tick == old(shard).current_tick,
                g0 == old(shard).grid@,
                len == shard.grid@.len(),
                w == shard.shard.width,
                h == shard.shard.height,
                rs == w + 2,
                topography_data@.len() == w * h,
                dlen == topography_data@.len(),
                y <= h,
                forall|j: int| 0 <= j < len ==> #[trigger] shard.grid@[j] == with_food(g0[j], shard.grid@[j].food),
                forall|j: int| 0 <= j < len && shard.grid@[j].food != 0 ==> is_interior_index(w as int, h as int, j),
                forall|xx: int, yy: int| 0 <= xx < w && 0 <= yy < y ==>
                    #[trigger] shard.grid@[interior_index(w + 2, xx, yy)].food == topography_data@[yy * w + xx],
            decreases h - y,
        {
            let mut x: usize = 0;
            while x < w
                invariant
                    shard.wf(),
                    shard.shard == old(shard).shard,
                    shard.colony_life_rules == old(shard).colony_life_rules,
                    shard.current_tick == old(shard).current_tick,
                    g0 == old(shard).grid@,
                    len == shard.grid@.len(),
                    w == shard.shard.width,
                    h == shard.shard.height,
                    rs == w + 2,
                    topography_data@.len() == w * h,
                    dlen == topography_data@.len(),
                    y < h,
                    x <= w,
                    forall|j: int| 0 <= j < len ==> #[trigger] shard.grid@[j] == with_food(g0[j], shard.grid@[j].food),
                    forall|j: int| 0 <= j < len && shard.grid@[j].food != 0 ==> is_interior_index(w as int, h as int, j),
                    forall|xx: int, yy: int| 0 <= xx < w && 0 <= yy < y ==>
                        #[trigger] shard.grid@[interior_index(w + 2, xx, yy)].food == topography_data@[yy * w + xx],
                    forall|xx: int| 0 <= xx < x ==>
                        #[trigger] shard.grid@[interior_index(w + 2, xx, y as int)].food == topography_data@[y * w + xx],
                decreases w - x,
            {
                proof {
                    lemma_interior_index(w as int, h as int, x as int, y as int, x as int, y as int);
                    crate::arith::lemma_index_in_grid(w as int, h as int, x as int, y as int);
                    assert((h as int) * (w as int) == (w as int) * (h as int)) by (nonlinear_arith);
                }
                let data_idx = y * w + x;
                let grid_idx = (y + 1) * rs + (x + 1);
                let value = topography_data[data_idx];
                let ghost before = shard.grid@;
                let mut c = shard.grid[grid_idx];
                c.food = value;
                c.extra_food_per_tick = value;
                shard.grid.set(grid_idx, c);
                proof {
                    assert(grid_idx == interior_index(w + 2, x as int, y as int));
                    assert(is_interior_index(w as int, h as int, grid_idx as int));
                    assert forall|xx: int, yy: int| 0 <= xx < w && 0 <= yy < y implies
                        #[trigger] shard.grid@[interior_index(w + 2, xx, yy)].food == topography_data@[yy * w + xx] by {
                        lemma_interior_index(w as int, h as int, xx, yy, x as int, y as int);
                        assert(before[interior_index(w + 2, xx, yy)].food == topography_data@[yy * w + xx]);
                    }
                    assert forall|xx: int| 0 <= xx < x + 1 implies
                        #[trigger] shard.grid@[interior_index(w + 2, xx, y as int)].food == topography_data@[y * w + xx] by {
                        if xx < x {
                            lemma_interior_index(w as int, h as int, xx, y as int, x as int, y as int);
                            assert(before[interior_index(w + 2, xx, y as int)].food == topography_data@[y * w + xx]);
                        }
                    }
                }
                x += 1;
            }
            y += 1;
        }
        proof {
            assert forall|j: int| 0 <= j < len && !is_interior_index(w as int, h as int, j) implies
                #[trigger] shard.grid@[j].food == 0 by {
            }
        }
        ShardUtils::store_shard(shard);
        Ok(())
    }
}

/// Keeps shards across restarts.
pub struct ShardStorage;

impl ShardStorage {
    /// Takes over the state of a shard read back from storage: its grid,
    /// rules and tick. The stored shard must be the same shard.
    pub fn restore_shard(shard: &mut ColonyShard, loaded: ColonyShard)
        requires
            loaded.shard == old(shard).shard,
            loaded.wf(),
        ensures
            *final(shard) == loaded,
    {
        shard.grid = loaded.grid;
        shard.colony_life_rules = loaded.colony_life_rules;
        shard.current_tick = loaded.current_tick;
    }
}


/// Sets up a random food landscape over a whole shard.
pub struct Topography;

impl Topography {
    /// Gives every grid cell, margin included, the food level drawn for it:
    /// both its food and its food growth per tick become that level.
    pub fn apply_food_levels(shard: &mut ColonyShard, levels: &Vec<u8>)
        requires
            old(shard).wf(),
            levels@.len() == old(shard).grid@.len(),
        ensures
            final(shard).wf(),
            final(shard).shard == old(shard).shard,
            final(shard).colony_life_rules == old(shard).colony_life_rules,
            final(shard).current_tick == old(shard).current_tick,
            final(shard).grid@.len() == old(shard).grid@.len(),
            forall|j: int| 0 <= j < old(shard).grid@.len() ==>
                #[trigger] final(shard).grid@[j] == with_food(old(shard).grid@[j], levels@[j]),
    {
        let ghost g0 = shard.grid@;
        let mut i: usize = 0;
        while i < shard.grid.len()
            invariant
                g0 == old(shard).grid@,
                shard.wf(),
                shard.shard == old(shard).shard,
                shard.colony_life_rules == old(shard).colony_life_rules,
                shard.current_tick == old(shard).current_tick,
                shard.grid@.len() == g0.len(),
                levels@.len() == g0.len(),
                i <= g0.len(),
                forall|j: int| 0 <= j < i ==> #[trigger] shard.grid@[j] == with_food(g0[j], levels@[j]),
                forall|j: int| i <= j < g0.len() ==> #[trigger] shard.grid@[j] == g0[j],
            decreases g0.len() - i,
        {
            let mut c = shard.grid[i];
            c.food = levels[i];
            c.extra_food_per_tick = levels[i];
            shard.grid.set(i, c);
            i += 1;
        }
    }
}


/// The byte of the colony-wide landscape at `(x, y)` of the shard at grid
/// position `(shard_x, shard_y)`, or 0 past the end of the landscape.
pub open spec fn landscape_byte(
    global: Seq<u8>,
    total_width: int,
    shard_width: int,
    shard_height: int,
    shard_x: int,
    shard_y: int,
    x: int,
    y: int,
) -> u8 {
    let gi = (shard_y * shard_height + y) * total_width + shard_x * shard_width + x;
    if gi < global.len() { global[gi] } else { 0 }
}

/// Cuts one shard's part out of the colony-wide landscape (row-major,
/// `total_width` bytes per row), row after row; bytes past the end of the
/// landscape read as 0.
pub fn extract_shard_data(
    global_image: &Vec<u8>,
    total_width: usize,
    shard_width: usize,
    shard_height: usize,
    shard_x: usize,
    shard_y: usize,
) -> (data: Vec<u8>)
    requires
        ((shard_y + 1) * shard_height) * total_width + (shard_x + 1) * shard_width <= usize::MAX,
        (shard_y + 1) * shard_height <= usize::MAX,
        shard_width * shard_height <= usize::MAX,
    ensures
        data@.len() == shard_width * shard_height,
        forall|x: int, y: int| 0 <= x < shard_width && 0 <= y < shard_height ==>
            #[trigger] data@[crate::shard::grid_index(shard_width as int, x, y)]
                == landscape_byte(global_image@, total_width as int, shard_width as int, shard_height as int,
                    shard_x as int, shard_y as int, x, y),
{
    let mut data: Vec<u8> = Vec::new();
    let mut y: usize = 0;
    while y < shard_height
        invariant
            ((shard_y + 1) * shard_height) * total_width + (shard_x + 1) * shard_width <= usize::MAX,
            (shard_y + 1) * shard_height <= usize::MAX,
            shard_width * shard_height <= usize::MAX,
            y <= shard_height,
            data@.len() == y * shard_width,
            forall|xx: int, yy: int| 0 <= xx < shard_width && 0 <= yy < y ==>
                #[trigger] data@[crate::shard::grid_index(shard_width as int, xx, yy)]
                    == landscape_byte(global_image@, total_width as int, shard_width as int, shard_height as int,
                        shard_x as int, shard_y as int, xx, yy),
        decreases shard_height - y,
    {
        let mut x: usize = 0;
        while x < shard_width
            invariant
                ((shard_y + 1) * shard_height) * total_width + (shard_x + 1) * shard_width <= usize::MAX,
                (shard_y + 1) * shard_height <= usize::MAX,
                shard_width * shard_height <= usize::MAX,
                y < shard_height,
                x <= shard_width,
                data@.len() == y * shard_width + x,
                forall|xx: int, yy: int| 0 <= xx < shard_width && 0 <= yy < y ==>
                    #[trigger] data@[crate::shard::grid_index(shard_width as int, xx, yy)]
                        == landscape_byte(global_image@, total_width as int, shard_width as int, shard_height as int,
                            shard_x as int, shard_y as int, xx, yy),
                forall|xx: int| 0 <= xx < x ==>
                    #[trigger] data@[crate::shard::grid_index(shard_width as int, xx, y as int)]
                        == landscape_byte(global_image@, total_width as int, shard_width as int, shard_height as int,
                            shard_x as int, shard_y as int, xx, y as int),
            decreases shard_width - x,
        {
            proof {
                assert((shard_y * shard_height + y) * total_width + shard_x * shard_width + x
                    <= ((shard_y + 1) * shard_height) * total_width + (shard_x + 1) * shard_width) by (nonlinear_arith)
                    requires
                        y < shard_height,
                        x < shard_width,
                ;
                assert(0 <= (shard_y * shard_height + y) * total_width) by (nonlinear_arith);
                assert(shard_y * shard_height + y < (shard_y + 1) * shard_height) by (nonlinear_arith)
                    requires
                        y < shard_height,
                ;
                assert(shard_x * shard_width <= (shard_x + 1) * shard_width) by (nonlinear_arith);
                assert(0 <= shard_y * shard_height) by (nonlinear_arith);
                assert(0 <= shard_x * shard_width) by (nonlinear_arith);
                crate::arith::lemma_index_in_grid(shard_width as int, shard_height as int, x as int, y as int);
            }
            let start_x = shard_x * shard_width;
            let start_y = shard_y * shard_height;
            let gi = (start_y + y) * total_width + start_x + x;
            let value = if gi < global_image.len() { global_image[gi] } else { 0 };
            let ghost before = data@;
            data.push(value);
            proof {
                assert forall|xx: int, yy: int| 0 <= xx < shard_width && 0 <= yy < y implies
                    #[trigger] data@[crate::shard::grid_index(shard_width as int, xx, yy)]
                        == landscape_byte(global_image@, total_width as int, shard_width as int, shard_height as int,
                            shard_x as int, shard_y as int, xx, yy) by {
                    crate::arith::lemma_index_in_grid(shard_width as int, y as int, xx, yy);
                    assert((shard_width as int) * (y as int) == (y as int) * (shard_width as int)) by (nonlinear_arith);
                    assert(before[crate::shard::grid_index(shard_width as int, xx, yy)]
                        == landscape_byte(global_image@, total_width as int, shard_width as int, shard_height as int,
                            shard_x as int, shard_y as int, xx, yy));
                }
                assert forall|xx: int| 0 <= xx < x + 1 implies
                    #[trigger] data@[crate::shard::grid_index(shard_width as int, xx, y as int)]
                        == landscape_byte(global_image@, total_width as int, shard_width as int, shard_height as int,
                            shard_x as int, shard_y as int, xx, y as int) by {
                    if xx < x {
                        assert(before[crate::shard::grid_index(shard_width as int, xx, y as int)]
                            == landscape_byte(global_image@, total_width as int, shard_width as int, shard_height as int,
                                shard_x as int, shard_y as int, xx, y as int));
                    }
                }
            }
            x += 1;
        }
        proof {
            assert((y + 1) * shard_width == y * shard_width + shard_width) by (nonlinear_arith);
        }
        y += 1;
    }
    proof {
        assert(shard_height * shard_width == shard_width * shard_height) by (nonlinear_arith);
    }
    data
}

} // verus!
