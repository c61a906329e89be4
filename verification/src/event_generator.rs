//! The coordinator's side of colony events: drawing random events of each
//! frequency class, drawing changes to the life rules, and deciding on each
//! tick which events are due.

use vstd::prelude::*;
use rand::rngs::SmallRng;
use crate::events::{ColonyEvent, ColonyRuleChange, CreateCreatureParams, Ellipse, Region};
use crate::model::{ColonyLifeRules, Traits};
use crate::random::{coin_flip, gen_range_i32, gen_range_u32, random_color};
use crate::text::{decimal, push_decimal};

verus! {

/// How often a kind of event happens.
#[derive(Clone, Copy, Debug, PartialEq, Eq, Structural)]
pub enum EventFrequency {
    Normal,
    Rare,
    Extinction,
    Topography,
    ColonyRules,
}

/// The region of a drawn creature event: an ellipse whose centre may lie up
/// to 100 cells outside the colony, with radii from 15 to 39.
pub open spec fn valid_event_region(region: Region, colony_width: int, colony_height: int) -> bool {
    match region {
        Region::Ellipse(e) => {
            &&& -100 <= e.x < colony_width + 100
            &&& -100 <= e.y < colony_height + 100
            &&& 15 <= e.radius_x < 40
            &&& 15 <= e.radius_y < 40
        },
        Region::Circle(_) => false,
    }
}

/// A drawn creature event: a creature of size 1 to 19 with 600 health over
/// a drawn region.
pub open spec fn valid_creature_event(event: ColonyEvent, colony_width: int, colony_height: int) -> bool {
    match event {
        ColonyEvent::CreateCreature(region, params) => {
            &&& valid_event_region(region, colony_width, colony_height)
            &&& 1 <= params.traits.size < 20
            &&& params.starting_health == 600
        },
        _ => false,
    }
}

/// The colony is small enough that drawn centres fit in `i32`.
pub open spec fn drawable_size(colony_width: int, colony_height: int) -> bool {
    &&& 0 <= colony_width <= i32::MAX - 200
    &&& 0 <= colony_height <= i32::MAX - 200
}

/// Draws the region of a creature event.
pub fn randomize_event_region(colony_width: i32, colony_height: i32, rng: &mut SmallRng) -> (r: Region)
    requires
        drawable_size(colony_width as int, colony_height as int),
    ensures
        valid_event_region(r, colony_width as int, colony_height as int),
{
    let x = gen_range_i32(rng, 0, colony_width + 200) - 100;
    let y = gen_range_i32(rng, 0, colony_height + 200) - 100;
    let radius_x = gen_range_i32(rng, 15, 40);
    let radius_y = gen_range_i32(rng, 15, 40);
    Region::Ellipse(Ellipse { x, y, radius_x, radius_y })
}

/// Draws a creature event: a random colour and traits over a drawn region.
pub fn randomize_colony_event(colony_width: i32, colony_height: i32, rng: &mut SmallRng) -> (e: ColonyEvent)
    requires
        drawable_size(colony_width as int, colony_height as int),
    ensures
        valid_creature_event(e, colony_width as int, colony_height as int),
{
    let region = randomize_event_region(colony_width, colony_height, rng);
    let color = random_color(rng);
    let size = gen_range_u32(rng, 1, 20) as u8;
    let can_kill = coin_flip(rng);
    let can_move = coin_flip(rng);
    ColonyEvent::CreateCreature(region, CreateCreatureParams {
        color,
        traits: Traits { size, can_kill, can_move },
        starting_health: 600,
    })
}

/// The largest step of a rule change: a fifth of the value, rounded up, and
/// at least one.
pub open spec fn max_step(value: int) -> int {
    if (value + 4) / 5 > 0 { (value + 4) / 5 } else { 1 }
}

/// A rule value moved by `step` up or down, saturating within `u32`, and
/// kept at or above `min_value`.
pub open spec fn changed_value(value: int, min_value: int, step: int, increase: bool) -> int {
    let moved = if increase {
        if value + step > u32::MAX { u32::MAX as int } else { value + step }
    } else {
        if value - step < 0 { 0 } else { value - step }
    };
    if moved < min_value { min_value } else { moved }
}

/// `new_value` is `value` moved by a step from one to `max_step(value)`;
/// it moves down only when `value` is above `min_value`.
pub open spec fn is_random_change(value: int, min_value: int, new_value: int) -> bool {
    exists|step: int, increase: bool|
        1 <= step <= max_step(value) && (increase || value > min_value)
            && new_value == #[trigger] changed_value(value, min_value, step, increase)
}

/// Moves a rule value up or down by a random step of up to a fifth of it.
fn apply_random_change(value: u32, min_value: u32, rng: &mut SmallRng) -> (r: (u32, u32))
    ensures
        r.0 == value,
        is_random_change(value as int, min_value as int, r.1 as int),
{
    let old_value = value;
    let max_change: u32 = value / 5 + if value % 5 > 0 { 1 } else { 0 };
    assert(max_change == (value + 4) / 5);
    let can_decrease = value > min_value;
    let is_increase = if can_decrease { coin_flip(rng) } else { true };
    let change_amount = if max_change > 0 { gen_range_u32(rng, 1, max_change + 1) } else { 1 };
    let moved = if is_increase { value.saturating_add(change_amount) } else { value.saturating_sub(change_amount) };
    let new_value = if moved < min_value { min_value } else { moved };
    assert(new_value == changed_value(value as int, min_value as int, change_amount as int, is_increase));
    (old_value, new_value)
}

/// The value of the rule with the given index, in the order the rules are
/// offered for change.
pub open spec fn rule_field(rules: ColonyLifeRules, i: int) -> u32 {
    if i == 0 { rules.health_cost_per_size_unit }
    else if i == 1 { rules.eat_capacity_per_size_unit }
    else if i == 2 { rules.health_cost_if_can_kill }
    else if i == 3 { rules.health_cost_if_can_move }
    else if i == 4 { rules.mutation_chance }
    else { rules.random_death_chance }
}

/// The rules with the rule of the given index set to `v`.
pub open spec fn with_rule_field(rules: ColonyLifeRules, i: int, v: u32) -> ColonyLifeRules {
    if i == 0 { ColonyLifeRules { health_cost_per_size_unit: v, ..rules } }
    else if i == 1 { ColonyLifeRules { eat_capacity_per_size_unit: v, ..rules } }
    else if i == 2 { ColonyLifeRules { health_cost_if_can_kill: v, ..rules } }
    else if i == 3 { ColonyLifeRules { health_cost_if_can_move: v, ..rules } }
    else if i == 4 { ColonyLifeRules { mutation_chance: v, ..rules } }
    else { ColonyLifeRules { random_death_chance: v, ..rules } }
}

/// The display name of the rule with the given index.
pub open spec fn rule_name(i: int) -> Seq<char> {
    if i == 0 { "Health Cost Per Size Unit"@ }
    else if i == 1 { "Eat Capacity Per Size Unit"@ }
    else if i == 2 { "Health Cost If Can Kill"@ }
    else if i == 3 { "Health Cost If Can Move"@ }
    else if i == 4 { "Mutation Chance"@ }
    else { "Random Death Chance"@ }
}

fn rule_name_str(i: u32) -> (r: &'static str)
    requires
        i < 6,
    ensures
        r@ == rule_name(i as int),
{
    if i == 0 { "Health Cost Per Size Unit" }
    else if i == 1 { "Eat Capacity Per Size Unit" }
    else if i == 2 { "Health Cost If Can Kill" }
    else if i == 3 { "Health Cost If Can Move" }
    else if i == 4 { "Mutation Chance" }
    else { "Random Death Chance" }
}

fn get_rule_field(rules: &ColonyLifeRules, i: u32) -> (v: u32)
    ensures
        v == rule_field(*rules, i as int),
{
    if i == 0 { rules.health_cost_per_size_unit }
    else if i == 1 { rules.eat_capacity_per_size_unit }
    else if i == 2 { rules.health_cost_if_can_kill }
    else if i == 3 { rules.health_cost_if_can_move }
    else if i == 4 { rules.mutation_chance }
    else { rules.random_death_chance }
}

fn set_rule_field(rules: &mut ColonyLifeRules, i: u32, v: u32)
    ensures
        *final(rules) == with_rule_field(*old(rules), i as int, v),
{
    if i == 0 { rules.health_cost_per_size_unit = v; }
    else if i == 1 { rules.eat_capacity_per_size_unit = v; }
    else if i == 2 { rules.health_cost_if_can_kill = v; }
    else if i == 3 { rules.health_cost_if_can_move = v; }
    else if i == 4 { rules.mutation_chance = v; }
    else { rules.random_death_chance = v; }
}

/// The line that describes a rule change, such as
/// `Increased 'Mutation Chance' from 100 to 110`.
pub open spec fn rule_change_text(name: Seq<char>, old_value: nat, new_value: nat) -> Seq<char> {
    (if new_value > old_value { "Increased '"@ } else { "Decreased '"@ }) + name + "' from "@
        + decimal(old_value) + " to "@ + decimal(new_value)
}

/// `change` changes the rule of index `i` of `current` by a random step and
/// describes it; the other rules stay.
pub open spec fn changes_rule(current: ColonyLifeRules, change: ColonyRuleChange, i: int) -> bool {
    let old_value = rule_field(current, i);
    let new_value = rule_field(change.new_rules, i);
    &&& 0 <= i < 6
    &&& change.new_rules == with_rule_field(current, i, new_value)
    &&& is_random_change(old_value as int, 1, new_value as int)
    &&& change.description@ == rule_change_text(rule_name(i), old_value as nat, new_value as nat)
}

/// A drawn change of the life rules: one rule, picked at random, moved by a
/// random step, never below one.
pub open spec fn valid_rules_event(event: ColonyEvent, current: ColonyLifeRules) -> bool {
    match event {
        ColonyEvent::ChangeColonyRules(change) => exists|i: int| #[trigger] changes_rule(current, change, i),
        _ => false,
    }
}

/// Draws a change of one of the life rules.
pub fn randomize_colony_rules_change(current_rules: ColonyLifeRules, rng: &mut SmallRng) -> (e: ColonyEvent)
    ensures
        valid_rules_event(e, current_rules),
{
    let mut new_rules = current_rules;
    let param_index = gen_range_u32(rng, 0, 6);
    let display_name = rule_name_str(param_index);
    let field = get_rule_field(&new_rules, param_index);
    let (old_value, new_value) = apply_random_change(field, 1, rng);
    set_rule_field(&mut new_rules, param_index, new_value);
    let mut description = String::new();
    proof {
        reveal_strlit("Increased '");
        reveal_strlit("Decreased '");
        reveal_strlit("' from ");
        reveal_strlit(" to ");
    }
    if new_value > old_value {
        description.append("Increased '");
    } else {
        description.append("Decreased '");
    }
    description.append(display_name);
    description.append("' from ");
    push_decimal(&mut description, old_value as u64);
    description.append(" to ");
    push_decimal(&mut description, new_value as u64);
    let change = ColonyRuleChange { new_rules, description };
    proof {
        assert(rule_field(new_rules, param_index as int) == new_value);
        assert(new_rules == with_rule_field(current_rules, param_index as int, new_value));
        assert(change.description@ =~= rule_change_text(rule_name(param_index as int), old_value as nat, new_value as nat));
        assert(changes_rule(current_rules, change, param_index as int));
    }
    let e = ColonyEvent::ChangeColonyRules(change);
    proof {
        assert(changes_rule(current_rules, e->ChangeColonyRules_0, param_index as int));
    }
    e
}

/// A drawn change of food growth: by one to four, up or down.
pub open spec fn valid_food_change(event: ColonyEvent) -> bool {
    match event {
        ColonyEvent::ChangeExtraFoodPerTick(amount) => 1 <= amount <= 4 || -4 <= amount <= -1,
        _ => false,
    }
}

/// The event a frequency class draws.
pub open spec fn event_fits_frequency(
    event: ColonyEvent,
    frequency: EventFrequency,
    colony_width: int,
    colony_height: int,
    rules: ColonyLifeRules,
) -> bool {
    match frequency {
        EventFrequency::Normal => valid_creature_event(event, colony_width, colony_height),
        EventFrequency::Rare => valid_food_change(event),
        EventFrequency::Extinction => event is Extinction,
        EventFrequency::Topography => event is NewTopography,
        EventFrequency::ColonyRules => valid_rules_event(event, rules),
    }
}

/// Draws an event of the given frequency class. `current_rules` are the
/// rules in force, which a rule change starts from.
pub fn randomize_event_by_frequency(
    frequency: EventFrequency,
    colony_width: i32,
    colony_height: i32,
    current_rules: ColonyLifeRules,
    rng: &mut SmallRng,
) -> (e: ColonyEvent)
    requires
        drawable_size(colony_width as int, colony_height as int),
    ensures
        event_fits_frequency(e, frequency, colony_width as int, colony_height as int, current_rules),
{
    match frequency {
        EventFrequency::Normal => randomize_colony_event(colony_width, colony_height, rng),
        EventFrequency::Rare => {
            let up = coin_flip(rng);
            let step = gen_range_u32(rng, 1, 5) as i8;
            let amount: i8 = if up { step } else { -step };
            ColonyEvent::ChangeExtraFoodPerTick(amount)
        },
        EventFrequency::Extinction => ColonyEvent::Extinction(),
        EventFrequency::Topography => ColonyEvent::NewTopography(),
        EventFrequency::ColonyRules => randomize_colony_rules_change(current_rules, rng),
    }
}

/// The range of waiting times, in ticks, before the next event of a class:
/// `lo <= wait < hi`.
pub open spec fn wait_range(frequency: EventFrequency) -> (int, int) {
    match frequency {
        EventFrequency::Normal => (400, 500),
        EventFrequency::Rare => (1000, 2000),
        EventFrequency::Extinction => (10000, 50000),
        EventFrequency::Topography => (5000, 8000),
        EventFrequency::ColonyRules => (2000, 3000),
    }
}

/// Draws the waiting time before the next event of a class.
pub fn get_next_event_tick_by_frequency(frequency: EventFrequency, rng: &mut SmallRng) -> (t: u64)
    ensures
        wait_range(frequency).0 <= t < wait_range(frequency).1,
{
    let t = match frequency {
        EventFrequency::Normal => gen_range_u32(rng, 400, 500),
        EventFrequency::Rare => gen_range_u32(rng, 1000, 2000),
        EventFrequency::Extinction => gen_range_u32(rng, 10000, 50000),
        EventFrequency::Topography => gen_range_u32(rng, 5000, 8000),
        EventFrequency::ColonyRules => gen_range_u32(rng, 2000, 3000),
    };
    t as u64
}


/// The frequency classes the coordinator draws events for on each tick, in
/// the order it draws them.
pub open spec fn scheduled_frequency(k: int) -> EventFrequency {
    if k == 0 { EventFrequency::Normal }
    else if k == 1 { EventFrequency::Rare }
    else if k == 2 { EventFrequency::Extinction }
    else { EventFrequency::Topography }
}

/// Number of frequency classes drawn on each tick.
pub open spec fn scheduled_count() -> int {
    4
}

/// The slot of a frequency class in a schedule.
pub open spec fn frequency_slot(f: EventFrequency) -> int {
    match f {
        EventFrequency::Normal => 0,
        EventFrequency::Rare => 1,
        EventFrequency::Extinction => 2,
        EventFrequency::Topography => 3,
        EventFrequency::ColonyRules => 4,
    }
}

fn scheduled_frequency_at(k: usize) -> (f: EventFrequency)
    requires
        k < 4,
    ensures
        f == scheduled_frequency(k as int),
        frequency_slot(f) == k,
{
    if k == 0 { EventFrequency::Normal }
    else if k == 1 { EventFrequency::Rare }
    else if k == 2 { EventFrequency::Extinction }
    else { EventFrequency::Topography }
}

/// The tick at which the next event of each frequency class is due, by
/// slot; `None` for a class not yet scheduled.
pub struct EventSchedule {
    pub next_event_ticks: Vec<Option<u64>>,
}

impl EventSchedule {
    /// A schedule holds one slot per frequency class.
    pub open spec fn wf(&self) -> bool {
        self.next_event_ticks@.len() == 5
    }

    /// A schedule with nothing scheduled yet.
    pub fn new() -> (s: EventSchedule)
        ensures
            s.wf(),
            forall|i: int| 0 <= i < 5 ==> #[trigger] s.next_event_ticks@[i] is None,
    {
        let mut v: Vec<Option<u64>> = Vec::new();
        let mut i: usize = 0;
        while i < 5
            invariant
                i <= 5,
                v@.len() == i,
                forall|j: int| 0 <= j < i ==> #[trigger] v@[j] is None,
            decreases 5 - i,
        {
            v.push(None);
            i += 1;
        }
        EventSchedule { next_event_ticks: v }
    }
}

/// An event of the class is due on this tick.
pub open spec fn is_due(next: Option<u64>, tick: u64) -> bool {
    match next {
        Some(n) => tick >= n,
        None => false,
    }
}

/// The classes, among the first `k` drawn on each tick, whose event is due.
pub open spec fn due_classes(next: Seq<Option<u64>>, tick: u64, k: int) -> Seq<EventFrequency>
    decreases k,
{
    if k <= 0 {
        Seq::empty()
    } else {
        let rest = due_classes(next, tick, k - 1);
        let f = scheduled_frequency(k - 1);
        if is_due(next[frequency_slot(f)], tick) { rest.push(f) } else { rest }
    }
}

/// The schedule slot of class `f` after a tick: a class that was due or not
/// yet scheduled is scheduled again after a drawn wait; any other slot keeps
/// its tick.
pub open spec fn next_slot(before: Option<u64>, after: Option<u64>, f: EventFrequency, tick: u64) -> bool {
    if before is None || is_due(before, tick) {
        match after {
            Some(n) => wait_range(f).0 <= n - tick < wait_range(f).1,
            None => false,
        }
    } else {
        after == before
    }
}

/// After a tick is handled, every class drawn on each tick waits for a tick
/// still to come: a class that fired, or was not yet scheduled, is pushed
/// at least its shortest wait past the tick, and any other class was not
/// due. So no class fires twice on one tick.
pub proof fn law_schedule_moves_past_tick(before: Seq<Option<u64>>, after: Seq<Option<u64>>, tick: u64, k: int)
    requires
        0 <= k < scheduled_count(),
        next_slot(
            before[frequency_slot(scheduled_frequency(k))],
            after[frequency_slot(scheduled_frequency(k))],
            scheduled_frequency(k),
            tick,
        ),
    ensures
        after[frequency_slot(scheduled_frequency(k))] matches Some(n) && n > tick,
        !is_due(after[frequency_slot(scheduled_frequency(k))], tick),
{
}

/// With nothing scheduled yet, no event is due.
pub proof fn law_fresh_schedule_draws_nothing(next: Seq<Option<u64>>, tick: u64, k: int)
    requires
        forall|j: int| 0 <= j < next.len() ==> #[trigger] next[j] is None,
        next.len() == 5,
        0 <= k <= scheduled_count(),
    ensures
        due_classes(next, tick, k).len() == 0,
    decreases k,
{
    if k > 0 {
        law_fresh_schedule_draws_nothing(next, tick, k - 1);
        assert(next[frequency_slot(scheduled_frequency(k - 1))] is None);
    }
}

/// Decides which events are due on this tick: for each class drawn on
/// every tick, an event is drawn when its tick has come, and the class is
/// scheduled again; a class not yet scheduled is only scheduled. The events
/// come back in class order, for the caller to send out (or, for a new
/// topography, to generate).
pub fn handle_colony_events(
    tick_count: u64,
    schedule: &mut EventSchedule,
    colony_width: i32,
    colony_height: i32,
    current_rules: ColonyLifeRules,
    rng: &mut SmallRng,
) -> (events: Vec<ColonyEvent>)
    requires
        old(schedule).wf(),
        drawable_size(colony_width as int, colony_height as int),
        tick_count <= u64::MAX - 50000,
    ensures
        final(schedule).wf(),
        events@.len() == due_classes(old(schedule).next_event_ticks@, tick_count, scheduled_count()).len(),
        forall|k: int| 0 <= k < events@.len() ==> event_fits_frequency(
            #[trigger] events@[k],
            due_classes(old(schedule).next_event_ticks@, tick_count, scheduled_count())[k],
            colony_width as int,
            colony_height as int,
            current_rules,
        ),
        forall|k: int| 0 <= k < scheduled_count() ==> next_slot(
            old(schedule).next_event_ticks@[frequency_slot(scheduled_frequency(k))],
            #[trigger] final(schedule).next_event_ticks@[frequency_slot(scheduled_frequency(k))],
            scheduled_frequency(k),
            tick_count,
        ),
        final(schedule).next_event_ticks@[frequency_slot(EventFrequency::ColonyRules)]
            == old(schedule).next_event_ticks@[frequency_slot(EventFrequency::ColonyRules)],
{
    let ghost before = schedule.next_event_ticks@;
    let mut events: Vec<ColonyEvent> = Vec::new();
    let mut k: usize = 0;
    while k < 4
        invariant
            before == old(schedule).next_event_ticks@,
            schedule.wf(),
            drawable_size(colony_width as int, colony_height as int),
            tick_count <= u64::MAX - 50000,
            k <= 4,
            events@.len() == due_classes(before, tick_count, k as int).len(),
            forall|j: int| 0 <= j < events@.len() ==> event_fits_frequency(
                #[trigger] events@[j],
                due_classes(before, tick_count, k as int)[j],
                colony_width as int,
                colony_height as int,
                current_rules,
            ),
            forall|j: int| 0 <= j < k ==> next_slot(
                before[frequency_slot(scheduled_frequency(j))],
                #[trigger] schedule.next_event_ticks@[frequency_slot(scheduled_frequency(j))],
                scheduled_frequency(j),
                tick_count,
            ),
            forall|j: int| k <= j < 5 ==> #[trigger] schedule.next_event_ticks@[j] == before[j],
        decreases 4 - k,
    {
        let frequency = scheduled_frequency_at(k);
        let slot = schedule.next_event_ticks[k];
        let ghost prev_due = due_classes(before, tick_count, k as int);
        match slot {
            Some(next_tick) => {
                if tick_count >= next_tick {
                    let event = randomize_event_by_frequency(frequency, colony_width, colony_height, current_rules, rng);
                    events.push(event);
                    let wait = get_next_event_tick_by_frequency(frequency, rng);
                    schedule.next_event_ticks.set(k, Some(tick_count + wait));
                    proof {
                        assert(due_classes(before, tick_count, k as int + 1) == prev_due.push(frequency));
                    }
                } else {
                    proof {
                        assert(due_classes(before, tick_count, k as int + 1) == prev_due);
                    }
                }
            },
            None => {
                let wait = get_next_event_tick_by_frequency(frequency, rng);
                schedule.next_event_ticks.set(k, Some(tick_count + wait));
                proof {
                    assert(due_classes(before, tick_count, k as int + 1) == prev_due);
                }
            },
        }
        proof {
            assert forall|j: int| 0 <= j < k + 1 implies next_slot(
                before[frequency_slot(scheduled_frequency(j))],
                #[trigger] schedule.next_event_ticks@[frequency_slot(scheduled_frequency(j))],
                scheduled_frequency(j),
                tick_count,
            ) by {
                assert(frequency_slot(scheduled_frequency(j)) == j);
            }
        }
        k += 1;
    }
    events
}

} // verus!
