//! What the coordinator remembers about the colony, and the decisions its
//! HTTP front end takes from it.

use vstd::prelude::*;
use crate::http::chars_of;
use crate::model::{ColonyLifeRules, colony_life_initial_rules, spec_initial_rules};
use crate::ranking::{is_top_ranked, lemma_top_ranked_len, top_ranked};

verus! {

/// How far colony start-up has come.
#[derive(Clone, Copy, Debug, PartialEq, Eq, Structural)]
pub enum ColonyStatus {
    NotInitialized,
    Initializing,
    TopographyInitialized,
}

/// One event in the colony's history.
#[derive(Debug)]
pub struct ColonyEventDescription {
    pub tick: u64,
    pub event_type: String,
    pub description: String,
}

impl ColonyEventDescription {
    /// A copy of the description.
    pub fn duplicate(&self) -> (r: ColonyEventDescription)
        ensures
            r == *self,
    {
        ColonyEventDescription { tick: self.tick, event_type: self.event_type.clone(), description: self.description.clone() }
    }
}

/// The coordinator's record of the colony.
#[derive(Debug)]
pub struct CoordinatorStoredInfo {
    pub status: ColonyStatus,
    pub colony_width: Option<i32>,
    pub colony_height: Option<i32>,
    pub colony_life_rules: Option<ColonyLifeRules>,
    pub colony_events: Vec<ColonyEventDescription>,
    pub pause_events_till: u64,
    pub colony_start_idempotency_key: Option<String>,
    pub colony_instance_id: Option<String>,
    pub deployment_mode: Option<String>,
}

/// Keeps the coordinator's record across restarts.
pub struct CoordinatorStorage;

/// The size and rules a backend reports for an existing colony, or the
/// shard grid to build a new one from.
pub enum ColonyInfoSource {
    Existing { width: i32, height: i32, colony_life_rules: Option<ColonyLifeRules> },
    NotInitialized { width_in_shards: i32, height_in_shards: i32, shard_width: i32, shard_height: i32 },
}

/// The answer to a request for the cluster layout.
#[derive(Clone, Copy, Debug, PartialEq, Eq, Structural)]
pub enum TopologyAnswer {
    /// Start-up is under way.
    InProgress,
    /// There is no layout yet.
    NotFound,
    /// The layout, with the colony's instance id.
    Layout,
}

/// The answer to a request to start the colony.
#[derive(Clone, Copy, Debug, PartialEq, Eq, Structural)]
pub enum ColonyStartReply {
    /// No idempotency key was given.
    MissingKey,
    /// The colony runs already, started with the same key.
    AlreadyStartedSameKey,
    /// The colony runs already, started with another key.
    Conflict,
    /// Start-up begins.
    Accepted,
}

/// The answer to a request to start the colony: a request without a key is
/// refused; a colony that runs already answers by whether the key is the
/// one it was started with; otherwise start-up begins.
pub open spec fn start_reply(info: CoordinatorStoredInfo, idempotency_key: Option<String>) -> ColonyStartReply {
    match idempotency_key {
        None => ColonyStartReply::MissingKey,
        Some(key) => if info.status == ColonyStatus::TopographyInitialized {
            if info.colony_start_idempotency_key matches Some(stored) && stored@ == key@ {
                ColonyStartReply::AlreadyStartedSameKey
            } else {
                ColonyStartReply::Conflict
            }
        } else {
            ColonyStartReply::Accepted
        },
    }
}

/// Starting is idempotent: once the colony runs, a start request repeated
/// with the key it was started with is answered as already started and a
/// request with any other key conflicts; while it does not run yet, a
/// request with a key is accepted; a request without a key is refused.
pub proof fn law_start_idempotent(info: CoordinatorStoredInfo, stored: String, key: String)
    requires
        info.colony_start_idempotency_key == Some(stored),
    ensures
        info.status == ColonyStatus::TopographyInitialized ==>
            start_reply(info, Some(key)) == if key@ == stored@ {
                ColonyStartReply::AlreadyStartedSameKey
            } else {
                ColonyStartReply::Conflict
            },
        info.status != ColonyStatus::TopographyInitialized ==> start_reply(info, Some(key)) == ColonyStartReply::Accepted,
        start_reply(info, None) == ColonyStartReply::MissingKey,
{
}

impl CoordinatorStoredInfo {
    /// A fresh record: nothing known yet.
    pub fn new() -> (r: CoordinatorStoredInfo)
        ensures
            r.status == ColonyStatus::NotInitialized,
            r.colony_width is None,
            r.colony_height is None,
            r.colony_life_rules is None,
            r.colony_events@.len() == 0,
            r.pause_events_till == 0,
            r.colony_start_idempotency_key is None,
            r.colony_instance_id is None,
            r.deployment_mode is None,
    {
        CoordinatorStoredInfo {
            status: ColonyStatus::NotInitialized,
            colony_width: None,
            colony_height: None,
            colony_life_rules: None,
            colony_events: Vec::new(),
            pause_events_till: 0,
            colony_start_idempotency_key: None,
            colony_instance_id: None,
            deployment_mode: None,
        }
    }

    /// Appends an event to the history.
    pub fn add_event(&mut self, event: ColonyEventDescription)
        ensures
            final(self).colony_events@ == old(self).colony_events@.push(event),
            final(self).status == old(self).status,
            final(self).pause_events_till == old(self).pause_events_till,
            final(self).colony_life_rules == old(self).colony_life_rules,
            final(self).colony_width == old(self).colony_width,
            final(self).colony_height == old(self).colony_height,
            final(self).colony_start_idempotency_key == old(self).colony_start_idempotency_key,
            final(self).colony_instance_id == old(self).colony_instance_id,
            final(self).deployment_mode == old(self).deployment_mode,
    {
        self.colony_events.push(event);
    }

    /// The history of events, oldest first.
    pub fn get_events(&self) -> (r: &Vec<ColonyEventDescription>)
        ensures
            r@ == self.colony_events@,
    {
        &self.colony_events
    }

    /// Pauses events until the given tick.
    pub fn set_pause_events_till(&mut self, tick: u64)
        ensures
            *final(self) == (CoordinatorStoredInfo { pause_events_till: tick, ..*old(self) }),
    {
        self.pause_events_till = tick;
    }

    /// Whether events are paused at the given tick.
    pub fn is_events_paused(&self, current_tick: u64) -> (r: bool)
        ensures
            r == (current_tick < self.pause_events_till),
    {
        current_tick < self.pause_events_till
    }

    /// Records new life rules.
    pub fn update_colony_rules(&mut self, new_rules: ColonyLifeRules)
        ensures
            *final(self) == (CoordinatorStoredInfo { colony_life_rules: Some(new_rules), ..*old(self) }),
    {
        self.colony_life_rules = Some(new_rules);
    }

    /// The life rules in force: the recorded ones, or the initial rules
    /// while none are recorded.
    pub fn get_colony_life_rules(&self) -> (r: ColonyLifeRules)
        ensures
            r == match self.colony_life_rules {
                Some(rules) => rules,
                None => spec_initial_rules(),
            },
    {
        match self.colony_life_rules {
            Some(rules) => rules,
            None => colony_life_initial_rules(),
        }
    }

    /// Starts colony initialisation from a fresh record, keeping the
    /// instance id, the idempotency key and the deployment mode.
    pub fn reset_for_initialization(&mut self)
        ensures
            final(self).status == ColonyStatus::NotInitialized,
            final(self).colony_width is None,
            final(self).colony_height is None,
            final(self).colony_life_rules is None,
            final(self).colony_events@.len() == 0,
            final(self).pause_events_till == 0,
            final(self).colony_start_idempotency_key == old(self).colony_start_idempotency_key,
            final(self).colony_instance_id == old(self).colony_instance_id,
            final(self).deployment_mode == old(self).deployment_mode,
    {
        let mut fresh = CoordinatorStoredInfo::new();
        std::mem::swap(&mut fresh.colony_instance_id, &mut self.colony_instance_id);
        std::mem::swap(&mut fresh.colony_start_idempotency_key, &mut self.colony_start_idempotency_key);
        std::mem::swap(&mut fresh.deployment_mode, &mut self.deployment_mode);
        *self = fresh;
    }

    /// Records the colony's size and rules: those of an existing colony as
    /// reported, or, for a new colony, the size of its shard grid and the
    /// initial rules.
    pub fn record_colony_info(&mut self, info: &ColonyInfoSource)
        requires
            *info matches ColonyInfoSource::NotInitialized { width_in_shards, height_in_shards, shard_width, shard_height }
                ==> (i32::MIN <= width_in_shards * shard_width <= i32::MAX
                    && i32::MIN <= height_in_shards * shard_height <= i32::MAX),
        ensures
            final(self).status == old(self).status,
            final(self).colony_events@ == old(self).colony_events@,
            final(self).colony_instance_id == old(self).colony_instance_id,
            final(self).colony_start_idempotency_key == old(self).colony_start_idempotency_key,
            final(self).deployment_mode == old(self).deployment_mode,
            final(self).pause_events_till == old(self).pause_events_till,
            match *info {
                ColonyInfoSource::Existing { width, height, colony_life_rules } => {
                    &&& final(self).colony_width == Some(width)
                    &&& final(self).colony_height == Some(height)
                    &&& final(self).colony_life_rules == colony_life_rules
                },
                ColonyInfoSource::NotInitialized { width_in_shards, height_in_shards, shard_width, shard_height } => {
                    &&& final(self).colony_width == Some((width_in_shards * shard_width) as i32)
                    &&& final(self).colony_height == Some((height_in_shards * shard_height) as i32)
                    &&& final(self).colony_life_rules == Some(spec_initial_rules())
                },
            },
    {
        match info {
            ColonyInfoSource::Existing { width, height, colony_life_rules } => {
                self.colony_width = Some(*width);
                self.colony_height = Some(*height);
                self.colony_life_rules = *colony_life_rules;
            },
            ColonyInfoSource::NotInitialized { width_in_shards, height_in_shards, shard_width, shard_height } => {
                self.colony_width = Some(*width_in_shards * *shard_width);
                self.colony_height = Some(*height_in_shards * *shard_height);
                self.colony_life_rules = Some(colony_life_initial_rules());
            },
        }
    }

    /// Whether the topography still has to be generated.
    pub fn needs_topography(&self) -> (r: bool)
        ensures
            r == (self.status == ColonyStatus::NotInitialized),
    {
        self.status == ColonyStatus::NotInitialized
    }

    /// Records that the topography is in place.
    pub fn mark_topography_initialized(&mut self)
        ensures
            *final(self) == (CoordinatorStoredInfo { status: ColonyStatus::TopographyInitialized, ..*old(self) }),
    {
        self.status = ColonyStatus::TopographyInitialized;
    }

    /// Whether the colony has been started and set up.
    pub fn is_colony_already_started(&self) -> (r: bool)
        ensures
            r == (self.status == ColonyStatus::TopographyInitialized),
    {
        self.status == ColonyStatus::TopographyInitialized
    }

    /// What a request for the cluster layout is answered: that start-up is
    /// under way while the colony initialises; otherwise the layout, when
    /// there is one, or that there is none.
    pub fn topology_answer(&self, has_layout: bool) -> (r: TopologyAnswer)
        ensures
            r == if self.status == ColonyStatus::Initializing {
                TopologyAnswer::InProgress
            } else if has_layout {
                TopologyAnswer::Layout
            } else {
                TopologyAnswer::NotFound
            },
    {
        if self.status == ColonyStatus::Initializing {
            TopologyAnswer::InProgress
        } else if has_layout {
            TopologyAnswer::Layout
        } else {
            TopologyAnswer::NotFound
        }
    }

    /// Whether the colony was started with the given idempotency key.
    pub fn matches_stored_idempotency_key(&self, key: &str) -> (r: bool)
        ensures
            r == match self.colony_start_idempotency_key {
                Some(stored) => stored@ == key@,
                None => false,
            },
    {
        match &self.colony_start_idempotency_key {
            Some(stored) => {
                let k = String::from_str(key);
                *stored == k
            },
            None => false,
        }
    }

    /// Answers a request to start the colony. A request without a key is
    /// refused; a colony that runs already answers by whether the key is the
    /// one it was started with; otherwise start-up begins and the status
    /// becomes `Initializing`.
    pub fn colony_start_reply(&mut self, idempotency_key: &Option<String>) -> (r: ColonyStartReply)
        ensures
            r == start_reply(*old(self), *idempotency_key),
            r == ColonyStartReply::Accepted ==>
                *final(self) == (CoordinatorStoredInfo { status: ColonyStatus::Initializing, ..*old(self) }),
            r != ColonyStartReply::Accepted ==> *final(self) == *old(self),
    {
        match idempotency_key {
            None => ColonyStartReply::MissingKey,
            Some(key) => {
                if self.is_colony_already_started() {
                    if self.matches_stored_idempotency_key(key.as_str()) {
                        ColonyStartReply::AlreadyStartedSameKey
                    } else {
                        ColonyStartReply::Conflict
                    }
                } else {
                    self.status = ColonyStatus::Initializing;
                    ColonyStartReply::Accepted
                }
            },
        }
    }
}

/// The ticks of the events, in order.
pub open spec fn event_ticks(events: Seq<ColonyEventDescription>) -> Seq<u64> {
    events.map_values(|e: ColonyEventDescription| e.tick)
}

/// The `limit` most recent events, newest first; events of the same tick
/// keep their order.
pub fn most_recent_events(events: &Vec<ColonyEventDescription>, limit: usize) -> (r: Vec<ColonyEventDescription>)
    ensures
        r@.len() <= limit,
        exists|top: Seq<usize>| #[trigger] is_top_ranked(top, event_ticks(events@), limit as int)
            && r@.len() == top.len()
            && forall|k: int| 0 <= k < top.len() ==> #[trigger] r@[k] == events@[top[k] as int],
{
    let mut ticks: Vec<u64> = Vec::new();
    let mut i: usize = 0;
    while i < events.len()
        invariant
            i <= events@.len(),
            ticks@ == event_ticks(events@.take(i as int)),
        decreases events@.len() - i,
    {
        ticks.push(events[i].tick);
        assert(events@.take(i as int + 1) =~= events@.take(i as int).push(events@[i as int]));
        i += 1;
    }
    assert(events@.take(i as int) =~= events@);
    let top = top_ranked(&ticks, limit);
    let mut out: Vec<ColonyEventDescription> = Vec::new();
    let mut t: usize = 0;
    while t < top.len()
        invariant
            ticks@ == event_ticks(events@),
            is_top_ranked(top@, ticks@, limit as int),
            t <= top@.len(),
            out@.len() == t,
            forall|k: int| 0 <= k < t ==> #[trigger] out@[k] == events@[top@[k] as int],
        decreases top@.len() - t,
    {
        assert(top@[t as int] < ticks@.len());
        out.push(events[top[t]].duplicate());
        t += 1;
    }
    assert(is_top_ranked(top@, event_ticks(events@), limit as int));
    proof {
        lemma_top_ranked_len(top@, ticks@, limit as int);
    }
    out
}

/// What the coordinator's HTTP server does with a request.
#[derive(Clone, Copy, Debug, PartialEq, Eq, Structural)]
pub enum CoordinatorRoute {
    ColonyStart,
    ColonyEvents,
    Topology,
    DebugSsm,
    Index,
    NotFound,
}

/// `s` begins with `p`.
pub open spec fn has_prefix(s: Seq<char>, p: Seq<char>) -> bool {
    p.len() <= s.len() && s.take(p.len() as int) == p
}

fn starts_with(text: &Vec<char>, prefix: &str) -> (r: bool)
    ensures
        r == has_prefix(text@, prefix@),
{
    let p = chars_of(prefix);
    if p.len() > text.len() {
        return false;
    }
    let mut k: usize = 0;
    while k < p.len()
        invariant
            p@ == prefix@,
            p@.len() <= text@.len(),
            k <= p@.len(),
            forall|j: int| 0 <= j < k ==> text@[j] == p@[j],
        decreases p@.len() - k,
    {
        if text[k] != p[k] {
            assert(text@.take(p@.len() as int)[k as int] != p@[k as int]);
            return false;
        }
        k += 1;
    }
    assert(text@.take(p@.len() as int) =~= p@);
    true
}

/// The route of a request by its first line, checked in order: starting
/// the colony, the event history, the topology, the discovery state, the
/// index page; anything else is not found.
pub open spec fn coordinator_route(request: Seq<char>) -> CoordinatorRoute {
    if has_prefix(request, "POST /colony-start"@) {
        CoordinatorRoute::ColonyStart
    } else if has_prefix(request, "GET /api/colony-events"@) {
        CoordinatorRoute::ColonyEvents
    } else if has_prefix(request, "GET /topology"@) {
        CoordinatorRoute::Topology
    } else if has_prefix(request, "GET /debug-ssm"@) {
        CoordinatorRoute::DebugSsm
    } else if has_prefix(request, "GET /colony-start"@) || has_prefix(request, "GET /"@) {
        CoordinatorRoute::Index
    } else {
        CoordinatorRoute::NotFound
    }
}

/// Routes a request of the coordinator's HTTP server.
pub fn route_coordinator_request(request: &str) -> (r: CoordinatorRoute)
    ensures
        r == coordinator_route(request@),
{
    let text = chars_of(request);
    if starts_with(&text, "POST /colony-start") {
        CoordinatorRoute::ColonyStart
    } else if starts_with(&text, "GET /api/colony-events") {
        CoordinatorRoute::ColonyEvents
    } else if starts_with(&text, "GET /topology") {
        CoordinatorRoute::Topology
    } else if starts_with(&text, "GET /debug-ssm") {
        CoordinatorRoute::DebugSsm
    } else if starts_with(&text, "GET /colony-start") || starts_with(&text, "GET /") {
        CoordinatorRoute::Index
    } else {
        CoordinatorRoute::NotFound
    }
}

} // verus!
