//! A backend node as a state machine: the colony it hosts, the cluster
//! layout it was given, and its answer to each request of the RPC protocol.
//! Reading requests and sending answers is left to the caller.

use vstd::prelude::*;
use rand::rngs::SmallRng;
use crate::cluster::HostInfo;
use crate::colony::{Colony, hosts};
use crate::events::{ColonyEvent, apply_event, event_applied_to_shard};
use crate::model::{ColonyLifeRules, Shard};
use crate::shard::{ColonyShard, NeighborPermutations, fresh_shard, grid_len, shard_dims_ok, ticked};
use crate::shard_utils::{
    ShardStatResult, ShardTopography, ShardUtils, StatMetric, UpdatedShardContentsRequest, export_shaped, is_export_of,
    is_histogram, is_update_of, metric_values, shard_interior, side_of,
};

verus! {

/// The cluster layout a backend is given: every backend's address and which
/// backend hosts each shard.
pub struct TopologySnapshot {
    pub backend_hosts: Vec<HostInfo>,
    pub shard_map: Vec<(Shard, HostInfo)>,
}

/// Answer to a request to set up the colony.
#[derive(Clone, Copy, Debug, PartialEq, Eq, Structural)]
pub enum InitColonyResponse {
    Success,
    ColonyAlreadyInitialized,
}

/// Answer to a request to host a shard.
#[derive(Clone, Copy, Debug, PartialEq, Eq, Structural)]
pub enum InitColonyShardResponse {
    Success,
    ColonyNotInitialized,
    ShardAlreadyInitialized,
    InvalidShardDimensions,
    Error,
}

/// Answer to a request for the colony's size, shards, rules and tick.
pub enum GetColonyInfoResponse {
    ColonyNotInitialized,
    Info { width: i32, height: i32, shards: Vec<Shard>, colony_life_rules: Option<ColonyLifeRules>, current_tick: Option<u64> },
}

/// Answer to a request for statistics of a shard.
pub enum GetShardStatsResponse {
    ColonyNotInitialized,
    ShardNotAvailable,
    Stats { stats: Vec<ShardStatResult>, tick_count: u64 },
}

/// Answer to a request to set a shard's food landscape.
#[derive(Clone, Copy, Debug, PartialEq, Eq, Structural)]
pub enum InitShardTopographyResponse {
    Success,
    ShardNotInitialized,
    InvalidTopographyData,
}

/// Answer to a request for a shard's tick.
#[derive(Clone, Copy, Debug, PartialEq, Eq, Structural)]
pub enum GetShardCurrentTickResponse {
    ColonyNotInitialized,
    ShardNotAvailable,
    Tick { current_tick: u64 },
}

/// Answer to a request to apply an event.
#[derive(Clone, Copy, Debug, PartialEq, Eq, Structural)]
pub enum ApplyEventResponse {
    Success,
    ColonyNotInitialized,
}

/// Answer to a request to start ticking.
#[derive(Clone, Copy, Debug, PartialEq, Eq, Structural)]
pub enum StartTickingResponse {
    Success,
    ColonyNotInitialized,
    TopologyNotInitialized,
}

/// The hosted shards after one export was copied in: the shards that
/// border the exporting shard took its lane, the others stayed.
pub open spec fn export_applied(before: Seq<ColonyShard>, after: Seq<ColonyShard>, req: UpdatedShardContentsRequest) -> bool {
    &&& after.len() == before.len()
    &&& forall|i: int| 0 <= i < before.len() ==> if side_of(req.updated_shard, before[i].shard) is Some {
        is_update_of(#[trigger] after[i], before[i], req)
    } else {
        after[i] == before[i]
    }
}

/// The hosted shards go through `steps`: first each shard one tick later,
/// exporting its border; then the exports copied in one after another.
pub open spec fn ticker_steps(c: Seq<ColonyShard>, exports: Seq<UpdatedShardContentsRequest>, steps: Seq<Seq<ColonyShard>>) -> bool {
    &&& steps.len() == exports.len() + 1
    &&& steps[0].len() == c.len()
    &&& forall|j: int| 0 <= j < exports.len() ==> ticked(c[j], #[trigger] steps[0][j]) && is_export_of(exports[j], steps[0][j])
    &&& forall|m: int| 0 <= m < exports.len() ==> export_applied(#[trigger] steps[m], steps[m + 1], exports[m])
}

/// `e` is the border a shard exports right after one tick from `o`.
pub open spec fn exported_after_tick(o: ColonyShard, e: UpdatedShardContentsRequest) -> bool {
    exists|t: ColonyShard| #[trigger] ticked(o, t) && is_export_of(e, t)
}

/// A backend node.
pub struct BackendNode {
    pub colony: Option<Colony>,
    pub topology: Option<TopologySnapshot>,
    pub this_host: HostInfo,
    pub ticking: bool,
}

/// An address of every interface counts as the local host.
pub open spec fn normalized_hostname(name: Seq<char>) -> Seq<char> {
    if name == "0.0.0.0"@ { "127.0.0.1"@ } else { name }
}

/// Two addresses name the same node once wildcard addresses are read as
/// the local host.
pub open spec fn same_normalized_host(a: HostInfo, b: HostInfo) -> bool {
    normalized_hostname(a.hostname@) == normalized_hostname(b.hostname@) && a.port == b.port
}

/// The layout lists this backend among its backends.
pub open spec fn lists_host(hosts: Seq<HostInfo>, me: HostInfo) -> bool {
    exists|i: int| 0 <= i < hosts.len() && same_normalized_host(#[trigger] hosts[i], me)
}

fn normalize(name: &String) -> (r: String)
    ensures
        r@ == normalized_hostname(name@),
{
    let wildcard = String::from_str("0.0.0.0");
    if *name == wildcard {
        String::from_str("127.0.0.1")
    } else {
        name.clone()
    }
}

/// Whether the layout lists this backend.
fn topology_lists_host(hosts: &Vec<HostInfo>, me: &HostInfo) -> (r: bool)
    ensures
        r == lists_host(hosts@, *me),
{
    let mine = normalize(&me.hostname);
    let mut i: usize = 0;
    while i < hosts.len()
        invariant
            i <= hosts@.len(),
            mine@ == normalized_hostname(me.hostname@),
            forall|k: int| 0 <= k < i ==> !same_normalized_host(#[trigger] hosts@[k], *me),
        decreases hosts@.len() - i,
    {
        let theirs = normalize(&hosts[i].hostname);
        if theirs == mine && hosts[i].port == me.port {
            assert(same_normalized_host(hosts@[i as int], *me));
            return true;
        }
        i += 1;
    }
    false
}

/// A shard a backend accepts to host: inside the colony, with a grid whose
/// size fits in `i32` and in memory.
pub open spec fn acceptable_shard(colony: Colony, shard: Shard) -> bool {
    &&& shard.x >= 0 && shard.y >= 0 && shard.width > 0 && shard.height > 0
    &&& shard.x + shard.width <= colony._width && shard.y + shard.height <= colony._height
    &&& shard_dims_ok(shard)
    &&& grid_len(shard) <= usize::MAX
}

fn is_acceptable_shard(colony: &Colony, shard: &Shard) -> (r: bool)
    ensures
        r == acceptable_shard(*colony, *shard),
{
    if !colony.is_valid_shard_dimensions(shard) {
        return false;
    }
    let w = shard.width as i64;
    let h = shard.height as i64;
    let x = shard.x as i64;
    let y = shard.y as i64;
    if w + 2 > i32::MAX as i64 || h + 2 > i32::MAX as i64 {
        return false;
    }
    assert((w + 2) * (h + 2) <= 0x8000_0000 * 0x8000_0000) by (nonlinear_arith)
        requires
            0 <= w + 2 <= 0x8000_0000,
            0 <= h + 2 <= 0x8000_0000,
    ;
    let cells: u128 = ((w + 2) as u128) * ((h + 2) as u128);
    cells <= usize::MAX as u128
}

impl BackendNode {
    /// The hosted colony, if any, is well formed.
    pub open spec fn wf(&self) -> bool {
        match self.colony {
            Some(c) => c.wf(),
            None => true,
        }
    }

    /// A node that hosts nothing yet.
    pub fn new(this_host: HostInfo) -> (n: BackendNode)
        ensures
            n.wf(),
            n.colony is None,
            n.topology is None,
            !n.ticking,
            n.this_host == this_host,
    {
        BackendNode { colony: None, topology: None, this_host, ticking: false }
    }

    /// Sets up the colony, once.
    pub fn handle_init_colony(&mut self, width: i32, height: i32) -> (r: InitColonyResponse)
        requires
            old(self).wf(),
        ensures
            final(self).wf(),
            final(self).topology == old(self).topology,
            final(self).ticking == old(self).ticking,
            old(self).colony is Some ==> r == InitColonyResponse::ColonyAlreadyInitialized && final(self).colony == old(self).colony,
            old(self).colony is None ==> r == InitColonyResponse::Success && (final(self).colony matches Some(c)
                && c._width == width && c._height == height && c.shards@.len() == 0),
    {
        if self.colony.is_some() {
            InitColonyResponse::ColonyAlreadyInitialized
        } else {
            self.colony = Some(Colony::init(width, height));
            InitColonyResponse::Success
        }
    }

    /// Hosts a new shard. The first such request must carry the cluster
    /// layout, which must list this backend; then the colony must exist,
    /// not host the shard yet, and the shard must lie inside it.
    pub fn handle_init_colony_shard(
        &mut self,
        shard: Shard,
        colony_life_rules: ColonyLifeRules,
        topology: Option<TopologySnapshot>,
        rng: &mut SmallRng,
    ) -> (r: InitColonyShardResponse)
        requires
            old(self).wf(),
        ensures
            final(self).wf(),
            final(self).ticking == old(self).ticking,
            old(self).topology is None && (topology is None || !lists_host(topology.unwrap().backend_hosts@, old(self).this_host))
                ==> r == InitColonyShardResponse::Error && final(self).colony == old(self).colony,
            old(self).topology is Some || (topology matches Some(t) && lists_host(t.backend_hosts@, old(self).this_host))
                ==> r != InitColonyShardResponse::Error,
            old(self).topology is Some ==> final(self).topology == old(self).topology,
            old(self).topology is None && r != InitColonyShardResponse::Error ==> final(self).topology == topology,
            r != InitColonyShardResponse::Error ==> match old(self).colony {
                None => r == InitColonyShardResponse::ColonyNotInitialized && final(self).colony is None,
                Some(c) => if hosts(c.shards@, shard) {
                    r == InitColonyShardResponse::ShardAlreadyInitialized && final(self).colony == old(self).colony
                } else if !acceptable_shard(c, shard) {
                    r == InitColonyShardResponse::InvalidShardDimensions && final(self).colony == old(self).colony
                } else {
                    &&& r == InitColonyShardResponse::Success
                    &&& final(self).colony matches Some(n)
                    &&& n._width == c._width && n._height == c._height
                    &&& n.shards@.len() == c.shards@.len() + 1
                    &&& n.shards@.take(c.shards@.len() as int) == c.shards@
                    &&& fresh_shard(n.shards@.last(), shard, colony_life_rules)
                },
            },
    {
        if self.topology.is_none() {
            match topology {
                None => {
                    return InitColonyShardResponse::Error;
                },
                Some(t) => {
                    if !topology_lists_host(&t.backend_hosts, &self.this_host) {
                        return InitColonyShardResponse::Error;
                    }
                    self.topology = Some(t);
                },
            }
        }
        match self.colony.take() {
            None => InitColonyShardResponse::ColonyNotInitialized,
            Some(mut colony) => {
                let ghost c0 = colony;
                let r = if colony.has_shard(shard) {
                    InitColonyShardResponse::ShardAlreadyInitialized
                } else if !is_acceptable_shard(&colony, &shard) {
                    InitColonyShardResponse::InvalidShardDimensions
                } else {
                    let cs = ShardUtils::new_colony_shard(&shard, &colony_life_rules, rng);
                    let added = colony.add_shard(cs);
                    assert(added);
                    proof {
                        assert(colony.shards@.take(c0.shards@.len() as int) =~= c0.shards@);
                    }
                    InitColonyShardResponse::Success
                };
                self.colony = Some(colony);
                r
            },
        }
    }

    /// The colony's size and shards, with the rules and tick of the first
    /// shard.
    pub fn handle_get_colony_info(&self) -> (r: GetColonyInfoResponse)
        ensures
            match self.colony {
                None => r is ColonyNotInitialized,
                Some(c) => match r {
                    GetColonyInfoResponse::Info { width, height, shards, colony_life_rules, current_tick } => {
                        &&& width == c._width
                        &&& height == c._height
                        &&& shards@ == c.shards@.map_values(|s: ColonyShard| s.shard)
                        &&& if c.shards@.len() > 0 {
                            colony_life_rules == Some(c.shards@[0].colony_life_rules) && current_tick == Some(c.shards@[0].current_tick)
                        } else {
                            colony_life_rules is None && current_tick is None
                        }
                    },
                    _ => false,
                },
            },
    {
        match &self.colony {
            None => GetColonyInfoResponse::ColonyNotInitialized,
            Some(colony) => {
                let shards = colony.get_all_shards();
                let (colony_life_rules, current_tick) = if colony.shards.len() > 0 {
                    (Some(colony.shards[0].colony_life_rules), Some(colony.shards[0].current_tick))
                } else {
                    (None, None)
                };
                GetColonyInfoResponse::Info { width: colony._width, height: colony._height, shards, colony_life_rules, current_tick }
            },
        }
    }

    /// Statistics of a hosted shard, with its tick.
    pub fn handle_get_shard_stats(&self, shard: &Shard, metrics: &Vec<StatMetric>) -> (r: GetShardStatsResponse)
        requires
            self.wf(),
        ensures
            match self.colony {
                None => r is ColonyNotInitialized,
                Some(c) => if hosts(c.shards@, *shard) {
                    r matches GetShardStatsResponse::Stats { stats, tick_count } && stats@.len() == 1 && stats@[0].shard == *shard
                        && stats@[0].metrics@.len() == metrics@.len()
                        && exists|i: int| #![trigger c.shards@[i]] 0 <= i < c.shards@.len() && c.shards@[i].shard == *shard
                            && c.shards@[i].current_tick == tick_count
                            && forall|k: int| 0 <= k < metrics@.len() ==> {
                                let entry = #[trigger] stats@[0].metrics@[k];
                                entry.0 == metrics@[k]
                                    && is_histogram(entry.1@, metric_values(shard_interior(c.shards@[i]), metrics@[k]))
                            }
                } else {
                    r is ShardNotAvailable
                },
            },
    {
        match &self.colony {
            None => GetShardStatsResponse::ColonyNotInitialized,
            Some(colony) => match colony.find_shard(shard) {
                None => GetShardStatsResponse::ShardNotAvailable,
                Some(i) => {
                    let cs = &colony.shards[i];
                    match ShardUtils::compute_stats(cs, shard, metrics.as_slice()) {
                        Some(stats) => GetShardStatsResponse::Stats { stats, tick_count: cs.current_tick },
                        None => GetShardStatsResponse::ShardNotAvailable,
                    }
                },
            },
        }
    }

    /// Copies borders sent by another backend into the hosted shards that
    /// border the sender; a malformed request changes nothing.
    pub fn handle_updated_shard_contents(&mut self, req: &UpdatedShardContentsRequest)
        requires
            old(self).wf(),
        ensures
            final(self).wf(),
            final(self).topology == old(self).topology,
            final(self).ticking == old(self).ticking,
            old(self).colony is None ==> final(self).colony is None,
            !export_shaped(*req) ==> final(self).colony == old(self).colony,
            export_shaped(*req) ==> (old(self).colony matches Some(c) ==> final(self).colony matches Some(n)
                && n._width == c._width && n._height == c._height
                && n.shards@.len() == c.shards@.len()
                && forall|i: int| 0 <= i < c.shards@.len() ==> {
                    let o = c.shards@[i];
                    let u = #[trigger] n.shards@[i];
                    if side_of(req.updated_shard, o.shard) is Some { is_update_of(u, o, *req) } else { u == o }
                }),
    {
        let shaped = req.updated_shard.width >= 0 && req.updated_shard.height >= 0
            && req.top.len() as u64 == req.updated_shard.width as u64
            && req.bottom.len() as u64 == req.updated_shard.width as u64
            && req.left.len() as u64 == req.updated_shard.height as u64
            && req.right.len() as u64 == req.updated_shard.height as u64;
        if !shaped {
            return;
        }
        assert(export_shaped(*req));
        match self.colony.take() {
            None => {},
            Some(mut colony) => {
                colony.apply_export(req);
                self.colony = Some(colony);
            },
        }
    }

    /// Sets the food landscape of a hosted shard.
    pub fn handle_init_shard_topography(&mut self, shard: &Shard, data: &Vec<u8>) -> (r: InitShardTopographyResponse)
        requires
            old(self).wf(),
        ensures
            final(self).wf(),
            final(self).topology == old(self).topology,
            final(self).ticking == old(self).ticking,
            match old(self).colony {
                None => r == InitShardTopographyResponse::ShardNotInitialized,
                Some(c) => if !hosts(c.shards@, *shard) {
                    r == InitShardTopographyResponse::ShardNotInitialized
                } else if data@.len() != shard.width * shard.height {
                    r == InitShardTopographyResponse::InvalidTopographyData
                } else {
                    r == InitShardTopographyResponse::Success
                },
            },
    {
        match self.colony.take() {
            None => InitShardTopographyResponse::ShardNotInitialized,
            Some(mut colony) => {
                let ghost c0 = colony;
                let r = match colony.find_shard(shard) {
                    None => InitShardTopographyResponse::ShardNotInitialized,
                    Some(i) => {
                        let result = ShardTopography::init_shard_topography_from_data(&mut colony.shards[i], data.as_slice());
                        proof {
                            assert forall|a: int, b: int| 0 <= a < b < colony.shards@.len() implies
                                (#[trigger] colony.shards@[a]).shard != (#[trigger] colony.shards@[b]).shard by {
                                assert(c0.shards@[a].shard != c0.shards@[b].shard);
                            }
                        }
                        match result {
                            Ok(()) => InitShardTopographyResponse::Success,
                            Err(()) => InitShardTopographyResponse::InvalidTopographyData,
                        }
                    },
                };
                self.colony = Some(colony);
                r
            },
        }
    }

    /// The tick of a hosted shard.
    pub fn handle_get_shard_current_tick(&self, shard: &Shard) -> (r: GetShardCurrentTickResponse)
        ensures
            match self.colony {
                None => r == GetShardCurrentTickResponse::ColonyNotInitialized,
                Some(c) => if hosts(c.shards@, *shard) {
                    r matches GetShardCurrentTickResponse::Tick { current_tick } && exists|i: int|
                        0 <= i < c.shards@.len() && c.shards@[i].shard == *shard && #[trigger] c.shards@[i].current_tick == current_tick
                } else {
                    r == GetShardCurrentTickResponse::ShardNotAvailable
                },
            },
    {
        match &self.colony {
            None => GetShardCurrentTickResponse::ColonyNotInitialized,
            Some(colony) => match colony.find_shard(shard) {
                None => GetShardCurrentTickResponse::ShardNotAvailable,
                Some(i) => GetShardCurrentTickResponse::Tick { current_tick: colony.shards[i].current_tick },
            },
        }
    }

    /// Applies an event to the hosted shards.
    pub fn handle_apply_event(&mut self, event: &ColonyEvent, rng: &mut SmallRng) -> (r: ApplyEventResponse)
        requires
            old(self).wf(),
            event matches ColonyEvent::ChangeExtraFoodPerTick(amount) ==> amount > i8::MIN,
        ensures
            final(self).wf(),
            final(self).topology == old(self).topology,
            final(self).ticking == old(self).ticking,
            old(self).colony is None <==> r == ApplyEventResponse::ColonyNotInitialized,
            old(self).colony is None ==> final(self).colony is None,
            old(self).colony matches Some(c) ==> {
                &&& r == ApplyEventResponse::Success
                &&& final(self).colony matches Some(n)
                &&& n._width == c._width && n._height == c._height
                &&& n.shards@.len() == c.shards@.len()
                &&& forall|i: int| 0 <= i < c.shards@.len() ==>
                    event_applied_to_shard(#[trigger] n.shards@[i], c.shards@[i], *event)
            },
    {
        match self.colony.take() {
            None => ApplyEventResponse::ColonyNotInitialized,
            Some(mut colony) => {
                apply_event(rng, &mut colony, event);
                self.colony = Some(colony);
                ApplyEventResponse::Success
            },
        }
    }

    /// Starts ticking once the colony and the layout are in place.
    pub fn handle_start_ticking(&mut self) -> (r: StartTickingResponse)
        ensures
            final(self).colony == old(self).colony,
            final(self).topology == old(self).topology,
            old(self).colony is None ==> r == StartTickingResponse::ColonyNotInitialized && final(self).ticking == old(self).ticking,
            old(self).colony is Some && old(self).topology is None
                ==> r == StartTickingResponse::TopologyNotInitialized && final(self).ticking == old(self).ticking,
            old(self).colony is Some && old(self).topology is Some ==> r == StartTickingResponse::Success && final(self).ticking,
    {
        if self.colony.is_none() {
            return StartTickingResponse::ColonyNotInitialized;
        }
        if self.topology.is_none() {
            return StartTickingResponse::TopologyNotInitialized;
        }
        self.ticking = true;
        StartTickingResponse::Success
    }

    /// One step of the ticker: every hosted shard ticks, and the borders it
    /// then exports are copied into the hosted shards that border it. The
    /// exports are returned, for sending to the backends that host other
    /// neighbours. A colony whose tick counter has run out does not tick.
    #[verifier::spinoff_prover]
    pub fn ticker_step(&mut self, perms: &NeighborPermutations) -> (exports: Vec<UpdatedShardContentsRequest>)
        requires
            old(self).wf(),
            perms.wf(),
        ensures
            final(self).wf(),
            final(self).topology == old(self).topology,
            final(self).ticking == old(self).ticking,
            old(self).colony is None ==> final(self).colony is None && exports@.len() == 0,
            forall|k: int| 0 <= k < exports@.len() ==> export_shaped(#[trigger] exports@[k]),
            old(self).colony matches Some(c) ==> (final(self).colony matches Some(n)
                && n.shards@.len() == c.shards@.len()
                && if forall|k: int| 0 <= k < c.shards@.len() ==> (#[trigger] c.shards@[k]).current_tick < u64::MAX {
                    &&& exports@.len() == c.shards@.len()
                    &&& forall|i: int| 0 <= i < exports@.len() ==> (#[trigger] exports@[i]).updated_shard == c.shards@[i].shard
                        && exported_after_tick(c.shards@[i], exports@[i])
                    &&& exists|steps: Seq<Seq<ColonyShard>>| #[trigger] ticker_steps(c.shards@, exports@, steps)
                        && steps.last() == n.shards@
                } else {
                    exports@.len() == 0 && n == c
                }),
    {
        match self.colony.take() {
            None => Vec::new(),
            Some(mut colony) => {
                let ghost c0 = colony;
                let mut runnable = true;
                let mut i: usize = 0;
                while i < colony.shards.len()
                    invariant
                        i <= colony.shards@.len(),
                        runnable == forall|k: int| 0 <= k < i ==> (#[trigger] colony.shards@[k]).current_tick < u64::MAX,
                    decreases colony.shards@.len() - i,
                {
                    if colony.shards[i].current_tick == u64::MAX {
                        runnable = false;
                    }
                    i += 1;
                }
                if !runnable {
                    self.colony = Some(colony);
                    return Vec::new();
                }
                let exports = colony.tick_shards(perms);
                let ghost after_tick = colony;
                proof {
                    assert forall|j: int| 0 <= j < exports@.len() implies
                        export_shaped(#[trigger] exports@[j]) && exports@[j].updated_shard == c0.shards@[j].shard by {
                        let _n = colony.shards@[j];
                    }
                }
                let mut k: usize = 0;
                let ghost mut steps: Seq<Seq<ColonyShard>> = seq![after_tick.shards@];
                while k < exports.len()
                    invariant
                        steps.len() == k + 1,
                        steps[0] == after_tick.shards@,
                        steps[k as int] == colony.shards@,
                        forall|m: int| 0 <= m < k ==> export_applied(#[trigger] steps[m], steps[m + 1], exports@[m]),
                        colony.wf(),
                        colony.shards@.len() == c0.shards@.len(),
                        colony._width == c0._width,
                        colony._height == c0._height,
                        forall|j: int| 0 <= j < colony.shards@.len() ==> (#[trigger] colony.shards@[j]).shard == c0.shards@[j].shard,
                        exports@.len() == c0.shards@.len(),
                        forall|j: int| 0 <= j < exports@.len() ==> export_shaped(#[trigger] exports@[j]),
                        forall|j: int| 0 <= j < exports@.len() ==> (#[trigger] exports@[j]).updated_shard == c0.shards@[j].shard,
                        k <= exports@.len(),
                    decreases exports@.len() - k,
                {
                    let ghost before = colony;
                    colony.apply_export(&exports[k]);
                    proof {
                        assert(export_applied(before.shards@, colony.shards@, exports@[k as int]));
                        let old_steps = steps;
                        steps = steps.push(colony.shards@);
                        assert forall|m: int| 0 <= m < k + 1 implies export_applied(#[trigger] steps[m], steps[m + 1], exports@[m]) by {
                            if m < k {
                                assert(steps[m] == old_steps[m] && steps[m + 1] == old_steps[m + 1]);
                            }
                        }
                    }
                    proof {
                        assert forall|j: int| 0 <= j < colony.shards@.len() implies
                            (#[trigger] colony.shards@[j]).shard == c0.shards@[j].shard by {
                            assert(before.shards@[j].shard == c0.shards@[j].shard);
                            if crate::shard_utils::side_of(exports@[k as int].updated_shard, before.shards@[j].shard) is Some {
                                assert(crate::shard_utils::is_update_of(colony.shards@[j], before.shards@[j], exports@[k as int]));
                            }
                        }
                    }
                    k += 1;
                }
                proof {
                    assert forall|j: int| 0 <= j < exports@.len() implies exported_after_tick(c0.shards@[j], #[trigger] exports@[j]) by {
                        assert(ticked(c0.shards@[j], after_tick.shards@[j]) && is_export_of(exports@[j], after_tick.shards@[j]));
                    }
                    assert(ticker_steps(c0.shards@, exports@, steps));
                }
                self.colony = Some(colony);
                exports
            },
        }
    }
}

/// How long the ticker waits between steps: longer in the cloud.
pub fn ticker_sleep_millis(is_aws: bool) -> (ms: u64)
    ensures
        ms == if is_aws { 100u64 } else { 25u64 },
{
    if is_aws { 100 } else { 25 }
}

} // verus!
