//! The decisions of the colony viewer: what each tab polls, how fresh its
//! picture is, how a data layer is scaled, which web port each backend
//! serves on, how the viewer waits for the cluster layout, and the text of
//! its tables. Fetching and drawing are left to the caller.

use vstd::prelude::*;
use crate::cluster::{HostInfo, NodeAddress};
use crate::model::{colony_life_initial_rules, spec_initial_rules, ColonyLifeRules, Shard};
use crate::shard_utils::ShardLayer;
use crate::http::chars_of;
use crate::text::{decimal, push_decimal};

verus! {

/// The tabs of the viewer.
#[derive(Clone, Copy, Debug, PartialEq, Eq, Structural)]
pub enum Tab {
    Creatures,
    ExtraFood,
    Food,
    Sizes,
    CanKill,
    CanMove,
    CostPerTurn,
    Health,
    Age,
    Info,
    Stats,
    Cluster,
}

/// What the background poller fetches for a tab.
#[derive(Clone, Copy, Debug, PartialEq, Eq, Structural)]
pub enum TabData {
    /// The creature images of every shard.
    Images,
    /// One data layer of every shard.
    Layer(ShardLayer),
    /// Nothing: the tab loads its data when shown.
    OnDemand,
}

/// The data a tab polls.
pub open spec fn spec_tab_data(tab: Tab) -> TabData {
    match tab {
        Tab::Creatures => TabData::Images,
        Tab::ExtraFood => TabData::Layer(ShardLayer::ExtraFood),
        Tab::Food => TabData::Layer(ShardLayer::Food),
        Tab::Sizes => TabData::Layer(ShardLayer::CreatureSize),
        Tab::CanKill => TabData::Layer(ShardLayer::CanKill),
        Tab::CanMove => TabData::Layer(ShardLayer::CanMove),
        Tab::CostPerTurn => TabData::Layer(ShardLayer::CostPerTurn),
        Tab::Health => TabData::Layer(ShardLayer::Health),
        Tab::Age => TabData::Layer(ShardLayer::Age),
        Tab::Info => TabData::OnDemand,
        Tab::Stats => TabData::OnDemand,
        Tab::Cluster => TabData::OnDemand,
    }
}

/// What the background poller fetches while `tab` is shown.
pub fn tab_data(tab: Tab) -> (d: TabData)
    ensures
        d == spec_tab_data(tab),
{
    match tab {
        Tab::Creatures => TabData::Images,
        Tab::ExtraFood => TabData::Layer(ShardLayer::ExtraFood),
        Tab::Food => TabData::Layer(ShardLayer::Food),
        Tab::Sizes => TabData::Layer(ShardLayer::CreatureSize),
        Tab::CanKill => TabData::Layer(ShardLayer::CanKill),
        Tab::CanMove => TabData::Layer(ShardLayer::CanMove),
        Tab::CostPerTurn => TabData::Layer(ShardLayer::CostPerTurn),
        Tab::Health => TabData::Layer(ShardLayer::Health),
        Tab::Age => TabData::Layer(ShardLayer::Age),
        Tab::Info => TabData::OnDemand,
        Tab::Stats => TabData::OnDemand,
        Tab::Cluster => TabData::OnDemand,
    }
}

/// The name of a layer in a web address.
pub open spec fn layer_name(layer: ShardLayer) -> Seq<char> {
    match layer {
        ShardLayer::CreatureSize => "creature-size"@,
        ShardLayer::ExtraFood => "extra-food"@,
        ShardLayer::CanKill => "can-kill"@,
        ShardLayer::CanMove => "can-move"@,
        ShardLayer::CostPerTurn => "cost-per-turn"@,
        ShardLayer::Food => "food"@,
        ShardLayer::Health => "health"@,
        ShardLayer::Age => "age"@,
    }
}

/// The name of a layer in a web address, in kebab case.
pub fn shard_layer_to_kebab_case(layer: ShardLayer) -> (s: &'static str)
    ensures
        s@ == layer_name(layer),
{
    match layer {
        ShardLayer::CreatureSize => "creature-size",
        ShardLayer::ExtraFood => "extra-food",
        ShardLayer::CanKill => "can-kill",
        ShardLayer::CanMove => "can-move",
        ShardLayer::CostPerTurn => "cost-per-turn",
        ShardLayer::Food => "food",
        ShardLayer::Health => "health",
        ShardLayer::Age => "age",
    }
}

/// How long the poller waits between rounds: long in the cloud, short on
/// one machine.
pub fn refresh_interval_ms(is_aws: bool) -> (ms: u64)
    ensures
        ms == if is_aws { 5000u64 } else { 100u64 },
{
    if is_aws { 5000 } else { 100 }
}

/// How fresh the viewer's picture is.
#[derive(Clone, Copy, Debug, PartialEq, Eq, Structural)]
pub enum Responsiveness {
    Healthy,
    Slow,
    Unresponsive,
}

/// The freshness after `elapsed_ms` milliseconds without an update: more
/// than five whole seconds is unresponsive, more than a second is slow.
pub open spec fn spec_responsiveness(elapsed_ms: u64) -> Responsiveness {
    if elapsed_ms / 1000 > 5 {
        Responsiveness::Unresponsive
    } else if elapsed_ms > 1000 {
        Responsiveness::Slow
    } else {
        Responsiveness::Healthy
    }
}

/// The freshness of the picture, from the time since the last update.
pub fn responsiveness(elapsed_ms: u64) -> (r: Responsiveness)
    ensures
        r == spec_responsiveness(elapsed_ms),
        r == Responsiveness::Unresponsive <==> elapsed_ms >= 6000,
{
    if elapsed_ms / 1000 > 5 {
        Responsiveness::Unresponsive
    } else if elapsed_ms > 1000 {
        Responsiveness::Slow
    } else {
        Responsiveness::Healthy
    }
}

/// Whether a tab shows the freshness indicator: the tabs that poll do.
pub fn shows_status(tab: Tab) -> (r: bool)
    ensures
        r == (spec_tab_data(tab) != TabData::OnDemand),
{
    match tab {
        Tab::Info | Tab::Stats | Tab::Cluster => false,
        _ => true,
    }
}

/// Whether some shard answered: a round in which none did keeps the old
/// picture.
pub fn any_present<T>(data: &Vec<Option<T>>) -> (r: bool)
    ensures
        r == exists|i: int| 0 <= i < data@.len() && (#[trigger] data@[i]) is Some,
{
    let mut i: usize = 0;
    while i < data.len()
        invariant
            i <= data@.len(),
            forall|k: int| 0 <= k < i ==> (#[trigger] data@[k]) is None,
        decreases data@.len() - i,
    {
        if data[i].is_some() {
            return true;
        }
        i += 1;
    }
    false
}

/// The largest value of the layers that arrived, if any value did.
pub open spec fn values_max(data: Seq<Option<Vec<i32>>>) -> Option<int>
    decreases data.len(),
{
    if data.len() == 0 {
        None
    } else {
        let rest = values_max(data.drop_last());
        match data.last() {
            None => rest,
            Some(v) => max_opt(rest, seq_max(v@)),
        }
    }
}

/// The larger of two optional values.
pub open spec fn max_opt(a: Option<int>, b: Option<int>) -> Option<int> {
    match (a, b) {
        (None, _) => b,
        (_, None) => a,
        (Some(x), Some(y)) => Some(if x >= y { x } else { y }),
    }
}

/// The largest value of a list, if it has one.
pub open spec fn seq_max(s: Seq<i32>) -> Option<int>
    decreases s.len(),
{
    if s.len() == 0 {
        None
    } else {
        max_opt(seq_max(s.drop_last()), Some(s.last() as int))
    }
}

/// The largest value of a list bounds every value of it.
proof fn lemma_seq_max_bounds(s: Seq<i32>, k: int)
    requires
        0 <= k < s.len(),
    ensures
        seq_max(s) matches Some(m) && s[k] <= m,
    decreases s.len(),
{
    if k < s.len() - 1 {
        lemma_seq_max_bounds(s.drop_last(), k);
    } else if s.len() > 1 {
        lemma_seq_max_some(s.drop_last());
    }
}

/// A list with a value has a largest value.
proof fn lemma_seq_max_some(s: Seq<i32>)
    requires
        s.len() > 0,
    ensures
        seq_max(s) is Some,
    decreases s.len(),
{
    if s.len() > 1 {
        lemma_seq_max_some(s.drop_last());
    }
}

/// The largest value of a list is one of its values, so it fits an `i32`.
proof fn lemma_seq_max_range(s: Seq<i32>)
    ensures
        seq_max(s) matches Some(m) ==> i32::MIN <= m <= i32::MAX,
    decreases s.len(),
{
    if s.len() > 0 {
        lemma_seq_max_range(s.drop_last());
    }
}

/// The largest value that arrived fits an `i32`.
proof fn lemma_values_max_range(data: Seq<Option<Vec<i32>>>)
    ensures
        values_max(data) matches Some(m) ==> i32::MIN <= m <= i32::MAX,
    decreases data.len(),
{
    if data.len() > 0 {
        lemma_values_max_range(data.drop_last());
        if let Some(v) = data.last() {
            lemma_seq_max_range(v@);
        }
    }
}

/// The largest value that arrived bounds every value that arrived.
proof fn lemma_values_max_bounds(data: Seq<Option<Vec<i32>>>, i: int, k: int)
    requires
        0 <= i < data.len(),
        data[i] matches Some(v) && 0 <= k < v@.len(),
    ensures
        values_max(data) matches Some(m) && data[i].unwrap()@[k] <= m,
    decreases data.len(),
{
    let last = data.len() - 1;
    if i < last {
        lemma_values_max_bounds(data.drop_last(), i, k);
        if let Some(v) = data.last() {
            if v@.len() > 0 {
                lemma_seq_max_some(v@);
            }
        }
    } else {
        lemma_seq_max_bounds(data[i].unwrap()@, k);
    }
}

/// How a layer is scaled for display: the value shown at the top of the
/// legend, and the value that maps to the top of the colour scale.
#[derive(Clone, Copy, Debug, PartialEq, Eq, Structural)]
pub struct LayerScale {
    pub legend_max: i32,
    pub scale_max: i32,
}

/// The scale of a layer: the largest value that arrived (0 when none did);
/// the legend tops out at the given value, or at that largest value; the
/// colours are scaled to whichever of the two is larger.
pub open spec fn spec_layer_scale(data: Seq<Option<Vec<i32>>>, legend: Option<i32>) -> LayerScale {
    let global = match values_max(data) { Some(m) => m, None => 0 };
    let legend_max = match legend { Some(l) => l as int, None => global };
    LayerScale {
        legend_max: legend_max as i32,
        scale_max: (if legend_max >= global { legend_max } else { global }) as i32,
    }
}

/// The scale of a data layer over all shards.
pub fn layer_scale(data: &Vec<Option<Vec<i32>>>, legend: Option<i32>) -> (s: LayerScale)
    ensures
        s == spec_layer_scale(data@, legend),
{
    let mut best: Option<i32> = None;
    let mut i: usize = 0;
    while i < data.len()
        invariant
            i <= data@.len(),
            match best {
                None => values_max(data@.take(i as int)) is None,
                Some(b) => values_max(data@.take(i as int)) == Some(b as int),
            },
        decreases data@.len() - i,
    {
        assert(data@.take(i as int + 1).drop_last() =~= data@.take(i as int));
        match &data[i] {
            None => {},
            Some(values) => {
                let ghost before = best;
                let mut j: usize = 0;
                let mut local: Option<i32> = None;
                while j < values.len()
                    invariant
                        j <= values@.len(),
                        match local {
                            None => seq_max(values@.take(j as int)) is None,
                            Some(b) => seq_max(values@.take(j as int)) == Some(b as int),
                        },
                    decreases values@.len() - j,
                {
                    assert(values@.take(j as int + 1).drop_last() =~= values@.take(j as int));
                    let v = values[j];
                    local = match local {
                        None => Some(v),
                        Some(b) => Some(if b >= v { b } else { v }),
                    };
                    j += 1;
                }
                assert(values@.take(j as int) =~= values@);
                best = match (best, local) {
                    (None, _) => local,
                    (_, None) => best,
                    (Some(x), Some(y)) => Some(if x >= y { x } else { y }),
                };
            },
        }
        i += 1;
    }
    assert(data@.take(i as int) =~= data@);
    let global = match best {
        Some(m) => m,
        None => 0,
    };
    let legend_max = match legend {
        Some(l) => l,
        None => global,
    };
    LayerScale { legend_max, scale_max: if legend_max >= global { legend_max } else { global } }
}

/// Every value that arrived lies at or below the top of the colour scale,
/// and the legend never reaches above it: scaled values stay within the
/// scale.
pub proof fn law_layer_scale_bounds(data: Seq<Option<Vec<i32>>>, legend: Option<i32>, i: int, k: int)
    requires
        0 <= i < data.len(),
        data[i] matches Some(v) && 0 <= k < v@.len(),
    ensures
        data[i].unwrap()@[k] <= spec_layer_scale(data, legend).scale_max,
        spec_layer_scale(data, legend).legend_max <= spec_layer_scale(data, legend).scale_max,
{
    lemma_values_max_bounds(data, i, k);
    lemma_values_max_range(data);
}

/// A discovered node serves the given host: same address, same RPC port.
pub open spec fn serves(node: NodeAddress, host: HostInfo) -> bool {
    node.private_ip@ == host.hostname@ && node.internal_port == host.port
}

/// The first host a node serves, if any.
pub open spec fn first_served(hosts: Seq<HostInfo>, node: NodeAddress) -> Option<int>
    decreases hosts.len(),
{
    if hosts.len() == 0 {
        None
    } else {
        match first_served(hosts.drop_last(), node) {
            Some(j) => Some(j),
            None => if serves(node, hosts.last()) { Some(hosts.len() - 1) } else { None },
        }
    }
}

/// The first served host is a host, and it is served.
proof fn lemma_first_served_range(hosts: Seq<HostInfo>, node: NodeAddress)
    ensures
        first_served(hosts, node) matches Some(j) ==> 0 <= j < hosts.len() && serves(node, hosts[j]),
    decreases hosts.len(),
{
    if hosts.len() > 0 {
        lemma_first_served_range(hosts.drop_last(), node);
    }
}

/// A host found in a prefix stays the first one found.
proof fn lemma_first_served_prefix(hosts: Seq<HostInfo>, node: NodeAddress, m: int)
    requires
        0 <= m <= hosts.len(),
        first_served(hosts.take(m), node) is Some,
    ensures
        first_served(hosts, node) == first_served(hosts.take(m), node),
    decreases hosts.len(),
{
    if hosts.len() > m {
        let d = hosts.drop_last();
        assert(d.take(m) =~= hosts.take(m));
        lemma_first_served_prefix(d, node, m);
    } else {
        assert(hosts.take(m) =~= hosts);
    }
}

/// The web port found for each backend host: each discovered node other
/// than the coordinator gives its web port to the first host it serves, a
/// later node overriding an earlier one.
pub open spec fn http_ports_after(nodes: Seq<NodeAddress>, coordinator: HostInfo, hosts: Seq<HostInfo>) -> Seq<Option<u16>>
    decreases nodes.len(),
{
    if nodes.len() == 0 {
        Seq::new(hosts.len(), |j: int| None)
    } else {
        let prev = http_ports_after(nodes.drop_last(), coordinator, hosts);
        let n = nodes.last();
        if serves(n, coordinator) {
            prev
        } else {
            match first_served(hosts, n) {
                Some(j) => prev.update(j, Some(n.http_port)),
                None => prev,
            }
        }
    }
}

/// The first host in `hosts` that `node` serves.
fn find_served(hosts: &Vec<HostInfo>, node: &NodeAddress) -> (r: Option<usize>)
    ensures
        match r {
            Some(j) => first_served(hosts@, *node) == Some(j as int),
            None => first_served(hosts@, *node) is None,
        },
{
    let mut j: usize = 0;
    while j < hosts.len()
        invariant
            j <= hosts@.len(),
            first_served(hosts@.take(j as int), *node) is None,
        decreases hosts@.len() - j,
    {
        assert(hosts@.take(j as int + 1).drop_last() =~= hosts@.take(j as int));
        if node.private_ip == hosts[j].hostname && node.internal_port == hosts[j].port {
            proof {
                assert(first_served(hosts@.take(j as int + 1), *node) == Some(j as int));
                lemma_first_served_prefix(hosts@, *node, j as int + 1);
            }
            return Some(j);
        }
        j += 1;
    }
    assert(hosts@.take(j as int) =~= hosts@);
    None
}

/// Finds the web port of each backend host among the discovered nodes;
/// `None` where no node serves the host.
pub fn match_backend_http_ports(nodes: &Vec<NodeAddress>, coordinator: &HostInfo, hosts: &Vec<HostInfo>) -> (ports: Vec<Option<u16>>)
    ensures
        ports@ == http_ports_after(nodes@, *coordinator, hosts@),
{
    let mut ports: Vec<Option<u16>> = Vec::new();
    let mut k: usize = 0;
    while k < hosts.len()
        invariant
            k <= hosts@.len(),
            ports@ == Seq::new(k as nat, |j: int| None::<u16>),
        decreases hosts@.len() - k,
    {
        ports.push(None);
        assert(ports@ =~= Seq::new(k as nat + 1, |j: int| None::<u16>));
        k += 1;
    }
    assert(ports@ =~= http_ports_after(nodes@.take(0), *coordinator, hosts@));
    let mut i: usize = 0;
    while i < nodes.len()
        invariant
            i <= nodes@.len(),
            ports@ == http_ports_after(nodes@.take(i as int), *coordinator, hosts@),
        decreases nodes@.len() - i,
    {
        assert(nodes@.take(i as int + 1).drop_last() =~= nodes@.take(i as int));
        let node = &nodes[i];
        let is_coordinator = node.private_ip == coordinator.hostname && node.internal_port == coordinator.port;
        if !is_coordinator {
            match find_served(hosts, node) {
                Some(j) => {
                    proof {
                        lemma_ports_len(nodes@.take(i as int), *coordinator, hosts@);
                        lemma_first_served_range(hosts@, *node);
                    }
                    ports.set(j, Some(node.http_port));
                },
                None => {},
            }
        }
        i += 1;
    }
    assert(nodes@.take(i as int) =~= nodes@);
    ports
}

/// There is one entry per host.
proof fn lemma_ports_len(nodes: Seq<NodeAddress>, coordinator: HostInfo, hosts: Seq<HostInfo>)
    ensures
        http_ports_after(nodes, coordinator, hosts).len() == hosts.len(),
    decreases nodes.len(),
{
    if nodes.len() > 0 {
        lemma_ports_len(nodes.drop_last(), coordinator, hosts);
        let n = nodes.last();
        if !serves(n, coordinator) {
            lemma_first_served_range(hosts, n);
        }
    }
}

/// What an answer to a request for the cluster layout said.
#[derive(Clone, Copy, Debug, PartialEq, Eq, Structural)]
pub enum TopologyReply {
    /// The layout arrived.
    Ready,
    /// The colony is still starting.
    InProgress,
    /// There is no colony yet.
    NotFound,
    /// Another status, or no answer.
    Failed,
}

/// Where the wait for the layout stands.
#[derive(Clone, Copy, Debug, PartialEq, Eq, Structural)]
pub enum PollPhase {
    /// Nothing asked yet, or the first answer pending.
    Initial,
    /// Waiting while the colony is said to be starting; a missing colony is
    /// started again.
    WaitingInProgress,
    /// Waiting after starting the colony; a missing colony counts as a try.
    WaitingAfterStart,
}

/// Why the wait for the layout ended without it.
#[derive(Clone, Copy, Debug, PartialEq, Eq, Structural)]
pub enum PollError {
    /// An unexpected answer.
    HttpError,
    /// The colony was still starting after the last try.
    StillInitializing,
    /// The colony was still missing after starting it.
    NotInitializedAfterStart,
    /// The request to start the colony failed.
    ColonyStartFailed,
}

/// What the viewer does next while waiting for the layout.
#[derive(Clone, Copy, Debug, PartialEq, Eq, Structural)]
pub enum PollAction {
    /// Ask for the layout after a pause.
    FetchAfter { delay_ms: u64 },
    /// Ask the coordinator to start the colony.
    StartColony,
    /// The layout is here.
    Done,
    /// Stop waiting.
    GiveUp(PollError),
}

/// The most tries while waiting.
pub const MAX_TOPOLOGY_RETRIES: u32 = 10;

/// The wait for the cluster layout.
#[derive(Clone, Copy, Debug, PartialEq, Eq, Structural)]
pub struct TopologyPoll {
    pub phase: PollPhase,
    pub retry_count: u32,
}

/// The pause, in milliseconds, before try `retry + 1`: it doubles from a
/// tenth of a second and is capped at one and a half seconds, so that the
/// pauses of a whole wait add up to about ten seconds.
pub open spec fn retry_delay(retry: u32) -> u64 {
    if retry == 0 {
        100
    } else if retry == 1 {
        200
    } else if retry == 2 {
        400
    } else if retry == 3 {
        800
    } else {
        1500
    }
}

/// The pause before try `retry + 1`.
pub fn retry_delay_ms(retry: u32) -> (d: u64)
    ensures
        d == retry_delay(retry),
{
    if retry == 0 {
        100
    } else if retry == 1 {
        200
    } else if retry == 2 {
        400
    } else if retry == 3 {
        800
    } else {
        1500
    }
}

/// The pauses before the first `n` tries of a wait, added up.
pub open spec fn total_pause(n: nat) -> nat
    decreases n,
{
    if n == 0 {
        0
    } else {
        total_pause((n - 1) as nat) + (retry_delay((n - 1) as u32) as nat)
    }
}

/// A waiting phase after one more unsuccessful try: wait longer, or give
/// up after the last try.
pub open spec fn after_failed_try(phase: PollPhase, retry: u32, err: PollError) -> (TopologyPoll, PollAction) {
    if retry + 1 >= MAX_TOPOLOGY_RETRIES {
        (TopologyPoll { phase, retry_count: (retry + 1) as u32 }, PollAction::GiveUp(err))
    } else {
        (TopologyPoll { phase, retry_count: (retry + 1) as u32 }, PollAction::FetchAfter { delay_ms: retry_delay((retry + 1) as u32) })
    }
}

/// The next state and action after an answer to a request for the layout.
pub open spec fn spec_on_topology_reply(s: TopologyPoll, reply: TopologyReply) -> (TopologyPoll, PollAction) {
    match reply {
        TopologyReply::Ready => (s, PollAction::Done),
        TopologyReply::Failed => (s, PollAction::GiveUp(PollError::HttpError)),
        TopologyReply::InProgress => match s.phase {
            PollPhase::Initial => (
                TopologyPoll { phase: PollPhase::WaitingInProgress, retry_count: 0 },
                PollAction::FetchAfter { delay_ms: retry_delay(0) },
            ),
            _ => after_failed_try(s.phase, s.retry_count, PollError::StillInitializing),
        },
        TopologyReply::NotFound => match s.phase {
            PollPhase::WaitingAfterStart => after_failed_try(s.phase, s.retry_count, PollError::NotInitializedAfterStart),
            _ => (s, PollAction::StartColony),
        },
    }
}

/// The next state and action after the request to start the colony.
pub open spec fn spec_on_colony_start(s: TopologyPoll, accepted: bool) -> (TopologyPoll, PollAction) {
    if !accepted {
        (s, PollAction::GiveUp(PollError::ColonyStartFailed))
    } else {
        let phase = match s.phase {
            PollPhase::Initial => PollPhase::WaitingAfterStart,
            p => p,
        };
        (TopologyPoll { phase, retry_count: 0 }, PollAction::FetchAfter { delay_ms: retry_delay(0) })
    }
}

impl TopologyPoll {
    /// The count of tries stays below the limit.
    pub open spec fn wf(&self) -> bool {
        self.retry_count < MAX_TOPOLOGY_RETRIES
    }

    /// A wait that has not asked yet; the first request goes out at once.
    pub fn new() -> (s: TopologyPoll)
        ensures
            s.wf(),
            s.phase == PollPhase::Initial,
            s.retry_count == 0,
    {
        TopologyPoll { phase: PollPhase::Initial, retry_count: 0 }
    }

    /// Takes in an answer to a request for the layout: the layout ends the
    /// wait; a starting colony is waited for, with pauses that double up to
    /// a cap, up to the last try; a missing colony is started (or, once the
    /// viewer started it, counts as a try); anything else ends the wait.
    pub fn on_topology_reply(&mut self, reply: TopologyReply) -> (a: PollAction)
        requires
            old(self).wf(),
        ensures
            (*final(self), a) == spec_on_topology_reply(*old(self), reply),
            !(a is GiveUp) ==> final(self).wf(),
    {
        match reply {
            TopologyReply::Ready => PollAction::Done,
            TopologyReply::Failed => PollAction::GiveUp(PollError::HttpError),
            TopologyReply::InProgress => match self.phase {
                PollPhase::Initial => {
                    self.phase = PollPhase::WaitingInProgress;
                    self.retry_count = 0;
                    PollAction::FetchAfter { delay_ms: retry_delay_ms(0) }
                },
                _ => self.failed_try(PollError::StillInitializing),
            },
            TopologyReply::NotFound => match self.phase {
                PollPhase::WaitingAfterStart => self.failed_try(PollError::NotInitializedAfterStart),
                _ => PollAction::StartColony,
            },
        }
    }

    fn failed_try(&mut self, err: PollError) -> (a: PollAction)
        requires
            old(self).wf(),
        ensures
            (*final(self), a) == after_failed_try(old(self).phase, old(self).retry_count, err),
    {
        self.retry_count = self.retry_count + 1;
        if self.retry_count >= MAX_TOPOLOGY_RETRIES {
            PollAction::GiveUp(err)
        } else {
            PollAction::FetchAfter { delay_ms: retry_delay_ms(self.retry_count) }
        }
    }

    /// Takes in the answer to the request to start the colony: once it is
    /// accepted the tries start over, after the first pause.
    pub fn on_colony_start(&mut self, accepted: bool) -> (a: PollAction)
        ensures
            (*final(self), a) == spec_on_colony_start(*old(self), accepted),
            final(self).wf() || !accepted,
    {
        if !accepted {
            return PollAction::GiveUp(PollError::ColonyStartFailed);
        }
        if self.phase == PollPhase::Initial {
            self.phase = PollPhase::WaitingAfterStart;
        }
        self.retry_count = 0;
        PollAction::FetchAfter { delay_ms: retry_delay_ms(0) }
    }
}

/// Once the viewer has started the colony, every answer but the layout
/// brings the wait one try closer to its end: the wait stays in its phase
/// with one more try counted, or it ends. So at most
/// `MAX_TOPOLOGY_RETRIES` further requests are made.
pub proof fn law_wait_after_start_is_bounded(s: TopologyPoll, reply: TopologyReply)
    requires
        s.wf(),
        s.phase == PollPhase::WaitingAfterStart,
    ensures
        ({
            let (n, a) = spec_on_topology_reply(s, reply);
            a is Done || a is GiveUp || (n.phase == PollPhase::WaitingAfterStart && n.retry_count == s.retry_count + 1 && n.wf())
        }),
{
}

/// Every pause before a new request is the pause for the count of tries
/// made so far, and a wait that goes on keeps its count below the limit.
pub proof fn law_wait_pauses(s: TopologyPoll, reply: TopologyReply)
    requires
        s.wf(),
    ensures
        ({
            let (n, a) = spec_on_topology_reply(s, reply);
            a matches PollAction::FetchAfter { delay_ms } ==> delay_ms == retry_delay(n.retry_count) && n.wf()
        }),
{
}

/// A wait pauses at most `MAX_TOPOLOGY_RETRIES` times, before the tries
/// numbered from 0 up, so its pauses add up to at most ten and a half
/// seconds however the tries go.
pub proof fn law_total_wait_is_bounded(n: nat)
    requires
        n <= MAX_TOPOLOGY_RETRIES,
    ensures
        total_pause(n) <= 10500,
        total_pause(MAX_TOPOLOGY_RETRIES as nat) == 10500,
{
    reveal_with_fuel(total_pause, 11);
    assert(total_pause(MAX_TOPOLOGY_RETRIES as nat) == 10500);
}

/// The text of a rule's value: the value, and the initial value beside it
/// when the two differ.
pub open spec fn rule_text(current: u32, initial: u32) -> Seq<char> {
    if current != initial {
        decimal(current as nat) + " (initial="@ + decimal(initial as nat) + ")"@
    } else {
        decimal(current as nat)
    }
}

/// The rows of the rules table: label and text of each rule, in order.
pub open spec fn rule_rows_of(rules: ColonyLifeRules) -> Seq<(Seq<char>, Seq<char>)> {
    let i = spec_initial_rules();
    seq![
        ("Health Cost Per Size Unit:"@, rule_text(rules.health_cost_per_size_unit, i.health_cost_per_size_unit)),
        ("Eat Capacity Per Size Unit:"@, rule_text(rules.eat_capacity_per_size_unit, i.eat_capacity_per_size_unit)),
        ("Health Cost If Can Kill:"@, rule_text(rules.health_cost_if_can_kill, i.health_cost_if_can_kill)),
        ("Health Cost If Can Move:"@, rule_text(rules.health_cost_if_can_move, i.health_cost_if_can_move)),
        ("Mutation Chance:"@, rule_text(rules.mutation_chance, i.mutation_chance)),
        ("Random Death Chance:"@, rule_text(rules.random_death_chance, i.random_death_chance)),
    ]
}

fn rule_value_text(current: u32, initial: u32) -> (s: String)
    ensures
        s@ == rule_text(current, initial),
{
    proof {
        reveal_strlit(" (initial=");
        reveal_strlit(")");
    }
    let mut s = String::new();
    push_decimal(&mut s, current as u64);
    if current != initial {
        s.append(" (initial=");
        push_decimal(&mut s, initial as u64);
        s.append(")");
    }
    assert(s@ =~= rule_text(current, initial));
    s
}

/// The rows of the rules table of the info tab.
pub fn rule_rows(rules: &ColonyLifeRules) -> (rows: Vec<(String, String)>)
    ensures
        rows@.map_values(|r: (String, String)| (r.0@, r.1@)) == rule_rows_of(*rules),
{
    let initial = colony_life_initial_rules();
    let mut rows: Vec<(String, String)> = Vec::new();
    rows.push((String::from_str("Health Cost Per Size Unit:"),
        rule_value_text(rules.health_cost_per_size_unit, initial.health_cost_per_size_unit)));
    rows.push((String::from_str("Eat Capacity Per Size Unit:"),
        rule_value_text(rules.eat_capacity_per_size_unit, initial.eat_capacity_per_size_unit)));
    rows.push((String::from_str("Health Cost If Can Kill:"),
        rule_value_text(rules.health_cost_if_can_kill, initial.health_cost_if_can_kill)));
    rows.push((String::from_str("Health Cost If Can Move:"),
        rule_value_text(rules.health_cost_if_can_move, initial.health_cost_if_can_move)));
    rows.push((String::from_str("Mutation Chance:"),
        rule_value_text(rules.mutation_chance, initial.mutation_chance)));
    rows.push((String::from_str("Random Death Chance:"),
        rule_value_text(rules.random_death_chance, initial.random_death_chance)));
    assert(rows@.map_values(|r: (String, String)| (r.0@, r.1@)) =~= rule_rows_of(*rules));
    rows
}

/// `a` comes before `b` in text order: character by character, a prefix
/// first.
pub open spec fn text_before(a: Seq<char>, b: Seq<char>) -> bool
    decreases a.len(),
{
    if a.len() == 0 {
        b.len() > 0
    } else if b.len() == 0 {
        false
    } else if a[0] != b[0] {
        (a[0] as int) < (b[0] as int)
    } else {
        text_before(a.drop_first(), b.drop_first())
    }
}

/// No text comes before itself.
proof fn lemma_text_irreflexive(a: Seq<char>)
    ensures
        !text_before(a, a),
    decreases a.len(),
{
    if a.len() > 0 {
        lemma_text_irreflexive(a.drop_first());
    }
}

/// Text order is transitive.
proof fn lemma_text_transitive(a: Seq<char>, b: Seq<char>, c: Seq<char>)
    requires
        text_before(a, b),
        text_before(b, c),
    ensures
        text_before(a, c),
    decreases a.len(),
{
    if a.len() > 0 && b.len() > 0 && c.len() > 0 && a[0] == b[0] && b[0] == c[0] {
        lemma_text_transitive(a.drop_first(), b.drop_first(), c.drop_first());
    }
}

/// Texts that agree on their first `i` characters compare as their rests.
proof fn lemma_text_common_prefix(a: Seq<char>, b: Seq<char>, i: int)
    requires
        0 <= i < a.len(),
        i < b.len(),
        a[i] == b[i],
        text_before(a, b) == text_before(a.skip(i), b.skip(i)),
    ensures
        text_before(a, b) == text_before(a.skip(i + 1), b.skip(i + 1)),
{
    assert(a.skip(i).drop_first() =~= a.skip(i + 1));
    assert(b.skip(i).drop_first() =~= b.skip(i + 1));
}

/// Compares two texts in text order.
fn text_before_exec(a: &String, b: &String) -> (r: bool)
    ensures
        r == text_before(a@, b@),
{
    let x = chars_of(a.as_str());
    let y = chars_of(b.as_str());
    let mut i: usize = 0;
    assert(x@.skip(0) =~= x@ && y@.skip(0) =~= y@);
    while i < x.len() && i < y.len() && x[i] == y[i]
        invariant
            x@ == a@,
            y@ == b@,
            i <= x@.len(),
            i <= y@.len(),
            text_before(x@, y@) == text_before(x@.skip(i as int), y@.skip(i as int)),
        decreases x@.len() - i,
    {
        proof {
            lemma_text_common_prefix(x@, y@, i as int);
        }
        i += 1;
    }
    if i == x.len() {
        assert(x@.skip(i as int).len() == 0);
        i < y.len()
    } else if i == y.len() {
        assert(y@.skip(i as int).len() == 0 && x@.skip(i as int).len() > 0);
        false
    } else {
        assert(x@.skip(i as int)[0] == x@[i as int] && y@.skip(i as int)[0] == y@[i as int]);
        assert(x@.skip(i as int).len() > 0 && y@.skip(i as int).len() > 0);
        x[i] < y[i]
    }
}

/// `a` comes before `b` in the cluster table: by host name in text order,
/// then by port.
pub open spec fn host_before(a: HostInfo, b: HostInfo) -> bool {
    text_before(a.hostname@, b.hostname@) || (a.hostname@ == b.hostname@ && a.port < b.port)
}

proof fn lemma_host_order(a: HostInfo, b: HostInfo, c: HostInfo)
    ensures
        !host_before(a, a),
        host_before(a, b) && host_before(b, c) ==> host_before(a, c),
{
    lemma_text_irreflexive(a.hostname@);
    if host_before(a, b) && host_before(b, c) {
        if text_before(a.hostname@, b.hostname@) && text_before(b.hostname@, c.hostname@) {
            lemma_text_transitive(a.hostname@, b.hostname@, c.hostname@);
        }
    }
}

/// The hosts in table order: every host comes no later than the hosts
/// after it.
pub open spec fn table_ordered(hosts: Seq<HostInfo>) -> bool {
    forall|i: int, j: int| 0 <= i < j < hosts.len() ==> !host_before(#[trigger] hosts[j], #[trigger] hosts[i])
}

/// The backends in the order of the cluster table: by host name, then by
/// port; hosts that compare equal keep their order.
pub fn sorted_backends(hosts: &Vec<HostInfo>) -> (r: Vec<HostInfo>)
    ensures
        r@.to_multiset() == hosts@.to_multiset(),
        table_ordered(r@),
{
    let mut r: Vec<HostInfo> = Vec::new();
    let mut i: usize = 0;
    assert(hosts@.take(0) =~= r@);
    while i < hosts.len()
        invariant
            i <= hosts@.len(),
            r@.to_multiset() == hosts@.take(i as int).to_multiset(),
            table_ordered(r@),
        decreases hosts@.len() - i,
    {
        let x = hosts[i].duplicate();
        let mut p: usize = 0;
        while p < r.len() && !(text_before_exec(&x.hostname, &r[p].hostname)
            || (x.hostname == r[p].hostname && x.port < r[p].port))
            invariant
                p <= r@.len(),
                forall|k: int| 0 <= k < p ==> !host_before(x, #[trigger] r@[k]),
            decreases r@.len() - p,
        {
            p += 1;
        }
        let ghost old_r = r@;
        r.insert(p, x);
        proof {
            assert(p < old_r.len() ==> host_before(x, old_r[p as int]));
            assert forall|a: int, b: int| 0 <= a < b < r@.len() implies !host_before(#[trigger] r@[b], #[trigger] r@[a]) by {
                if a < p && b == p {
                } else if a == p && b > p {
                    lemma_host_order(old_r[b - 1], x, old_r[p as int]);
                    if b - 1 > p {
                        assert(!host_before(old_r[b - 1], old_r[p as int]));
                    }
                } else if a < p && b > p {
                    assert(!host_before(old_r[b - 1], old_r[a]));
                } else if b < p {
                } else {
                    assert(a > p);
                    assert(!host_before(old_r[b - 1], old_r[a - 1]));
                }
            }
            assert(r@ == old_r.insert(p as int, x));
            vstd::seq_lib::to_multiset_insert(old_r, p as int, x);
            assert(hosts@.take(i as int + 1) =~= hosts@.take(i as int).push(hosts@[i as int]));
            vstd::seq_lib::to_multiset_build(hosts@.take(i as int), hosts@[i as int]);
        }
        i += 1;
    }
    assert(hosts@.take(i as int) =~= hosts@);
    r
}

/// How many shards the layout gives a host.
pub open spec fn shards_of(shard_map: Seq<(Shard, HostInfo)>, host: HostInfo) -> int
    decreases shard_map.len(),
{
    if shard_map.len() == 0 {
        0
    } else {
        shards_of(shard_map.drop_last(), host)
            + if shard_map.last().1.hostname@ == host.hostname@ && shard_map.last().1.port == host.port { 1int } else { 0int }
    }
}

/// The number of shards a backend hosts, for the cluster table.
pub fn shard_count(shard_map: &Vec<(Shard, HostInfo)>, host: &HostInfo) -> (n: usize)
    ensures
        n == shards_of(shard_map@, *host),
{
    let mut n: usize = 0;
    let mut i: usize = 0;
    while i < shard_map.len()
        invariant
            i <= shard_map@.len(),
            n == shards_of(shard_map@.take(i as int), *host),
            n <= i,
        decreases shard_map@.len() - i,
    {
        assert(shard_map@.take(i as int + 1).drop_last() =~= shard_map@.take(i as int));
        if shard_map[i].1.hostname == host.hostname && shard_map[i].1.port == host.port {
            n += 1;
        }
        i += 1;
    }
    assert(shard_map@.take(i as int) =~= shard_map@);
    n
}

/// The backend rows of the cluster table: each backend in table order, with
/// the number of shards it hosts.
pub fn cluster_rows(hosts: &Vec<HostInfo>, shard_map: &Vec<(Shard, HostInfo)>) -> (rows: Vec<(HostInfo, usize)>)
    ensures
        rows@.map_values(|r: (HostInfo, usize)| r.0).to_multiset() == hosts@.to_multiset(),
        table_ordered(rows@.map_values(|r: (HostInfo, usize)| r.0)),
        forall|k: int| 0 <= k < rows@.len() ==> (#[trigger] rows@[k]).1 == shards_of(shard_map@, rows@[k].0),
{
    let sorted = sorted_backends(hosts);
    let mut rows: Vec<(HostInfo, usize)> = Vec::new();
    let mut i: usize = 0;
    while i < sorted.len()
        invariant
            i <= sorted@.len(),
            rows@.map_values(|r: (HostInfo, usize)| r.0) == sorted@.take(i as int),
            forall|k: int| 0 <= k < rows@.len() ==> (#[trigger] rows@[k]).1 == shards_of(shard_map@, rows@[k].0),
        decreases sorted@.len() - i,
    {
        let n = shard_count(shard_map, &sorted[i]);
        let ghost before = rows@;
        rows.push((sorted[i].duplicate(), n));
        assert(rows@.map_values(|r: (HostInfo, usize)| r.0) =~= before.map_values(|r: (HostInfo, usize)| r.0).push(sorted@[i as int]));
        assert(sorted@.take(i as int + 1) =~= sorted@.take(i as int).push(sorted@[i as int]));
        i += 1;
    }
    assert(sorted@.take(i as int) =~= sorted@);
    rows
}

} // verus!
