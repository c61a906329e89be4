//! Process settings: the backend's own address and deployment mode, the
//! parsing of a deployment mode, and the coordinator's tick-rate monitor.

use vstd::prelude::*;
use std::time::Instant;

verus! {

/// A backend's settings, each set once at start-up.
pub struct BackendConfig {
    pub hostname: Option<String>,
    pub port: Option<u16>,
    pub deployment_mode: Option<String>,
}

impl BackendConfig {
    /// Settings with nothing set yet.
    pub fn new() -> (c: BackendConfig)
        ensures
            c.hostname is None,
            c.port is None,
            c.deployment_mode is None,
    {
        BackendConfig { hostname: None, port: None, deployment_mode: None }
    }
}

/// Sets the backend's host name; it can be set only once.
pub fn set_backend_hostname(config: &mut BackendConfig, hostname: String)
    requires
        old(config).hostname is None,
    ensures
        final(config).hostname == Some(hostname),
        final(config).port == old(config).port,
        final(config).deployment_mode == old(config).deployment_mode,
{
    config.hostname = Some(hostname);
}

/// Sets the backend's RPC port; it can be set only once.
pub fn set_backend_port(config: &mut BackendConfig, port: u16)
    requires
        old(config).port is None,
    ensures
        final(config).port == Some(port),
        final(config).hostname == old(config).hostname,
        final(config).deployment_mode == old(config).deployment_mode,
{
    config.port = Some(port);
}

/// Sets the deployment mode; it can be set only once.
pub fn set_deployment_mode(config: &mut BackendConfig, mode: String)
    requires
        old(config).deployment_mode is None,
    ensures
        final(config).deployment_mode == Some(mode),
        final(config).hostname == old(config).hostname,
        final(config).port == old(config).port,
{
    config.deployment_mode = Some(mode);
}

/// The backend's host name, once set.
pub fn get_backend_hostname(config: &BackendConfig) -> (h: &str)
    requires
        config.hostname is Some,
    ensures
        h@ == config.hostname.unwrap()@,
{
    match &config.hostname {
        Some(h) => h.as_str(),
        None => "",
    }
}

/// The backend's RPC port, once set.
pub fn get_backend_port(config: &BackendConfig) -> (p: u16)
    requires
        config.port is Some,
    ensures
        p == config.port.unwrap(),
{
    match config.port {
        Some(p) => p,
        None => 0,
    }
}

/// Whether the backend runs in the cloud: the deployment mode is `aws`.
/// An unset mode counts as not.
pub fn is_aws_deployment(config: &BackendConfig) -> (r: bool)
    ensures
        r == match config.deployment_mode {
            Some(m) => m@ == "aws"@,
            None => false,
        },
{
    match &config.deployment_mode {
        Some(m) => *m == String::from_str("aws"),
        None => false,
    }
}

/// Where the cluster runs.
#[derive(Clone, Copy, Debug, PartialEq, Eq, Structural)]
pub enum DeploymentMode {
    Localhost,
    Aws,
}

/// The lower-case form of a text as `str::to_lowercase` gives it.
pub uninterp spec fn lowercase_of(s: Seq<char>) -> Seq<char>;

/// Calls `str::to_lowercase`. Its result is a function of the text alone,
/// named `lowercase_of`; nothing more is claimed of it.
#[verifier::external_body]
fn to_lowercase(s: &str) -> (r: String)
    ensures
        r@ == lowercase_of(s@),
{
    s.to_lowercase()
}

/// The message for an unknown deployment mode.
pub open spec fn invalid_mode_message(s: Seq<char>) -> Seq<char> {
    "Invalid deployment mode: "@ + s + ". Must be 'localhost' or 'aws'"@
}

impl DeploymentMode {
    /// Reads a deployment mode from the lower-case form `lower` of the text
    /// `original`; an unknown mode is named, as given, in the error.
    pub fn from_lowercase(lower: &str, original: &str) -> (r: Result<DeploymentMode, String>)
        ensures
            lower@ == "localhost"@ ==> r matches Ok(DeploymentMode::Localhost),
            lower@ != "localhost"@ && lower@ == "aws"@ ==> r matches Ok(DeploymentMode::Aws),
            lower@ != "localhost"@ && lower@ != "aws"@ ==> (r matches Err(e) && e@ == invalid_mode_message(original@)),
    {
        let lower = String::from_str(lower);
        if lower == String::from_str("localhost") {
            Ok(DeploymentMode::Localhost)
        } else if lower == String::from_str("aws") {
            Ok(DeploymentMode::Aws)
        } else {
            let mut message = String::from_str("Invalid deployment mode: ");
            message.append(original);
            message.append(". Must be 'localhost' or 'aws'");
            Err(message)
        }
    }

    /// Parses a deployment mode, ignoring case.
    pub fn from_str(s: &str) -> (r: Result<DeploymentMode, String>)
        ensures
            lowercase_of(s@) == "localhost"@ ==> r matches Ok(DeploymentMode::Localhost),
            lowercase_of(s@) != "localhost"@ && lowercase_of(s@) == "aws"@ ==> r matches Ok(DeploymentMode::Aws),
            lowercase_of(s@) != "localhost"@ && lowercase_of(s@) != "aws"@ ==> (r matches Err(e) && e@ == invalid_mode_message(s@)),
    {
        let lower = to_lowercase(s);
        DeploymentMode::from_lowercase(lower.as_str(), s)
    }
}

#[verifier::external_type_specification]
#[verifier::external_body]
pub struct ExInstant(Instant);

/// Calls `std::time::Instant::now`. Nothing is claimed of the instant.
#[verifier::external_body]
fn now_instant() -> Instant {
    Instant::now()
}

/// Follows the tick counter to measure how fast the colony ticks.
pub struct TickMonitor {
    pub last_tick: u64,
    pub last_time: Instant,
    pub initialized: bool,
}

/// The ticks and the time span between two readings of the counter.
pub struct TickInterval {
    pub tick_delta: u64,
    pub since: Instant,
    pub until: Instant,
}

/// `a - b`, or 0 when `b` is larger.
pub open spec fn sat_sub_u64(a: u64, b: u64) -> u64 {
    if a >= b { (a - b) as u64 } else { 0 }
}

/// One reading of the tick counter `current_tick`, taking the monitor from
/// `before` to `after` and giving `r`: the first reading gives nothing; each
/// later one gives the ticks since the previous reading (never negative),
/// from the previous reading's instant to this one's.
pub open spec fn tick_reading(before: TickMonitor, after: TickMonitor, current_tick: u64, r: Option<TickInterval>) -> bool {
    &&& after.initialized
    &&& after.last_tick == current_tick
    &&& !before.initialized ==> r is None
    &&& before.initialized ==> (r matches Some(iv) && iv.since == before.last_time
        && iv.until == after.last_time
        && iv.tick_delta == sat_sub_u64(current_tick, before.last_tick))
}

/// Over a run of readings from a fresh monitor, the first gives nothing and
/// reading `k` gives the ticks since reading `k - 1`, saturating at 0; its
/// span starts where the span of reading `k - 1` ended.
pub proof fn law_tick_readings(ms: Seq<TickMonitor>, ticks: Seq<u64>, rs: Seq<Option<TickInterval>>, k: int)
    requires
        ms.len() == ticks.len() + 1,
        rs.len() == ticks.len(),
        forall|i: int| 0 <= i < ticks.len() ==> tick_reading(#[trigger] ms[i], ms[i + 1], ticks[i], rs[i]),
        !ms[0].initialized,
        0 <= k < ticks.len(),
    ensures
        k == 0 ==> rs[0] is None,
        k > 0 ==> (rs[k] matches Some(iv) && iv.tick_delta == sat_sub_u64(ticks[k], ticks[k - 1])
            && iv.since == ms[k].last_time && iv.until == ms[k + 1].last_time),
        k > 1 ==> (rs[k - 1] matches Some(p) && rs[k] matches Some(iv) && iv.since == p.until),
        ms[k + 1].last_tick == ticks[k],
{
    assert(tick_reading(ms[k], ms[k + 1], ticks[k], rs[k]));
    if k > 0 {
        assert(tick_reading(ms[k - 1], ms[k], ticks[k - 1], rs[k - 1]));
    }
    if k > 1 {
        assert(tick_reading(ms[k - 2], ms[k - 1], ticks[k - 2], rs[k - 2]));
    }
}

impl TickMonitor {
    /// A monitor that has not read the counter yet.
    pub fn new() -> (m: TickMonitor)
        ensures
            m.last_tick == 0,
            !m.initialized,
    {
        TickMonitor { last_tick: 0, last_time: now_instant(), initialized: false }
    }

    /// Takes a reading of the tick counter. The first reading only starts
    /// the measurement; each later one gives the ticks since the previous
    /// reading (never negative) and the two instants.
    pub fn record_tick(&mut self, current_tick: u64) -> (r: Option<TickInterval>)
        ensures
            tick_reading(*old(self), *final(self), current_tick, r),
    {
        if !self.initialized {
            self.last_tick = current_tick;
            self.last_time = now_instant();
            self.initialized = true;
            return None;
        }
        let now = now_instant();
        let tick_delta = current_tick.saturating_sub(self.last_tick);
        let since = self.last_time;
        self.last_tick = current_tick;
        self.last_time = now;
        Some(TickInterval { tick_delta, since, until: now })
    }
}

} // verus!
