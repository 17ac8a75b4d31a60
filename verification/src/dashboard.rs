use vstd::prelude::*;
use vstd::string::*;

use crate::balancer::{name_spec, parse_spec, Algorithm};
use crate::control::{
    algorithm_key, algorithm_key_spec, weight_key, weight_key_spec, BackendRedisState,
    CommandView, StoreCommand,
};
use crate::models::Backend;
use crate::telemetry::{BackendStats, Telemetry};

verus! {

/// The largest weight an operator may set.
pub const MAX_WEIGHT: u32 = 100;

/// Why a dashboard request is refused.
#[derive(Debug)]
pub enum RequestError {
    /// The requested weight is above [`MAX_WEIGHT`].
    WeightTooLarge,
    /// No loaded backend has the given address.
    UnknownBackend(String),
    /// The given algorithm name is not recognised.
    InvalidAlgorithm(String),
}

impl RequestError {
    /// The HTTP status that answers the refusal: 400 for a bad value, 404 for an
    /// unknown backend.
    pub fn status(&self) -> (r: u16)
        ensures
            r == match self {
                RequestError::UnknownBackend(_) => 404u16,
                _ => 400u16,
            },
    {
        match self {
            RequestError::UnknownBackend(_) => 404,
            _ => 400,
        }
    }

    /// The message that explains the refusal.
    pub fn message(&self) -> (r: String)
        ensures
            r@ == match self {
                RequestError::WeightTooLarge => "weight must be 0..=100"@,
                RequestError::UnknownBackend(a) => "unknown backend "@ + a@,
                RequestError::InvalidAlgorithm(a) => "invalid algorithm: "@ + a@,
            },
    {
        match self {
            RequestError::WeightTooLarge => String::from_str("weight must be 0..=100"),
            RequestError::UnknownBackend(a) => String::from_str("unknown backend ").concat(a.as_str()),
            RequestError::InvalidAlgorithm(a) => String::from_str("invalid algorithm: ").concat(a.as_str()),
        }
    }
}

/// Some loaded backend has address `addr`.
pub open spec fn is_known(backends: Seq<Backend>, addr: Seq<char>) -> bool {
    exists|i: int| 0 <= i < backends.len() && #[trigger] backends[i].addr@ == addr
}

/// The address of every loaded backend, the first and the last included, is known, and
/// only addresses of loaded backends are.
pub proof fn lemma_loaded_backends_known(backends: Seq<Backend>, i: int, addr: Seq<char>)
    ensures
        0 <= i < backends.len() ==> is_known(backends, backends[i].addr@),
        is_known(backends, addr) <==> backends.map_values(|b: Backend| b.addr@).contains(addr),
{
    let addrs = backends.map_values(|b: Backend| b.addr@);
    if 0 <= i < backends.len() {
        assert(backends[i].addr@ == backends[i].addr@);
    }
    if is_known(backends, addr) {
        let k = choose|k: int| 0 <= k < backends.len() && #[trigger] backends[k].addr@ == addr;
        assert(addrs[k] == addr);
    }
    if addrs.contains(addr) {
        let k = choose|k: int| 0 <= k < addrs.len() && addrs[k] == addr;
        assert(backends[k].addr@ == addr);
    }
}

/// Checks a request to set the operator weight of backend `addr`; on success returns the
/// write that records it. A weight above [`MAX_WEIGHT`] is refused first, then an
/// address that no loaded backend has.
pub fn weight_request(backends: &Vec<Backend>, addr: &str, weight: u32) -> (r: Result<StoreCommand, RequestError>)
    ensures
        weight > MAX_WEIGHT ==> r matches Err(RequestError::WeightTooLarge),
        weight <= MAX_WEIGHT && !is_known(backends@, addr@) ==> (r matches Err(RequestError::UnknownBackend(a)) && a@ == addr@),
        weight <= MAX_WEIGHT && is_known(backends@, addr@) ==> (r matches Ok(c) && c@ == CommandView::SetNumber(weight_key_spec(addr@), weight)),
{
    if weight > MAX_WEIGHT {
        return Err(RequestError::WeightTooLarge);
    }
    let wanted = String::from_str(addr);
    let n = backends.len();
    let mut known = false;
    for i in 0..n
        invariant
            n == backends@.len(),
            wanted@ == addr@,
            known == exists|j: int| 0 <= j < i && #[trigger] backends@[j].addr@ == addr@,
    {
        if backends[i].addr == wanted {
            known = true;
        }
    }
    if !known {
        return Err(RequestError::UnknownBackend(wanted));
    }
    Ok(StoreCommand::SetNumber(weight_key(addr), weight))
}

/// Checks a request to switch the algorithm to `requested`; on success returns the write
/// that stores the algorithm's canonical name.
pub fn algorithm_request(requested: &str) -> (r: Result<StoreCommand, RequestError>)
    ensures
        parse_spec(requested@) is None ==> (r matches Err(RequestError::InvalidAlgorithm(a)) && a@ == requested@),
        parse_spec(requested@) matches Some(alg) ==> (r matches Ok(c) && c@ == CommandView::SetText(
            algorithm_key_spec(),
            name_spec(alg),
        )),
{
    match Algorithm::parse(requested) {
        Some(alg) => Ok(StoreCommand::SetText(algorithm_key(), alg.name())),
        None => Err(RequestError::InvalidAlgorithm(String::from_str(requested))),
    }
}

/// Totals over all backends, as the dashboard shows them.
#[derive(Debug, Clone, Copy)]
pub struct GlobalStats {
    pub active_connections: usize,
    pub total_connections: usize,
    pub bytes_transferred: usize,
}

/// One backend as the dashboard shows it.
#[derive(Debug)]
pub struct BackendData {
    pub addr: String,
    /// The weight the balancer routes with (operator weight × health).
    pub weight: u32,
    /// The weight the operator set.
    pub intent_weight: u32,
    /// What the watchdog last reported.
    pub healthy: bool,
    pub stats: BackendStats,
}

/// The dashboard's snapshot of the balancer.
#[derive(Debug)]
pub struct TelemetryResponse {
    pub algorithm: String,
    pub global: GlobalStats,
    pub backends: Vec<BackendData>,
}

/// What the control loop read for backend `i`, or nothing read (zero, down) when it has
/// not read that far.
pub open spec fn redis_state_at(snapshot: Seq<BackendRedisState>, i: int) -> BackendRedisState {
    if 0 <= i < snapshot.len() {
        snapshot[i]
    } else {
        BackendRedisState { intent_weight: 0, healthy: false }
    }
}

/// Builds the dashboard snapshot from the counters, the balancer's backends and
/// algorithm, and what the control loop last read.
pub fn telemetry_report(
    telemetry: &Telemetry,
    backends: &Vec<Backend>,
    algorithm: Algorithm,
    snapshot: &Vec<BackendRedisState>,
) -> (r: TelemetryResponse)
    requires
        backends@.len() <= telemetry.backend_stats@.len(),
    ensures
        r.algorithm@ == name_spec(algorithm),
        r.global.active_connections == telemetry.total_active_connections,
        r.global.total_connections == telemetry.total_connections_accepted,
        r.global.bytes_transferred == telemetry.total_bytes_transferred,
        r.backends@.len() == backends@.len(),
        forall|i: int| 0 <= i < backends@.len() ==> {
            &&& (#[trigger] r.backends@[i]).addr@ == backends@[i].addr@
            &&& r.backends@[i].weight == backends@[i].weight
            &&& r.backends@[i].intent_weight == redis_state_at(snapshot@, i).intent_weight
            &&& r.backends@[i].healthy == redis_state_at(snapshot@, i).healthy
            &&& r.backends@[i].stats == telemetry.backend_stats@[i]
        },
{
    let global = GlobalStats {
        active_connections: telemetry.total_active_connections,
        total_connections: telemetry.total_connections_accepted,
        bytes_transferred: telemetry.total_bytes_transferred,
    };
    let n = backends.len();
    let mut out: Vec<BackendData> = Vec::new();
    for i in 0..n
        invariant
            n == backends@.len(),
            n <= telemetry.backend_stats@.len(),
            out@.len() == i,
            forall|j: int| 0 <= j < i ==> {
                &&& (#[trigger] out@[j]).addr@ == backends@[j].addr@
                &&& out@[j].weight == backends@[j].weight
                &&& out@[j].intent_weight == redis_state_at(snapshot@, j).intent_weight
                &&& out@[j].healthy == redis_state_at(snapshot@, j).healthy
                &&& out@[j].stats == telemetry.backend_stats@[j]
            },
    {
        let rs = if i < snapshot.len() {
            snapshot[i]
        } else {
            BackendRedisState::default()
        };
        let b = &backends[i];
        out.push(
            BackendData {
                addr: b.addr.clone(),
                weight: b.weight,
                intent_weight: rs.intent_weight,
                healthy: rs.healthy,
                stats: telemetry.backend_stats[i],
            },
        );
    }
    TelemetryResponse { algorithm: algorithm.name(), global, backends: out }
}

} // verus!
