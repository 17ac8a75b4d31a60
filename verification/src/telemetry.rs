use vstd::prelude::*;

use crate::balancer::{after_pick, LoadBalancer};
use crate::models::Backend;

verus! {

/// Connection counters of one backend.
#[derive(Debug, Clone, Copy)]
pub struct BackendStats {
    pub active_connections: usize,
    pub total_connections: usize,
    pub bytes_transferred: usize,
}

impl Default for BackendStats {
    fn default() -> (r: Self)
        ensures
            r == zero_stats(),
    {
        BackendStats { active_connections: 0, total_connections: 0, bytes_transferred: 0 }
    }
}

/// Counters that are all zero.
pub open spec fn zero_stats() -> BackendStats {
    BackendStats { active_connections: 0, total_connections: 0, bytes_transferred: 0 }
}

/// The global connection counters and those of each backend.
pub struct Telemetry {
    pub total_active_connections: usize,
    pub total_connections_accepted: usize,
    pub total_bytes_transferred: usize,
    pub backend_stats: Vec<BackendStats>,
}

/// The mathematical value of a [`Telemetry`].
pub struct TelemetryView {
    pub active: usize,
    pub accepted: usize,
    pub bytes: usize,
    pub per_backend: Seq<BackendStats>,
}

impl View for Telemetry {
    type V = TelemetryView;

    open spec fn view(&self) -> TelemetryView {
        TelemetryView {
            active: self.total_active_connections,
            accepted: self.total_connections_accepted,
            bytes: self.total_bytes_transferred,
            per_backend: self.backend_stats@,
        }
    }
}

/// `x + y`, wrapping around at the width of `usize` as the atomic counters do.
pub open spec fn wrap_add(x: usize, y: usize) -> usize {
    vstd::wrapping::usize_specs::wrapping_add(x, y)
}

/// `x - y`, wrapping around at the width of `usize` as the atomic counters do.
pub open spec fn wrap_sub(x: usize, y: usize) -> usize {
    vstd::wrapping::usize_specs::wrapping_sub(x, y)
}

/// The counters after a connection is accepted and routed to backend `id`.
pub open spec fn opened(t: TelemetryView, id: int) -> TelemetryView {
    let s = t.per_backend[id];
    TelemetryView {
        active: wrap_add(t.active, 1),
        accepted: wrap_add(t.accepted, 1),
        bytes: t.bytes,
        per_backend: t.per_backend.update(
            id,
            BackendStats {
                active_connections: wrap_add(s.active_connections, 1),
                total_connections: wrap_add(s.total_connections, 1),
                bytes_transferred: s.bytes_transferred,
            },
        ),
    }
}

/// The counters after the connection routed to backend `id` ends; `transferred` is the
/// number of bytes copied both ways when the transfer succeeded.
pub open spec fn closed(t: TelemetryView, id: int, transferred: Option<u64>) -> TelemetryView {
    let s = t.per_backend[id];
    let b: usize = match transferred {
        Some(n) => n as usize,
        None => 0,
    };
    TelemetryView {
        active: wrap_sub(t.active, 1),
        accepted: t.accepted,
        bytes: wrap_add(t.bytes, b),
        per_backend: t.per_backend.update(
            id,
            BackendStats {
                active_connections: wrap_sub(s.active_connections, 1),
                total_connections: s.total_connections,
                bytes_transferred: wrap_add(s.bytes_transferred, b),
            },
        ),
    }
}

impl Telemetry {
    /// Counters for `num_backends` backends, all zero.
    pub fn new(num_backends: usize) -> (t: Self)
        ensures
            t@.active == 0,
            t@.accepted == 0,
            t@.bytes == 0,
            t@.per_backend == Seq::new(num_backends as nat, |_i: int| zero_stats()),
    {
        let mut stats: Vec<BackendStats> = Vec::new();
        for i in 0..num_backends
            invariant
                stats@ == Seq::new(i as nat, |_i: int| zero_stats()),
        {
            stats.push(BackendStats::default());
            assert(stats@ =~= Seq::new((i + 1) as nat, |_i: int| zero_stats()));
        }
        Telemetry {
            total_active_connections: 0,
            total_connections_accepted: 0,
            total_bytes_transferred: 0,
            backend_stats: stats,
        }
    }

    /// Accounts for a new connection: counts it as accepted and active, picks its backend
    /// from `balancer`, and counts it as active and routed for that backend. Returns the
    /// backend's index and a copy of it.
    pub fn open_connection(&mut self, balancer: &mut LoadBalancer) -> (r: (usize, Backend))
        requires
            old(balancer)@.wf(),
            old(balancer)@.backends.len() <= old(self).backend_stats@.len(),
        ensures
            r.0 == old(balancer)@.selection(),
            r.0 < old(balancer)@.backends.len(),
            r.1@ == old(balancer)@.backends[r.0 as int],
            final(balancer)@ == after_pick(old(balancer)@),
            final(balancer)@.wf(),
            final(self)@ == opened(old(self)@, r.0 as int),
    {
        self.total_active_connections = self.total_active_connections.wrapping_add(1);
        self.total_connections_accepted = self.total_connections_accepted.wrapping_add(1);
        let (id, backend) = balancer.next_backend();
        let s = self.backend_stats[id];
        self.backend_stats.set(
            id,
            BackendStats {
                active_connections: s.active_connections.wrapping_add(1),
                total_connections: s.total_connections.wrapping_add(1),
                bytes_transferred: s.bytes_transferred,
            },
        );
        (id, backend)
    }

    /// Accounts for the end of the connection routed to backend `id`: adds the bytes
    /// copied, when the transfer succeeded, and counts the connection as no longer active.
    pub fn close_connection(&mut self, id: usize, transferred: Option<u64>)
        requires
            id < old(self).backend_stats@.len(),
        ensures
            final(self)@ == closed(old(self)@, id as int, transferred),
    {
        let b: usize = match transferred {
            Some(n) => n as usize,
            None => 0,
        };
        self.total_bytes_transferred = self.total_bytes_transferred.wrapping_add(b);
        self.total_active_connections = self.total_active_connections.wrapping_sub(1);
        let s = self.backend_stats[id];
        self.backend_stats.set(
            id,
            BackendStats {
                active_connections: s.active_connections.wrapping_sub(1),
                total_connections: s.total_connections,
                bytes_transferred: s.bytes_transferred.wrapping_add(b),
            },
        );
    }
}

/// Closing a connection adds the bytes it moved to the global byte count and to its
/// backend's (wrapping as the counters do), leaves the other backends' counters and the
/// accepted total alone; a connection whose transfer failed adds nothing. Two closes add
/// both amounts: bytes accumulate, they are never replaced.
pub proof fn lemma_close_adds_bytes(t: TelemetryView, id: int, jd: int, n: u64, m: u64)
    requires
        0 <= id < t.per_backend.len(),
        0 <= jd < t.per_backend.len(),
    ensures
        closed(t, id, Some(n)).bytes == wrap_add(t.bytes, n as usize),
        closed(t, id, Some(n)).per_backend[id].bytes_transferred == wrap_add(
            t.per_backend[id].bytes_transferred,
            n as usize,
        ),
        closed(t, id, None).bytes == t.bytes,
        closed(t, id, None).per_backend[id].bytes_transferred == t.per_backend[id].bytes_transferred,
        closed(t, id, Some(n)).accepted == t.accepted,
        closed(t, id, Some(n)).per_backend.len() == t.per_backend.len(),
        forall|j: int| 0 <= j < t.per_backend.len() && j != id ==> #[trigger] closed(t, id, Some(n)).per_backend[j] == t.per_backend[j],
        t.bytes + (n as usize) + (m as usize) <= usize::MAX ==> closed(closed(t, id, Some(n)), jd, Some(m)).bytes
            == t.bytes + (n as usize) + (m as usize),
        t.per_backend[id].bytes_transferred + (n as usize) + (m as usize) <= usize::MAX ==> closed(
            closed(t, id, Some(n)),
            id,
            Some(m),
        ).per_backend[id].bytes_transferred == t.per_backend[id].bytes_transferred + (n as usize) + (m as usize),
{
}

/// A connection that opens and then closes leaves the active counts, global and of its
/// backend, as they were, and adds one to the accepted and routed totals.
pub proof fn lemma_open_close_balances(t: TelemetryView, id: int, transferred: Option<u64>)
    requires
        0 <= id < t.per_backend.len(),
    ensures
        closed(opened(t, id), id, transferred).active == t.active,
        closed(opened(t, id), id, transferred).per_backend[id].active_connections
            == t.per_backend[id].active_connections,
        closed(opened(t, id), id, transferred).accepted == wrap_add(t.accepted, 1),
        closed(opened(t, id), id, transferred).per_backend[id].total_connections == wrap_add(
            t.per_backend[id].total_connections,
            1,
        ),
        forall|j: int|
            0 <= j < t.per_backend.len() && j != id ==> #[trigger] closed(
                opened(t, id),
                id,
                transferred,
            ).per_backend[j] == t.per_backend[j],
{
}

} // verus!
