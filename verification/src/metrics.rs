//! What the server counts while it runs.

use vstd::prelude::*;

verus! {

/// The counters of the server. They are for observation only and have no part in what the
/// server does. A counter that passes its largest value starts at zero again.
#[derive(Debug)]
pub struct ServerMetrics {
    active_clients: usize,
    total_connections: u64,
    commands_total: u64,
    commands_failed: u64,
    checkpoint_attempts: u64,
    checkpoint_failures: u64,
    bytes_received: u64,
    bytes_sent: u64,
}

/// The counters at one moment.
#[derive(Debug, Clone, Copy, PartialEq, Eq)]
pub struct MetricsSnapshot {
    pub active_clients: usize,
    pub total_connections: u64,
    pub commands_total: u64,
    pub commands_failed: u64,
    pub checkpoint_attempts: u64,
    pub checkpoint_failures: u64,
    pub bytes_received: u64,
    pub bytes_sent: u64,
    pub uptime_seconds: u64,
}

/// A connection that was counted and not yet closed.
#[derive(Debug)]
pub struct ConnectionGuard {
    _counted: (),
}

/// The counters. How long the server has run is not among them.
impl View for ServerMetrics {
    type V = MetricsSnapshot;

    closed spec fn view(&self) -> MetricsSnapshot {
        MetricsSnapshot {
            active_clients: self.active_clients,
            total_connections: self.total_connections,
            commands_total: self.commands_total,
            commands_failed: self.commands_failed,
            checkpoint_attempts: self.checkpoint_attempts,
            checkpoint_failures: self.checkpoint_failures,
            bytes_received: self.bytes_received,
            bytes_sent: self.bytes_sent,
            uptime_seconds: 0,
        }
    }
}

/// All counters at zero.
pub open spec fn no_metrics() -> MetricsSnapshot {
    MetricsSnapshot {
        active_clients: 0,
        total_connections: 0,
        commands_total: 0,
        commands_failed: 0,
        checkpoint_attempts: 0,
        checkpoint_failures: 0,
        bytes_received: 0,
        bytes_sent: 0,
        uptime_seconds: 0,
    }
}

/// The counters after a connection was opened.
pub open spec fn with_connection(metrics: MetricsSnapshot) -> MetricsSnapshot {
    MetricsSnapshot {
        active_clients: metrics.active_clients.wrapping_add(1),
        total_connections: metrics.total_connections.wrapping_add(1),
        ..metrics
    }
}

/// The counters after a connection was closed.
pub open spec fn without_connection(metrics: MetricsSnapshot) -> MetricsSnapshot {
    MetricsSnapshot { active_clients: metrics.active_clients.wrapping_sub(1), ..metrics }
}

/// The counters after a command came in.
pub open spec fn with_command(metrics: MetricsSnapshot, bytes: u64) -> MetricsSnapshot {
    MetricsSnapshot {
        commands_total: metrics.commands_total.wrapping_add(1),
        bytes_received: metrics.bytes_received.wrapping_add(bytes),
        ..metrics
    }
}

/// The counters after a command failed.
pub open spec fn with_command_failure(metrics: MetricsSnapshot) -> MetricsSnapshot {
    MetricsSnapshot { commands_failed: metrics.commands_failed.wrapping_add(1), ..metrics }
}

/// The counters after a checkpoint.
pub open spec fn with_checkpoint(metrics: MetricsSnapshot, succeeded: bool) -> MetricsSnapshot {
    MetricsSnapshot {
        checkpoint_attempts: metrics.checkpoint_attempts.wrapping_add(1),
        checkpoint_failures: if succeeded {
            metrics.checkpoint_failures
        } else {
            metrics.checkpoint_failures.wrapping_add(1)
        },
        ..metrics
    }
}

/// The counters after a response was sent.
pub open spec fn with_response(metrics: MetricsSnapshot, bytes: u64) -> MetricsSnapshot {
    MetricsSnapshot { bytes_sent: metrics.bytes_sent.wrapping_add(bytes), ..metrics }
}

/// The counters at the given time after the start.
pub open spec fn at_time(metrics: MetricsSnapshot, uptime_seconds: u64) -> MetricsSnapshot {
    MetricsSnapshot { uptime_seconds, ..metrics }
}

impl Default for ServerMetrics {
    fn default() -> (metrics: ServerMetrics)
        ensures
            metrics@ == no_metrics(),
    {
        ServerMetrics::new()
    }
}

impl ServerMetrics {
    /// All counters at zero.
    #[must_use]
    pub fn new() -> (metrics: ServerMetrics)
        ensures
            metrics@ == no_metrics(),
    {
        ServerMetrics {
            active_clients: 0,
            total_connections: 0,
            commands_total: 0,
            commands_failed: 0,
            checkpoint_attempts: 0,
            checkpoint_failures: 0,
            bytes_received: 0,
            bytes_sent: 0,
        }
    }

    /// Counts a connection. The guard is to be handed back when the connection ends.
    #[must_use]
    pub fn connection_opened(&mut self) -> (guard: ConnectionGuard)
        ensures
            final(self)@ == with_connection(old(self)@),
    {
        self.active_clients = self.active_clients.wrapping_add(1);
        self.total_connections = self.total_connections.wrapping_add(1);
        ConnectionGuard { _counted: () }
    }

    /// Takes note that a connection that was counted has ended.
    pub fn connection_closed(&mut self, guard: ConnectionGuard)
        ensures
            final(self)@ == without_connection(old(self)@),
    {
        self.active_clients = self.active_clients.wrapping_sub(1);
    }

    /// Counts a command and the bytes of its frame.
    pub fn record_command(&mut self, bytes_received: u64)
        ensures
            final(self)@ == with_command(old(self)@, bytes_received),
    {
        self.commands_total = self.commands_total.wrapping_add(1);
        self.bytes_received = self.bytes_received.wrapping_add(bytes_received);
    }

    /// Counts a command that was answered with an error.
    pub fn record_command_failure(&mut self)
        ensures
            final(self)@ == with_command_failure(old(self)@),
    {
        self.commands_failed = self.commands_failed.wrapping_add(1);
    }

    /// Counts a checkpoint and whether it succeeded.
    pub fn record_checkpoint(&mut self, succeeded: bool)
        ensures
            final(self)@ == with_checkpoint(old(self)@, succeeded),
    {
        self.checkpoint_attempts = self.checkpoint_attempts.wrapping_add(1);
        if !succeeded {
            self.checkpoint_failures = self.checkpoint_failures.wrapping_add(1);
        }
    }

    /// Counts the bytes of a response.
    pub fn record_response(&mut self, bytes_sent: u64)
        ensures
            final(self)@ == with_response(old(self)@, bytes_sent),
    {
        self.bytes_sent = self.bytes_sent.wrapping_add(bytes_sent);
    }

    /// The counters at the given time after the start.
    #[must_use]
    pub fn snapshot(&self, uptime_seconds: u64) -> (snapshot: MetricsSnapshot)
        ensures
            snapshot == at_time(self@, uptime_seconds),
    {
        MetricsSnapshot {
            active_clients: self.active_clients,
            total_connections: self.total_connections,
            commands_total: self.commands_total,
            commands_failed: self.commands_failed,
            checkpoint_attempts: self.checkpoint_attempts,
            checkpoint_failures: self.checkpoint_failures,
            bytes_received: self.bytes_received,
            bytes_sent: self.bytes_sent,
            uptime_seconds,
        }
    }
}

/// Closing a connection takes back what opening it added to the active clients, whatever
/// else was counted meanwhile; the number of all connections stays.
pub proof fn law_closed_connections_do_not_count(
    metrics: MetricsSnapshot,
    received: u64,
    succeeded: bool,
    sent: u64,
)
    ensures
        ({
            let opened = with_connection(metrics);
            let busy = with_response(
                with_checkpoint(with_command_failure(with_command(opened, received)), succeeded),
                sent,
            );
            let closed = without_connection(busy);
            &&& closed.active_clients == metrics.active_clients
            &&& closed.total_connections == opened.total_connections
        }),
{
}

/// Each event is counted where it belongs and nowhere else, as long as the counters do not
/// overflow: a connection as active and in all, a command with its bytes, a failure, a
/// checkpoint with its failure, and the bytes of a response.
pub proof fn law_events_are_counted(metrics: MetricsSnapshot, bytes: u64, succeeded: bool)
    requires
        metrics.active_clients < usize::MAX,
        metrics.total_connections < u64::MAX,
        metrics.commands_total < u64::MAX,
        metrics.commands_failed < u64::MAX,
        metrics.checkpoint_attempts < u64::MAX,
        metrics.checkpoint_failures < u64::MAX,
        metrics.bytes_received + bytes <= u64::MAX,
        metrics.bytes_sent + bytes <= u64::MAX,
    ensures
        ({
            let after = with_connection(metrics);
            &&& after.active_clients == metrics.active_clients + 1
            &&& after.total_connections == metrics.total_connections + 1
            &&& same_commands(after, metrics) && same_checkpoints(after, metrics)
            &&& after.bytes_received == metrics.bytes_received
            &&& after.bytes_sent == metrics.bytes_sent
        }),
        ({
            let after = with_command(metrics, bytes);
            &&& after.commands_total == metrics.commands_total + 1
            &&& after.commands_failed == metrics.commands_failed
            &&& after.bytes_received == metrics.bytes_received + bytes
            &&& after.bytes_sent == metrics.bytes_sent
            &&& same_clients(after, metrics) && same_checkpoints(after, metrics)
        }),
        ({
            let after = with_command_failure(metrics);
            &&& after.commands_failed == metrics.commands_failed + 1
            &&& after.commands_total == metrics.commands_total
            &&& after.bytes_received == metrics.bytes_received
            &&& after.bytes_sent == metrics.bytes_sent
            &&& same_clients(after, metrics) && same_checkpoints(after, metrics)
        }),
        ({
            let after = with_checkpoint(metrics, succeeded);
            &&& after.checkpoint_attempts == metrics.checkpoint_attempts + 1
            &&& succeeded ==> after.checkpoint_failures == metrics.checkpoint_failures
            &&& !succeeded ==> after.checkpoint_failures == metrics.checkpoint_failures + 1
            &&& after.bytes_received == metrics.bytes_received
            &&& after.bytes_sent == metrics.bytes_sent
            &&& same_clients(after, metrics) && same_commands(after, metrics)
        }),
        ({
            let after = with_response(metrics, bytes);
            &&& after.bytes_sent == metrics.bytes_sent + bytes
            &&& after.bytes_received == metrics.bytes_received
            &&& same_clients(after, metrics) && same_commands(after, metrics)
            &&& same_checkpoints(after, metrics)
        }),
        metrics.active_clients > 0 ==> ({
            let after = without_connection(metrics);
            &&& after.active_clients == metrics.active_clients - 1
            &&& after.total_connections == metrics.total_connections
            &&& same_commands(after, metrics) && same_checkpoints(after, metrics)
            &&& after.bytes_received == metrics.bytes_received
            &&& after.bytes_sent == metrics.bytes_sent
        }),
{
}

/// Whether two states count the same connections.
pub open spec fn same_clients(a: MetricsSnapshot, b: MetricsSnapshot) -> bool {
    a.active_clients == b.active_clients && a.total_connections == b.total_connections
}

/// Whether two states count the same commands.
pub open spec fn same_commands(a: MetricsSnapshot, b: MetricsSnapshot) -> bool {
    a.commands_total == b.commands_total && a.commands_failed == b.commands_failed
}

/// Whether two states count the same checkpoints.
pub open spec fn same_checkpoints(a: MetricsSnapshot, b: MetricsSnapshot) -> bool {
    a.checkpoint_attempts == b.checkpoint_attempts && a.checkpoint_failures
        == b.checkpoint_failures
}

/// A new server has counted nothing.
pub proof fn law_nothing_is_counted_at_first()
    ensures
        ({
            let m = no_metrics();
            &&& m.active_clients == 0 && m.total_connections == 0
            &&& m.commands_total == 0 && m.commands_failed == 0
            &&& m.checkpoint_attempts == 0 && m.checkpoint_failures == 0
            &&& m.bytes_received == 0 && m.bytes_sent == 0
        }),
{
}

/// A snapshot shows each counter as it is, and the time that it is told.
pub proof fn law_snapshot_shows_the_counters(metrics: MetricsSnapshot, uptime_seconds: u64)
    ensures
        ({
            let shown = at_time(metrics, uptime_seconds);
            &&& same_clients(shown, metrics)
            &&& same_commands(shown, metrics)
            &&& same_checkpoints(shown, metrics)
            &&& shown.bytes_received == metrics.bytes_received
            &&& shown.bytes_sent == metrics.bytes_sent
            &&& shown.uptime_seconds == uptime_seconds
        }),
{
}

/// A counter that is full starts again from zero.
pub proof fn law_full_counters_start_again(metrics: MetricsSnapshot, bytes: u64)
    ensures
        metrics.commands_total == u64::MAX ==> with_command(metrics, bytes).commands_total == 0,
        metrics.commands_failed == u64::MAX ==> with_command_failure(metrics).commands_failed == 0,
        metrics.total_connections == u64::MAX ==> with_connection(metrics).total_connections == 0,
        metrics.checkpoint_attempts == u64::MAX ==> with_checkpoint(
            metrics,
            true,
        ).checkpoint_attempts == 0,
        metrics.checkpoint_failures == u64::MAX ==> with_checkpoint(
            metrics,
            false,
        ).checkpoint_failures == 0,
        metrics.bytes_received + bytes > u64::MAX ==> with_command(metrics, bytes).bytes_received
            == metrics.bytes_received + bytes - u64::MAX - 1,
        metrics.bytes_sent + bytes > u64::MAX ==> with_response(metrics, bytes).bytes_sent
            == metrics.bytes_sent + bytes - u64::MAX - 1,
{
}

} // verus!
