use kv_storage_rust::metrics::ServerMetrics;

#[test]
fn connection_guard_tracks_active_and_total_connections() {
    let mut metrics = ServerMetrics::new();
    let first = metrics.connection_opened();
    let second = metrics.connection_opened();
    let snapshot = metrics.snapshot(0);
    assert_eq!(snapshot.active_clients, 2);
    assert_eq!(snapshot.total_connections, 2);
    metrics.connection_closed(second);
    metrics.connection_closed(first);

    let snapshot = metrics.snapshot(0);
    assert_eq!(snapshot.active_clients, 0);
    assert_eq!(snapshot.total_connections, 2);
}

#[test]
fn command_and_byte_counters_accumulate() {
    let mut metrics = ServerMetrics::new();
    metrics.record_command(12);
    metrics.record_command(8);
    metrics.record_command_failure();
    metrics.record_checkpoint(true);
    metrics.record_checkpoint(false);
    metrics.record_response(30);

    let snapshot = metrics.snapshot(0);
    assert_eq!(snapshot.commands_total, 2);
    assert_eq!(snapshot.commands_failed, 1);
    assert_eq!(snapshot.checkpoint_attempts, 2);
    assert_eq!(snapshot.checkpoint_failures, 1);
    assert_eq!(snapshot.bytes_received, 20);
    assert_eq!(snapshot.bytes_sent, 30);
}

#[test]
fn counters_start_at_zero_and_wrap_around() {
    let mut metrics = ServerMetrics::default();
    let start = metrics.snapshot(7);
    assert_eq!(start.commands_total, 0);
    assert_eq!(start.uptime_seconds, 7);
    metrics.record_command(u64::MAX);
    metrics.record_command(3);
    assert_eq!(metrics.snapshot(0).bytes_received, 2);
}
