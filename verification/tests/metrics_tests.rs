use waybar_virtual_desktops::metrics::{MetricsSnapshot, PerformanceMetrics};

#[test]
fn new_counters_are_zero() {
    let metrics = PerformanceMetrics::new(5_000_000);
    assert_eq!(
        metrics.snapshot(5_000_000),
        MetricsSnapshot {
            uptime_seconds: 0,
            widget_reorders_total: 0,
            widget_reorders_optimized: 0,
            widget_update_micros_total: 0,
            ipc_errors_total: 0,
        }
    );
}

#[test]
fn counters_count() {
    let mut metrics = PerformanceMetrics::new(1_000);
    metrics.record_widget_reorder(true);
    metrics.record_widget_reorder(false);
    metrics.record_widget_reorder(true);
    metrics.record_ipc_error();

    let timer = metrics.start_widget_update_timer(10_000);
    timer.finish(&mut metrics, 10_250);
    let timer = metrics.start_widget_update_timer(20_000);
    timer.finish(&mut metrics, 20_050);
    // A clock that went back adds nothing.
    let timer = metrics.start_widget_update_timer(30_000);
    timer.finish(&mut metrics, 29_000);

    assert_eq!(
        metrics.snapshot(3_500_999),
        MetricsSnapshot {
            uptime_seconds: 3,
            widget_reorders_total: 3,
            widget_reorders_optimized: 2,
            widget_update_micros_total: 300,
            ipc_errors_total: 1,
        }
    );
    assert_eq!(metrics.snapshot(999).uptime_seconds, 0);
    assert_eq!(metrics.snapshot(1_001_000).uptime_seconds, 1);
}

#[test]
fn update_time_wraps_around() {
    let mut metrics = PerformanceMetrics::new(0);
    let timer = metrics.start_widget_update_timer(0);
    timer.finish(&mut metrics, u64::MAX);
    let timer = metrics.start_widget_update_timer(0);
    timer.finish(&mut metrics, 3);
    assert_eq!(metrics.snapshot(0).widget_update_micros_total, 2);
}
