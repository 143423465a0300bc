//! Counters that tell how well the reordering of widgets does. Times are
//! microseconds on a clock of the caller's choice.

use vstd::prelude::*;

verus! {

/// The counters.
#[derive(Debug)]
pub struct PerformanceMetrics {
    widget_reorder_count: u64,
    widget_reorder_optimized_count: u64,
    widget_update_duration_micros: u64,
    ipc_error_count: u64,
    uptime_start_micros: u64,
}

/// The mathematical value of the counters.
pub struct MetricsModel {
    pub reorders: u64,
    pub optimized_reorders: u64,
    pub update_micros: u64,
    pub ipc_errors: u64,
    pub started_at: u64,
}

/// A reading of the counters.
#[derive(Debug, Clone, Copy, PartialEq, Eq, Structural)]
pub struct MetricsSnapshot {
    pub uptime_seconds: u64,
    pub widget_reorders_total: u64,
    pub widget_reorders_optimized: u64,
    pub widget_update_micros_total: u64,
    pub ipc_errors_total: u64,
}

/// A running measurement of one widget update.
#[derive(Debug)]
pub struct WidgetUpdateTimer {
    start_micros: u64,
}

/// The sum of two counters; a counter that overflows starts again at zero.
pub open spec fn wrapped_sum(a: u64, b: u64) -> u64 {
    if a + b > u64::MAX {
        (a + b - u64::MAX - 1) as u64
    } else {
        (a + b) as u64
    }
}

/// The time from `start` to `now`; nothing where the clock went back.
pub open spec fn elapsed(start: u64, now: u64) -> u64 {
    if now >= start {
        (now - start) as u64
    } else {
        0
    }
}

fn add_wrapping(a: u64, b: u64) -> (sum: u64)
    ensures
        sum == wrapped_sum(a, b),
{
    if b > u64::MAX - a {
        b - (u64::MAX - a) - 1
    } else {
        a + b
    }
}

fn time_between(start: u64, now: u64) -> (time: u64)
    ensures
        time == elapsed(start, now),
{
    if now >= start {
        now - start
    } else {
        0
    }
}

impl View for PerformanceMetrics {
    type V = MetricsModel;

    closed spec fn view(&self) -> MetricsModel {
        MetricsModel {
            reorders: self.widget_reorder_count,
            optimized_reorders: self.widget_reorder_optimized_count,
            update_micros: self.widget_update_duration_micros,
            ipc_errors: self.ipc_error_count,
            started_at: self.uptime_start_micros,
        }
    }
}

impl WidgetUpdateTimer {
    /// When the measurement began.
    pub closed spec fn started_at(&self) -> u64 {
        self.start_micros
    }

    /// Ends the measurement and adds its time to the counters.
    pub fn finish(self, metrics: &mut PerformanceMetrics, now_micros: u64)
        ensures
            final(metrics)@ == (MetricsModel {
                update_micros: wrapped_sum(
                    old(metrics)@.update_micros,
                    elapsed(self.started_at(), now_micros),
                ),
                ..old(metrics)@
            }),
    {
        metrics.widget_update_duration_micros = add_wrapping(
            metrics.widget_update_duration_micros,
            time_between(self.start_micros, now_micros),
        );
    }
}

impl PerformanceMetrics {
    /// Counters at zero, started at `now_micros`.
    pub fn new(now_micros: u64) -> (metrics: Self)
        ensures
            metrics@ == (MetricsModel {
                reorders: 0,
                optimized_reorders: 0,
                update_micros: 0,
                ipc_errors: 0,
                started_at: now_micros,
            }),
    {
        PerformanceMetrics {
            widget_reorder_count: 0,
            widget_reorder_optimized_count: 0,
            widget_update_duration_micros: 0,
            ipc_error_count: 0,
            uptime_start_micros: now_micros,
        }
    }

    /// Begins the measurement of one widget update.
    pub fn start_widget_update_timer(&self, now_micros: u64) -> (timer: WidgetUpdateTimer)
        ensures
            timer.started_at() == now_micros,
    {
        WidgetUpdateTimer { start_micros: now_micros }
    }

    /// Counts one reordering, and whether it moved fewer widgets than there
    /// are.
    pub fn record_widget_reorder(&mut self, was_optimized: bool)
        ensures
            final(self)@ == (MetricsModel {
                reorders: wrapped_sum(old(self)@.reorders, 1),
                optimized_reorders: if was_optimized {
                    wrapped_sum(old(self)@.optimized_reorders, 1)
                } else {
                    old(self)@.optimized_reorders
                },
                ..old(self)@
            }),
    {
        self.widget_reorder_count = add_wrapping(self.widget_reorder_count, 1);
        if was_optimized {
            self.widget_reorder_optimized_count = add_wrapping(
                self.widget_reorder_optimized_count,
                1,
            );
        }
    }

    /// Counts one IPC error.
    pub fn record_ipc_error(&mut self)
        ensures
            final(self)@ == (MetricsModel {
                ipc_errors: wrapped_sum(old(self)@.ipc_errors, 1),
                ..old(self)@
            }),
    {
        self.ipc_error_count = add_wrapping(self.ipc_error_count, 1);
    }

    /// Reads the counters at `now_micros`.
    pub fn snapshot(&self, now_micros: u64) -> (reading: MetricsSnapshot)
        ensures
            reading == (MetricsSnapshot {
                uptime_seconds: elapsed(self@.started_at, now_micros) / 1_000_000,
                widget_reorders_total: self@.reorders,
                widget_reorders_optimized: self@.optimized_reorders,
                widget_update_micros_total: self@.update_micros,
                ipc_errors_total: self@.ipc_errors,
            }),
    {
        MetricsSnapshot {
            uptime_seconds: time_between(self.uptime_start_micros, now_micros) / 1_000_000,
            widget_reorders_total: self.widget_reorder_count,
            widget_reorders_optimized: self.widget_reorder_optimized_count,
            widget_update_micros_total: self.widget_update_duration_micros,
            ipc_errors_total: self.ipc_error_count,
        }
    }
}

} // verus!
