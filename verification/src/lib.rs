//! Virtual-desktop state for a status-bar widget: IPC endpoint resolution,
//! retry policy, the desktop state store, the monitor state machine and the
//! widget reconciler.

pub mod config;
pub mod errors;
pub mod hyprland;
pub mod json;
pub mod metrics;
pub mod monitor;
pub mod retry;
pub mod text;
pub mod ui;
pub mod vdesk;
