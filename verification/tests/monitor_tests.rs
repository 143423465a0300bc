use waybar_virtual_desktops::errors::VirtualDesktopError;
use waybar_virtual_desktops::monitor::{
    MonitorAction, MonitorEvent, MonitorLoop, MonitorState, MAX_APPLY_FAILURES,
};
use waybar_virtual_desktops::vdesk::VirtualDesktopsManager;

fn line(text: &str) -> MonitorEvent {
    MonitorEvent::Line { text: text.to_string() }
}

fn connect_failed(error: &str) -> MonitorEvent {
    MonitorEvent::ConnectFailed { error: error.to_string() }
}

fn stream_failed(error: &str) -> MonitorEvent {
    MonitorEvent::StreamFailed { error: error.to_string() }
}

fn apply_failed(error: &str) -> MonitorEvent {
    MonitorEvent::ApplyFailed { error: error.to_string() }
}

fn is_socket_operation(action: &MonitorAction) -> bool {
    matches!(
        action,
        MonitorAction::Connect { .. } | MonitorAction::ReadLine | MonitorAction::FetchState
    )
}

fn listening(retry_max: u32) -> MonitorLoop {
    let mut monitor = MonitorLoop::new(retry_max, 1000);
    assert!(matches!(monitor.start(), MonitorAction::Connect { refresh_state: true }));
    assert!(matches!(monitor.step_with(MonitorEvent::Connected, 0), MonitorAction::ReadLine));
    assert_eq!(monitor.state(), MonitorState::Listening);
    monitor
}

#[test]
fn session_starts_by_connecting() {
    let monitor = MonitorLoop::new(5, 1000);
    assert_eq!(monitor.state(), MonitorState::Connecting);
    assert_eq!(monitor.failures(), 0);
    assert_eq!(monitor.apply_failures(), 0);
    assert!(matches!(monitor.start(), MonitorAction::Connect { refresh_state: true }));
}

#[test]
fn irrelevant_lines_change_nothing() {
    let mut monitor = listening(5);
    for text in ["workspace>>3", "", "vdesk>", "activewindow>>kitty,vdesk>>1"] {
        assert!(matches!(monitor.step_with(line(text), 0), MonitorAction::ReadLine));
        assert_eq!(monitor.state(), MonitorState::Listening);
    }
}

#[test]
fn relevant_line_fetches_the_state() {
    let mut monitor = listening(5);
    assert!(matches!(monitor.step_with(line("vdesk>>2"), 0), MonitorAction::FetchState));
    assert_eq!(monitor.state(), MonitorState::Applying);
    assert!(matches!(monitor.step_with(MonitorEvent::Applied, 0), MonitorAction::ReadLine));
    assert_eq!(monitor.state(), MonitorState::Listening);
    assert_eq!(monitor.apply_failures(), 0);
}

#[test]
fn connect_failures_back_off_and_give_up() {
    let mut monitor = MonitorLoop::new(3, 1000);
    let expected = [750u64, 1500, 3000];
    for (index, delay) in expected.iter().enumerate() {
        match monitor.step_with(connect_failed("refused"), 0) {
            MonitorAction::Wait { delay_ms } => assert_eq!(delay_ms, *delay),
            other => panic!("expected Wait, got {:?}", other),
        }
        assert_eq!(monitor.failures(), index as u32 + 1);
        assert_eq!(monitor.state(), MonitorState::Connecting);
        assert!(matches!(
            monitor.step_with(MonitorEvent::DelayElapsed, 0),
            MonitorAction::Connect { refresh_state: true }
        ));
    }
    match monitor.step_with(connect_failed("still refused"), 0) {
        MonitorAction::GiveUp {
            error: VirtualDesktopError::RetryExhausted { attempts, last_error },
        } => {
            assert_eq!(attempts, 4);
            assert_eq!(last_error, "still refused");
        }
        other => panic!("expected GiveUp, got {:?}", other),
    }
    assert_eq!(monitor.state(), MonitorState::Stopped);
    assert!(matches!(monitor.step_with(MonitorEvent::DelayElapsed, 0), MonitorAction::Stop));
    assert!(matches!(monitor.step_with(MonitorEvent::Connected, 0), MonitorAction::Stop));
}

#[test]
fn stream_failure_forces_a_new_connection() {
    let mut monitor = listening(5);
    match monitor.step_with(stream_failed("eof"), 500) {
        MonitorAction::Wait { delay_ms } => assert_eq!(delay_ms, 750 + 500),
        other => panic!("expected Wait, got {:?}", other),
    }
    assert_eq!(monitor.state(), MonitorState::Reconnecting);
    assert_eq!(monitor.failures(), 1);
    // The state was fresh once, so the new connection need not refresh it.
    assert!(matches!(
        monitor.step_with(MonitorEvent::DelayElapsed, 0),
        MonitorAction::Connect { refresh_state: false }
    ));
    assert_eq!(monitor.state(), MonitorState::Connecting);
    assert!(matches!(monitor.step_with(MonitorEvent::Connected, 0), MonitorAction::ReadLine));
    // Neither connecting nor a relevant line forgets the failure; a refresh
    // that succeeds does.
    assert_eq!(monitor.failures(), 1);
    assert!(matches!(monitor.step_with(line("vdesk>>1"), 0), MonitorAction::FetchState));
    assert_eq!(monitor.failures(), 1);
    assert!(matches!(monitor.step_with(MonitorEvent::Applied, 0), MonitorAction::ReadLine));
    assert_eq!(monitor.failures(), 0);
}

#[test]
fn failed_refreshes_below_the_limit_only_drop_updates() {
    let mut monitor = listening(5);
    for round in 1..MAX_APPLY_FAILURES {
        assert!(matches!(monitor.step_with(line("vdesk>>1"), 0), MonitorAction::FetchState));
        assert!(matches!(
            monitor.step_with(apply_failed("parse error"), 0),
            MonitorAction::ReadLine
        ));
        assert_eq!(monitor.state(), MonitorState::Listening);
        assert_eq!(monitor.apply_failures(), round);
        assert_eq!(monitor.failures(), 0);
    }
    // A success in between starts the count again.
    assert!(matches!(monitor.step_with(line("vdesk>>1"), 0), MonitorAction::FetchState));
    assert!(matches!(monitor.step_with(MonitorEvent::Applied, 0), MonitorAction::ReadLine));
    assert_eq!(monitor.apply_failures(), 0);
}

#[test]
fn third_failed_refresh_counts_as_a_connection_failure() {
    let mut monitor = listening(5);
    for _ in 1..MAX_APPLY_FAILURES {
        monitor.step_with(line("vdesk>>1"), 0);
        monitor.step_with(apply_failed("parse error"), 0);
    }
    monitor.step_with(line("vdesk>>1"), 0);
    match monitor.step_with(apply_failed("parse error"), 0) {
        MonitorAction::Wait { delay_ms } => assert_eq!(delay_ms, 750),
        other => panic!("expected Wait, got {:?}", other),
    }
    assert_eq!(monitor.state(), MonitorState::Connecting);
    assert_eq!(monitor.failures(), 1);
    assert_eq!(monitor.apply_failures(), 3);
}

#[test]
fn failed_refreshes_can_exhaust_the_retries() {
    let mut monitor = listening(0);
    for _ in 1..MAX_APPLY_FAILURES {
        monitor.step_with(line("vdesk>>1"), 0);
        monitor.step_with(apply_failed("e"), 0);
    }
    monitor.step_with(line("vdesk>>1"), 0);
    match monitor.step_with(apply_failed("last"), 0) {
        MonitorAction::GiveUp {
            error: VirtualDesktopError::RetryExhausted { attempts, last_error },
        } => {
            assert_eq!(attempts, 1);
            assert_eq!(last_error, "last");
        }
        other => panic!("expected GiveUp, got {:?}", other),
    }
    assert_eq!(monitor.state(), MonitorState::Stopped);
}

#[test]
fn shutdown_during_backoff_stops_without_socket_operations() {
    let mut monitor = MonitorLoop::new(5, 1000);
    assert!(matches!(
        monitor.step_with(connect_failed("refused"), 0),
        MonitorAction::Wait { .. }
    ));
    let action = monitor.step_with(MonitorEvent::Shutdown, 0);
    assert!(matches!(action, MonitorAction::Close));
    assert_eq!(monitor.state(), MonitorState::ShuttingDown);
    // Whatever is reported next, also the end of the delay, the loop stops.
    let action = monitor.step_with(MonitorEvent::DelayElapsed, 0);
    assert!(matches!(action, MonitorAction::Stop));
    assert_eq!(monitor.state(), MonitorState::Stopped);
    for event in [
        MonitorEvent::DelayElapsed,
        MonitorEvent::Connected,
        line("vdesk>>1"),
        MonitorEvent::Applied,
        MonitorEvent::Shutdown,
        MonitorEvent::Closed,
    ] {
        let action = monitor.step_with(event, 0);
        assert!(!is_socket_operation(&action));
        assert!(matches!(action, MonitorAction::Stop));
        assert_eq!(monitor.state(), MonitorState::Stopped);
    }
}

#[test]
fn shutdown_is_taken_in_every_state() {
    let mut connecting = MonitorLoop::new(5, 1000);
    assert!(matches!(connecting.step_with(MonitorEvent::Shutdown, 0), MonitorAction::Close));

    let mut at_listening = listening(5);
    assert!(matches!(at_listening.step_with(MonitorEvent::Shutdown, 0), MonitorAction::Close));

    let mut applying = listening(5);
    applying.step_with(line("vdesk>>1"), 0);
    assert!(matches!(applying.step_with(MonitorEvent::Shutdown, 0), MonitorAction::Close));

    let mut reconnecting = listening(5);
    reconnecting.step_with(stream_failed("eof"), 0);
    assert!(matches!(reconnecting.step_with(MonitorEvent::Shutdown, 0), MonitorAction::Close));

    for mut monitor in [connecting, at_listening, applying, reconnecting] {
        assert_eq!(monitor.state(), MonitorState::ShuttingDown);
        assert!(matches!(monitor.step_with(MonitorEvent::Closed, 0), MonitorAction::Stop));
        assert_eq!(monitor.state(), MonitorState::Stopped);
    }
}

#[test]
fn events_out_of_place_are_ignored() {
    let mut monitor = MonitorLoop::new(5, 1000);
    assert!(matches!(monitor.step_with(line("vdesk>>1"), 0), MonitorAction::Ignore));
    assert!(matches!(monitor.step_with(MonitorEvent::Applied, 0), MonitorAction::Ignore));
    assert!(matches!(monitor.step_with(stream_failed("eof"), 0), MonitorAction::Ignore));
    assert!(matches!(monitor.step_with(MonitorEvent::Closed, 0), MonitorAction::Ignore));
    assert_eq!(monitor.state(), MonitorState::Connecting);
    assert_eq!(monitor.failures(), 0);

    let mut monitor = listening(5);
    assert!(matches!(monitor.step_with(MonitorEvent::Connected, 0), MonitorAction::Ignore));
    assert!(matches!(monitor.step_with(MonitorEvent::DelayElapsed, 0), MonitorAction::Ignore));
    assert!(matches!(monitor.step_with(apply_failed("e"), 0), MonitorAction::Ignore));
    assert_eq!(monitor.state(), MonitorState::Listening);
}

#[test]
fn random_step_waits_within_the_jitter_range() {
    for _ in 0..50 {
        let mut monitor = MonitorLoop::new(5, 1000);
        monitor.step(connect_failed("refused"));
        match monitor.step(connect_failed("refused")) {
            MonitorAction::Wait { delay_ms } => {
                assert!(delay_ms >= 1500);
                assert!(delay_ms <= 2500);
            }
            other => panic!("expected Wait, got {:?}", other),
        }
    }
}

#[test]
fn failed_refreshes_drive_the_loop_and_keep_the_store() {
    let mut store = VirtualDesktopsManager::new();
    store
        .replace_from_payload(
            r#"[{"id":1,"name":"Home","focused":true,"populated":true,"windows":2,"workspaces":[1,2]}]"#,
        )
        .unwrap();
    let mut monitor = listening(5);
    for round in 1..=3u32 {
        assert!(matches!(monitor.step_with(line("vdesk>>1"), 0), MonitorAction::FetchState));
        let error = store.replace_from_payload("garbage").unwrap_err();
        let action = monitor.step_with(apply_failed(&error.to_string()), 0);
        if round < 3 {
            assert!(matches!(action, MonitorAction::ReadLine));
        } else {
            assert!(matches!(action, MonitorAction::Wait { .. }));
        }
        let vdesks = store.get_virtual_desktops();
        assert_eq!(vdesks.len(), 1);
        assert_eq!(vdesks[0].name, "Home");
        assert_eq!(vdesks[0].workspaces, vec![1, 2]);
        assert!(vdesks[0].focused);
    }
}

#[test]
fn failed_refreshes_add_up_to_giving_up() {
    let mut monitor = listening(2);
    for _ in 1..MAX_APPLY_FAILURES {
        monitor.step_with(line("vdesk>>1"), 0);
        assert!(matches!(monitor.step_with(apply_failed("e"), 0), MonitorAction::ReadLine));
    }
    let expected = [750u64, 1500];
    for (index, delay) in expected.iter().enumerate() {
        assert!(matches!(monitor.step_with(line("vdesk>>1"), 0), MonitorAction::FetchState));
        match monitor.step_with(apply_failed("e"), 0) {
            MonitorAction::Wait { delay_ms } => assert_eq!(delay_ms, *delay),
            other => panic!("expected Wait, got {:?}", other),
        }
        assert_eq!(monitor.failures(), index as u32 + 1);
        assert!(matches!(
            monitor.step_with(MonitorEvent::DelayElapsed, 0),
            MonitorAction::Connect { refresh_state: false }
        ));
        assert!(matches!(monitor.step_with(MonitorEvent::Connected, 0), MonitorAction::ReadLine));
    }
    assert!(matches!(monitor.step_with(line("vdesk>>1"), 0), MonitorAction::FetchState));
    match monitor.step_with(apply_failed("still failing"), 0) {
        MonitorAction::GiveUp {
            error: VirtualDesktopError::RetryExhausted { attempts, last_error },
        } => {
            assert_eq!(attempts, 3);
            assert_eq!(last_error, "still failing");
        }
        other => panic!("expected GiveUp, got {:?}", other),
    }
    assert_eq!(monitor.state(), MonitorState::Stopped);
}
