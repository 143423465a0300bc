use waybar_virtual_desktops::errors::VirtualDesktopError;
use waybar_virtual_desktops::hyprland::{
    action_command, candidate_endpoints, name_queries, desk_info_command, is_vdesk_event, resolve_endpoints, state_command,
    switch_command, validate_instance_signature, HyprlandIPC,
};

#[test]
fn test_instance_signature_validation() {
    assert!(validate_instance_signature("test123").is_ok());
    assert!(validate_instance_signature("hypr_instance").is_ok());
    assert!(validate_instance_signature("session-1").is_ok());
    assert!(validate_instance_signature("a").is_ok());
    assert!(validate_instance_signature("A1_-test").is_ok());
    assert!(validate_instance_signature("").is_err());
    assert!(validate_instance_signature("../malicious").is_err());
    assert!(validate_instance_signature("test/malicious").is_err());
    assert!(validate_instance_signature("test$malicious").is_err());
    assert!(validate_instance_signature("test malicious").is_err());
    assert!(validate_instance_signature("test\nmalicious").is_err());
    assert!(validate_instance_signature(&"a".repeat(65)).is_err());
}

#[test]
fn signature_validation_agrees_with_the_pattern() {
    let pattern = regex::Regex::new(r"^[a-zA-Z0-9_-]{1,64}$").unwrap();
    let mut samples: Vec<String> = vec![
        "".to_string(),
        "a".to_string(),
        "Z".to_string(),
        "0".to_string(),
        "9".to_string(),
        "_".to_string(),
        "-".to_string(),
        "test\n".to_string(),
        "\ntest".to_string(),
        "tést".to_string(),
        "test.sock".to_string(),
        "..".to_string(),
        "a b".to_string(),
        "a\tb".to_string(),
        "@".to_string(),
        "[".to_string(),
        "`".to_string(),
        "{".to_string(),
        "/".to_string(),
        ":".to_string(),
        "a".repeat(63),
        "a".repeat(64),
        "a".repeat(65),
        "-".repeat(64),
        "é".repeat(32),
    ];
    for code in 0u32..256 {
        if let Some(c) = char::from_u32(code) {
            samples.push(c.to_string());
            samples.push(format!("x{}y", c));
        }
    }
    for sample in &samples {
        assert_eq!(
            validate_instance_signature(sample).is_ok(),
            pattern.is_match(sample),
            "sample {:?}",
            sample
        );
    }
}

#[test]
fn signature_errors_say_why() {
    match validate_instance_signature("") {
        Err(VirtualDesktopError::InvalidInstanceId { signature, reason }) => {
            assert_eq!(signature, "");
            assert_eq!(reason, "empty signature");
        }
        other => panic!("expected InvalidInstanceId, got {:?}", other),
    }
    match validate_instance_signature("../malicious") {
        Err(VirtualDesktopError::InvalidInstanceId { signature, reason }) => {
            assert_eq!(signature, "../malicious");
            assert!(reason.contains("unsafe characters"));
        }
        other => panic!("expected InvalidInstanceId, got {:?}", other),
    }
}

#[test]
fn endpoints_follow_the_layout() {
    let endpoints = resolve_endpoints("session-1", "/run/user/1000", true, true).unwrap();
    assert_eq!(endpoints.command_path, "/run/user/1000/hypr/session-1/.socket.sock");
    assert_eq!(endpoints.event_path, "/run/user/1000/hypr/session-1/.socket2.sock");
}

#[test]
fn endpoints_join_like_paths() {
    for runtime_dir in ["/tmp", "/tmp/", "", "relative/dir", "/"] {
        let endpoints = candidate_endpoints("abc", runtime_dir).unwrap();
        let expected =
            std::path::PathBuf::from(runtime_dir).join("hypr").join("abc").join(".socket.sock");
        assert_eq!(endpoints.command_path, expected.to_str().unwrap());
        let expected =
            std::path::PathBuf::from(runtime_dir).join("hypr").join("abc").join(".socket2.sock");
        assert_eq!(endpoints.event_path, expected.to_str().unwrap());
    }
}

#[test]
fn invalid_signature_is_refused_whatever_exists() {
    for signature in ["", "../malicious", "test/malicious", "test$malicious", &"a".repeat(65)] {
        for (command_exists, event_exists) in
            [(true, true), (true, false), (false, true), (false, false)]
        {
            match resolve_endpoints(signature, "/tmp", command_exists, event_exists) {
                Err(VirtualDesktopError::InvalidInstanceId { .. }) => {}
                other => panic!("expected InvalidInstanceId, got {:?}", other),
            }
        }
        assert!(candidate_endpoints(signature, "/tmp").is_err());
    }
}

#[test]
fn valid_signature_resolves_iff_both_sockets_exist() {
    for signature in ["test123", "hypr_instance", "session-1", "a", "A1_-test"] {
        assert!(resolve_endpoints(signature, "/tmp", true, true).is_ok());
        match resolve_endpoints(signature, "/tmp", false, true) {
            Err(VirtualDesktopError::EndpointNotFound { path }) => {
                assert_eq!(path, format!("/tmp/hypr/{}/.socket.sock", signature));
            }
            other => panic!("expected EndpointNotFound, got {:?}", other),
        }
        match resolve_endpoints(signature, "/tmp", true, false) {
            Err(VirtualDesktopError::EndpointNotFound { path }) => {
                assert_eq!(path, format!("/tmp/hypr/{}/.socket2.sock", signature));
            }
            other => panic!("expected EndpointNotFound, got {:?}", other),
        }
        match resolve_endpoints(signature, "/tmp", false, false) {
            Err(VirtualDesktopError::EndpointNotFound { path }) => {
                assert_eq!(path, format!("/tmp/hypr/{}/.socket.sock", signature));
            }
            other => panic!("expected EndpointNotFound, got {:?}", other),
        }
    }
}

#[test]
fn client_keeps_endpoints_and_retry_parameters() {
    let endpoints = resolve_endpoints("abc", "/run", true, true).unwrap();
    let client = HyprlandIPC::new(endpoints);
    assert_eq!(client.socket_path(), "/run/hypr/abc/.socket.sock");
    assert_eq!(client.event_socket_path(), "/run/hypr/abc/.socket2.sock");
    assert_eq!(client.retry_max(), 10);
    assert_eq!(client.retry_base_delay_ms(), 500);

    let endpoints = resolve_endpoints("abc", "/run", true, true).unwrap();
    let client = HyprlandIPC::with_config(endpoints, 3, 250);
    assert_eq!(client.retry_max(), 3);
    assert_eq!(client.retry_base_delay_ms(), 250);
}

#[test]
fn commands_are_exact() {
    assert_eq!(state_command(), "j/printstate");
    assert_eq!(desk_info_command(3), "printdesk 3");
    assert_eq!(desk_info_command(0), "printdesk 0");
    assert_eq!(switch_command(12), "dispatch vdesk 12");
    assert_eq!(switch_command(4294967295), "dispatch vdesk 4294967295");
}

#[test]
fn only_desktop_events_are_relevant() {
    assert!(is_vdesk_event("vdesk>>2"));
    assert!(is_vdesk_event("vdesk>>"));
    assert!(!is_vdesk_event("vdesk>"));
    assert!(!is_vdesk_event("workspace>>2"));
    assert!(!is_vdesk_event(" vdesk>>2"));
    assert!(!is_vdesk_event(""));
    assert!(!is_vdesk_event("Vdesk>>2"));
}

#[test]
fn only_a_desktop_number_is_an_action() {
    assert_eq!(action_command("3"), Some("dispatch vdesk 3".to_string()));
    assert_eq!(action_command("+3"), Some("dispatch vdesk 3".to_string()));
    assert_eq!(action_command("007"), Some("dispatch vdesk 7".to_string()));
    assert_eq!(action_command(""), None);
    assert_eq!(action_command("next"), None);
    assert_eq!(action_command("-1"), None);
    assert_eq!(action_command(" 3"), None);
    assert_eq!(action_command("4294967296"), None);
}

#[test]
fn names_are_asked_for_the_first_five_desktops() {
    let queries = name_queries();
    assert_eq!(
        queries,
        vec![
            (1, "printdesk 1".to_string()),
            (2, "printdesk 2".to_string()),
            (3, "printdesk 3".to_string()),
            (4, "printdesk 4".to_string()),
            (5, "printdesk 5".to_string()),
        ]
    );
}

#[test]
fn test_hyprland_ipc_creation() {
    match resolve_endpoints("test123", "/tmp", false, false) {
        Ok(endpoints) => {
            let client = HyprlandIPC::new(endpoints);
            println!("HyprlandIPC created successfully for {}", client.socket_path());
        }
        Err(e) => println!("Expected error when Hyprland not running: {}", e.to_string()),
    }
}

#[test]
fn test_environment_variable_validation() {
    let runtime_dir = "/tmp";

    let result = resolve_endpoints("../malicious", runtime_dir, false, false);
    assert!(result.is_err(), "Should reject path traversal attempts");
    if let Err(e) = result {
        assert!(e.to_string().contains("unsafe characters"));
    }

    let result = resolve_endpoints("", runtime_dir, false, false);
    assert!(result.is_err(), "Should reject empty signature");
    if let Err(e) = result {
        assert!(e.to_string().contains("empty signature"));
    }

    let result = resolve_endpoints("test/malicious", runtime_dir, false, false);
    assert!(result.is_err(), "Should reject signature with slash");
    if let Err(e) = result {
        assert!(e.to_string().contains("unsafe characters"));
    }

    let result = resolve_endpoints("test$malicious", runtime_dir, false, false);
    assert!(result.is_err(), "Should reject signature with special characters");

    let result = resolve_endpoints(&"a".repeat(65), runtime_dir, false, false);
    assert!(result.is_err(), "Should reject signature that's too long");

    for valid_sig in &["test123", "hypr_instance", "session-1", "a", "A1_-test"] {
        let result = resolve_endpoints(valid_sig, runtime_dir, false, false);
        if let Err(e) = result {
            assert!(
                e.to_string().contains("socket not found")
                    || e.to_string().contains("No such file")
            );
        }
    }
}
