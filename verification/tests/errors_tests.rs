use waybar_virtual_desktops::errors::{ErrorSeverity, VirtualDesktopError};

#[test]
fn test_error_severity_classification() {
    let ipc_error = VirtualDesktopError::IpcConnection {
        source: std::io::Error::new(std::io::ErrorKind::ConnectionRefused, "connection failed"),
    };
    assert_eq!(ipc_error.severity(), ErrorSeverity::Recoverable);

    let config_error =
        VirtualDesktopError::invalid_config("format", "invalid", "missing placeholders");
    assert_eq!(config_error.severity(), ErrorSeverity::Fatal);

    let parsing_error = VirtualDesktopError::parsing_failed("JSON parse error");
    assert_eq!(parsing_error.severity(), ErrorSeverity::Recoverable);

    let widget_error = VirtualDesktopError::widget_failed("update", "widget destroyed");
    assert_eq!(widget_error.severity(), ErrorSeverity::Minor);

    let retry_error = VirtualDesktopError::RetryExhausted {
        attempts: 5,
        last_error: "connection timeout".to_string(),
    };
    assert_eq!(retry_error.severity(), ErrorSeverity::Critical);
}

#[test]
fn test_convenience_constructors() {
    let config_error = VirtualDesktopError::invalid_config("retry_max", "0", "must be positive");

    match config_error {
        VirtualDesktopError::Configuration { field, value, reason } => {
            assert_eq!(field, "retry_max");
            assert_eq!(value, "0");
            assert_eq!(reason, "must be positive");
        }
        _ => panic!("Expected Configuration error"),
    }

    let parsing_error = VirtualDesktopError::parsing_failed("test context");
    match parsing_error {
        VirtualDesktopError::StateParsing { context } => {
            assert_eq!(context, "test context");
        }
        _ => panic!("Expected StateParsing error"),
    }

    let widget_error = VirtualDesktopError::widget_failed("test_op", "test_details");
    match widget_error {
        VirtualDesktopError::WidgetOperation { operation, details } => {
            assert_eq!(operation, "test_op");
            assert_eq!(details, "test_details");
        }
        _ => panic!("Expected WidgetOperation error"),
    }
}

#[test]
fn test_error_display() {
    let config_error =
        VirtualDesktopError::invalid_config("format", "{invalid}", "unknown placeholder");

    let error_string = config_error.to_string();
    assert!(error_string.contains("Configuration validation failed"));
    assert!(error_string.contains("format"));
    assert!(error_string.contains("{invalid}"));
    assert!(error_string.contains("unknown placeholder"));
}

#[test]
fn test_json_error_conversion() {
    let json_error = serde_json::from_str::<()>("invalid json").unwrap_err();
    let wrapped_error = VirtualDesktopError::from_json_error("parsing config", json_error);

    match wrapped_error {
        VirtualDesktopError::JsonError { operation, source: _ } => {
            assert_eq!(operation, "parsing config");
        }
        _ => panic!("Expected JsonError"),
    }
}

#[test]
fn every_kind_has_its_severity() {
    assert_eq!(
        VirtualDesktopError::invalid_instance_id("../x", "unsafe").severity(),
        ErrorSeverity::Fatal
    );
    assert_eq!(
        VirtualDesktopError::endpoint_not_found("/run/x").severity(),
        ErrorSeverity::Fatal
    );
    assert_eq!(
        VirtualDesktopError::Internal { message: "broken".to_string() }.severity(),
        ErrorSeverity::Critical
    );
    let json_error = serde_json::from_str::<()>("{").unwrap_err();
    assert_eq!(
        VirtualDesktopError::from_json_error("reading", json_error).severity(),
        ErrorSeverity::Recoverable
    );
}

#[test]
fn messages_are_exact() {
    assert_eq!(
        VirtualDesktopError::invalid_config("retry_max", "0", "must be greater than 0")
            .to_string(),
        "Configuration validation failed: retry_max = '0' - must be greater than 0"
    );
    assert_eq!(
        VirtualDesktopError::parsing_failed("payload is not valid JSON").to_string(),
        "Virtual desktop state parsing failed: payload is not valid JSON"
    );
    assert_eq!(
        VirtualDesktopError::widget_failed("update", "widget destroyed").to_string(),
        "Widget operation failed: update - widget destroyed"
    );
    assert_eq!(
        VirtualDesktopError::RetryExhausted { attempts: 11, last_error: "refused".to_string() }
            .to_string(),
        "Retry limit exceeded: 11 attempts failed - refused"
    );
    assert_eq!(
        VirtualDesktopError::Internal { message: "channel closed".to_string() }.to_string(),
        "Internal error: channel closed"
    );
    assert_eq!(
        VirtualDesktopError::invalid_instance_id("a/b", "contains unsafe characters").to_string(),
        "Invalid instance identifier: 'a/b' - contains unsafe characters"
    );
    assert_eq!(
        VirtualDesktopError::endpoint_not_found("/run/hypr/x/.socket.sock").to_string(),
        "Hyprland socket not found: /run/hypr/x/.socket.sock"
    );
}

#[test]
fn messages_of_wrapped_errors_carry_the_source() {
    let source = std::io::Error::new(std::io::ErrorKind::ConnectionRefused, "connection failed");
    let expected = format!("Hyprland IPC connection failed: {}", source);
    let error = VirtualDesktopError::IpcConnection { source };
    assert_eq!(error.to_string(), expected);

    let source = serde_json::from_str::<()>("invalid json").unwrap_err();
    let expected = format!("JSON processing failed: parsing config - {}", source);
    let error = VirtualDesktopError::from_json_error("parsing config", source);
    assert_eq!(error.to_string(), expected);
}
