use waybar_virtual_desktops::config::{
    Config, ConfigWrapper, IconTable, ModuleConfig, SortStrategy,
};
use waybar_virtual_desktops::errors::VirtualDesktopError;

fn sample_config() -> ModuleConfig {
    let mut format_icons = IconTable::new();
    format_icons.insert("1".to_string(), "🏠".to_string());
    format_icons.insert("Work".to_string(), "💼".to_string());
    ModuleConfig {
        format: "{icon} {name} ({window_count})".to_string(),
        show_empty: true,
        separator: " | ".to_string(),
        format_icons,
        show_window_count: true,
        sort_by: SortStrategy::Number,
        retry_max: 10,
        retry_base_delay_ms: 500,
    }
}

fn configuration_fault(config: &ModuleConfig) -> (String, String, String) {
    match config.validate() {
        Err(VirtualDesktopError::Configuration { field, value, reason }) => (field, value, reason),
        other => panic!("expected a configuration error, got {:?}", other),
    }
}

#[test]
fn test_config_formatting() {
    let mut format_icons = IconTable::new();
    format_icons.insert("1".to_string(), "🏠".to_string());
    format_icons.insert("Work".to_string(), "💼".to_string());

    let config = ModuleConfig {
        format: "{icon} {name} ({window_count})".to_string(),
        show_empty: true,
        separator: " | ".to_string(),
        format_icons,
        show_window_count: true,
        sort_by: SortStrategy::Number,
        retry_max: 10,
        retry_base_delay_ms: 500,
    };

    let result = config.format_virtual_desktop("Home", 1, 3);
    assert_eq!(result, "🏠 Home (3)");

    let result = config.format_virtual_desktop("Work", 2, 5);
    assert_eq!(result, "💼 Work (5)");

    let result = config.format_virtual_desktop("Other", 3, 0);
    assert_eq!(result, " Other (0)");

    let tooltip = config.format_tooltip("Home", 1, 3, true);
    assert_eq!(tooltip, "Virtual Desktop 1: Home (3 windows) - focused");

    let tooltip = config.format_tooltip("Work", 2, 5, false);
    assert_eq!(tooltip, "Virtual Desktop 2: Work (5 windows)");
}

#[test]
fn test_default_config() {
    let config = ModuleConfig::default();

    assert_eq!(config.format, "{name}");
    assert!(!config.show_empty);
    assert_eq!(config.separator, " ");
    assert!(config.format_icons.is_empty());
    assert!(!config.show_window_count);
    assert_eq!(config.sort_by, SortStrategy::Number);
    assert_eq!(config.retry_max, 10);
    assert_eq!(config.retry_base_delay_ms, 500);
}

#[test]
fn test_config_validation() {
    let valid_config = ModuleConfig::default();
    assert!(valid_config.validate().is_ok());

    let invalid_format = ModuleConfig {
        format: "no placeholders".to_string(),
        ..Default::default()
    };
    assert!(invalid_format.validate().is_err());

    let invalid_retry = ModuleConfig {
        retry_max: 0,
        ..Default::default()
    };
    assert!(invalid_retry.validate().is_err());

    let invalid_retry_high = ModuleConfig {
        retry_max: 100,
        ..Default::default()
    };
    assert!(invalid_retry_high.validate().is_err());

    let invalid_delay = ModuleConfig {
        retry_base_delay_ms: 20000,
        ..Default::default()
    };
    assert!(invalid_delay.validate().is_err());
}

#[test]
fn test_sort_strategy_parsing() {
    assert_eq!("number".parse::<SortStrategy>().unwrap(), SortStrategy::Number);
    assert_eq!("name".parse::<SortStrategy>().unwrap(), SortStrategy::Name);
    assert_eq!("focused-first".parse::<SortStrategy>().unwrap(), SortStrategy::FocusedFirst);

    assert!("invalid".parse::<SortStrategy>().is_err());

    assert_eq!(SortStrategy::Number.to_string(), "number");
    assert_eq!(SortStrategy::Name.to_string(), "name");
    assert_eq!(SortStrategy::FocusedFirst.to_string(), "focused-first");
}

#[test]
fn sort_strategy_default_is_number() {
    assert_eq!(SortStrategy::default(), SortStrategy::Number);
}

#[test]
fn sort_strategy_rejects_near_misses() {
    for word in ["", "Number", "number ", "focused_first", "names"] {
        match SortStrategy::parse(word) {
            Err(VirtualDesktopError::Configuration { field, value, reason }) => {
                assert_eq!(field, "sort_by");
                assert_eq!(value, word);
                assert_eq!(reason, "must be 'number', 'name', or 'focused-first'");
            }
            other => panic!("expected a configuration error, got {:?}", other),
        }
    }
}

#[test]
fn validation_names_the_first_fault() {
    let config = ModuleConfig {
        format: "plain".to_string(),
        retry_max: 0,
        retry_base_delay_ms: 20000,
        ..Default::default()
    };
    let (field, value, reason) = configuration_fault(&config);
    assert_eq!(field, "format");
    assert_eq!(value, "plain");
    assert_eq!(
        reason,
        "must contain at least one placeholder like {name}, {icon}, {id}, or {window_count}"
    );

    let config = ModuleConfig { retry_max: 0, retry_base_delay_ms: 20000, ..Default::default() };
    let (field, value, reason) = configuration_fault(&config);
    assert_eq!(field, "retry_max");
    assert_eq!(value, "0");
    assert_eq!(reason, "must be greater than 0");

    let config = ModuleConfig { retry_max: 51, ..Default::default() };
    let (field, value, reason) = configuration_fault(&config);
    assert_eq!(field, "retry_max");
    assert_eq!(value, "51");
    assert_eq!(reason, "must be 50 or less to prevent excessive delays");

    let config = ModuleConfig { retry_base_delay_ms: 0, ..Default::default() };
    let (field, value, reason) = configuration_fault(&config);
    assert_eq!(field, "retry_base_delay_ms");
    assert_eq!(value, "0");
    assert_eq!(reason, "must be greater than 0");

    let config = ModuleConfig { retry_max: 51, retry_base_delay_ms: 0, ..Default::default() };
    let (field, _, _) = configuration_fault(&config);
    assert_eq!(field, "retry_max");

    let config = ModuleConfig { retry_base_delay_ms: 10001, ..Default::default() };
    let (field, value, reason) = configuration_fault(&config);
    assert_eq!(field, "retry_base_delay_ms");
    assert_eq!(value, "10001");
    assert_eq!(reason, "must be 10000ms or less to prevent excessive delays");
}

#[test]
fn validation_accepts_the_bounds() {
    let config = ModuleConfig { retry_max: 1, retry_base_delay_ms: 1, ..Default::default() };
    assert!(config.validate().is_ok());
    let config = ModuleConfig { retry_max: 50, retry_base_delay_ms: 10000, ..Default::default() };
    assert!(config.validate().is_ok());
    let config = ModuleConfig { format: "{".to_string(), ..Default::default() };
    assert!(config.validate().is_ok());
}

#[test]
fn label_without_icon_mapping_keeps_the_gap() {
    let config = ModuleConfig {
        format: "{icon} {name} ({window_count})".to_string(),
        show_window_count: true,
        ..Default::default()
    };
    assert_eq!(config.format_virtual_desktop("Home", 1, 2), " Home (2)");
    assert_eq!(
        config.format_tooltip("Home", 1, 2, true),
        "Virtual Desktop 1: Home (2 windows) - focused"
    );
}

#[test]
fn label_fills_every_placeholder_everywhere() {
    let config = ModuleConfig {
        format: "{id}:{name}/{id} {window_count}{window_count} {unknown}".to_string(),
        ..Default::default()
    };
    assert_eq!(
        config.format_virtual_desktop("Mail", 4294967295, 10),
        "4294967295:Mail/4294967295 1010 {unknown}"
    );
}

#[test]
fn label_fills_placeholders_in_order() {
    let mut format_icons = IconTable::new();
    format_icons.insert("7".to_string(), "<{id}>".to_string());
    let config = ModuleConfig {
        format: "{name}|{icon}".to_string(),
        format_icons,
        ..Default::default()
    };
    // The name is filled in first, so a placeholder inside it is filled in
    // afterwards; the icon's `{id}` likewise.
    assert_eq!(config.format_virtual_desktop("{icon}", 7, 0), "<7>|<7>");
}

#[test]
fn icon_by_identifier_wins_over_icon_by_name() {
    let mut format_icons = IconTable::new();
    format_icons.insert("Work".to_string(), "by-name".to_string());
    format_icons.insert("2".to_string(), "by-id".to_string());
    let config =
        ModuleConfig { format: "{icon}".to_string(), format_icons, ..Default::default() };
    assert_eq!(config.format_virtual_desktop("Work", 2, 0), "by-id");
    assert_eq!(config.format_virtual_desktop("Work", 3, 0), "by-name");
    assert_eq!(config.format_virtual_desktop("Play", 3, 0), "");
}

#[test]
fn tooltip_without_window_count() {
    let config = ModuleConfig::default();
    assert_eq!(config.format_tooltip("Home", 12, 3, false), "Virtual Desktop 12: Home");
    assert_eq!(config.format_tooltip("Home", 12, 3, true), "Virtual Desktop 12: Home - focused");
    assert_eq!(config.format_tooltip("", 0, 0, false), "Virtual Desktop 0: ");
}

#[test]
fn icon_table_insert_and_get() {
    let mut icons = IconTable::new();
    assert!(icons.is_empty());
    assert_eq!(icons.get("1"), None);
    assert_eq!(icons.insert("1".to_string(), "a".to_string()), None);
    assert_eq!(icons.insert("2".to_string(), "b".to_string()), None);
    assert_eq!(icons.insert("1".to_string(), "c".to_string()), Some("a".to_string()));
    assert_eq!(icons.len(), 2);
    assert!(!icons.is_empty());
    assert_eq!(icons.get("1"), Some(&"c".to_string()));
    assert_eq!(icons.get("2"), Some(&"b".to_string()));
    assert_eq!(icons.get("3"), None);
}

fn host_config(sort_by: &str, retry_max: u32) -> Config {
    let mut format_icons = IconTable::new();
    format_icons.insert("1".to_string(), "🏠".to_string());
    Config {
        format: "{icon} {name}".to_string(),
        show_empty: true,
        separator: " | ".to_string(),
        format_icons,
        show_window_count: true,
        sort_by: sort_by.to_string(),
        retry_max,
        retry_base_delay_ms: 750,
    }
}

#[test]
fn host_configuration_is_taken_over() {
    let config = ModuleConfig::from_host(host_config("focused-first", 15)).unwrap();
    assert_eq!(config.format, "{icon} {name}");
    assert_eq!(config.show_empty, true);
    assert_eq!(config.separator, " | ");
    assert_eq!(config.format_icons.get("1"), Some(&"🏠".to_string()));
    assert_eq!(config.show_window_count, true);
    assert_eq!(config.sort_by, SortStrategy::FocusedFirst);
    assert_eq!(config.retry_max, 15);
    assert_eq!(config.retry_base_delay_ms, 750);
}

#[test]
fn host_configuration_with_unknown_order_is_refused() {
    match ModuleConfig::from_host(host_config("by-mood", 15)) {
        Err(VirtualDesktopError::Configuration { field, value, .. }) => {
            assert_eq!(field, "sort_by");
            assert_eq!(value, "by-mood");
        }
        other => panic!("expected a configuration error, got {:?}", other),
    }
}

#[test]
fn host_configuration_out_of_bounds_is_refused() {
    match ModuleConfig::from_host(host_config("name", 0)) {
        Err(VirtualDesktopError::Configuration { field, .. }) => assert_eq!(field, "retry_max"),
        other => panic!("expected a configuration error, got {:?}", other),
    }
}

#[test]
fn wrapper_unwraps_both_shapes() {
    let nested = ConfigWrapper::Nested { config: sample_config() };
    let config: ModuleConfig = nested.into();
    assert_eq!(config.format, "{icon} {name} ({window_count})");
    assert_eq!(config.separator, " | ");

    let direct = ConfigWrapper::Direct(ModuleConfig::default());
    let config = ModuleConfig::from(direct);
    assert_eq!(config.format, "{name}");
    assert_eq!(config.retry_max, 10);
}

#[test]
fn host_configuration_without_delay_is_refused() {
    let mut config = host_config("name", 5);
    config.retry_base_delay_ms = 0;
    match ModuleConfig::from_host(config) {
        Err(VirtualDesktopError::Configuration { field, value, .. }) => {
            assert_eq!(field, "retry_base_delay_ms");
            assert_eq!(value, "0");
        }
        other => panic!("expected a configuration error, got {:?}", other),
    }
}
