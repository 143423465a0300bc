use waybar_virtual_desktops::config::{IconTable, ModuleConfig, SortStrategy};
use waybar_virtual_desktops::ui::order::{sort_desktops, visible_desktops};
use waybar_virtual_desktops::ui::widgets::{
    optimize_widget_reordering, position_of, reconcile, reorder_record, reorder_was_optimized,
    style_classes, VirtualDesktopWidget, WidgetManager,
    WidgetOp,
};
use waybar_virtual_desktops::vdesk::{VirtualDesktop, VirtualDesktopsManager};

fn create_test_vdesk(id: u32, name: &str, focused: bool, populated: bool) -> VirtualDesktop {
    VirtualDesktop {
        id,
        name: name.to_string(),
        focused,
        populated,
        window_count: if populated { 2 } else { 0 },
        workspaces: if populated { vec![id, id + 10] } else { vec![] },
    }
}

fn moves_needed(current_order: &Vec<u32>, new_order: &Vec<u32>) -> Vec<(u32, usize)> {
    optimize_widget_reordering(current_order, new_order)
        .into_iter()
        .map(|op| match op {
            WidgetOp::Move { id, position } => (id, position),
            other => panic!("expected Move, got {:?}", other),
        })
        .collect()
}

fn numbered(ids: &[u32]) -> Vec<VirtualDesktop> {
    ids.iter().map(|id| create_test_vdesk(*id, &format!("Desktop {}", id), false, true)).collect()
}

fn describe(op: &WidgetOp) -> String {
    match op {
        WidgetOp::Destroy { id } => format!("destroy {}", id),
        WidgetOp::Create { id, text, tooltip, focused } => {
            format!("create {} [{}] [{}] {}", id, text, tooltip, focused)
        }
        WidgetOp::UpdateContent { id, text, tooltip } => {
            format!("content {} [{}] [{}]", id, text, tooltip)
        }
        WidgetOp::UpdateFocus { id, focused } => format!("focus {} {}", id, focused),
        WidgetOp::Move { id, position } => format!("move {} {}", id, position),
    }
}

fn described(ops: &Vec<WidgetOp>) -> Vec<String> {
    ops.iter().map(describe).collect()
}

#[test]
fn test_widget_creation() {
    let vdesk = create_test_vdesk(1, "Test Desktop", true, true);
    let widget = VirtualDesktopWidget::new(
        &vdesk,
        "Test Desktop".to_string(),
        "Virtual Desktop 1: Test Desktop".to_string(),
    );

    assert_eq!(widget.vdesk_id, 1);
    assert_eq!(widget.display_text, "Test Desktop");
    assert!(widget.focused);
}

#[test]
fn test_widget_update_detection() {
    let vdesk = create_test_vdesk(1, "Test Desktop", false, true);
    let mut widget =
        VirtualDesktopWidget::new(&vdesk, "Test Desktop".to_string(), "Tooltip".to_string());

    // Test no change
    let updated =
        widget.update_if_changed(&vdesk, "Test Desktop".to_string(), "Tooltip".to_string());
    assert!(!updated);

    // Test display text change
    let updated = widget.update_if_changed(&vdesk, "New Text".to_string(), "Tooltip".to_string());
    assert!(updated);
    assert_eq!(widget.display_text, "New Text");

    // Test focus change
    let focused_vdesk = VirtualDesktop { focused: true, ..vdesk };
    let updated =
        widget.update_if_changed(&focused_vdesk, "New Text".to_string(), "Tooltip".to_string());
    assert!(updated);
    assert!(widget.focused);
}

#[test]
fn test_optimized_reordering_logic() {
    let current_order = vec![1, 2, 3, 4, 5];
    let new_order = vec![1, 3, 2, 5, 4];

    let mut moves_needed = moves_needed(&current_order, &new_order);

    // Should only move widgets 2, 3, 4, 5 (widget 1 stays in position 0)
    moves_needed.sort_by_key(|&(id, _)| id);
    assert_eq!(moves_needed, vec![(2, 2), (3, 1), (4, 4), (5, 3)]);
}

#[test]
fn test_reordering_edge_cases() {
    // Test no changes needed
    let order = vec![1, 2, 3];
    let moves = moves_needed(&order, &order);

    assert!(moves.is_empty());

    // Test complete reversal
    let current_order = vec![1, 2, 3];
    let new_order = vec![3, 2, 1];

    let mut moves = moves_needed(&current_order, &new_order);

    // Should move widgets 1 and 3 (widget 2 stays in middle)
    moves.sort_by_key(|&(id, _)| id);
    assert_eq!(moves, vec![(1, 2), (3, 0)]);
}

#[test]
fn test_reordering_performance_characteristics() {
    let large_order: Vec<u32> = (1..=100).collect();

    // Scenario 1: No changes
    let moves = moves_needed(&large_order, &large_order);

    assert_eq!(moves.len(), 0);

    // Scenario 2: Single element move
    let mut single_move_order = large_order.clone();
    single_move_order.swap(0, 1); // Move first element to second position

    let moves = moves_needed(&large_order, &single_move_order);

    // Only 2 widgets should need to move (the swapped ones)
    assert_eq!(moves.len(), 2);

    // Scenario 3: Partial reordering
    let mut partial_reorder = large_order.clone();
    // Reverse only the first 10 elements
    partial_reorder[0..10].reverse();

    let moves = moves_needed(&large_order, &partial_reorder);

    // Should only move the affected elements
    assert!(moves.len() <= 10);
    assert!(moves.len() < large_order.len());

    // Verify that elements 11-100 don't need to move
    let moved_ids: std::collections::HashSet<u32> = moves.iter().map(|&(id, _)| id).collect();

    for id in 11..=100 {
        assert!(!moved_ids.contains(&id), "Widget {} should not need to move", id);
    }
}

#[test]
fn moves_come_by_ascending_position() {
    assert_eq!(
        moves_needed(&vec![1, 2, 3, 4, 5], &vec![1, 3, 2, 5, 4]),
        vec![(3, 1), (2, 2), (5, 3), (4, 4)]
    );
    // A widget that the current order does not hold is not moved.
    assert_eq!(moves_needed(&vec![1], &vec![1, 2]), vec![]);
    assert_eq!(moves_needed(&vec![1], &vec![1, 2, 3]), vec![]);
    assert_eq!(moves_needed(&vec![1], &vec![2, 1]), vec![(1, 1)]);
    assert_eq!(moves_needed(&vec![3, 1], &vec![1, 2, 3]), vec![(1, 0), (3, 2)]);
    assert_eq!(moves_needed(&vec![], &vec![]), vec![]);
    assert_eq!(moves_needed(&vec![4, 5], &vec![]), vec![]);
}

#[test]
fn first_update_creates_every_widget() {
    let mut manager = WidgetManager::new(ModuleConfig::default());
    let ops = manager.update_widgets(&numbered(&[1, 2]));
    assert_eq!(
        described(&ops),
        vec![
            "create 1 [Desktop 1] [Virtual Desktop 1: Desktop 1] false",
            "create 2 [Desktop 2] [Virtual Desktop 2: Desktop 2] false",
        ]
    );
    assert_eq!(manager.widget_count(), 2);
    assert_eq!(manager.widget_order(), vec![1, 2]);
    assert!(manager.has_widget(1));
    assert!(manager.has_widget(2));
    assert!(!manager.has_widget(3));
}

#[test]
fn second_update_with_the_same_desktops_is_empty() {
    for strategy in [SortStrategy::Number, SortStrategy::Name, SortStrategy::FocusedFirst] {
        let mut store = VirtualDesktopsManager::new();
        store
            .replace_from_payload(
                r#"[{"id":3,"name":"b","focused":true,"populated":true,"windows":1,"workspaces":[]},
                    {"id":1,"name":"c","focused":false,"populated":true,"windows":1,"workspaces":[]},
                    {"id":2,"name":"a","focused":false,"populated":false,"windows":0,"workspaces":[]}]"#,
            )
            .unwrap();
        let mut manager = WidgetManager::new(ModuleConfig {
            sort_by: strategy,
            show_empty: true,
            ..Default::default()
        });
        let first = manager.update_display(&store);
        assert_eq!(first.len(), 3);
        let second = manager.update_display(&store);
        assert!(second.is_empty(), "second update: {:?}", second);
        let third = manager.update_display(&store);
        assert!(third.is_empty());
    }
}

#[test]
fn update_orders_by_the_strategy() {
    let mut store = VirtualDesktopsManager::new();
    store
        .replace_from_payload(
            r#"[{"id":3,"name":"b","focused":true,"populated":true,"windows":1,"workspaces":[]},
                {"id":1,"name":"c","focused":false,"populated":true,"windows":1,"workspaces":[]},
                {"id":4,"name":"a","focused":false,"populated":true,"windows":1,"workspaces":[]},
                {"id":2,"name":"a","focused":false,"populated":false,"windows":0,"workspaces":[]}]"#,
        )
        .unwrap();
    let expected = [
        (SortStrategy::Number, true, vec![1, 2, 3, 4]),
        (SortStrategy::Name, true, vec![2, 4, 3, 1]),
        (SortStrategy::FocusedFirst, true, vec![3, 1, 2, 4]),
        (SortStrategy::Number, false, vec![1, 3, 4]),
        (SortStrategy::Name, false, vec![4, 3, 1]),
        (SortStrategy::FocusedFirst, false, vec![3, 1, 4]),
    ];
    for (strategy, show_empty, order) in expected {
        let mut manager =
            WidgetManager::new(ModuleConfig { sort_by: strategy, show_empty, ..Default::default() });
        manager.update_display(&store);
        assert_eq!(manager.widget_order(), order);
    }
}

#[test]
fn names_sort_by_character() {
    let desktops = vec![
        create_test_vdesk(1, "b", false, true),
        create_test_vdesk(2, "", false, true),
        create_test_vdesk(3, "ab", false, true),
        create_test_vdesk(4, "B", false, true),
        create_test_vdesk(5, "a", false, true),
        create_test_vdesk(6, "é", false, true),
        create_test_vdesk(7, "z", false, true),
        create_test_vdesk(8, "a", false, true),
    ];
    let sorted = sort_desktops(&desktops, SortStrategy::Name);
    let mut expected = desktops.clone();
    expected.sort_by(|a, b| a.name.cmp(&b.name).then(a.id.cmp(&b.id)));
    assert_eq!(
        sorted.iter().map(|d| d.id).collect::<Vec<u32>>(),
        expected.iter().map(|d| d.id).collect::<Vec<u32>>()
    );
    assert_eq!(sorted.iter().map(|d| d.id).collect::<Vec<u32>>(), vec![2, 4, 5, 8, 3, 1, 7, 6]);
}

#[test]
fn visibility_needs_windows_focus_or_show_empty() {
    let desktops = vec![
        create_test_vdesk(1, "a", false, false),
        create_test_vdesk(2, "b", true, false),
        create_test_vdesk(3, "c", false, true),
        create_test_vdesk(4, "d", true, true),
    ];
    let shown = visible_desktops(&desktops, false);
    assert_eq!(shown.iter().map(|d| d.id).collect::<Vec<u32>>(), vec![2, 3, 4]);
    let shown = visible_desktops(&desktops, true);
    assert_eq!(shown.iter().map(|d| d.id).collect::<Vec<u32>>(), vec![1, 2, 3, 4]);
}

#[test]
fn update_destroys_first_then_changes_then_moves() {
    let mut icons = IconTable::new();
    icons.insert("3".to_string(), "*".to_string());
    let config = ModuleConfig {
        format: "{icon}{name}".to_string(),
        format_icons: icons,
        show_window_count: true,
        ..Default::default()
    };
    let mut manager = WidgetManager::new(config);
    manager.update_widgets(&vec![
        create_test_vdesk(1, "one", true, true),
        create_test_vdesk(2, "two", false, true),
        create_test_vdesk(3, "three", false, true),
        create_test_vdesk(4, "four", false, false),
    ]);
    assert_eq!(manager.widget_order(), vec![1, 2, 3, 4]);

    let ops = manager.update_widgets(&vec![
        create_test_vdesk(3, "three", true, true),
        create_test_vdesk(5, "five", false, true),
        create_test_vdesk(1, "uno", false, true),
        create_test_vdesk(4, "four", false, false),
    ]);
    assert_eq!(
        described(&ops),
        vec![
            "destroy 2",
            "content 3 [*three] [Virtual Desktop 3: three (2 windows) - focused]",
            "focus 3 true",
            "create 5 [five] [Virtual Desktop 5: five (2 windows)] false",
            "content 1 [uno] [Virtual Desktop 1: uno (2 windows)]",
            "focus 1 false",
            // After the destroy and the create the order is 1, 3, 4, 5.
            "move 3 0",
            "move 5 1",
            "move 1 2",
            "move 4 3",
        ]
    );
    assert_eq!(manager.widget_order(), vec![3, 5, 1, 4]);
    assert_eq!(manager.widget_count(), 4);
    assert!(!manager.has_widget(2));
}

#[test]
fn unchanged_widget_in_place_is_not_touched() {
    let mut manager = WidgetManager::new(ModuleConfig::default());
    manager.update_widgets(&numbered(&[1, 2, 3, 4, 5]));
    let ops = manager.update_widgets(&numbered(&[1, 3, 2, 5, 4]));
    assert_eq!(described(&ops), vec!["move 3 1", "move 2 2", "move 5 3", "move 4 4"]);
    for op in &ops {
        match op {
            WidgetOp::Move { id, .. } => assert_ne!(*id, 1),
            other => panic!("expected Move, got {:?}", other),
        }
    }
}

#[test]
fn focus_change_alone_updates_tooltip_and_focus() {
    let mut manager = WidgetManager::new(ModuleConfig::default());
    manager.update_widgets(&vec![
        create_test_vdesk(1, "a", true, true),
        create_test_vdesk(2, "b", false, true),
    ]);
    let ops = manager.update_widgets(&vec![
        create_test_vdesk(1, "a", false, true),
        create_test_vdesk(2, "b", true, true),
    ]);
    assert_eq!(
        described(&ops),
        vec![
            "content 1 [a] [Virtual Desktop 1: a]",
            "focus 1 false",
            "content 2 [b] [Virtual Desktop 2: b - focused]",
            "focus 2 true",
        ]
    );
}

#[test]
fn removal_of_one_desktop_moves_nothing() {
    let mut manager = WidgetManager::new(ModuleConfig::default());
    manager.update_widgets(&numbered(&[1, 2, 3, 4]));
    let ops = manager.update_widgets(&numbered(&[1, 3, 4]));
    assert_eq!(described(&ops), vec!["destroy 2"]);
    let ops = manager.update_widgets(&numbered(&[]));
    assert_eq!(described(&ops), vec!["destroy 1", "destroy 3", "destroy 4"]);
    assert_eq!(manager.widget_count(), 0);
}

#[test]
fn appended_desktop_is_created_in_place() {
    let mut manager = WidgetManager::new(ModuleConfig::default());
    manager.update_widgets(&numbered(&[1, 2]));
    let ops = manager.update_widgets(&numbered(&[1, 2, 3]));
    assert_eq!(
        described(&ops),
        vec!["create 3 [Desktop 3] [Virtual Desktop 3: Desktop 3] false"]
    );
    let ops = manager.update_widgets(&numbered(&[0, 1, 2, 3]));
    assert_eq!(
        described(&ops),
        vec![
            "create 0 [Desktop 0] [Virtual Desktop 0: Desktop 0] false",
            "move 0 0",
            "move 1 1",
            "move 2 2",
            "move 3 3",
        ]
    );
}

#[test]
fn home_desktop_is_rendered() {
    let mut store = VirtualDesktopsManager::new();
    store
        .replace_from_payload(
            r#"[{"id":1,"name":"Home","focused":true,"populated":true,"windows":2,"workspaces":[1,2]}]"#,
        )
        .unwrap();
    let mut manager = WidgetManager::new(ModuleConfig {
        format: "{icon} {name} ({window_count})".to_string(),
        show_window_count: true,
        ..Default::default()
    });
    let ops = manager.update_display(&store);
    assert_eq!(
        described(&ops),
        vec!["create 1 [ Home (2)] [Virtual Desktop 1: Home (2 windows) - focused] true"]
    );
}

#[test]
fn position_is_the_first_with_the_identifier() {
    let desktops = numbered(&[4, 7, 4]);
    let widgets: Vec<VirtualDesktopWidget> = desktops
        .iter()
        .map(|d| VirtualDesktopWidget::new(d, d.name.clone(), String::new()))
        .collect();
    assert_eq!(position_of(&widgets, 4), Some(0));
    assert_eq!(position_of(&widgets, 7), Some(1));
    assert_eq!(position_of(&widgets, 5), None);
    let copy = widgets[1].clone();
    assert_eq!(copy.vdesk_id, 7);
    assert_eq!(copy.display_text, "Desktop 7");
}

#[test]
fn style_classes_tell_focus_and_emptiness() {
    let focused = create_test_vdesk(1, "a", true, true);
    let empty = create_test_vdesk(2, "b", false, false);
    assert_eq!(style_classes(&focused, false), vec!["vdesk-focused"]);
    assert_eq!(style_classes(&focused, true), vec!["vdesk-focused"]);
    assert_eq!(style_classes(&empty, false), vec!["vdesk-unfocused", "hidden"]);
    assert_eq!(style_classes(&empty, true), vec!["vdesk-unfocused"]);
    let focused_empty = create_test_vdesk(3, "c", true, false);
    assert_eq!(style_classes(&focused_empty, false), vec!["vdesk-focused", "hidden"]);
}

#[test]
fn reconcile_is_a_function_of_both_lists() {
    let widget = |id: u32, text: &str, focused: bool| VirtualDesktopWidget {
        vdesk_id: id,
        display_text: text.to_string(),
        tooltip_text: format!("tip {}", id),
        focused,
    };
    let old = vec![widget(1, "a", false), widget(2, "b", true)];
    let target = vec![widget(2, "b", false), widget(3, "c", true)];
    let ops = reconcile(&old, &target);
    assert_eq!(
        described(&ops),
        vec!["destroy 1", "focus 2 false", "create 3 [c] [tip 3] true"]
    );
    assert!(reconcile(&old, &old).is_empty());
    assert!(reconcile(&target, &target).is_empty());
    assert!(reconcile(&vec![], &vec![]).is_empty());
    assert_eq!(described(&reconcile(&old, &vec![])), vec!["destroy 1", "destroy 2"]);
}

#[test]
fn test_widget_update_algorithm_complexity() {
    let visible_vdesks = vec![
        VirtualDesktop {
            id: 1,
            name: "Desktop 1".to_string(),
            focused: true,
            populated: true,
            window_count: 0,
            workspaces: vec![],
        },
        VirtualDesktop {
            id: 3,
            name: "Desktop 3".to_string(),
            focused: false,
            populated: false,
            window_count: 0,
            workspaces: vec![],
        },
    ];

    let mut visible = WidgetManager::new(ModuleConfig::default());
    visible.update_widgets(&visible_vdesks);

    assert!(visible.has_widget(1));
    assert!(!visible.has_widget(2));
    assert!(visible.has_widget(3));

    let mut widgets = WidgetManager::new(ModuleConfig::default());
    widgets.update_widgets(&numbered(&[1, 2, 3]));

    assert!(widgets.has_widget(1));
    assert!(widgets.has_widget(3));
    assert!(!widgets.has_widget(4));

    let ops = widgets.update_widgets(&numbered(&[1, 3]));
    assert!(matches!(ops.as_slice(), [WidgetOp::Destroy { id: 2 }]));
    assert_eq!(widgets.widget_count(), 2);

    let keys: Vec<u32> = widgets.widget_order();
    assert_eq!(keys, vec![1, 3]);
}

#[test]
fn test_widget_manager_updates() {
    let vdesks = vec![
        create_test_vdesk(1, "Desktop 1", true, true),
        create_test_vdesk(2, "Desktop 2", false, true),
    ];

    let mut manager = WidgetManager::new(ModuleConfig::default());
    manager.update_widgets(&vdesks);

    assert!(manager.has_widget(1));
    assert!(manager.has_widget(2));
    assert!(!manager.has_widget(3));
}

#[test]
fn test_widget_order_tracking() {
    let order1 = vec![1, 2, 3];
    let order2 = vec![1, 3, 2];
    let order3 = vec![1, 2, 3];

    // Test order comparison
    assert!(!optimize_widget_reordering(&order1, &order2).is_empty());
    assert!(optimize_widget_reordering(&order1, &order3).is_empty());

    // Test order change detection
    let mut manager = WidgetManager::new(ModuleConfig::default());
    manager.update_widgets(&numbered(&[1, 2, 3]));
    manager.update_widgets(&numbered(&[3, 1, 2]));

    assert_eq!(manager.widget_order(), vec![3, 1, 2]);
}

#[test]
fn reorder_is_optimized_when_a_widget_stays() {
    let swap = optimize_widget_reordering(&vec![1, 2, 3], &vec![1, 3, 2]);
    assert!(reorder_was_optimized(&swap, 3));
    let rotate = optimize_widget_reordering(&vec![1, 2, 3], &vec![2, 3, 1]);
    assert!(!reorder_was_optimized(&rotate, 3));
    assert!(reorder_was_optimized(&vec![], 1));
    assert!(!reorder_was_optimized(&vec![], 0));
    let mixed = vec![
        WidgetOp::Destroy { id: 4 },
        WidgetOp::Move { id: 1, position: 0 },
        WidgetOp::UpdateFocus { id: 1, focused: true },
    ];
    assert!(reorder_was_optimized(&mixed, 2));
    assert!(!reorder_was_optimized(&mixed, 1));
}

#[test]
fn reordering_is_recorded_only_where_the_order_changes() {
    let no_ops: Vec<WidgetOp> = vec![];
    // The same order, and an order that only lost a widget: nothing to record.
    assert_eq!(reorder_record(&vec![1, 2, 3], &vec![1, 2, 3], &no_ops), None);
    assert_eq!(reorder_record(&vec![1, 2, 3], &vec![1, 3], &no_ops), None);
    assert_eq!(reorder_record(&vec![], &vec![], &no_ops), None);
    assert_eq!(reorder_record(&vec![1], &vec![], &no_ops), None);
    // A swap moves two of three widgets.
    let swap = optimize_widget_reordering(&vec![1, 2, 3], &vec![1, 3, 2]);
    assert_eq!(reorder_record(&vec![1, 2, 3], &vec![1, 3, 2], &swap), Some(true));
    // A rotation moves every widget.
    let rotate = optimize_widget_reordering(&vec![1, 2, 3], &vec![2, 3, 1]);
    assert_eq!(reorder_record(&vec![1, 2, 3], &vec![2, 3, 1], &rotate), Some(false));
    // A new widget changes the order though nothing moves.
    assert_eq!(reorder_record(&vec![1, 2], &vec![1, 2, 3], &no_ops), Some(true));
    assert_eq!(reorder_record(&vec![], &vec![1], &no_ops), Some(true));
}

#[test]
fn update_records_its_reordering() {
    let mut manager = WidgetManager::new(ModuleConfig::default());
    let before = manager.widget_order();
    let ops = manager.update_widgets(&numbered(&[1, 2, 3]));
    assert_eq!(reorder_record(&before, &manager.widget_order(), &ops), Some(true));

    let before = manager.widget_order();
    let ops = manager.update_widgets(&numbered(&[1, 2, 3]));
    assert_eq!(reorder_record(&before, &manager.widget_order(), &ops), None);

    let before = manager.widget_order();
    let ops = manager.update_widgets(&numbered(&[3, 2, 1]));
    assert_eq!(reorder_record(&before, &manager.widget_order(), &ops), Some(true));

    let before = manager.widget_order();
    let ops = manager.update_widgets(&numbered(&[2, 1, 3]));
    assert_eq!(reorder_record(&before, &manager.widget_order(), &ops), Some(false));
}
