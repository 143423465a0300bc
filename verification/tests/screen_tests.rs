use waybar_virtual_desktops::ui::arrange::{arrangement_steps, ReorderStep};
use waybar_virtual_desktops::ui::widgets::{reconcile, VirtualDesktopWidget, WidgetOp};

fn widget(id: u32, version: u32, focused: bool) -> VirtualDesktopWidget {
    VirtualDesktopWidget {
        vdesk_id: id,
        display_text: format!("label {} v{}", id, version % 3),
        tooltip_text: format!("tip {} v{}", id, version % 2),
        focused,
    }
}

fn same(a: &VirtualDesktopWidget, b: &VirtualDesktopWidget) -> bool {
    a.vdesk_id == b.vdesk_id
        && a.display_text == b.display_text
        && a.tooltip_text == b.tooltip_text
        && a.focused == b.focused
}

/// A renderer that performs the operations as they are meant.
fn perform(old: &Vec<VirtualDesktopWidget>, ops: &Vec<WidgetOp>) -> Vec<VirtualDesktopWidget> {
    let mut screen: Vec<VirtualDesktopWidget> = old.clone();
    for op in ops {
        match op {
            WidgetOp::Destroy { id } => screen.retain(|w| w.vdesk_id != *id),
            WidgetOp::Create { id, text, tooltip, focused } => screen.push(VirtualDesktopWidget {
                vdesk_id: *id,
                display_text: text.clone(),
                tooltip_text: tooltip.clone(),
                focused: *focused,
            }),
            WidgetOp::UpdateContent { id, text, tooltip } => {
                for w in screen.iter_mut().filter(|w| w.vdesk_id == *id) {
                    w.display_text = text.clone();
                    w.tooltip_text = tooltip.clone();
                }
            }
            WidgetOp::UpdateFocus { id, focused } => {
                for w in screen.iter_mut().filter(|w| w.vdesk_id == *id) {
                    w.focused = *focused;
                }
            }
            WidgetOp::Move { .. } => {}
        }
    }
    // The box performs the steps one widget at a time.
    for step in arrangement_steps(ops) {
        let (id, position) = match step {
            ReorderStep::ToEnd { id } => (id, None),
            ReorderStep::ToPosition { id, position } => (id, Some(position)),
        };
        let at = screen.iter().position(|w| w.vdesk_id == id).unwrap();
        let moved = screen.remove(at);
        match position {
            Some(position) if position <= screen.len() => screen.insert(position, moved),
            _ => screen.push(moved),
        }
    }
    screen
}

fn shuffled(mut ids: Vec<u32>) -> Vec<u32> {
    fastrand::shuffle(&mut ids);
    ids
}

fn subset(universe: u32) -> Vec<u32> {
    shuffled((1..=universe).filter(|_| fastrand::bool()).collect())
}

#[test]
fn performing_the_operations_puts_the_target_on_screen() {
    fastrand::seed(7);
    for round in 0..3000u32 {
        let universe = 1 + round % 9;
        let old: Vec<VirtualDesktopWidget> = subset(universe)
            .into_iter()
            .map(|id| widget(id, fastrand::u32(0..6), fastrand::bool()))
            .collect();
        let target: Vec<VirtualDesktopWidget> = subset(universe)
            .into_iter()
            .map(|id| widget(id, fastrand::u32(0..6), fastrand::bool()))
            .collect();
        let ops = reconcile(&old, &target);
        let screen = perform(&old, &ops);
        assert_eq!(screen.len(), target.len(), "old {:?} target {:?}", old, target);
        for (shown, wanted) in screen.iter().zip(target.iter()) {
            assert!(same(shown, wanted), "old {:?} target {:?} ops {:?}", old, target, ops);
        }
        // Destroyed widgets come first, moves last.
        let kinds: Vec<u8> = ops
            .iter()
            .map(|op| match op {
                WidgetOp::Destroy { .. } => 0,
                WidgetOp::Move { .. } => 2,
                _ => 1,
            })
            .collect();
        assert!(kinds.windows(2).all(|pair| pair[0] <= pair[1]));
        // A second update has nothing to do.
        assert!(reconcile(&target, &target).is_empty());
    }
}

#[test]
fn moves_that_cross_are_performed_together() {
    let order = |ids: &[u32]| -> Vec<VirtualDesktopWidget> {
        ids.iter().map(|id| widget(*id, 0, false)).collect()
    };
    let old = order(&[1, 2, 3, 4, 5]);
    let target = order(&[5, 2, 4, 3, 1]);
    let ops = reconcile(&old, &target);
    assert_eq!(ops.len(), 4);
    let screen = perform(&old, &ops);
    assert_eq!(screen.iter().map(|w| w.vdesk_id).collect::<Vec<u32>>(), vec![5, 2, 4, 3, 1]);
}

#[test]
fn steps_lift_every_moved_widget_before_any_is_placed() {
    let ops = vec![
        WidgetOp::Destroy { id: 9 },
        WidgetOp::Move { id: 5, position: 0 },
        WidgetOp::UpdateFocus { id: 5, focused: true },
        WidgetOp::Move { id: 4, position: 2 },
    ];
    assert_eq!(
        arrangement_steps(&ops),
        vec![
            ReorderStep::ToEnd { id: 5 },
            ReorderStep::ToEnd { id: 4 },
            ReorderStep::ToPosition { id: 5, position: 0 },
            ReorderStep::ToPosition { id: 4, position: 2 },
        ]
    );
    assert_eq!(arrangement_steps(&vec![]), vec![]);
    assert_eq!(arrangement_steps(&vec![WidgetOp::Destroy { id: 1 }]), vec![]);
}
