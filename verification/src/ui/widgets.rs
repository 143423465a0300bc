//! The reconciler: the operations that bring the rendered widgets into
//! agreement with a new list of desktops.

use crate::config::{display_text, icon_for, tooltip_text, ModuleConfig};
use crate::ui::order::{
    is_sorted_form, lemma_sorted_form_unique, lemma_visible_records, sort_desktops,
    visible_desktops, visible_records,
};
use crate::vdesk::{distinct_ids, records_of, DesktopRecord, VirtualDesktop, VirtualDesktopsManager};
use crate::ui::screen::lemma_before_moves;
use std::collections::BTreeMap;
use std::collections::HashMap;
use vstd::prelude::*;

verus! {

broadcast use {
    vstd::std_specs::btree::group_btree_axioms,
    vstd::std_specs::hash::group_hash_axioms,
    vstd::laws_cmp::group_laws_cmp,
};

/// What is rendered for one desktop.
#[derive(Debug)]
pub struct VirtualDesktopWidget {
    pub vdesk_id: u32,
    pub display_text: String,
    pub tooltip_text: String,
    pub focused: bool,
}

/// The mathematical value of a rendered widget.
pub struct Rendered {
    pub id: u32,
    pub text: Seq<char>,
    pub tooltip: Seq<char>,
    pub focused: bool,
}

impl View for VirtualDesktopWidget {
    type V = Rendered;

    open spec fn view(&self) -> Rendered {
        Rendered {
            id: self.vdesk_id,
            text: self.display_text@,
            tooltip: self.tooltip_text@,
            focused: self.focused,
        }
    }
}

impl Clone for VirtualDesktopWidget {
    fn clone(&self) -> (copy: Self)
        ensures
            copy@ == self@,
    {
        VirtualDesktopWidget {
            vdesk_id: self.vdesk_id,
            display_text: self.display_text.clone(),
            tooltip_text: self.tooltip_text.clone(),
            focused: self.focused,
        }
    }
}

impl VirtualDesktopWidget {
    /// The widget of a desktop with its label and tooltip.
    pub fn new(vdesk: &VirtualDesktop, display_text: String, tooltip_text: String) -> (widget: Self)
        ensures
            widget@ == (Rendered {
                id: vdesk.id,
                text: display_text@,
                tooltip: tooltip_text@,
                focused: vdesk.focused,
            }),
    {
        VirtualDesktopWidget {
            vdesk_id: vdesk.id,
            display_text,
            tooltip_text,
            focused: vdesk.focused,
        }
    }

    /// Takes over label, tooltip and focus. Returns whether any of them
    /// changed.
    pub fn update_if_changed(
        &mut self,
        vdesk: &VirtualDesktop,
        display_text: String,
        tooltip_text: String,
    ) -> (updated: bool)
        ensures
            final(self)@ == (Rendered {
                id: old(self)@.id,
                text: display_text@,
                tooltip: tooltip_text@,
                focused: vdesk.focused,
            }),
            updated == (final(self)@ != old(self)@),
    {
        let mut updated = false;
        if self.display_text != display_text {
            self.display_text = display_text;
            updated = true;
        }
        if self.tooltip_text != tooltip_text {
            self.tooltip_text = tooltip_text;
            updated = true;
        }
        if self.focused != vdesk.focused {
            self.focused = vdesk.focused;
            updated = true;
        }
        updated
    }
}

/// The style classes of a widget: one for its focus, and `hidden` where
/// the desktop has no windows and empty desktops are not shown.
pub open spec fn classes_of(focused: bool, populated: bool, show_empty: bool) -> Seq<Seq<char>> {
    seq![if focused {
        "vdesk-focused"@
    } else {
        "vdesk-unfocused"@
    }] + (if !populated && !show_empty {
        seq!["hidden"@]
    } else {
        Seq::empty()
    })
}

/// The character sequences of a list of strings.
pub open spec fn texts_of(strings: Seq<String>) -> Seq<Seq<char>> {
    Seq::new(strings.len(), |i: int| strings[i]@)
}

/// The style classes of the widget of a desktop.
pub fn style_classes(vdesk: &VirtualDesktop, show_empty: bool) -> (classes: Vec<String>)
    ensures
        texts_of(classes@) == classes_of(vdesk.focused, vdesk.populated, show_empty),
{
    let mut classes: Vec<String> = Vec::new();
    if vdesk.focused {
        classes.push("vdesk-focused".to_owned());
    } else {
        classes.push("vdesk-unfocused".to_owned());
    }
    if !vdesk.populated && !show_empty {
        classes.push("hidden".to_owned());
    }
    assert(texts_of(classes@) =~= classes_of(vdesk.focused, vdesk.populated, show_empty));
    classes
}

/// One step of an update of the rendered widgets.
#[derive(Debug)]
pub enum WidgetOp {
    /// Remove the widget of a desktop.
    Destroy { id: u32 },
    /// Add a widget at the end.
    Create { id: u32, text: String, tooltip: String, focused: bool },
    /// Replace label and tooltip.
    UpdateContent { id: u32, text: String, tooltip: String },
    /// Mark the widget as focused or not.
    UpdateFocus { id: u32, focused: bool },
    /// Put the widget at a position, counted from zero. The moves of one
    /// update belong together: each widget that is moved ends at its
    /// position, and every widget that is not moved keeps its own.
    Move { id: u32, position: usize },
}

/// The mathematical value of an operation.
pub enum OpView {
    Destroy { id: u32 },
    Create { id: u32, text: Seq<char>, tooltip: Seq<char>, focused: bool },
    UpdateContent { id: u32, text: Seq<char>, tooltip: Seq<char> },
    UpdateFocus { id: u32, focused: bool },
    Move { id: u32, position: int },
}

impl View for WidgetOp {
    type V = OpView;

    open spec fn view(&self) -> OpView {
        match self {
            WidgetOp::Destroy { id } => OpView::Destroy { id: *id },
            WidgetOp::Create { id, text, tooltip, focused } => OpView::Create {
                id: *id,
                text: text@,
                tooltip: tooltip@,
                focused: *focused,
            },
            WidgetOp::UpdateContent { id, text, tooltip } => OpView::UpdateContent {
                id: *id,
                text: text@,
                tooltip: tooltip@,
            },
            WidgetOp::UpdateFocus { id, focused } => OpView::UpdateFocus {
                id: *id,
                focused: *focused,
            },
            WidgetOp::Move { id, position } => OpView::Move { id: *id, position: *position as int },
        }
    }
}

/// The values of a list of operations.
pub open spec fn ops_of(ops: Seq<WidgetOp>) -> Seq<OpView> {
    Seq::new(ops.len(), |i: int| ops[i]@)
}

/// The values of a list of widgets.
pub open spec fn rendered_of(widgets: Seq<VirtualDesktopWidget>) -> Seq<Rendered> {
    Seq::new(widgets.len(), |i: int| widgets[i]@)
}

/// The identifiers of a list of widgets, in its order.
pub open spec fn ids_of(widgets: Seq<Rendered>) -> Seq<u32> {
    Seq::new(widgets.len(), |i: int| widgets[i].id)
}

/// No identifier occurs twice in a list of widgets.
pub open spec fn distinct_widgets(widgets: Seq<Rendered>) -> bool {
    forall|i: int, j: int| 0 <= i < j < widgets.len() ==> widgets[i].id != widgets[j].id
}

/// The first widget with the identifier `id`, if there is one.
pub open spec fn find_widget(widgets: Seq<Rendered>, id: u32) -> Option<Rendered>
    decreases widgets.len(),
{
    if widgets.len() == 0 {
        None
    } else if widgets[0].id == id {
        Some(widgets[0])
    } else {
        find_widget(widgets.skip(1), id)
    }
}

/// What a desktop looks like under a configuration.
pub open spec fn rendering(config: ModuleConfig, desktop: DesktopRecord) -> Rendered {
    Rendered {
        id: desktop.id,
        text: display_text(
            config.format@,
            icon_for(config.format_icons@, desktop.name, desktop.id),
            desktop.name,
            desktop.id,
            desktop.window_count,
        ),
        tooltip: tooltip_text(
            config.show_window_count,
            desktop.name,
            desktop.id,
            desktop.window_count,
            desktop.focused,
        ),
        focused: desktop.focused,
    }
}

/// What a list of desktops looks like under a configuration.
pub open spec fn target_of(config: ModuleConfig, desktops: Seq<DesktopRecord>) -> Seq<Rendered> {
    Seq::new(desktops.len(), |i: int| rendering(config, desktops[i]))
}

/// One `Destroy` for every widget of `old` whose desktop is not in
/// `target`, in the order of `old`.
pub open spec fn destroy_ops(old: Seq<Rendered>, target: Seq<Rendered>) -> Seq<OpView>
    decreases old.len(),
{
    if old.len() == 0 {
        Seq::empty()
    } else {
        let before = destroy_ops(old.drop_last(), target);
        if find_widget(target, old.last().id).is_some() {
            before
        } else {
            before.push(OpView::Destroy { id: old.last().id })
        }
    }
}

/// The identifiers of the widgets of `old` whose desktops are in `target`,
/// in the order of `old`.
pub open spec fn survivors(old: Seq<Rendered>, target: Seq<Rendered>) -> Seq<u32>
    decreases old.len(),
{
    if old.len() == 0 {
        Seq::empty()
    } else {
        let before = survivors(old.drop_last(), target);
        if find_widget(target, old.last().id).is_some() {
            before.push(old.last().id)
        } else {
            before
        }
    }
}

/// The operations for one desktop of the target: a `Create` where it has no
/// widget yet; else an `UpdateContent` where label or tooltip differ, then
/// an `UpdateFocus` where the focus differs.
pub open spec fn widget_ops(old: Seq<Rendered>, wanted: Rendered) -> Seq<OpView> {
    match find_widget(old, wanted.id) {
        None => seq![
            OpView::Create {
                id: wanted.id,
                text: wanted.text,
                tooltip: wanted.tooltip,
                focused: wanted.focused,
            },
        ],
        Some(shown) => (if shown.text != wanted.text || shown.tooltip != wanted.tooltip {
            seq![OpView::UpdateContent { id: wanted.id, text: wanted.text, tooltip: wanted.tooltip }]
        } else {
            Seq::empty()
        }) + (if shown.focused != wanted.focused {
            seq![OpView::UpdateFocus { id: wanted.id, focused: wanted.focused }]
        } else {
            Seq::empty()
        }),
    }
}

/// The operations of `widget_ops` for every desktop of `target`, in its
/// order.
pub open spec fn content_ops(old: Seq<Rendered>, target: Seq<Rendered>) -> Seq<OpView>
    decreases target.len(),
{
    if target.len() == 0 {
        Seq::empty()
    } else {
        content_ops(old, target.drop_last()) + widget_ops(old, target.last())
    }
}

/// The identifiers of the desktops of `target` that have no widget in
/// `old`, in the order of `target`.
pub open spec fn created(old: Seq<Rendered>, target: Seq<Rendered>) -> Seq<u32>
    decreases target.len(),
{
    if target.len() == 0 {
        Seq::empty()
    } else {
        let before = created(old, target.drop_last());
        if find_widget(old, target.last().id).is_some() {
            before
        } else {
            before.push(target.last().id)
        }
    }
}

/// The order of the widgets once the destroyed are gone and the created
/// are added at the end.
pub open spec fn interim_order(old: Seq<Rendered>, target: Seq<Rendered>) -> Seq<u32> {
    survivors(old, target) + created(old, target)
}

/// Whether the widget wanted at `position` is somewhere else in `order`:
/// `order` holds it, at another position. A widget that `order` does not
/// hold is not displaced.
pub open spec fn is_displaced(order: Seq<u32>, wanted: Seq<u32>, position: int) -> bool {
    exists|at: int| 0 <= at < order.len() && #[trigger] order[at] == wanted[position] && at != position
}

/// One `Move` for every one of the first `count` positions of `wanted`
/// whose widget is somewhere else in `order`, by ascending position.
pub open spec fn move_ops(order: Seq<u32>, wanted: Seq<u32>, count: nat) -> Seq<OpView>
    decreases count,
{
    if count == 0 || count > wanted.len() {
        Seq::empty()
    } else {
        let before = move_ops(order, wanted, (count - 1) as nat);
        if is_displaced(order, wanted, count - 1) {
            before.push(OpView::Move { id: wanted[count - 1], position: count - 1 })
        } else {
            before
        }
    }
}

/// The update from `old` to `target`: first the destroyed widgets, then
/// what is created or changed, then the moves.
pub open spec fn reconcile_ops(old: Seq<Rendered>, target: Seq<Rendered>) -> Seq<OpView> {
    destroy_ops(old, target) + content_ops(old, target) + move_ops(
        interim_order(old, target),
        ids_of(target),
        target.len(),
    )
}

/// In a list without repeated identifiers every widget is the one found
/// under its identifier.
pub proof fn lemma_find_own(widgets: Seq<Rendered>, i: int)
    requires
        distinct_widgets(widgets),
        0 <= i < widgets.len(),
    ensures
        find_widget(widgets, widgets[i].id) == Some(widgets[i]),
    decreases i,
{
    if i > 0 {
        let rest = widgets.skip(1);
        assert(widgets[0].id != widgets[i].id);
        assert forall|a: int, b: int| 0 <= a < b < rest.len() implies rest[a].id != rest[b].id by {
            assert(widgets[a + 1].id != widgets[b + 1].id);
        }
        assert(rest[i - 1] == widgets[i]);
        lemma_find_own(rest, i - 1);
    }
}

/// A widget that is found is one of the list, and has the identifier asked
/// for; none is found only where none has it.
pub proof fn lemma_find_widget(widgets: Seq<Rendered>, id: u32)
    ensures
        match find_widget(widgets, id) {
            Some(found) => found.id == id && widgets.contains(found),
            None => forall|i: int| 0 <= i < widgets.len() ==> (#[trigger] widgets[i]).id != id,
        },
    decreases widgets.len(),
{
    if widgets.len() > 0 {
        if widgets[0].id == id {
            assert(widgets.contains(widgets[0]));
        } else {
            let rest = widgets.skip(1);
            lemma_find_widget(rest, id);
            match find_widget(rest, id) {
                Some(found) => {
                    let k = choose|k: int| 0 <= k < rest.len() && rest[k] == found;
                    assert(widgets[k + 1] == found);
                },
                None => {
                    assert forall|i: int| 0 <= i < widgets.len() implies (#[trigger] widgets[i]).id
                        != id by {
                        if i > 0 {
                            assert(rest[i - 1].id != id);
                        }
                    }
                },
            }
        }
    }
}

proof fn lemma_nothing_destroyed(widgets: Seq<Rendered>, count: int)
    requires
        distinct_widgets(widgets),
        0 <= count <= widgets.len(),
    ensures
        destroy_ops(widgets.take(count), widgets) == Seq::<OpView>::empty(),
        survivors(widgets.take(count), widgets) == ids_of(widgets).take(count),
    decreases count,
{
    if count > 0 {
        lemma_nothing_destroyed(widgets, count - 1);
        lemma_find_own(widgets, count - 1);
        assert(widgets.take(count).drop_last() =~= widgets.take(count - 1));
        assert(widgets.take(count).last() == widgets[count - 1]);
        assert(ids_of(widgets).take(count) =~= ids_of(widgets).take(count - 1).push(
            widgets[count - 1].id,
        ));
    } else {
        assert(ids_of(widgets).take(0) =~= Seq::<u32>::empty());
    }
}

proof fn lemma_nothing_changed(widgets: Seq<Rendered>, count: int)
    requires
        distinct_widgets(widgets),
        0 <= count <= widgets.len(),
    ensures
        content_ops(widgets, widgets.take(count)) == Seq::<OpView>::empty(),
        created(widgets, widgets.take(count)) == Seq::<u32>::empty(),
    decreases count,
{
    if count > 0 {
        lemma_nothing_changed(widgets, count - 1);
        lemma_find_own(widgets, count - 1);
        assert(widgets.take(count).drop_last() =~= widgets.take(count - 1));
        assert(widgets.take(count).last() == widgets[count - 1]);
        assert(widget_ops(widgets, widgets[count - 1]) =~= Seq::<OpView>::empty());
    }
}

proof fn lemma_nothing_moved(widgets: Seq<Rendered>, count: nat)
    requires
        distinct_widgets(widgets),
        count <= widgets.len(),
    ensures
        move_ops(ids_of(widgets), ids_of(widgets), count) == Seq::<OpView>::empty(),
    decreases count,
{
    if count > 0 {
        lemma_nothing_moved(widgets, (count - 1) as nat);
        let ids = ids_of(widgets);
        let position = count - 1;
        if is_displaced(ids, ids, position) {
            let at = choose|at: int|
                0 <= at < ids.len() && #[trigger] ids[at] == ids[position] && at != position;
            if at < position {
                assert(widgets[at].id != widgets[position].id);
            } else {
                assert(widgets[position].id != widgets[at].id);
            }
        }
    }
}

/// An update to what is rendered already takes no operation: rendering the
/// same desktops twice leaves the second update empty.
pub proof fn lemma_reconcile_idempotent(widgets: Seq<Rendered>)
    requires
        distinct_widgets(widgets),
    ensures
        reconcile_ops(widgets, widgets) == Seq::<OpView>::empty(),
{
    let n = widgets.len() as int;
    lemma_nothing_destroyed(widgets, n);
    lemma_nothing_changed(widgets, n);
    lemma_nothing_moved(widgets, widgets.len());
    assert(widgets.take(n) =~= widgets);
    assert(ids_of(widgets).take(n) =~= ids_of(widgets));
    assert(interim_order(widgets, widgets) =~= ids_of(widgets));
    assert(reconcile_ops(widgets, widgets) =~= Seq::<OpView>::empty());
}

/// What is rendered for desktops without repeated identifiers has no
/// repeated identifier.
pub proof fn lemma_target_distinct(config: ModuleConfig, desktops: Seq<DesktopRecord>)
    requires
        distinct_ids(desktops),
    ensures
        distinct_widgets(target_of(config, desktops)),
{
    let target = target_of(config, desktops);
    assert forall|i: int, j: int| 0 <= i < j < target.len() implies target[i].id
        != target[j].id by {
        assert(desktops[i].id != desktops[j].id);
    }
}

/// Showing the same desktops twice under the same configuration takes no
/// operation the second time: whatever order the first update settled on,
/// the second settles on the same, and nothing differs.
pub proof fn lemma_repeated_display_is_empty(
    config: ModuleConfig,
    desktops: Seq<DesktopRecord>,
    first: Seq<DesktopRecord>,
    second: Seq<DesktopRecord>,
)
    requires
        is_sorted_form(config.sort_by, first, visible_records(desktops, config.show_empty)),
        is_sorted_form(config.sort_by, second, visible_records(desktops, config.show_empty)),
    ensures
        reconcile_ops(target_of(config, first), target_of(config, second)) == Seq::<
            OpView,
        >::empty(),
{
    lemma_sorted_form_unique(
        config.sort_by,
        first,
        second,
        visible_records(desktops, config.show_empty),
    );
    lemma_target_distinct(config, first);
    lemma_reconcile_idempotent(target_of(config, first));
}

/// The moves are exactly the displaced positions: a widget is moved to a
/// position if and only if it is wanted there and the order holds it at
/// another position. No widget that is in place is moved, and none that
/// the order does not hold.
pub proof fn lemma_moves_are_displacements(
    order: Seq<u32>,
    target: Seq<u32>,
    count: nat,
    op: OpView,
)
    requires
        count <= target.len(),
    ensures
        move_ops(order, target, count).len() <= count,
        move_ops(order, target, count).contains(op) <==> (exists|position: int|
            0 <= position < count && #[trigger] is_displaced(order, target, position) && op
                == (OpView::Move { id: target[position], position })),
    decreases count,
{
    let moves = move_ops(order, target, count);
    if count > 0 {
        let before = move_ops(order, target, (count - 1) as nat);
        let last = count - 1;
        lemma_moves_are_displacements(order, target, (count - 1) as nat, op);
        if moves.contains(op) {
            let i = choose|i: int| 0 <= i < moves.len() && moves[i] == op;
            if i < before.len() {
                assert(before[i] == op);
                assert(before.contains(op));
                let position = choose|position: int|
                    0 <= position < count - 1 && #[trigger] is_displaced(order, target, position)
                        && op == (OpView::Move { id: target[position], position });
                assert(is_displaced(order, target, position));
            } else {
                assert(is_displaced(order, target, last));
            }
        }
        if exists|position: int|
            0 <= position < count && #[trigger] is_displaced(order, target, position) && op == (
            OpView::Move { id: target[position], position }) {
            let position = choose|position: int|
                0 <= position < count && #[trigger] is_displaced(order, target, position) && op
                    == (OpView::Move { id: target[position], position });
            if position < last {
                assert(is_displaced(order, target, position));
                assert(before.contains(op));
                let i = choose|i: int| 0 <= i < before.len() && before[i] == op;
                assert(moves[i] == op);
            } else {
                assert(moves[moves.len() - 1] == op);
            }
        }
    }
}

/// The destroyed widgets are exactly those whose desktops are not in the
/// target.
pub proof fn lemma_destroys_are_departures(old: Seq<Rendered>, target: Seq<Rendered>, op: OpView)
    ensures
        destroy_ops(old, target).contains(op) <==> (exists|i: int|
            0 <= i < old.len() && find_widget(target, (#[trigger] old[i]).id).is_none() && op == (
            OpView::Destroy { id: old[i].id })),
    decreases old.len(),
{
    let destroys = destroy_ops(old, target);
    if old.len() > 0 {
        let shorter = old.drop_last();
        let before = destroy_ops(shorter, target);
        let last = old.len() - 1;
        lemma_destroys_are_departures(shorter, target, op);
        if destroys.contains(op) {
            let k = choose|k: int| 0 <= k < destroys.len() && destroys[k] == op;
            if k < before.len() {
                assert(before[k] == op);
                assert(before.contains(op));
                let i = choose|i: int|
                    0 <= i < shorter.len() && find_widget(
                        target,
                        (#[trigger] shorter[i]).id,
                    ).is_none() && op == (OpView::Destroy { id: shorter[i].id });
                assert(old[i] == shorter[i]);
            } else {
                assert(find_widget(target, old[last].id).is_none());
            }
        }
        if exists|i: int|
            0 <= i < old.len() && find_widget(target, (#[trigger] old[i]).id).is_none() && op == (
            OpView::Destroy { id: old[i].id }) {
            let i = choose|i: int|
                0 <= i < old.len() && find_widget(target, (#[trigger] old[i]).id).is_none() && op
                    == (OpView::Destroy { id: old[i].id });
            if i < last {
                assert(shorter[i] == old[i]);
                assert(before.contains(op));
                let k = choose|k: int| 0 <= k < before.len() && before[k] == op;
                assert(destroys[k] == op);
            } else {
                assert(destroys[destroys.len() - 1] == op);
            }
        }
    }
}

/// Finds the first widget with the identifier `id`.
pub fn position_of(widgets: &Vec<VirtualDesktopWidget>, id: u32) -> (found: Option<usize>)
    ensures
        match found {
            Some(i) => i < widgets.len() && find_widget(rendered_of(widgets@), id) == Some(
                widgets@[i as int]@,
            ),
            None => find_widget(rendered_of(widgets@), id).is_none(),
        },
{
    let ghost all = rendered_of(widgets@);
    let mut i: usize = 0;
    proof {
        assert(all.skip(0) =~= all);
    }
    while i < widgets.len()
        invariant
            i <= widgets.len(),
            all == rendered_of(widgets@),
            find_widget(all.skip(i as int), id) == find_widget(all, id),
        decreases widgets.len() - i,
    {
        proof {
            assert(all.skip(i as int)[0] == widgets@[i as int]@);
            assert(all.skip(i as int).skip(1) =~= all.skip(i + 1));
        }
        if widgets[i].vdesk_id == id {
            return Some(i);
        }
        i += 1;
    }
    None
}

/// The position of every widget of an order without repeated identifiers.
fn positions_of(order: &Vec<u32>) -> (positions: HashMap<u32, usize>)
    requires
        order@.no_duplicates(),
    ensures
        forall|p: int|
            0 <= p < order@.len() ==> positions@.contains_key(#[trigger] order@[p])
                && positions@[order@[p]] == p,
        forall|id: u32|
            positions@.contains_key(id) ==> (#[trigger] positions@[id]) < order@.len()
                && order@[positions@[id] as int] == id,
{
    let mut positions: HashMap<u32, usize> = HashMap::new();
    let mut p: usize = 0;
    while p < order.len()
        invariant
            p <= order.len(),
            order@.no_duplicates(),
            forall|q: int|
                0 <= q < p ==> positions@.contains_key(#[trigger] order@[q])
                    && positions@[order@[q]] == q,
            forall|id: u32|
                positions@.contains_key(id) ==> (#[trigger] positions@[id]) < p
                    && order@[positions@[id] as int] == id,
        decreases order.len() - p,
    {
        let ghost before = positions@;
        positions.insert(order[p], p);
        proof {
            assert forall|q: int| 0 <= q < p + 1 implies positions@.contains_key(
                #[trigger] order@[q],
            ) && positions@[order@[q]] == q by {
                if q < p {
                    assert(order@[q] != order@[p as int]);
                    assert(before.contains_key(order@[q]));
                }
            }
        }
        p += 1;
    }
    positions
}

/// The moves that turn the order `current_order`, which has no repeated
/// identifier, into `new_order`: one for every position of `new_order`
/// whose widget stands at another position of `current_order`, and none
/// for a widget that is in place or that `current_order` does not hold.
pub fn optimize_widget_reordering(current_order: &Vec<u32>, new_order: &Vec<u32>) -> (moves: Vec<
    WidgetOp,
>)
    requires
        current_order@.no_duplicates(),
    ensures
        ops_of(moves@) == move_ops(current_order@, new_order@, new_order@.len()),
{
    let current_positions = positions_of(current_order);
    let mut moves: Vec<WidgetOp> = Vec::new();
    let mut p: usize = 0;
    assert(ops_of(moves@) =~= Seq::<OpView>::empty());
    while p < new_order.len()
        invariant
            p <= new_order.len(),
            forall|q: int|
                0 <= q < current_order@.len() ==> current_positions@.contains_key(
                    #[trigger] current_order@[q],
                ) && current_positions@[current_order@[q]] == q,
            forall|id: u32|
                current_positions@.contains_key(id) ==> (#[trigger] current_positions@[id])
                    < current_order@.len() && current_order@[current_positions@[id] as int] == id,
            ops_of(moves@) == move_ops(current_order@, new_order@, p as nat),
        decreases new_order.len() - p,
    {
        let id = new_order[p];
        let ghost earlier = moves@;
        let elsewhere = match current_positions.get(&id) {
            Some(current_position) => *current_position != p,
            None => false,
        };
        proof {
            if is_displaced(current_order@, new_order@, p as int) {
                let at = choose|at: int|
                    0 <= at < current_order@.len() && #[trigger] current_order@[at] == id && at
                        != p;
                assert(current_positions@.contains_key(current_order@[at]));
            }
            if elsewhere {
                let at = current_positions@[id] as int;
                assert(current_order@[at] == id && at != p);
            }
            assert(elsewhere == is_displaced(current_order@, new_order@, p as int));
        }
        if elsewhere {
            moves.push(WidgetOp::Move { id, position: p });
            assert(ops_of(moves@) =~= ops_of(earlier).push(OpView::Move { id, position: p as int }));
        }
        p += 1;
    }
    moves
}

/// The operations that bring the rendered widgets `old` into agreement
/// with `target`, the widgets wanted in the order wanted: first a `Destroy`
/// for every widget that is no longer wanted, then what is created or
/// changed in the order of `target`, then the moves. Neither list has a
/// repeated identifier.
pub fn reconcile(old: &Vec<VirtualDesktopWidget>, target: &Vec<VirtualDesktopWidget>) -> (ops: Vec<
    WidgetOp,
>)
    requires
        distinct_widgets(rendered_of(old@)),
        distinct_widgets(rendered_of(target@)),
    ensures
        ops_of(ops@) == reconcile_ops(rendered_of(old@), rendered_of(target@)),
{
    let ghost old_widgets = rendered_of(old@);
    let ghost wanted = rendered_of(target@);
    let mut ops: Vec<WidgetOp> = Vec::new();
    let mut order: Vec<u32> = Vec::new();
    let mut i: usize = 0;
    proof {
        assert(old_widgets.take(0) =~= Seq::<Rendered>::empty());
        assert(ops_of(ops@) =~= Seq::<OpView>::empty());
    }
    while i < old.len()
        invariant
            i <= old.len(),
            old_widgets == rendered_of(old@),
            wanted == rendered_of(target@),
            ops_of(ops@) == destroy_ops(old_widgets.take(i as int), wanted),
            order@ == survivors(old_widgets.take(i as int), wanted),
        decreases old.len() - i,
    {
        let id = old[i].vdesk_id;
        proof {
            assert(old_widgets.take(i + 1).drop_last() =~= old_widgets.take(i as int));
            assert(old_widgets.take(i + 1).last() == old@[i as int]@);
        }
        if position_of(target, id).is_some() {
            order.push(id);
        } else {
            let ghost earlier = ops@;
            ops.push(WidgetOp::Destroy { id });
            assert(ops_of(ops@) =~= ops_of(earlier).push(OpView::Destroy { id }));
        }
        i += 1;
    }
    proof {
        assert(old_widgets.take(i as int) =~= old_widgets);
        assert(wanted.take(0) =~= Seq::<Rendered>::empty());
        assert(ops_of(ops@) + Seq::<OpView>::empty() =~= ops_of(ops@));
        assert(order@ + Seq::<u32>::empty() =~= order@);
    }
    let ghost destroys = ops_of(ops@);
    let ghost kept = order@;
    let mut k: usize = 0;
    while k < target.len()
        invariant
            k <= target.len(),
            old_widgets == rendered_of(old@),
            wanted == rendered_of(target@),
            destroys == destroy_ops(old_widgets, wanted),
            kept == survivors(old_widgets, wanted),
            ops_of(ops@) == destroys + content_ops(old_widgets, wanted.take(k as int)),
            order@ == kept + created(old_widgets, wanted.take(k as int)),
        decreases target.len() - k,
    {
        let widget = &target[k];
        let ghost earlier = ops@;
        let ghost done = content_ops(old_widgets, wanted.take(k as int));
        let ghost made = created(old_widgets, wanted.take(k as int));
        proof {
            assert(wanted.take(k + 1).drop_last() =~= wanted.take(k as int));
            assert(wanted.take(k + 1).last() == widget@);
        }
        match position_of(old, widget.vdesk_id) {
            None => {
                ops.push(
                    WidgetOp::Create {
                        id: widget.vdesk_id,
                        text: widget.display_text.clone(),
                        tooltip: widget.tooltip_text.clone(),
                        focused: widget.focused,
                    },
                );
                order.push(widget.vdesk_id);
                proof {
                    assert(ops_of(ops@) =~= ops_of(earlier) + widget_ops(old_widgets, widget@));
                    assert(order@ =~= kept + made.push(widget@.id));
                }
            },
            Some(at) => {
                let shown = &old[at];
                assert(find_widget(old_widgets, widget@.id) == Some(shown@));
                let ghost mut middle = earlier;
                if shown.display_text != widget.display_text || shown.tooltip_text
                    != widget.tooltip_text {
                    ops.push(
                        WidgetOp::UpdateContent {
                            id: widget.vdesk_id,
                            text: widget.display_text.clone(),
                            tooltip: widget.tooltip_text.clone(),
                        },
                    );
                    proof {
                        middle = ops@;
                        assert(ops_of(middle) =~= ops_of(earlier) + seq![
                            OpView::UpdateContent {
                                id: widget@.id,
                                text: widget@.text,
                                tooltip: widget@.tooltip,
                            },
                        ]);
                    }
                } else {
                    proof {
                        assert(ops_of(middle) =~= ops_of(earlier) + Seq::<OpView>::empty());
                    }
                }
                if shown.focused != widget.focused {
                    ops.push(
                        WidgetOp::UpdateFocus { id: widget.vdesk_id, focused: widget.focused },
                    );
                    proof {
                        assert(ops_of(ops@) =~= ops_of(middle) + seq![
                            OpView::UpdateFocus { id: widget@.id, focused: widget@.focused },
                        ]);
                    }
                } else {
                    proof {
                        assert(ops_of(ops@) =~= ops_of(middle) + Seq::<OpView>::empty());
                    }
                }
                proof {
                    assert(ops_of(ops@) =~= ops_of(earlier) + widget_ops(old_widgets, widget@));
                }
            },
        }
        proof {
            assert(ops_of(ops@) =~= destroys + (done + widget_ops(old_widgets, widget@)));
        }
        k += 1;
    }
    proof {
        assert(wanted.take(k as int) =~= wanted);
        assert(ops_of(ops@) + Seq::<OpView>::empty() =~= ops_of(ops@));
    }
    let ghost changes = ops_of(ops@);
    let mut wanted_order: Vec<u32> = Vec::new();
    let mut p: usize = 0;
    while p < target.len()
        invariant
            p <= target.len(),
            wanted == rendered_of(target@),
            wanted_order@ == ids_of(wanted).take(p as int),
        decreases target.len() - p,
    {
        wanted_order.push(target[p].vdesk_id);
        assert(wanted_order@ =~= ids_of(wanted).take(p + 1));
        p += 1;
    }
    assert(ids_of(wanted).take(p as int) =~= ids_of(wanted));
    proof {
        lemma_before_moves(old_widgets, wanted);
    }
    let mut moves = optimize_widget_reordering(&order, &wanted_order);
    let ghost earlier = ops@;
    let ghost moved = moves@;
    ops.append(&mut moves);
    assert(ops_of(ops@) =~= ops_of(earlier) + ops_of(moved));
    ops
}

/// The number of moves among the operations.
pub open spec fn moves_in(ops: Seq<OpView>) -> nat
    decreases ops.len(),
{
    if ops.len() == 0 {
        0
    } else {
        moves_in(ops.drop_last()) + if ops.last() is Move {
            1nat
        } else {
            0nat
        }
    }
}

/// Whether an update spared at least one widget a move: it moves fewer
/// widgets than `widget_count`, the number of widgets shown after it.
pub fn reorder_was_optimized(ops: &Vec<WidgetOp>, widget_count: usize) -> (optimized: bool)
    ensures
        optimized == (moves_in(ops_of(ops@)) < widget_count),
{
    let ghost all = ops_of(ops@);
    let mut moves: usize = 0;
    let mut i: usize = 0;
    proof {
        assert(all.take(0) =~= Seq::<OpView>::empty());
    }
    while i < ops.len()
        invariant
            i <= ops.len(),
            all == ops_of(ops@),
            moves == moves_in(all.take(i as int)),
            moves <= i,
        decreases ops.len() - i,
    {
        proof {
            assert(all.take(i + 1).drop_last() =~= all.take(i as int));
            assert(all.take(i + 1).last() == ops@[i as int]@);
        }
        match &ops[i] {
            WidgetOp::Move { .. } => {
                moves += 1;
            },
            _ => {},
        }
        i += 1;
    }
    proof {
        assert(all.take(i as int) =~= all);
    }
    moves < widget_count
}

/// The identifiers of `old_order` that `new_order` holds too, in the order
/// of `old_order`: the order of the widgets that stay.
pub open spec fn staying_order(old_order: Seq<u32>, new_order: Seq<u32>) -> Seq<u32>
    decreases old_order.len(),
{
    if old_order.len() == 0 {
        Seq::empty()
    } else {
        let before = staying_order(old_order.drop_last(), new_order);
        if new_order.contains(old_order.last()) {
            before.push(old_order.last())
        } else {
            before
        }
    }
}

/// What an update records of its reordering. Nothing, where the widgets
/// that stay stand in the order wanted already and no widget is new: then
/// nothing was reordered. Else whether the update spared at least one
/// widget a move: it moves fewer widgets than the new order has.
pub open spec fn reorder_outcome(old_order: Seq<u32>, new_order: Seq<u32>, ops: Seq<OpView>) -> Option<
    bool,
> {
    if staying_order(old_order, new_order) == new_order {
        None
    } else {
        Some(moves_in(ops) < new_order.len())
    }
}

fn holds_id(order: &Vec<u32>, id: u32) -> (holds: bool)
    ensures
        holds == order@.contains(id),
{
    let mut i: usize = 0;
    while i < order.len()
        invariant
            i <= order.len(),
            forall|j: int| 0 <= j < i ==> order@[j] != id,
        decreases order.len() - i,
    {
        if order[i] == id {
            return true;
        }
        i += 1;
    }
    false
}

/// What an update that led from the order `old_order` to the order
/// `new_order` by the operations `ops` records of its reordering.
pub fn reorder_record(old_order: &Vec<u32>, new_order: &Vec<u32>, ops: &Vec<WidgetOp>) -> (record:
    Option<bool>)
    ensures
        record == reorder_outcome(old_order@, new_order@, ops_of(ops@)),
{
    let mut staying: Vec<u32> = Vec::new();
    let mut i: usize = 0;
    proof {
        assert(old_order@.take(0) =~= Seq::<u32>::empty());
    }
    while i < old_order.len()
        invariant
            i <= old_order.len(),
            staying@ == staying_order(old_order@.take(i as int), new_order@),
        decreases old_order.len() - i,
    {
        proof {
            assert(old_order@.take(i + 1).drop_last() =~= old_order@.take(i as int));
            assert(old_order@.take(i + 1).last() == old_order@[i as int]);
        }
        if holds_id(new_order, old_order[i]) {
            staying.push(old_order[i]);
        }
        i += 1;
    }
    proof {
        assert(old_order@.take(i as int) =~= old_order@);
    }
    let mut same: bool = staying.len() == new_order.len();
    let mut k: usize = 0;
    while same && k < new_order.len()
        invariant
            k <= new_order.len(),
            same ==> staying@.len() == new_order@.len(),
            same ==> forall|j: int| 0 <= j < k ==> staying@[j] == new_order@[j],
            !same ==> staying@ != new_order@,
        decreases new_order.len() - k + if same {
            1int
        } else {
            0int
        },
    {
        if staying[k] != new_order[k] {
            same = false;
        } else {
            k += 1;
        }
    }
    if same {
        assert(staying@ =~= new_order@);
        None
    } else {
        Some(reorder_was_optimized(ops, new_order.len()))
    }
}

/// The widgets of a map by identifier, in the order `order`.
pub open spec fn shown_widgets(
    widgets: Map<u32, VirtualDesktopWidget>,
    order: Seq<u32>,
) -> Seq<Rendered> {
    Seq::new(order.len(), |i: int| widgets[order[i]]@)
}

/// The rendered widgets by identifier, the order in which they are shown,
/// and the configuration that labels them. Its value is the list of the
/// widgets in that order.
#[derive(Debug)]
pub struct WidgetManager {
    widgets: BTreeMap<u32, VirtualDesktopWidget>,
    widget_order: Vec<u32>,
    config: ModuleConfig,
}

impl View for WidgetManager {
    type V = Seq<Rendered>;

    closed spec fn view(&self) -> Seq<Rendered> {
        shown_widgets(self.widgets@, self.widget_order@)
    }
}

/// A map that holds the widgets of a list without repeated identifiers,
/// each under its identifier, and the identifiers in the order of the
/// list.
fn indexed(target: &Vec<VirtualDesktopWidget>) -> (index: (
    BTreeMap<u32, VirtualDesktopWidget>,
    Vec<u32>,
))
    requires
        distinct_widgets(rendered_of(target@)),
    ensures
        index.1@ == ids_of(rendered_of(target@)),
        shown_widgets(index.0@, index.1@) == rendered_of(target@),
        forall|i: int|
            0 <= i < index.1@.len() ==> index.0@.contains_key(#[trigger] index.1@[i])
                && index.0@[index.1@[i]].vdesk_id == index.1@[i],
        forall|id: u32| index.0@.contains_key(id) ==> index.1@.contains(id),
        index.1@.no_duplicates(),
{
    let ghost wanted = rendered_of(target@);
    let mut widgets: BTreeMap<u32, VirtualDesktopWidget> = BTreeMap::new();
    let mut order: Vec<u32> = Vec::new();
    let mut i: usize = 0;
    while i < target.len()
        invariant
            i <= target.len(),
            wanted == rendered_of(target@),
            distinct_widgets(wanted),
            order@.len() == i,
            forall|j: int| 0 <= j < i ==> #[trigger] order@[j] == wanted[j].id,
            forall|j: int|
                0 <= j < i ==> widgets@.contains_key((#[trigger] wanted[j]).id)
                    && widgets@[wanted[j].id]@ == wanted[j],
            forall|id: u32| widgets@.contains_key(id) ==> order@.contains(id),
        decreases target.len() - i,
    {
        let copy = target[i].clone();
        let ghost before = widgets@;
        let ghost earlier = order@;
        assert(wanted[i as int] == target@[i as int]@);
        let id = copy.vdesk_id;
        widgets.insert(id, copy);
        order.push(id);
        proof {
            assert forall|j: int| 0 <= j < i + 1 implies widgets@.contains_key(
                (#[trigger] wanted[j]).id,
            ) && widgets@[wanted[j].id]@ == wanted[j] by {
                if j < i {
                    assert(wanted[j].id != wanted[i as int].id);
                    assert(before.contains_key(wanted[j].id));
                }
            }
            assert forall|key: u32| widgets@.contains_key(key) implies order@.contains(key) by {
                if key == id {
                    assert(order@[i as int] == key);
                } else {
                    assert(before.contains_key(key));
                    assert(earlier.contains(key));
                    let j = choose|j: int| 0 <= j < earlier.len() && earlier[j] == key;
                    assert(order@[j] == key);
                }
            }
        }
        i += 1;
    }
    proof {
        assert(order@ =~= ids_of(wanted));
        assert(shown_widgets(widgets@, order@) =~= wanted);
        assert forall|a: int, b: int|
            0 <= a < order@.len() && 0 <= b < order@.len() && a != b implies order@[a]
            != order@[b] by {
            if a < b {
                assert(wanted[a].id != wanted[b].id);
            } else {
                assert(wanted[b].id != wanted[a].id);
            }
        }
    }
    (widgets, order)
}

impl WidgetManager {
    #[verifier::type_invariant]
    spec fn valid(self) -> bool {
        &&& forall|i: int|
            0 <= i < self.widget_order@.len() ==> self.widgets@.contains_key(
                #[trigger] self.widget_order@[i],
            ) && self.widgets@[self.widget_order@[i]].vdesk_id == self.widget_order@[i]
        &&& forall|id: u32| self.widgets@.contains_key(id) ==> self.widget_order@.contains(id)
        &&& self.widget_order@.no_duplicates()
    }

    /// The configuration that labels the widgets.
    pub closed spec fn settings(&self) -> ModuleConfig {
        self.config
    }

    /// A manager without widgets.
    pub fn new(config: ModuleConfig) -> (manager: Self)
        ensures
            manager@ == Seq::<Rendered>::empty(),
            manager.settings() == config,
    {
        let manager = WidgetManager {
            widgets: BTreeMap::new(),
            widget_order: Vec::new(),
            config,
        };
        assert(manager@ =~= Seq::<Rendered>::empty());
        manager
    }

    /// The number of widgets.
    pub fn widget_count(&self) -> (count: usize)
        ensures
            count == self@.len(),
    {
        self.widget_order.len()
    }

    /// Whether a desktop has a widget.
    pub fn has_widget(&self, vdesk_id: u32) -> (has: bool)
        ensures
            has == find_widget(self@, vdesk_id).is_some(),
    {
        proof {
            use_type_invariant(self);
            lemma_find_widget(self@, vdesk_id);
            if self.widgets@.contains_key(vdesk_id) {
                assert(self.widget_order@.contains(vdesk_id));
                let i = choose|i: int|
                    0 <= i < self.widget_order@.len() && self.widget_order@[i] == vdesk_id;
                assert(self@[i].id == vdesk_id);
            }
            if find_widget(self@, vdesk_id).is_some() {
                let found = find_widget(self@, vdesk_id)->0;
                let i = choose|i: int| 0 <= i < self@.len() && self@[i] == found;
                assert(self.widgets@.contains_key(self.widget_order@[i]));
            }
        }
        self.widgets.contains_key(&vdesk_id)
    }

    /// The identifiers of the widgets, in the order in which they are
    /// shown.
    pub fn widget_order(&self) -> (order: Vec<u32>)
        ensures
            order@ == ids_of(self@),
    {
        proof {
            use_type_invariant(self);
        }
        let mut order: Vec<u32> = Vec::new();
        let mut i: usize = 0;
        while i < self.widget_order.len()
            invariant
                i <= self.widget_order.len(),
                order@ == self.widget_order@.take(i as int),
            decreases self.widget_order.len() - i,
        {
            order.push(self.widget_order[i]);
            assert(order@ =~= self.widget_order@.take(i + 1));
            i += 1;
        }
        assert(self.widget_order@.take(i as int) =~= self.widget_order@);
        assert(self.widget_order@ =~= ids_of(self@));
        order
    }

    /// The widgets, in the order in which they are shown.
    fn widgets_in_order(&self) -> (list: Vec<VirtualDesktopWidget>)
        ensures
            rendered_of(list@) == self@,
    {
        proof {
            use_type_invariant(self);
        }
        let mut list: Vec<VirtualDesktopWidget> = Vec::new();
        let mut i: usize = 0;
        while i < self.widget_order.len()
            invariant
                i <= self.widget_order.len(),
                list@.len() == i,
                forall|j: int|
                    0 <= j < self.widget_order@.len() ==> self.widgets@.contains_key(
                        #[trigger] self.widget_order@[j],
                    ),
                forall|j: int| 0 <= j < i ==> (#[trigger] list@[j])@ == self@[j],
            decreases self.widget_order.len() - i,
        {
            let id = self.widget_order[i];
            assert(self.widgets@.contains_key(self.widget_order@[i as int]));
            match self.widgets.get(&id) {
                Some(widget) => {
                    list.push(widget.clone());
                },
                None => {
                    assert(false);
                },
            }
            i += 1;
        }
        assert(rendered_of(list@) =~= self@);
        list
    }

    /// What the desktops look like under the configuration.
    fn render(&self, desktops: &Vec<VirtualDesktop>) -> (target: Vec<VirtualDesktopWidget>)
        ensures
            rendered_of(target@) == target_of(self.settings(), records_of(desktops@)),
    {
        let mut target: Vec<VirtualDesktopWidget> = Vec::new();
        let mut i: usize = 0;
        while i < desktops.len()
            invariant
                i <= desktops.len(),
                target@.len() == i,
                forall|j: int|
                    0 <= j < i ==> (#[trigger] target@[j])@ == rendering(
                        self.settings(),
                        desktops@[j]@,
                    ),
            decreases desktops.len() - i,
        {
            let desktop = &desktops[i];
            let text = self.config.format_virtual_desktop(
                desktop.name.as_str(),
                desktop.id,
                desktop.window_count,
            );
            let tooltip = self.config.format_tooltip(
                desktop.name.as_str(),
                desktop.id,
                desktop.window_count,
                desktop.focused,
            );
            target.push(VirtualDesktopWidget::new(desktop, text, tooltip));
            i += 1;
        }
        assert(rendered_of(target@) =~= target_of(self.settings(), records_of(desktops@)));
        target
    }

    /// Brings the widgets into agreement with the desktops to show, which
    /// come in the order in which they are to be shown and without a
    /// repeated identifier. Returns the operations that do the same to
    /// what is on screen.
    pub fn update_widgets(&mut self, visible_vdesks: &Vec<VirtualDesktop>) -> (ops: Vec<WidgetOp>)
        requires
            distinct_ids(records_of(visible_vdesks@)),
        ensures
            final(self).settings() == old(self).settings(),
            final(self)@ == target_of(old(self).settings(), records_of(visible_vdesks@)),
            ops_of(ops@) == reconcile_ops(old(self)@, final(self)@),
    {
        let target = self.render(visible_vdesks);
        proof {
            lemma_target_distinct(self.settings(), records_of(visible_vdesks@));
        }
        let shown = self.widgets_in_order();
        proof {
            use_type_invariant(&*self);
            assert forall|a: int, b: int| 0 <= a < b < self@.len() implies self@[a].id
                != self@[b].id by {
                assert(self.widget_order@[a] != self.widget_order@[b]);
            }
        }
        let ops = reconcile(&shown, &target);
        let (widgets, widget_order) = indexed(&target);
        proof {
            use_type_invariant(&*self);
        }
        let mut config = ModuleConfig::default();
        std::mem::swap(&mut self.config, &mut config);
        *self = WidgetManager { widgets, widget_order, config };
        ops
    }

    /// Brings the widgets into agreement with the store: the desktops that
    /// are visible under the configuration, in the configured order.
    /// Returns the operations that do the same to what is on screen.
    pub fn update_display(&mut self, store: &VirtualDesktopsManager) -> (ops: Vec<WidgetOp>)
        ensures
            final(self).settings() == old(self).settings(),
            ops_of(ops@) == reconcile_ops(old(self)@, final(self)@),
            exists|shown: Seq<DesktopRecord>|
                {
                    &&& #[trigger] is_sorted_form(
                        old(self).settings().sort_by,
                        shown,
                        visible_records(store@, old(self).settings().show_empty),
                    )
                    &&& final(self)@ == target_of(old(self).settings(), shown)
                },
    {
        let snapshot = store.get_virtual_desktops();
        let visible = visible_desktops(&snapshot, self.config.show_empty);
        proof {
            lemma_visible_records(store@, self.config.show_empty);
        }
        let sorted = sort_desktops(&visible, self.config.sort_by);
        let ops = self.update_widgets(&sorted);
        proof {
            assert(is_sorted_form(
                old(self).settings().sort_by,
                records_of(sorted@),
                visible_records(store@, old(self).settings().show_empty),
            ));
        }
        ops
    }
}

} // verus!
