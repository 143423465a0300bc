//! What the operations of an update mean: the widgets on screen once a
//! renderer has performed them.

use crate::ui::arrange::{
    after_steps, lemma_displaced_among_same, lemma_steps_arrange, lifts, placements, same_widgets, steps_for, ReorderStep,
};
use crate::ui::widgets::{
    content_ops, created, destroy_ops, distinct_widgets, find_widget, ids_of, interim_order,
    is_displaced, lemma_find_own, lemma_find_widget, move_ops, reconcile_ops, survivors,
    widget_ops, OpView, Rendered,
};
use vstd::prelude::*;

verus! {

/// The widgets without those of the desktop `id`.
pub open spec fn without(widgets: Seq<Rendered>, id: u32) -> Seq<Rendered>
    decreases widgets.len(),
{
    if widgets.len() == 0 {
        Seq::empty()
    } else {
        let before = without(widgets.drop_last(), id);
        if widgets.last().id == id {
            before
        } else {
            before.push(widgets.last())
        }
    }
}

/// The widgets with a new label and tooltip for the desktop `id`.
pub open spec fn with_content(
    widgets: Seq<Rendered>,
    id: u32,
    text: Seq<char>,
    tooltip: Seq<char>,
) -> Seq<Rendered> {
    Seq::new(
        widgets.len(),
        |i: int|
            if widgets[i].id == id {
                Rendered { text, tooltip, ..widgets[i] }
            } else {
                widgets[i]
            },
    )
}

/// The widgets with a new focus mark for the desktop `id`.
pub open spec fn with_focus(widgets: Seq<Rendered>, id: u32, focused: bool) -> Seq<Rendered> {
    Seq::new(
        widgets.len(),
        |i: int|
            if widgets[i].id == id {
                Rendered { focused, ..widgets[i] }
            } else {
                widgets[i]
            },
    )
}

/// The widgets after one operation. A move changes nothing by itself: the
/// moves of an update take effect together, see `arranged`.
pub open spec fn after_op(widgets: Seq<Rendered>, op: OpView) -> Seq<Rendered> {
    match op {
        OpView::Destroy { id } => without(widgets, id),
        OpView::Create { id, text, tooltip, focused } => widgets.push(
            Rendered { id, text, tooltip, focused },
        ),
        OpView::UpdateContent { id, text, tooltip } => with_content(widgets, id, text, tooltip),
        OpView::UpdateFocus { id, focused } => with_focus(widgets, id, focused),
        OpView::Move { .. } => widgets,
    }
}

/// The widgets after a list of operations, moves left aside.
pub open spec fn after_ops(widgets: Seq<Rendered>, ops: Seq<OpView>) -> Seq<Rendered>
    decreases ops.len(),
{
    if ops.len() == 0 {
        widgets
    } else {
        after_op(after_ops(widgets, ops.drop_last()), ops.last())
    }
}

/// The desktop whose widget the operations move to `position`, if any.
pub open spec fn moved_to(ops: Seq<OpView>, position: int) -> Option<u32>
    decreases ops.len(),
{
    if ops.len() == 0 {
        None
    } else {
        match ops.last() {
            OpView::Move { id, position: to } => if to == position {
                Some(id)
            } else {
                moved_to(ops.drop_last(), position)
            },
            _ => moved_to(ops.drop_last(), position),
        }
    }
}

/// The widgets once the moves have taken effect: a widget that is moved
/// stands at its position, every other widget stays where it is.
pub open spec fn arranged(widgets: Seq<Rendered>, ops: Seq<OpView>) -> Seq<Rendered> {
    Seq::new(
        widgets.len(),
        |position: int|
            match moved_to(ops, position) {
                Some(id) => match find_widget(widgets, id) {
                    Some(widget) => widget,
                    None => widgets[position],
                },
                None => widgets[position],
            },
    )
}

/// What is on screen after an update.
pub open spec fn on_screen_after(widgets: Seq<Rendered>, ops: Seq<OpView>) -> Seq<Rendered> {
    arranged(after_ops(widgets, ops), ops)
}

proof fn lemma_after_ops_concat(widgets: Seq<Rendered>, first: Seq<OpView>, second: Seq<OpView>)
    ensures
        after_ops(widgets, first + second) == after_ops(after_ops(widgets, first), second),
    decreases second.len(),
{
    if second.len() == 0 {
        assert(first + second =~= first);
    } else {
        assert((first + second).drop_last() =~= first + second.drop_last());
        lemma_after_ops_concat(widgets, first, second.drop_last());
    }
}

proof fn lemma_moved_to_concat(first: Seq<OpView>, second: Seq<OpView>, position: int)
    ensures
        moved_to(first + second, position) == match moved_to(second, position) {
            Some(id) => Some(id),
            None => moved_to(first, position),
        },
    decreases second.len(),
{
    if second.len() == 0 {
        assert(first + second =~= first);
    } else {
        assert((first + second).drop_last() =~= first + second.drop_last());
        lemma_moved_to_concat(first, second.drop_last(), position);
    }
}

proof fn lemma_moves_change_nothing(
    widgets: Seq<Rendered>,
    order: Seq<u32>,
    wanted: Seq<u32>,
    count: nat,
)
    ensures
        after_ops(widgets, move_ops(order, wanted, count)) == widgets,
    decreases count,
{
    if count > 0 && count <= wanted.len() {
        lemma_moves_change_nothing(widgets, order, wanted, (count - 1) as nat);
        let before = move_ops(order, wanted, (count - 1) as nat);
        if is_displaced(order, wanted, count - 1) {
            let moves = move_ops(order, wanted, count);
            assert(moves.drop_last() =~= before);
        }
    }
}

proof fn lemma_moved_to_of_moves(order: Seq<u32>, wanted: Seq<u32>, count: nat, position: int)
    requires
        count <= wanted.len(),
    ensures
        moved_to(move_ops(order, wanted, count), position) == if 0 <= position < count
            && is_displaced(order, wanted, position) {
            Some(wanted[position])
        } else {
            None
        },
    decreases count,
{
    if count > 0 {
        lemma_moved_to_of_moves(order, wanted, (count - 1) as nat, position);
        let before = move_ops(order, wanted, (count - 1) as nat);
        if is_displaced(order, wanted, count - 1) {
            let moves = move_ops(order, wanted, count);
            assert(moves.drop_last() =~= before);
        }
    }
}

proof fn lemma_without_concat(first: Seq<Rendered>, second: Seq<Rendered>, id: u32)
    ensures
        without(first + second, id) == without(first, id) + without(second, id),
    decreases second.len(),
{
    if second.len() == 0 {
        assert(first + second =~= first);
        assert(without(first, id) + without(second, id) =~= without(first, id));
    } else {
        assert((first + second).drop_last() =~= first + second.drop_last());
        lemma_without_concat(first, second.drop_last(), id);
        if second.last().id != id {
            assert(without(first, id) + without(second.drop_last(), id).push(second.last())
                =~= (without(first, id) + without(second.drop_last(), id)).push(second.last()));
        }
    }
}

proof fn lemma_without_absent(widgets: Seq<Rendered>, id: u32)
    requires
        forall|i: int| 0 <= i < widgets.len() ==> (#[trigger] widgets[i]).id != id,
    ensures
        without(widgets, id) == widgets,
    decreases widgets.len(),
{
    if widgets.len() > 0 {
        let shorter = widgets.drop_last();
        assert forall|i: int| 0 <= i < shorter.len() implies (#[trigger] shorter[i]).id != id by {
            assert(widgets[i].id != id);
        }
        lemma_without_absent(shorter, id);
        assert(widgets[widgets.len() - 1].id != id);
        assert(shorter.push(widgets.last()) =~= widgets);
    }
}

/// The widgets of `old` whose desktops are in `target`, in the order of
/// `old`.
pub open spec fn kept(old: Seq<Rendered>, target: Seq<Rendered>) -> Seq<Rendered>
    decreases old.len(),
{
    if old.len() == 0 {
        Seq::empty()
    } else {
        let before = kept(old.drop_last(), target);
        if find_widget(target, old.last().id).is_some() {
            before.push(old.last())
        } else {
            before
        }
    }
}

proof fn lemma_kept(old: Seq<Rendered>, target: Seq<Rendered>)
    ensures
        ids_of(kept(old, target)) == survivors(old, target),
        forall|w: Rendered|
            #![trigger kept(old, target).contains(w)]
            #![trigger old.contains(w)]
            kept(old, target).contains(w) <==> (old.contains(w) && find_widget(
                target,
                w.id,
            ).is_some()),
    decreases old.len(),
{
    let all = kept(old, target);
    if old.len() == 0 {
        assert(ids_of(all) =~= Seq::<u32>::empty());
    } else {
        let shorter = old.drop_last();
        let before = kept(shorter, target);
        let last = old.last();
        lemma_kept(shorter, target);
        if find_widget(target, last.id).is_some() {
            assert(ids_of(all) =~= ids_of(before).push(last.id));
        }
        assert forall|w: Rendered|
            all.contains(w) <==> (old.contains(w) && find_widget(target, w.id).is_some()) by {
            if all.contains(w) {
                let i = choose|i: int| 0 <= i < all.len() && all[i] == w;
                if i < before.len() {
                    assert(before[i] == w);
                    assert(before.contains(w));
                    assert(shorter.contains(w));
                    let k = choose|k: int| 0 <= k < shorter.len() && shorter[k] == w;
                    assert(old[k] == w);
                } else {
                    assert(old[old.len() - 1] == w);
                }
            }
            if old.contains(w) && find_widget(target, w.id).is_some() {
                let k = choose|k: int| 0 <= k < old.len() && old[k] == w;
                if k < shorter.len() {
                    assert(shorter[k] == w);
                    assert(shorter.contains(w));
                    assert(before.contains(w));
                    let i = choose|i: int| 0 <= i < before.len() && before[i] == w;
                    assert(all[i] == w);
                } else {
                    assert(all[all.len() - 1] == w);
                }
            }
        }
    }
}

proof fn lemma_destroy_phase(old: Seq<Rendered>, target: Seq<Rendered>, count: int)
    requires
        distinct_widgets(old),
        0 <= count <= old.len(),
    ensures
        after_ops(old, destroy_ops(old.take(count), target)) == kept(old.take(count), target)
            + old.skip(count),
    decreases count,
{
    if count == 0 {
        assert(old.take(0) =~= Seq::<Rendered>::empty());
        assert(kept(old.take(0), target) + old.skip(0) =~= old);
    } else {
        let n = count - 1;
        lemma_destroy_phase(old, target, n);
        let seen = old.take(n);
        let gone = old[n];
        let survivors_so_far = kept(seen, target);
        assert(old.take(count).drop_last() =~= seen);
        assert(old.take(count).last() == gone);
        if find_widget(target, gone.id).is_some() {
            assert(survivors_so_far.push(gone) + old.skip(count) =~= survivors_so_far + old.skip(
                n,
            ));
        } else {
            let destroys = destroy_ops(old.take(count), target);
            assert(destroys.drop_last() =~= destroy_ops(seen, target));
            assert(destroys.last() == OpView::Destroy { id: gone.id });
            lemma_kept(seen, target);
            assert forall|i: int| 0 <= i < survivors_so_far.len() implies (
            #[trigger] survivors_so_far[i]).id != gone.id by {
                assert(survivors_so_far.contains(survivors_so_far[i]));
                assert(seen.contains(survivors_so_far[i]));
                let k = choose|k: int| 0 <= k < seen.len() && seen[k] == survivors_so_far[i];
                assert(old[k].id != old[n].id);
            }
            lemma_without_absent(survivors_so_far, gone.id);
            let rest = old.skip(count);
            assert forall|i: int| 0 <= i < rest.len() implies (#[trigger] rest[i]).id
                != gone.id by {
                assert(old[n].id != old[count + i].id);
            }
            lemma_without_absent(rest, gone.id);
            let single = seq![gone];
            assert(single.drop_last() =~= Seq::<Rendered>::empty());
            assert(without(Seq::<Rendered>::empty(), gone.id) =~= Seq::<Rendered>::empty());
            assert(single.last() == gone);
            assert(without(single, gone.id) =~= Seq::<Rendered>::empty());
            assert(old.skip(n) =~= single + rest);
            lemma_without_concat(single, rest, gone.id);
            lemma_without_concat(survivors_so_far, old.skip(n), gone.id);
            assert(without(survivors_so_far + old.skip(n), gone.id) =~= survivors_so_far + rest);
        }
    }
}

/// The widgets `shown`, each as `target` wants it where `target` has the
/// desktop.
pub open spec fn refreshed(shown: Seq<Rendered>, target: Seq<Rendered>) -> Seq<Rendered> {
    Seq::new(
        shown.len(),
        |i: int|
            match find_widget(target, shown[i].id) {
                Some(wanted) => wanted,
                None => shown[i],
            },
    )
}

/// The widgets of `target` whose desktops have no widget in `old`, in the
/// order of `target`.
pub open spec fn made(old: Seq<Rendered>, target: Seq<Rendered>) -> Seq<Rendered>
    decreases target.len(),
{
    if target.len() == 0 {
        Seq::empty()
    } else {
        let before = made(old, target.drop_last());
        if find_widget(old, target.last().id).is_some() {
            before
        } else {
            before.push(target.last())
        }
    }
}

proof fn lemma_made(old: Seq<Rendered>, target: Seq<Rendered>)
    ensures
        ids_of(made(old, target)) == created(old, target),
        forall|w: Rendered|
            #![trigger made(old, target).contains(w)]
            #![trigger target.contains(w)]
            made(old, target).contains(w) <==> (target.contains(w) && find_widget(
                old,
                w.id,
            ).is_none()),
    decreases target.len(),
{
    let all = made(old, target);
    if target.len() == 0 {
        assert(ids_of(all) =~= Seq::<u32>::empty());
    } else {
        let shorter = target.drop_last();
        let before = made(old, shorter);
        let last = target.last();
        lemma_made(old, shorter);
        if find_widget(old, last.id).is_none() {
            assert(ids_of(all) =~= ids_of(before).push(last.id));
        }
        assert forall|w: Rendered|
            all.contains(w) <==> (target.contains(w) && find_widget(old, w.id).is_none()) by {
            if all.contains(w) {
                let i = choose|i: int| 0 <= i < all.len() && all[i] == w;
                if i < before.len() {
                    assert(before[i] == w);
                    assert(before.contains(w));
                    assert(shorter.contains(w));
                    let k = choose|k: int| 0 <= k < shorter.len() && shorter[k] == w;
                    assert(target[k] == w);
                } else {
                    assert(target[target.len() - 1] == w);
                }
            }
            if target.contains(w) && find_widget(old, w.id).is_none() {
                let k = choose|k: int| 0 <= k < target.len() && target[k] == w;
                if k < shorter.len() {
                    assert(shorter[k] == w);
                    assert(shorter.contains(w));
                    assert(before.contains(w));
                    let i = choose|i: int| 0 <= i < before.len() && before[i] == w;
                    assert(all[i] == w);
                } else {
                    assert(all[all.len() - 1] == w);
                }
            }
        }
    }
}

proof fn lemma_kept_distinct(old: Seq<Rendered>, target: Seq<Rendered>)
    requires
        distinct_widgets(old),
    ensures
        distinct_widgets(kept(old, target)),
    decreases old.len(),
{
    let all = kept(old, target);
    if old.len() > 0 {
        let shorter = old.drop_last();
        let before = kept(shorter, target);
        assert forall|a: int, b: int| 0 <= a < b < shorter.len() implies shorter[a].id
            != shorter[b].id by {
            assert(old[a].id != old[b].id);
        }
        lemma_kept_distinct(shorter, target);
        lemma_kept(shorter, target);
        assert forall|a: int, b: int| 0 <= a < b < all.len() implies all[a].id != all[b].id by {
            if b < before.len() {
                assert(before[a].id != before[b].id);
            } else {
                assert(before.contains(before[a]));
                assert(shorter.contains(before[a]));
                let k = choose|k: int| 0 <= k < shorter.len() && shorter[k] == before[a];
                assert(old[k].id != old[old.len() - 1].id);
            }
        }
    }
}

proof fn lemma_find_push(widgets: Seq<Rendered>, added: Rendered, id: u32)
    ensures
        find_widget(widgets.push(added), id) == match find_widget(widgets, id) {
            Some(found) => Some(found),
            None => if added.id == id {
                Some(added)
            } else {
                None
            },
        },
    decreases widgets.len(),
{
    let longer = widgets.push(added);
    if widgets.len() == 0 {
        assert(longer[0] == added);
        assert(longer.skip(1) =~= Seq::<Rendered>::empty());
        assert(find_widget(longer.skip(1), id).is_none());
    } else {
        assert(longer[0] == widgets[0]);
        assert(longer.skip(1) =~= widgets.skip(1).push(added));
        lemma_find_push(widgets.skip(1), added, id);
    }
}

proof fn lemma_after_one(widgets: Seq<Rendered>, op: OpView)
    ensures
        after_ops(widgets, seq![op]) == after_op(widgets, op),
        after_ops(widgets, Seq::<OpView>::empty()) == widgets,
{
    let single = seq![op];
    assert(after_ops(widgets, Seq::<OpView>::empty()) == widgets);
    assert(single.drop_last() =~= Seq::<OpView>::empty());
    assert(single.last() == op);
}

proof fn lemma_content_phase(old: Seq<Rendered>, target: Seq<Rendered>, count: int)
    requires
        distinct_widgets(old),
        distinct_widgets(target),
        0 <= count <= target.len(),
    ensures
        after_ops(kept(old, target), content_ops(old, target.take(count))) == refreshed(
            kept(old, target),
            target.take(count),
        ) + made(old, target.take(count)),
    decreases count,
{
    let shown = kept(old, target);
    if count == 0 {
        let none = target.take(0);
        assert(none =~= Seq::<Rendered>::empty());
        assert(refreshed(shown, none) + made(old, none) =~= shown);
    } else {
        let k = count - 1;
        lemma_content_phase(old, target, k);
        let done = target.take(k);
        let next = target.take(count);
        let wanted = target[k];
        assert(next.drop_last() =~= done);
        assert(next.last() == wanted);
        assert(next =~= done.push(wanted));
        let before = refreshed(shown, done);
        let added = made(old, done);
        let state = before + added;
        let ops = widget_ops(old, wanted);
        lemma_after_ops_concat(shown, content_ops(old, done), ops);
        lemma_kept(old, target);
        lemma_kept_distinct(old, target);
        lemma_made(old, done);
        lemma_find_widget(old, wanted.id);
        lemma_find_own(target, k);
        // No desktop of `done` is the wanted one.
        lemma_find_widget(done, wanted.id);
        if find_widget(done, wanted.id).is_some() {
            let found = find_widget(done, wanted.id)->0;
            let j = choose|j: int| 0 <= j < done.len() && done[j] == found;
            assert(target[j].id != target[k].id);
        }
        let after = refreshed(shown, next);
        match find_widget(old, wanted.id) {
            None => {
                lemma_after_one(
                    state,
                    OpView::Create {
                        id: wanted.id,
                        text: wanted.text,
                        tooltip: wanted.tooltip,
                        focused: wanted.focused,
                    },
                );
                assert forall|i: int| 0 <= i < shown.len() implies after[i] == before[i] by {
                    assert(shown.contains(shown[i]));
                    assert(old.contains(shown[i]));
                    let m = choose|m: int| 0 <= m < old.len() && old[m] == shown[i];
                    assert(old[m].id != wanted.id);
                    lemma_find_push(done, wanted, shown[i].id);
                }
                assert(after =~= before);
                assert(state.push(wanted) =~= after + added.push(wanted));
            },
            Some(current) => {
                assert(shown.contains(current));
                let at = choose|at: int| 0 <= at < shown.len() && shown[at] == current;
                assert forall|i: int| 0 <= i < shown.len() && i != at implies (
                #[trigger] shown[i]).id != wanted.id by {
                    if i < at {
                        assert(shown[i].id != shown[at].id);
                    } else {
                        assert(shown[at].id != shown[i].id);
                    }
                }
                assert forall|i: int| 0 <= i < shown.len() implies (#[trigger] before[i]).id
                    == shown[i].id by {
                    lemma_find_widget(done, shown[i].id);
                }
                assert(before[at] == current);
                assert forall|j: int| 0 <= j < added.len() implies (#[trigger] added[j]).id
                    != wanted.id by {
                    assert(added.contains(added[j]));
                    assert(find_widget(old, added[j].id).is_none());
                }
                let content = if current.text != wanted.text || current.tooltip
                    != wanted.tooltip {
                    seq![
                        OpView::UpdateContent {
                            id: wanted.id,
                            text: wanted.text,
                            tooltip: wanted.tooltip,
                        },
                    ]
                } else {
                    Seq::<OpView>::empty()
                };
                let focus = if current.focused != wanted.focused {
                    seq![OpView::UpdateFocus { id: wanted.id, focused: wanted.focused }]
                } else {
                    Seq::<OpView>::empty()
                };
                assert(ops == content + focus);
                lemma_after_ops_concat(state, content, focus);
                let relabelled = after_ops(state, content);
                lemma_after_one(
                    state,
                    OpView::UpdateContent {
                        id: wanted.id,
                        text: wanted.text,
                        tooltip: wanted.tooltip,
                    },
                );
                let expected_label = Seq::new(
                    state.len(),
                    |i: int|
                        if i == at {
                            Rendered { text: wanted.text, tooltip: wanted.tooltip, ..current }
                        } else {
                            state[i]
                        },
                );
                assert(relabelled =~= expected_label);
                lemma_after_one(
                    relabelled,
                    OpView::UpdateFocus { id: wanted.id, focused: wanted.focused },
                );
                let finished = after_ops(relabelled, focus);
                let expected = Seq::new(
                    state.len(),
                    |i: int|
                        if i == at {
                            wanted
                        } else {
                            state[i]
                        },
                );
                assert(finished =~= expected);
                assert forall|i: int| 0 <= i < shown.len() implies after[i] == expected[i] by {
                    lemma_find_push(done, wanted, shown[i].id);
                }
                assert(expected =~= after + added);
            },
        }
    }
}

proof fn lemma_made_distinct(old: Seq<Rendered>, target: Seq<Rendered>)
    requires
        distinct_widgets(target),
    ensures
        distinct_widgets(made(old, target)),
    decreases target.len(),
{
    let all = made(old, target);
    if target.len() > 0 {
        let shorter = target.drop_last();
        let before = made(old, shorter);
        assert forall|a: int, b: int| 0 <= a < b < shorter.len() implies shorter[a].id
            != shorter[b].id by {
            assert(target[a].id != target[b].id);
        }
        lemma_made_distinct(old, shorter);
        lemma_made(old, shorter);
        assert forall|a: int, b: int| 0 <= a < b < all.len() implies all[a].id != all[b].id by {
            if b < before.len() {
                assert(before[a].id != before[b].id);
            } else {
                assert(before.contains(before[a]));
                assert(shorter.contains(before[a]));
                let k = choose|k: int| 0 <= k < shorter.len() && shorter[k] == before[a];
                assert(target[k].id != target[target.len() - 1].id);
            }
        }
    }
}

proof fn lemma_destroys_move_nothing(old: Seq<Rendered>, target: Seq<Rendered>, position: int)
    ensures
        moved_to(destroy_ops(old, target), position).is_none(),
    decreases old.len(),
{
    if old.len() > 0 {
        lemma_destroys_move_nothing(old.drop_last(), target, position);
        let before = destroy_ops(old.drop_last(), target);
        if find_widget(target, old.last().id).is_none() {
            let destroys = destroy_ops(old, target);
            assert(destroys.drop_last() =~= before);
        }
    }
}

proof fn lemma_changes_move_nothing(old: Seq<Rendered>, target: Seq<Rendered>, position: int)
    ensures
        moved_to(content_ops(old, target), position).is_none(),
    decreases target.len(),
{
    if target.len() > 0 {
        lemma_changes_move_nothing(old, target.drop_last(), position);
        let ops = widget_ops(old, target.last());
        lemma_moved_to_concat(content_ops(old, target.drop_last()), ops, position);
        assert(moved_to(Seq::<OpView>::empty(), position).is_none());
        if ops.len() == 1 {
            assert(ops.drop_last() =~= Seq::<OpView>::empty());
        } else if ops.len() == 2 {
            let first = ops.drop_last();
            assert(first.drop_last() =~= Seq::<OpView>::empty());
            assert(moved_to(first, position).is_none());
        } else {
            assert(ops =~= Seq::<OpView>::empty());
        }
    }
}

/// What is on screen once the operations of an update other than the
/// moves have been performed: the widgets that stay, each as it is wanted,
/// followed by the new widgets.
pub open spec fn before_moves(old: Seq<Rendered>, target: Seq<Rendered>) -> Seq<Rendered> {
    refreshed(kept(old, target), target) + made(old, target)
}

/// Before the moves of an update take effect, the screen holds the widgets
/// of the target, each once and as it is wanted, in the interim order.
pub proof fn lemma_before_moves(old: Seq<Rendered>, target: Seq<Rendered>)
    requires
        distinct_widgets(old),
        distinct_widgets(target),
    ensures
        after_ops(old, reconcile_ops(old, target)) == before_moves(old, target),
        ids_of(before_moves(old, target)) == interim_order(old, target),
        same_widgets(interim_order(old, target), ids_of(target)),
        forall|i: int|
            0 <= i < before_moves(old, target).len() ==> target.contains(
                #[trigger] before_moves(old, target)[i],
            ),
        forall|j: int|
            0 <= j < target.len() ==> before_moves(old, target).contains(#[trigger] target[j]),
{
    let destroys = destroy_ops(old, target);
    let changes = content_ops(old, target);
    let order = interim_order(old, target);
    let wanted = ids_of(target);
    let moves = move_ops(order, wanted, target.len());
    let ops = reconcile_ops(old, target);
    let shown = kept(old, target);
    let updated = refreshed(shown, target);
    let added = made(old, target);
    let screen = before_moves(old, target);

    assert(after_ops(old, ops) == screen) by {
        lemma_after_ops_concat(old, destroys + changes, moves);
        lemma_moves_change_nothing(after_ops(old, destroys + changes), order, wanted, target.len());
        lemma_after_ops_concat(old, destroys, changes);
        lemma_destroy_phase(old, target, old.len() as int);
        assert(old.take(old.len() as int) =~= old);
        assert(shown + old.skip(old.len() as int) =~= shown);
        lemma_content_phase(old, target, target.len() as int);
        assert(target.take(target.len() as int) =~= target);
    }
    lemma_kept(old, target);
    lemma_kept_distinct(old, target);
    lemma_made(old, target);
    lemma_made_distinct(old, target);

    assert forall|i: int| 0 <= i < shown.len() implies (#[trigger] updated[i]).id == shown[i].id
        && target.contains(updated[i]) by {
        assert(shown.contains(shown[i]));
        lemma_find_widget(target, shown[i].id);
    }
    assert forall|i: int| 0 <= i < screen.len() implies target.contains(#[trigger] screen[i]) by {
        if i >= shown.len() {
            assert(added.contains(added[i - shown.len()]));
        }
    }
    assert(ids_of(screen) =~= order) by {
        assert(ids_of(updated) =~= ids_of(shown));
        assert(ids_of(screen) =~= ids_of(updated) + ids_of(added));
    }
    assert forall|j: int| 0 <= j < target.len() implies screen.contains(#[trigger] target[j]) by {
        lemma_find_widget(old, target[j].id);
        lemma_find_own(target, j);
        match find_widget(old, target[j].id) {
            Some(current) => {
                assert(shown.contains(current));
                let i = choose|i: int| 0 <= i < shown.len() && shown[i] == current;
                assert(updated[i] == target[j]);
                assert(screen[i] == target[j]);
            },
            None => {
                assert(target.contains(target[j]));
                assert(added.contains(target[j]));
                let i = choose|i: int| 0 <= i < added.len() && added[i] == target[j];
                assert(screen[shown.len() + i] == target[j]);
            },
        }
    }
    assert(order.no_duplicates()) by {
        assert forall|a: int, b: int| 0 <= a < b < screen.len() implies screen[a].id
            != screen[b].id by {
            if b < shown.len() {
                assert(shown[a].id != shown[b].id);
            } else if a >= shown.len() {
                assert(added[a - shown.len()].id != added[b - shown.len()].id);
            } else {
                assert(added.contains(added[b - shown.len()]));
                assert(shown.contains(shown[a]));
                lemma_find_widget(old, added[b - shown.len()].id);
                let m = choose|m: int| 0 <= m < old.len() && old[m] == shown[a];
                assert(old[m].id != added[b - shown.len()].id);
            }
        }
        assert forall|a: int, b: int| 0 <= a < order.len() && 0 <= b < order.len() && a
            != b implies order[a] != order[b] by {
            if a < b {
                assert(screen[a].id != screen[b].id);
            } else {
                assert(screen[b].id != screen[a].id);
            }
        }
    }
    assert(wanted.no_duplicates()) by {
        assert forall|a: int, b: int| 0 <= a < wanted.len() && 0 <= b < wanted.len() && a
            != b implies wanted[a] != wanted[b] by {
            if a < b {
                assert(target[a].id != target[b].id);
            } else {
                assert(target[b].id != target[a].id);
            }
        }
    }
    assert forall|id: u32| order.contains(id) <==> wanted.contains(id) by {
        if order.contains(id) {
            let i = choose|i: int| 0 <= i < order.len() && order[i] == id;
            assert(target.contains(screen[i]));
            let j = choose|j: int| 0 <= j < target.len() && target[j] == screen[i];
            assert(wanted[j] == id);
        }
        if wanted.contains(id) {
            let j = choose|j: int| 0 <= j < wanted.len() && wanted[j] == id;
            assert(screen.contains(target[j]));
            let i = choose|i: int| 0 <= i < screen.len() && screen[i] == target[j];
            assert(order[i] == id);
        }
    }
    assert(order.to_set() =~= wanted.to_set());
    order.unique_seq_to_set();
    wanted.unique_seq_to_set();
}

/// Performing the operations of an update puts exactly the target on
/// screen: every widget that is wanted, as it is wanted, in the order
/// wanted, and no other.
pub proof fn lemma_reconcile_reaches_target(old: Seq<Rendered>, target: Seq<Rendered>)
    requires
        distinct_widgets(old),
        distinct_widgets(target),
    ensures
        on_screen_after(old, reconcile_ops(old, target)) == target,
{
    let destroys = destroy_ops(old, target);
    let changes = content_ops(old, target);
    let order = interim_order(old, target);
    let wanted = ids_of(target);
    let moves = move_ops(order, wanted, target.len());
    let ops = reconcile_ops(old, target);
    let screen = before_moves(old, target);
    lemma_before_moves(old, target);
    assert(screen.len() == target.len()) by {
        assert(ids_of(screen).len() == screen.len());
        assert(wanted.len() == target.len());
    }
    let result = arranged(screen, ops);
    assert forall|position: int| 0 <= position < target.len() implies result[position]
        == target[position] by {
        lemma_moved_to_concat(destroys + changes, moves, position);
        lemma_moved_to_concat(destroys, changes, position);
        lemma_destroys_move_nothing(old, target, position);
        lemma_changes_move_nothing(old, target, position);
        lemma_moved_to_of_moves(order, wanted, target.len(), position);
        lemma_displaced_among_same(order, wanted, position);
        let here = if is_displaced(order, wanted, position) {
            lemma_find_widget(screen, target[position].id);
            assert(screen.contains(target[position]));
            let i = choose|i: int| 0 <= i < screen.len() && screen[i] == target[position];
            assert(screen[i].id == target[position].id);
            find_widget(screen, target[position].id)->0
        } else {
            assert(ids_of(screen)[position] == screen[position].id);
            screen[position]
        };
        assert(result[position] == here);
        assert(here.id == target[position].id);
        assert(screen.contains(here));
        let at = choose|at: int| 0 <= at < screen.len() && screen[at] == here;
        assert(target.contains(screen[at]));
        let j = choose|j: int| 0 <= j < target.len() && target[j] == here;
        if j < position {
            assert(target[j].id != target[position].id);
        } else if position < j {
            assert(target[position].id != target[j].id);
        }
    }
    assert(result =~= target);
}

proof fn lemma_steps_skip(first: Seq<OpView>, second: Seq<OpView>)
    ensures
        lifts(first + second) == lifts(first) + lifts(second),
        placements(first + second) == placements(first) + placements(second),
    decreases second.len(),
{
    if second.len() == 0 {
        assert(first + second =~= first);
        assert(lifts(first) + lifts(second) =~= lifts(first));
        assert(placements(first) + placements(second) =~= placements(first));
    } else {
        assert((first + second).drop_last() =~= first + second.drop_last());
        lemma_steps_skip(first, second.drop_last());
        let earlier = second.drop_last();
        assert(lifts(first) + lifts(earlier) + lifts(seq![second.last()]) =~= lifts(first) + (
        lifts(earlier) + lifts(seq![second.last()]))) by {
            lemma_one_step(second.last());
        }
        lemma_one_step(second.last());
        match second.last() {
            OpView::Move { id, position } => {
                assert(lifts(first) + lifts(earlier).push(ReorderStep::ToEnd { id }) =~= (lifts(
                    first,
                ) + lifts(earlier)).push(ReorderStep::ToEnd { id }));
                if 0 <= position <= usize::MAX {
                    let step = ReorderStep::ToPosition { id, position: position as usize };
                    assert(placements(first) + placements(earlier).push(step) =~= (placements(
                        first,
                    ) + placements(earlier)).push(step));
                }
            },
            _ => {},
        }
    }
}

proof fn lemma_one_step(op: OpView)
    ensures
        !(op is Move) ==> lifts(seq![op]) == Seq::<ReorderStep>::empty() && placements(seq![op])
            == Seq::<ReorderStep>::empty(),
{
    let single = seq![op];
    assert(single.drop_last() =~= Seq::<OpView>::empty());
    assert(single.last() == op);
    assert(lifts(Seq::<OpView>::empty()) =~= Seq::<ReorderStep>::empty());
    assert(placements(Seq::<OpView>::empty()) =~= Seq::<ReorderStep>::empty());
}

proof fn lemma_destroys_need_no_step(old: Seq<Rendered>, target: Seq<Rendered>)
    ensures
        steps_for(destroy_ops(old, target)) == Seq::<ReorderStep>::empty(),
    decreases old.len(),
{
    if old.len() > 0 {
        lemma_destroys_need_no_step(old.drop_last(), target);
        let before = destroy_ops(old.drop_last(), target);
        if find_widget(target, old.last().id).is_none() {
            let destroys = destroy_ops(old, target);
            assert(destroys.drop_last() =~= before);
        }
    }
    assert(steps_for(destroy_ops(old, target)) =~= Seq::<ReorderStep>::empty());
}

proof fn lemma_changes_need_no_step(old: Seq<Rendered>, target: Seq<Rendered>)
    ensures
        steps_for(content_ops(old, target)) == Seq::<ReorderStep>::empty(),
    decreases target.len(),
{
    if target.len() > 0 {
        lemma_changes_need_no_step(old, target.drop_last());
        let ops = widget_ops(old, target.last());
        lemma_steps_skip(content_ops(old, target.drop_last()), ops);
        if ops.len() == 1 {
            lemma_one_step(ops[0]);
            assert(ops =~= seq![ops[0]]);
        } else if ops.len() == 2 {
            lemma_one_step(ops[0]);
            lemma_one_step(ops[1]);
            assert(ops =~= seq![ops[0]] + seq![ops[1]]);
            lemma_steps_skip(seq![ops[0]], seq![ops[1]]);
        } else {
            assert(ops =~= Seq::<OpView>::empty());
        }
        assert(lifts(ops) =~= Seq::<ReorderStep>::empty());
        assert(placements(ops) =~= Seq::<ReorderStep>::empty());
    }
    assert(steps_for(content_ops(old, target)) =~= Seq::<ReorderStep>::empty());
}

/// A box of widgets that performs the steps for an update, after the
/// destroyed widgets are gone and the new ones stand at the end, shows the
/// widgets in the order wanted.
pub proof fn lemma_update_arranges(old: Seq<Rendered>, target: Seq<Rendered>)
    requires
        distinct_widgets(old),
        distinct_widgets(target),
        target.len() <= usize::MAX,
    ensures
        after_steps(
            ids_of(after_ops(old, reconcile_ops(old, target))),
            steps_for(reconcile_ops(old, target)),
        ) == ids_of(target),
{
    let destroys = destroy_ops(old, target);
    let changes = content_ops(old, target);
    let order = interim_order(old, target);
    let wanted = ids_of(target);
    let moves = move_ops(order, wanted, target.len());
    lemma_before_moves(old, target);
    lemma_steps_skip(destroys + changes, moves);
    lemma_steps_skip(destroys, changes);
    lemma_destroys_need_no_step(old, target);
    lemma_changes_need_no_step(old, target);
    assert(lifts(destroys).len() + placements(destroys).len() == 0) by {
        assert(steps_for(destroys).len() == 0);
    }
    assert(lifts(changes).len() + placements(changes).len() == 0) by {
        assert(steps_for(changes).len() == 0);
    }
    assert(lifts(destroys + changes + moves) =~= lifts(moves));
    assert(placements(destroys + changes + moves) =~= placements(moves));
    assert(steps_for(reconcile_ops(old, target)) =~= steps_for(moves));
    lemma_steps_arrange(order, wanted);
}

} // verus!
