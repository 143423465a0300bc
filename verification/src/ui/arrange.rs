//! How a box of widgets performs the moves of an update: one widget at a
//! time, so that in the end every moved widget stands at its position and
//! every other widget has kept its own.

use crate::ui::widgets::{is_displaced, move_ops, ops_of, OpView, WidgetOp};
use vstd::prelude::*;

verus! {

/// One step of a box of widgets: it takes a widget out and puts it back at
/// the end or at a position.
#[derive(Debug, Clone, Copy, PartialEq, Eq, Structural)]
pub enum ReorderStep {
    /// Put the widget at the end.
    ToEnd { id: u32 },
    /// Put the widget at a position, counted from zero; at the end where
    /// the box has fewer widgets.
    ToPosition { id: u32, position: usize },
}

/// The order without the widget `id`.
pub open spec fn lifted(order: Seq<u32>, id: u32) -> Seq<u32>
    decreases order.len(),
{
    if order.len() == 0 {
        Seq::empty()
    } else {
        let before = lifted(order.drop_last(), id);
        if order.last() == id {
            before
        } else {
            before.push(order.last())
        }
    }
}

/// The order of the box after one step.
pub open spec fn after_step(order: Seq<u32>, step: ReorderStep) -> Seq<u32> {
    match step {
        ReorderStep::ToEnd { id } => lifted(order, id).push(id),
        ReorderStep::ToPosition { id, position } => {
            let rest = lifted(order, id);
            if position <= rest.len() {
                rest.insert(position as int, id)
            } else {
                rest.push(id)
            }
        },
    }
}

/// The order of the box after a list of steps.
pub open spec fn after_steps(order: Seq<u32>, steps: Seq<ReorderStep>) -> Seq<u32>
    decreases steps.len(),
{
    if steps.len() == 0 {
        order
    } else {
        after_step(after_steps(order, steps.drop_last()), steps.last())
    }
}

/// One `ToEnd` for every move of `ops`, in the order of `ops`.
pub open spec fn lifts(ops: Seq<OpView>) -> Seq<ReorderStep>
    decreases ops.len(),
{
    if ops.len() == 0 {
        Seq::empty()
    } else {
        let before = lifts(ops.drop_last());
        match ops.last() {
            OpView::Move { id, .. } => before.push(ReorderStep::ToEnd { id }),
            _ => before,
        }
    }
}

/// One `ToPosition` for every move of `ops` whose position a `usize`
/// holds, in the order of `ops`.
pub open spec fn placements(ops: Seq<OpView>) -> Seq<ReorderStep>
    decreases ops.len(),
{
    if ops.len() == 0 {
        Seq::empty()
    } else {
        let before = placements(ops.drop_last());
        match ops.last() {
            OpView::Move { id, position } => if 0 <= position <= usize::MAX {
                before.push(ReorderStep::ToPosition { id, position: position as usize })
            } else {
                before
            },
            _ => before,
        }
    }
}

/// The steps that perform the moves of an update: first every moved widget
/// goes to the end, so that the others close ranks; then every moved widget
/// goes to its position.
pub open spec fn steps_for(ops: Seq<OpView>) -> Seq<ReorderStep> {
    lifts(ops) + placements(ops)
}

/// The steps by which a box of widgets performs the moves among `ops`:
/// the moves of an update, which come by ascending position.
pub fn arrangement_steps(ops: &Vec<WidgetOp>) -> (steps: Vec<ReorderStep>)
    ensures
        steps@ == steps_for(ops_of(ops@)),
{
    let ghost all = ops_of(ops@);
    let mut steps: Vec<ReorderStep> = Vec::new();
    let mut i: usize = 0;
    proof {
        assert(all.take(0) =~= Seq::<OpView>::empty());
    }
    while i < ops.len()
        invariant
            i <= ops.len(),
            all == ops_of(ops@),
            steps@ == lifts(all.take(i as int)),
        decreases ops.len() - i,
    {
        proof {
            assert(all.take(i + 1).drop_last() =~= all.take(i as int));
            assert(all.take(i + 1).last() == ops@[i as int]@);
        }
        match &ops[i] {
            WidgetOp::Move { id, .. } => {
                steps.push(ReorderStep::ToEnd { id: *id });
            },
            _ => {},
        }
        i += 1;
    }
    proof {
        assert(all.take(i as int) =~= all);
        assert(all.take(0) =~= Seq::<OpView>::empty());
        assert(steps@ + placements(all.take(0)) =~= steps@);
    }
    let ghost first = steps@;
    let mut k: usize = 0;
    while k < ops.len()
        invariant
            k <= ops.len(),
            all == ops_of(ops@),
            first == lifts(all),
            steps@ == first + placements(all.take(k as int)),
        decreases ops.len() - k,
    {
        proof {
            assert(all.take(k + 1).drop_last() =~= all.take(k as int));
            assert(all.take(k + 1).last() == ops@[k as int]@);
        }
        let ghost done = placements(all.take(k as int));
        match &ops[k] {
            WidgetOp::Move { id, position } => {
                steps.push(ReorderStep::ToPosition { id: *id, position: *position });
                assert(steps@ =~= first + done.push(
                    ReorderStep::ToPosition { id: *id, position: *position },
                ));
            },
            _ => {},
        }
        k += 1;
    }
    proof {
        assert(all.take(k as int) =~= all);
    }
    steps
}

proof fn lemma_after_steps_concat(order: Seq<u32>, first: Seq<ReorderStep>, second: Seq<ReorderStep>)
    ensures
        after_steps(order, first + second) == after_steps(after_steps(order, first), second),
    decreases second.len(),
{
    if second.len() == 0 {
        assert(first + second =~= first);
    } else {
        assert((first + second).drop_last() =~= first + second.drop_last());
        lemma_after_steps_concat(order, first, second.drop_last());
    }
}

proof fn lemma_lifted_concat(first: Seq<u32>, second: Seq<u32>, id: u32)
    ensures
        lifted(first + second, id) == lifted(first, id) + lifted(second, id),
    decreases second.len(),
{
    if second.len() == 0 {
        assert(first + second =~= first);
        assert(lifted(first, id) + lifted(second, id) =~= lifted(first, id));
    } else {
        assert((first + second).drop_last() =~= first + second.drop_last());
        lemma_lifted_concat(first, second.drop_last(), id);
        if second.last() != id {
            assert(lifted(first, id) + lifted(second.drop_last(), id).push(second.last()) =~= (
            lifted(first, id) + lifted(second.drop_last(), id)).push(second.last()));
        }
    }
}

proof fn lemma_lifted_absent(order: Seq<u32>, id: u32)
    requires
        !order.contains(id),
    ensures
        lifted(order, id) == order,
    decreases order.len(),
{
    if order.len() > 0 {
        let shorter = order.drop_last();
        assert(order[order.len() - 1] != id);
        if shorter.contains(id) {
            let i = choose|i: int| 0 <= i < shorter.len() && shorter[i] == id;
            assert(order[i] == id);
        }
        lemma_lifted_absent(shorter, id);
        assert(shorter.push(order.last()) =~= order);
    }
}

proof fn lemma_lifted_single(id: u32)
    ensures
        lifted(seq![id], id) == Seq::<u32>::empty(),
{
    let single = seq![id];
    assert(single.drop_last() =~= Seq::<u32>::empty());
    assert(lifted(Seq::<u32>::empty(), id) =~= Seq::<u32>::empty());
    assert(single.last() == id);
}

/// The widgets wanted at the displaced positions below `until`, by
/// ascending position.
pub open spec fn moved_until(order: Seq<u32>, wanted: Seq<u32>, until: int) -> Seq<u32>
    decreases until,
{
    if until <= 0 {
        Seq::empty()
    } else {
        let before = moved_until(order, wanted, until - 1);
        if is_displaced(order, wanted, until - 1) {
            before.push(wanted[until - 1])
        } else {
            before
        }
    }
}

/// The widgets wanted at the positions below `until` that are in place.
pub open spec fn unmoved_until(order: Seq<u32>, wanted: Seq<u32>, until: int) -> Seq<u32>
    decreases until,
{
    if until <= 0 {
        Seq::empty()
    } else {
        let before = unmoved_until(order, wanted, until - 1);
        if is_displaced(order, wanted, until - 1) {
            before
        } else {
            before.push(wanted[until - 1])
        }
    }
}

/// The widgets wanted at the displaced positions from `from` on.
pub open spec fn moved_from(order: Seq<u32>, wanted: Seq<u32>, from: int) -> Seq<u32>
    decreases wanted.len() - from,
{
    if from < 0 || from >= wanted.len() {
        Seq::empty()
    } else {
        let after = moved_from(order, wanted, from + 1);
        if is_displaced(order, wanted, from) {
            seq![wanted[from]] + after
        } else {
            after
        }
    }
}

/// The widgets wanted at the positions from `from` on that are in place.
pub open spec fn unmoved_from(order: Seq<u32>, wanted: Seq<u32>, from: int) -> Seq<u32>
    decreases wanted.len() - from,
{
    if from < 0 || from >= wanted.len() {
        Seq::empty()
    } else {
        let after = unmoved_from(order, wanted, from + 1);
        if is_displaced(order, wanted, from) {
            after
        } else {
            seq![wanted[from]] + after
        }
    }
}

proof fn lemma_until_and_from(order: Seq<u32>, wanted: Seq<u32>, at: int)
    requires
        0 <= at <= wanted.len(),
    ensures
        moved_until(order, wanted, at) + moved_from(order, wanted, at) == moved_until(
            order,
            wanted,
            wanted.len() as int,
        ),
        unmoved_until(order, wanted, at) + unmoved_from(order, wanted, at) == unmoved_until(
            order,
            wanted,
            wanted.len() as int,
        ),
    decreases wanted.len() - at,
{
    let n = wanted.len() as int;
    if at == n {
        assert(moved_until(order, wanted, at) + moved_from(order, wanted, at) =~= moved_until(
            order,
            wanted,
            n,
        ));
        assert(unmoved_until(order, wanted, at) + unmoved_from(order, wanted, at)
            =~= unmoved_until(order, wanted, n));
    } else {
        lemma_until_and_from(order, wanted, at + 1);
        let x = wanted[at];
        if is_displaced(order, wanted, at) {
            assert(moved_until(order, wanted, at) + (seq![x] + moved_from(order, wanted, at + 1))
                =~= moved_until(order, wanted, at).push(x) + moved_from(order, wanted, at + 1));
        } else {
            assert(unmoved_until(order, wanted, at) + (seq![x] + unmoved_from(
                order,
                wanted,
                at + 1,
            )) =~= unmoved_until(order, wanted, at).push(x) + unmoved_from(order, wanted, at + 1));
        }
    }
}

proof fn lemma_members_until(order: Seq<u32>, wanted: Seq<u32>, at: int, id: u32)
    requires
        0 <= at <= wanted.len(),
    ensures
        moved_until(order, wanted, at).contains(id) <==> exists|p: int|
            0 <= p < at && #[trigger] is_displaced(order, wanted, p) && wanted[p] == id,
    decreases at,
{
    if at > 0 {
        lemma_members_until(order, wanted, at - 1, id);
        let before = moved_until(order, wanted, at - 1);
        let all = moved_until(order, wanted, at);
        if all.contains(id) {
            let i = choose|i: int| 0 <= i < all.len() && all[i] == id;
            if i < before.len() {
                assert(before[i] == id);
                assert(before.contains(id));
                let p = choose|p: int|
                    0 <= p < at - 1 && #[trigger] is_displaced(order, wanted, p) && wanted[p]
                        == id;
                assert(is_displaced(order, wanted, p));
            } else {
                assert(is_displaced(order, wanted, at - 1));
            }
        }
        if exists|p: int|
            0 <= p < at && #[trigger] is_displaced(order, wanted, p) && wanted[p] == id {
            let p = choose|p: int|
                0 <= p < at && #[trigger] is_displaced(order, wanted, p) && wanted[p] == id;
            if p < at - 1 {
                assert(is_displaced(order, wanted, p));
                assert(before.contains(id));
                let i = choose|i: int| 0 <= i < before.len() && before[i] == id;
                assert(all[i] == id);
            } else {
                assert(all[all.len() - 1] == id);
            }
        }
    }
}

proof fn lemma_members_from(order: Seq<u32>, wanted: Seq<u32>, at: int, id: u32)
    requires
        0 <= at <= wanted.len(),
    ensures
        moved_from(order, wanted, at).contains(id) <==> exists|p: int|
            at <= p < wanted.len() && #[trigger] is_displaced(order, wanted, p) && wanted[p] == id,
        unmoved_from(order, wanted, at).contains(id) <==> exists|p: int|
            at <= p < wanted.len() && !#[trigger] is_displaced(order, wanted, p) && wanted[p]
                == id,
    decreases wanted.len() - at,
{
    if at < wanted.len() {
        lemma_members_from(order, wanted, at + 1, id);
        let x = wanted[at];
        let moved_after = moved_from(order, wanted, at + 1);
        let moved = moved_from(order, wanted, at);
        let unmoved_after = unmoved_from(order, wanted, at + 1);
        let unmoved = unmoved_from(order, wanted, at);
        let displaced = is_displaced(order, wanted, at);
        // Moved.
        if moved.contains(id) {
            let i = choose|i: int| 0 <= i < moved.len() && moved[i] == id;
            if displaced && i == 0 {
                assert(is_displaced(order, wanted, at));
            } else {
                let k = if displaced {
                    i - 1
                } else {
                    i
                };
                assert(moved_after[k] == id);
                assert(moved_after.contains(id));
                let p = choose|p: int|
                    at + 1 <= p < wanted.len() && #[trigger] is_displaced(order, wanted, p)
                        && wanted[p] == id;
                assert(is_displaced(order, wanted, p));
            }
        }
        if exists|p: int|
            at <= p < wanted.len() && #[trigger] is_displaced(order, wanted, p) && wanted[p]
                == id {
            let p = choose|p: int|
                at <= p < wanted.len() && #[trigger] is_displaced(order, wanted, p) && wanted[p]
                    == id;
            if p == at {
                assert(moved[0] == id);
            } else {
                assert(is_displaced(order, wanted, p));
                assert(moved_after.contains(id));
                let k = choose|k: int| 0 <= k < moved_after.len() && moved_after[k] == id;
                if displaced {
                    assert(moved[k + 1] == id);
                } else {
                    assert(moved[k] == id);
                }
            }
        }
        // Unmoved.
        if unmoved.contains(id) {
            let i = choose|i: int| 0 <= i < unmoved.len() && unmoved[i] == id;
            if !displaced && i == 0 {
                assert(!is_displaced(order, wanted, at));
            } else {
                let k = if displaced {
                    i
                } else {
                    i - 1
                };
                assert(unmoved_after[k] == id);
                assert(unmoved_after.contains(id));
                let p = choose|p: int|
                    at + 1 <= p < wanted.len() && !#[trigger] is_displaced(order, wanted, p)
                        && wanted[p] == id;
                assert(!is_displaced(order, wanted, p));
            }
        }
        if exists|p: int|
            at <= p < wanted.len() && !#[trigger] is_displaced(order, wanted, p) && wanted[p]
                == id {
            let p = choose|p: int|
                at <= p < wanted.len() && !#[trigger] is_displaced(order, wanted, p) && wanted[p]
                    == id;
            if p == at {
                assert(unmoved[0] == id);
            } else {
                assert(!is_displaced(order, wanted, p));
                assert(unmoved_after.contains(id));
                let k = choose|k: int| 0 <= k < unmoved_after.len() && unmoved_after[k] == id;
                if displaced {
                    assert(unmoved[k] == id);
                } else {
                    assert(unmoved[k + 1] == id);
                }
            }
        }
    }
}

/// The order without every widget of `gone`.
pub open spec fn minus(order: Seq<u32>, gone: Seq<u32>) -> Seq<u32>
    decreases gone.len(),
{
    if gone.len() == 0 {
        order
    } else {
        lifted(minus(order, gone.drop_last()), gone.last())
    }
}

proof fn lemma_minus_push(order: Seq<u32>, added: u32, gone: Seq<u32>)
    ensures
        minus(order.push(added), gone) == if gone.contains(added) {
            minus(order, gone)
        } else {
            minus(order, gone).push(added)
        },
    decreases gone.len(),
{
    if gone.len() > 0 {
        let earlier = gone.drop_last();
        let last = gone.last();
        lemma_minus_push(order, added, earlier);
        assert(gone[gone.len() - 1] == last);
        if earlier.contains(added) {
            let i = choose|i: int| 0 <= i < earlier.len() && earlier[i] == added;
            assert(gone[i] == added);
        } else {
            let rest = minus(order, earlier);
            assert(rest.push(added).drop_last() =~= rest);
            assert(rest.push(added).last() == added);
            if gone.contains(added) {
                let i = choose|i: int| 0 <= i < gone.len() && gone[i] == added;
                if i < earlier.len() {
                    assert(earlier[i] == added);
                }
            }
        }
    }
}

proof fn lemma_minus_nothing(gone: Seq<u32>)
    ensures
        minus(Seq::<u32>::empty(), gone) == Seq::<u32>::empty(),
    decreases gone.len(),
{
    if gone.len() > 0 {
        lemma_minus_nothing(gone.drop_last());
    }
}

/// Both orders hold the same widgets, each once.
pub open spec fn same_widgets(order: Seq<u32>, wanted: Seq<u32>) -> bool {
    &&& order.no_duplicates()
    &&& wanted.no_duplicates()
    &&& order.len() == wanted.len()
    &&& forall|id: u32| order.contains(id) <==> wanted.contains(id)
}

/// Where both orders hold the same widgets, a widget is displaced exactly
/// where the order holds another widget at its position.
pub proof fn lemma_displaced_among_same(order: Seq<u32>, wanted: Seq<u32>, position: int)
    requires
        same_widgets(order, wanted),
        0 <= position < wanted.len(),
    ensures
        is_displaced(order, wanted, position) <==> order[position] != wanted[position],
{
    if order[position] != wanted[position] {
        assert(wanted.contains(wanted[position]));
        assert(order.contains(wanted[position]));
        let at = choose|at: int| 0 <= at < order.len() && order[at] == wanted[position];
        assert(order[at] == wanted[position] && at != position);
    }
}

proof fn lemma_lift_phase(order: Seq<u32>, wanted: Seq<u32>, count: int)
    requires
        wanted.no_duplicates(),
        0 <= count <= wanted.len(),
    ensures
        after_steps(order, lifts(move_ops(order, wanted, count as nat))) == minus(
            order,
            moved_until(order, wanted, count),
        ) + moved_until(order, wanted, count),
    decreases count,
{
    if count == 0 {
        assert(minus(order, moved_until(order, wanted, 0)) + moved_until(order, wanted, 0)
            =~= order);
    } else {
        let at = count - 1;
        lemma_lift_phase(order, wanted, at);
        let gone = moved_until(order, wanted, at);
        let rest = minus(order, gone);
        if is_displaced(order, wanted, at) {
            let id = wanted[at];
            let moves = move_ops(order, wanted, count as nat);
            assert(moves.drop_last() =~= move_ops(order, wanted, at as nat));
            assert(moves.last() == OpView::Move { id, position: at });
            let steps = lifts(moves);
            assert(steps.drop_last() =~= lifts(move_ops(order, wanted, at as nat)));
            assert(steps.last() == ReorderStep::ToEnd { id });
            lemma_members_until(order, wanted, at, id);
            if gone.contains(id) {
                let p = choose|p: int|
                    0 <= p < at && #[trigger] is_displaced(order, wanted, p) && wanted[p] == id;
                assert(wanted[p] == wanted[at]);
            }
            lemma_lifted_absent(gone, id);
            lemma_lifted_concat(rest, gone, id);
            let longer = gone.push(id);
            assert(longer.drop_last() =~= gone);
            assert(longer.last() == id);
            assert(minus(order, longer) == lifted(rest, id));
            assert((lifted(rest, id) + gone).push(id) =~= lifted(rest, id) + longer);
        }
    }
}

proof fn lemma_unmoved_stay(order: Seq<u32>, wanted: Seq<u32>, count: int)
    requires
        same_widgets(order, wanted),
        0 <= count <= wanted.len(),
    ensures
        minus(order.take(count), moved_until(order, wanted, wanted.len() as int))
            == unmoved_until(order, wanted, count),
    decreases count,
{
    let gone = moved_until(order, wanted, wanted.len() as int);
    if count == 0 {
        assert(order.take(0) =~= Seq::<u32>::empty());
        lemma_minus_nothing(gone);
    } else {
        let at = count - 1;
        lemma_unmoved_stay(order, wanted, at);
        let here = order[at];
        assert(order.take(count) =~= order.take(at).push(here));
        lemma_minus_push(order.take(at), here, gone);
        lemma_members_until(order, wanted, wanted.len() as int, here);
        lemma_displaced_among_same(order, wanted, at);
        if is_displaced(order, wanted, at) {
            assert(order.contains(here));
            assert(wanted.contains(here));
            let r = choose|r: int| 0 <= r < wanted.len() && wanted[r] == here;
            lemma_displaced_among_same(order, wanted, r);
            if !is_displaced(order, wanted, r) {
                assert(order[r] == order[at]);
            }
            assert(is_displaced(order, wanted, r) && wanted[r] == here);
            assert(gone.contains(here));
        } else {
            if gone.contains(here) {
                let p = choose|p: int|
                    0 <= p < wanted.len() && #[trigger] is_displaced(order, wanted, p) && wanted[p]
                        == here;
                assert(wanted[p] == wanted[at]);
            }
        }
    }
}

/// The box while the moved widgets are put at their positions: what is
/// wanted below `at`, then the widgets in place from `at` on, then the
/// moved widgets still waiting at the end.
pub open spec fn box_at(order: Seq<u32>, wanted: Seq<u32>, at: int) -> Seq<u32> {
    wanted.take(at) + unmoved_from(order, wanted, at) + moved_from(order, wanted, at)
}

proof fn lemma_place_phase(order: Seq<u32>, wanted: Seq<u32>, count: int)
    requires
        wanted.no_duplicates(),
        wanted.len() <= usize::MAX,
        0 <= count <= wanted.len(),
    ensures
        after_steps(box_at(order, wanted, 0), placements(move_ops(order, wanted, count as nat)))
            == box_at(order, wanted, count),
    decreases count,
{
    if count > 0 {
        let at = count - 1;
        lemma_place_phase(order, wanted, at);
        let id = wanted[at];
        let below = wanted.take(at);
        let staying = unmoved_from(order, wanted, count);
        let waiting = moved_from(order, wanted, count);
        assert(wanted.take(count) =~= below.push(id));
        if is_displaced(order, wanted, at) {
            let moves = move_ops(order, wanted, count as nat);
            assert(moves.drop_last() =~= move_ops(order, wanted, at as nat));
            assert(moves.last() == OpView::Move { id, position: at });
            let steps = placements(moves);
            assert(steps.drop_last() =~= placements(move_ops(order, wanted, at as nat)));
            assert(steps.last() == ReorderStep::ToPosition { id, position: at as usize });
            let before = box_at(order, wanted, at);
            assert(before =~= below + staying + (seq![id] + waiting));
            if below.contains(id) {
                let i = choose|i: int| 0 <= i < below.len() && below[i] == id;
                assert(wanted[i] == wanted[at]);
            }
            lemma_members_from(order, wanted, count, id);
            if staying.contains(id) {
                let p = choose|p: int|
                    count <= p < wanted.len() && !#[trigger] is_displaced(order, wanted, p)
                        && wanted[p] == id;
                assert(wanted[p] == wanted[at]);
            }
            if waiting.contains(id) {
                let p = choose|p: int|
                    count <= p < wanted.len() && #[trigger] is_displaced(order, wanted, p)
                        && wanted[p] == id;
                assert(wanted[p] == wanted[at]);
            }
            lemma_lifted_absent(below, id);
            lemma_lifted_absent(staying, id);
            lemma_lifted_absent(waiting, id);
            lemma_lifted_single(id);
            lemma_lifted_concat(seq![id], waiting, id);
            lemma_lifted_concat(below + staying, seq![id] + waiting, id);
            lemma_lifted_concat(below, staying, id);
            let rest = lifted(before, id);
            assert(rest =~= below + staying + waiting);
            assert(rest.insert(at, id) =~= below.push(id) + staying + waiting);
        } else {
            assert(box_at(order, wanted, at) =~= box_at(order, wanted, count));
        }
    }
}

/// A box of widgets that performs the steps for the moves from `order` to
/// `wanted` ends in the order `wanted`: every moved widget stands at its
/// position, and every other widget has kept its own.
pub proof fn lemma_steps_arrange(order: Seq<u32>, wanted: Seq<u32>)
    requires
        same_widgets(order, wanted),
        wanted.len() <= usize::MAX,
    ensures
        after_steps(order, steps_for(move_ops(order, wanted, wanted.len()))) == wanted,
{
    let n = wanted.len() as int;
    let moves = move_ops(order, wanted, wanted.len());
    let gone = moved_until(order, wanted, n);
    lemma_after_steps_concat(order, lifts(moves), placements(moves));
    lemma_lift_phase(order, wanted, n);
    lemma_unmoved_stay(order, wanted, n);
    assert(order.take(n) =~= order);
    lemma_until_and_from(order, wanted, 0);
    assert(minus(order, gone) + gone =~= box_at(order, wanted, 0)) by {
        assert(wanted.take(0) =~= Seq::<u32>::empty());
        assert(unmoved_until(order, wanted, 0) + unmoved_from(order, wanted, 0) =~= unmoved_from(
            order,
            wanted,
            0,
        ));
        assert(moved_until(order, wanted, 0) + moved_from(order, wanted, 0) =~= moved_from(
            order,
            wanted,
            0,
        ));
    }
    lemma_place_phase(order, wanted, n);
    assert(box_at(order, wanted, n) =~= wanted) by {
        assert(wanted.take(n) =~= wanted);
    }
}

} // verus!
