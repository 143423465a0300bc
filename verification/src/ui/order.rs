//! Which desktops are shown, and in what order.

use crate::config::SortStrategy;
use crate::text::chars_of;
use crate::vdesk::{ascending_ids, distinct_ids, records_of, DesktopRecord, VirtualDesktop};
use vstd::prelude::*;

verus! {

/// Whether a desktop is shown: it has windows, it is focused, or empty
/// desktops are shown too.
pub open spec fn is_visible(desktop: DesktopRecord, show_empty: bool) -> bool {
    desktop.populated || desktop.focused || show_empty
}

/// The desktops of `records` that are shown, in their order.
pub open spec fn visible_records(records: Seq<DesktopRecord>, show_empty: bool) -> Seq<
    DesktopRecord,
>
    decreases records.len(),
{
    if records.len() == 0 {
        Seq::empty()
    } else {
        let before = visible_records(records.drop_last(), show_empty);
        if is_visible(records.last(), show_empty) {
            before.push(records.last())
        } else {
            before
        }
    }
}

/// What is shown is part of what there is, in the same order.
pub proof fn lemma_visible_records(records: Seq<DesktopRecord>, show_empty: bool)
    requires
        ascending_ids(records),
    ensures
        ascending_ids(visible_records(records, show_empty)),
        forall|r: DesktopRecord|
            visible_records(records, show_empty).contains(r) <==> (records.contains(r)
                && is_visible(r, show_empty)),
    decreases records.len(),
{
    let shown = visible_records(records, show_empty);
    if records.len() > 0 {
        let shorter = records.drop_last();
        let before = visible_records(shorter, show_empty);
        let last = records.last();
        assert forall|i: int, j: int| 0 <= i < j < shorter.len() implies shorter[i].id
            < shorter[j].id by {
            assert(records[i].id < records[j].id);
        }
        lemma_visible_records(shorter, show_empty);
        assert forall|r: DesktopRecord| before.contains(r) implies r.id < last.id by {
            assert(shorter.contains(r));
            let i = choose|i: int| 0 <= i < shorter.len() && shorter[i] == r;
            assert(records[i].id < records[records.len() - 1].id);
        }
        assert forall|i: int, j: int| 0 <= i < j < shown.len() implies shown[i].id
            < shown[j].id by {
            if j < before.len() {
                assert(before[i].id < before[j].id);
            } else {
                assert(before.contains(before[i]));
            }
        }
        assert forall|r: DesktopRecord|
            shown.contains(r) <==> (records.contains(r) && is_visible(r, show_empty)) by {
            if shown.contains(r) {
                let i = choose|i: int| 0 <= i < shown.len() && shown[i] == r;
                if i < before.len() {
                    assert(before[i] == r);
                    assert(before.contains(r));
                    assert(shorter.contains(r));
                    let k = choose|k: int| 0 <= k < shorter.len() && shorter[k] == r;
                    assert(records[k] == r);
                } else {
                    assert(records[records.len() - 1] == r);
                }
            }
            if records.contains(r) && is_visible(r, show_empty) {
                let k = choose|k: int| 0 <= k < records.len() && records[k] == r;
                if k < shorter.len() {
                    assert(shorter[k] == r);
                    assert(before.contains(r));
                    let i = choose|i: int| 0 <= i < before.len() && before[i] == r;
                    assert(shown[i] == r);
                } else {
                    assert(shown[shown.len() - 1] == r);
                }
            }
        }
    }
}

/// Picks the desktops that are shown.
pub fn visible_desktops(desktops: &Vec<VirtualDesktop>, show_empty: bool) -> (shown: Vec<
    VirtualDesktop,
>)
    ensures
        records_of(shown@) == visible_records(records_of(desktops@), show_empty),
{
    let ghost all = records_of(desktops@);
    let mut shown: Vec<VirtualDesktop> = Vec::new();
    let mut i: usize = 0;
    proof {
        assert(all.take(0) =~= Seq::<DesktopRecord>::empty());
        assert(records_of(shown@) =~= Seq::<DesktopRecord>::empty());
    }
    while i < desktops.len()
        invariant
            i <= desktops.len(),
            all == records_of(desktops@),
            records_of(shown@) == visible_records(all.take(i as int), show_empty),
        decreases desktops.len() - i,
    {
        proof {
            assert(all.take(i + 1).drop_last() =~= all.take(i as int));
            assert(all.take(i + 1).last() == desktops@[i as int]@);
        }
        let desktop = &desktops[i];
        if desktop.populated || desktop.focused || show_empty {
            let ghost earlier = shown@;
            let copy = desktop.clone();
            shown.push(copy);
            assert(records_of(shown@) =~= records_of(earlier).push(desktop@));
        }
        i += 1;
    }
    proof {
        assert(all.take(i as int) =~= all);
    }
    shown
}

/// Whether `a` comes before `b` in the order of their characters.
pub open spec fn name_before(a: Seq<char>, b: Seq<char>) -> bool
    decreases a.len(),
{
    if b.len() == 0 {
        false
    } else if a.len() == 0 {
        true
    } else if a[0] != b[0] {
        a[0] < b[0]
    } else {
        name_before(a.skip(1), b.skip(1))
    }
}

/// Of two different names one comes before the other.
pub proof fn lemma_name_order_total(a: Seq<char>, b: Seq<char>)
    ensures
        a == b || name_before(a, b) || name_before(b, a),
        !(name_before(a, b) && name_before(b, a)),
        !name_before(a, a),
    decreases a.len(),
{
    if a.len() > 0 && b.len() > 0 {
        if a[0] == b[0] {
            lemma_name_order_total(a.skip(1), b.skip(1));
            if a.skip(1) == b.skip(1) {
                assert(a =~= seq![a[0]] + a.skip(1));
                assert(b =~= seq![b[0]] + b.skip(1));
            }
        }
    } else if a.len() == 0 && b.len() == 0 {
        assert(a =~= b);
    }
    if a.len() > 0 {
        lemma_name_order_total(a.skip(1), a.skip(1));
    }
}

/// The order of names is transitive.
pub proof fn lemma_name_order_transitive(a: Seq<char>, b: Seq<char>, c: Seq<char>)
    requires
        name_before(a, b),
        name_before(b, c),
    ensures
        name_before(a, c),
    decreases a.len(),
{
    if a.len() > 0 && b.len() > 0 && c.len() > 0 {
        if a[0] == b[0] && b[0] == c[0] {
            lemma_name_order_transitive(a.skip(1), b.skip(1), c.skip(1));
        }
    }
}

/// Whether `a` is shown before `b` under a strategy.
pub open spec fn precedes(strategy: SortStrategy, a: DesktopRecord, b: DesktopRecord) -> bool {
    match strategy {
        SortStrategy::Number => a.id < b.id,
        SortStrategy::Name => name_before(a.name, b.name) || (a.name == b.name && a.id < b.id),
        SortStrategy::FocusedFirst => (a.focused && !b.focused) || (a.focused == b.focused && a.id
            < b.id),
    }
}

/// Every record is shown before all that follow it.
pub open spec fn in_order(strategy: SortStrategy, records: Seq<DesktopRecord>) -> bool {
    forall|i: int, j: int|
        0 <= i < j < records.len() ==> precedes(strategy, records[i], records[j])
}

/// `sorted` holds the records of `records`, each once, in the order of the
/// strategy.
pub open spec fn is_sorted_form(
    strategy: SortStrategy,
    sorted: Seq<DesktopRecord>,
    records: Seq<DesktopRecord>,
) -> bool {
    &&& in_order(strategy, sorted)
    &&& sorted.len() == records.len()
    &&& distinct_ids(sorted)
    &&& forall|r: DesktopRecord| sorted.contains(r) <==> records.contains(r)
}

/// Of two desktops with different identifiers one is shown before the
/// other.
pub proof fn lemma_precedes_total(strategy: SortStrategy, a: DesktopRecord, b: DesktopRecord)
    requires
        a.id != b.id,
    ensures
        precedes(strategy, a, b) || precedes(strategy, b, a),
{
    lemma_name_order_total(a.name, b.name);
}

/// The order of desktops is transitive.
pub proof fn lemma_precedes_transitive(
    strategy: SortStrategy,
    a: DesktopRecord,
    b: DesktopRecord,
    c: DesktopRecord,
)
    requires
        precedes(strategy, a, b),
        precedes(strategy, b, c),
    ensures
        precedes(strategy, a, c),
{
    if strategy == SortStrategy::Name {
        lemma_name_order_total(a.name, b.name);
        lemma_name_order_total(b.name, c.name);
        if name_before(a.name, b.name) && name_before(b.name, c.name) {
            lemma_name_order_transitive(a.name, b.name, c.name);
        }
    }
}

/// No desktop is shown before itself, and of two desktops only one is
/// shown before the other.
pub proof fn lemma_precedes_strict(strategy: SortStrategy, a: DesktopRecord, b: DesktopRecord)
    ensures
        !precedes(strategy, a, a),
        !(precedes(strategy, a, b) && precedes(strategy, b, a)),
{
    lemma_name_order_total(a.name, b.name);
    lemma_name_order_total(a.name, a.name);
}

/// The order of a strategy is unique: two lists that hold the same records
/// in the order of the strategy are the same list.
pub proof fn lemma_sorted_form_unique(
    strategy: SortStrategy,
    first: Seq<DesktopRecord>,
    second: Seq<DesktopRecord>,
    records: Seq<DesktopRecord>,
)
    requires
        is_sorted_form(strategy, first, records),
        is_sorted_form(strategy, second, records),
    ensures
        first == second,
{
    assert forall|i: int| 0 <= i < first.len() implies first[i] == second[i] by {
        lemma_same_place(strategy, first, second, i);
    }
    assert(first =~= second);
}

proof fn lemma_same_place(
    strategy: SortStrategy,
    first: Seq<DesktopRecord>,
    second: Seq<DesktopRecord>,
    i: int,
)
    requires
        in_order(strategy, first),
        in_order(strategy, second),
        first.len() == second.len(),
        forall|r: DesktopRecord| first.contains(r) <==> second.contains(r),
        0 <= i < first.len(),
    ensures
        first[i] == second[i],
    decreases i,
{
    assert forall|k: int| 0 <= k < i implies first[k] == second[k] by {
        lemma_same_place(strategy, first, second, k);
    }
    assert(first.contains(first[i]));
    let j = choose|j: int| 0 <= j < second.len() && second[j] == first[i];
    if j < i {
        assert(first[j] == second[j]);
        assert(precedes(strategy, first[j], first[i]));
        lemma_precedes_strict(strategy, first[i], first[i]);
    }
    assert(second.contains(second[i]));
    let m = choose|m: int| 0 <= m < first.len() && first[m] == second[i];
    if m < i {
        assert(first[m] == second[m]);
        assert(precedes(strategy, second[m], second[i]));
        lemma_precedes_strict(strategy, second[i], second[i]);
    }
    if j > i {
        assert(precedes(strategy, second[i], second[j]));
        if m > i {
            assert(precedes(strategy, first[i], first[m]));
            lemma_precedes_strict(strategy, first[i], second[i]);
        }
    }
}

fn comes_before(a: &Vec<char>, b: &Vec<char>) -> (before: bool)
    ensures
        before == name_before(a@, b@),
{
    let mut i: usize = 0;
    proof {
        assert(a@.skip(0) =~= a@);
        assert(b@.skip(0) =~= b@);
    }
    while i < a.len() && i < b.len()
        invariant
            i <= a.len(),
            i <= b.len(),
            name_before(a@.skip(i as int), b@.skip(i as int)) == name_before(a@, b@),
        decreases a.len() - i,
    {
        proof {
            assert(a@.skip(i as int)[0] == a@[i as int]);
            assert(b@.skip(i as int)[0] == b@[i as int]);
            assert(a@.skip(i as int).skip(1) =~= a@.skip(i + 1));
            assert(b@.skip(i as int).skip(1) =~= b@.skip(i + 1));
        }
        if a[i] != b[i] {
            return a[i] < b[i];
        }
        i += 1;
    }
    i < b.len()
}

fn shown_before(strategy: SortStrategy, a: &VirtualDesktop, b: &VirtualDesktop) -> (before: bool)
    ensures
        before == precedes(strategy, a@, b@),
{
    match strategy {
        SortStrategy::Number => a.id < b.id,
        SortStrategy::Name => {
            let left = chars_of(a.name.as_str());
            let right = chars_of(b.name.as_str());
            if comes_before(&left, &right) {
                true
            } else if comes_before(&right, &left) {
                proof {
                    lemma_name_order_total(a.name@, b.name@);
                }
                false
            } else {
                proof {
                    lemma_name_order_total(a.name@, b.name@);
                }
                a.id < b.id
            }
        },
        SortStrategy::FocusedFirst => (a.focused && !b.focused) || (a.focused == b.focused && a.id
            < b.id),
    }
}

/// Orders desktops with distinct identifiers by a strategy.
pub fn sort_desktops(desktops: &Vec<VirtualDesktop>, strategy: SortStrategy) -> (sorted: Vec<
    VirtualDesktop,
>)
    requires
        distinct_ids(records_of(desktops@)),
    ensures
        is_sorted_form(strategy, records_of(sorted@), records_of(desktops@)),
{
    let ghost all = records_of(desktops@);
    let mut sorted: Vec<VirtualDesktop> = Vec::new();
    let mut k: usize = 0;
    proof {
        assert(all.take(0) =~= Seq::<DesktopRecord>::empty());
    }
    while k < desktops.len()
        invariant
            k <= desktops.len(),
            all == records_of(desktops@),
            distinct_ids(all),
            is_sorted_form(strategy, records_of(sorted@), all.take(k as int)),
        decreases desktops.len() - k,
    {
        let ghost before = records_of(sorted@);
        let ghost seen = all.take(k as int);
        let desktop = desktops[k].clone();
        let ghost added = desktop@;
        assert(added == all[k as int]);
        proof {
            assert forall|r: DesktopRecord| before.contains(r) implies r.id != added.id by {
                assert(seen.contains(r));
                let i = choose|i: int| 0 <= i < seen.len() && seen[i] == r;
                assert(all[i].id != all[k as int].id);
            }
        }
        let mut p: usize = 0;
        while p < sorted.len() && !shown_before(strategy, &desktop, &sorted[p])
            invariant
                p <= sorted.len(),
                before == records_of(sorted@),
                added == desktop@,
                forall|r: DesktopRecord| before.contains(r) ==> r.id != added.id,
                forall|i: int| 0 <= i < p ==> precedes(strategy, #[trigger] before[i], added),
            decreases sorted.len() - p,
        {
            proof {
                let at = p as int;
                assert(before[at] == sorted@[at]@);
                assert(before.contains(before[at]));
                lemma_precedes_total(strategy, added, before[at]);
            }
            p += 1;
        }
        proof {
            if p < sorted.len() {
                assert(before[p as int] == sorted@[p as int]@);
            }
        }
        sorted.insert(p, desktop);
        proof {
            let after = records_of(sorted@);
            let seen_next = all.take(k + 1);
            assert(after =~= before.insert(p as int, added));
            assert(seen_next =~= seen.push(added));
            assert forall|i: int, j: int| 0 <= i < j < after.len() implies precedes(
                strategy,
                after[i],
                after[j],
            ) by {
                let bi = if i < p {
                    i
                } else {
                    i - 1
                };
                let bj = if j < p {
                    j
                } else {
                    j - 1
                };
                if i != p && j != p {
                    assert(precedes(strategy, before[bi], before[bj]));
                } else if i == p {
                    assert(precedes(strategy, added, before[p as int]));
                    if bj > p {
                        assert(precedes(strategy, before[p as int], before[bj]));
                        lemma_precedes_transitive(strategy, added, before[p as int], before[bj]);
                    }
                } else {
                    assert(precedes(strategy, before[bi], added));
                }
            }
            assert forall|i: int, j: int| 0 <= i < j < after.len() implies after[i].id
                != after[j].id by {
                let bi = if i < p {
                    i
                } else {
                    i - 1
                };
                let bj = if j < p {
                    j
                } else {
                    j - 1
                };
                if i != p && j != p {
                    assert(before[bi].id != before[bj].id);
                } else if i == p {
                    assert(before.contains(before[bj]));
                } else {
                    assert(before.contains(before[bi]));
                }
            }
            assert forall|r: DesktopRecord| after.contains(r) <==> seen_next.contains(r) by {
                if after.contains(r) {
                    let i = choose|i: int| 0 <= i < after.len() && after[i] == r;
                    if i < p {
                        assert(before[i] == r);
                        assert(before.contains(r));
                    } else if i > p {
                        assert(before[i - 1] == r);
                        assert(before.contains(r));
                    }
                    if r == added {
                        assert(seen_next[k as int] == r);
                    } else {
                        assert(seen.contains(r));
                        let m = choose|m: int| 0 <= m < seen.len() && seen[m] == r;
                        assert(seen_next[m] == r);
                    }
                }
                if seen_next.contains(r) {
                    let m = choose|m: int| 0 <= m < seen_next.len() && seen_next[m] == r;
                    if m < k {
                        assert(seen[m] == r);
                        assert(seen.contains(r));
                        assert(before.contains(r));
                        let i = choose|i: int| 0 <= i < before.len() && before[i] == r;
                        if i < p {
                            assert(after[i] == r);
                        } else {
                            assert(after[i + 1] == r);
                        }
                    } else {
                        assert(after[p as int] == r);
                    }
                }
            }
        }
        k += 1;
    }
    proof {
        assert(all.take(k as int) =~= all);
    }
    sorted
}

} // verus!
