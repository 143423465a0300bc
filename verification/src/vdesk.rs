//! The desktop record and the state store that holds the compositor's last
//! reported state.

use crate::errors::VirtualDesktopError;
use crate::json::{
    as_bool, as_text, as_u32, as_u32_list, field_of, json_document, lemma_array_view, read_json,
    Json, JsonView,
};
use crate::text::{
    chars_of, ends_with, find_char, first_index_of, has_prefix, has_suffix, is_first_index_of,
    lines_of, parse_u32, same_chars, slice_of, split_lines, starts_with, string_of, trim, trimmed, u32_of,
    views_of,
};
use std::collections::HashMap;
use vstd::prelude::*;
use vstd::std_specs::iter::IteratorSpec;

verus! {

broadcast use vstd::std_specs::hash::group_hash_axioms;

/// One virtual desktop as the compositor reports it.
#[derive(Debug)]
pub struct VirtualDesktop {
    pub id: u32,
    pub name: String,
    pub focused: bool,
    pub populated: bool,
    pub window_count: u32,
    pub workspaces: Vec<u32>,
}

/// The mathematical value of a desktop record.
pub struct DesktopRecord {
    pub id: u32,
    pub name: Seq<char>,
    pub focused: bool,
    pub populated: bool,
    pub window_count: u32,
    pub workspaces: Seq<u32>,
}

impl DesktopRecord {
    /// A desktop that is neither focused nor populated.
    pub open spec fn fresh(id: u32, name: Seq<char>) -> DesktopRecord {
        DesktopRecord {
            id,
            name,
            focused: false,
            populated: false,
            window_count: 0,
            workspaces: Seq::empty(),
        }
    }

    /// The same desktop under another name.
    pub open spec fn renamed(self, name: Seq<char>) -> DesktopRecord {
        DesktopRecord { name, ..self }
    }
}

impl View for VirtualDesktop {
    type V = DesktopRecord;

    open spec fn view(&self) -> DesktopRecord {
        DesktopRecord {
            id: self.id,
            name: self.name@,
            focused: self.focused,
            populated: self.populated,
            window_count: self.window_count,
            workspaces: self.workspaces@,
        }
    }
}

impl Clone for VirtualDesktop {
    fn clone(&self) -> (copy: Self)
        ensures
            copy@ == self@,
    {
        let mut workspaces: Vec<u32> = Vec::new();
        let mut i: usize = 0;
        while i < self.workspaces.len()
            invariant
                i <= self.workspaces.len(),
                workspaces@ == self.workspaces@.take(i as int),
            decreases self.workspaces.len() - i,
        {
            workspaces.push(self.workspaces[i]);
            i += 1;
        }
        assert(self.workspaces@.take(i as int) =~= self.workspaces@);
        VirtualDesktop {
            id: self.id,
            name: self.name.clone(),
            focused: self.focused,
            populated: self.populated,
            window_count: self.window_count,
            workspaces,
        }
    }
}

impl VirtualDesktop {
    /// A desktop that is neither focused nor populated.
    pub fn new(id: u32, name: String) -> (desktop: Self)
        ensures
            desktop@ == DesktopRecord::fresh(id, name@),
    {
        Self { id, name, focused: false, populated: false, window_count: 0, workspaces: Vec::new() }
    }
}

/// The values of a list of desktops.
pub open spec fn records_of(desktops: Seq<VirtualDesktop>) -> Seq<DesktopRecord> {
    Seq::new(desktops.len(), |i: int| desktops[i]@)
}

/// Identifiers strictly ascend, so none occurs twice.
pub open spec fn ascending_ids(records: Seq<DesktopRecord>) -> bool {
    forall|i: int, j: int| 0 <= i < j < records.len() ==> records[i].id < records[j].id
}

/// No identifier occurs twice.
pub open spec fn distinct_ids(records: Seq<DesktopRecord>) -> bool {
    forall|i: int, j: int| 0 <= i < j < records.len() ==> records[i].id != records[j].id
}

/// At most one record is focused.
pub open spec fn at_most_one_focused(records: Seq<DesktopRecord>) -> bool {
    forall|i: int, j: int|
        0 <= i < records.len() && 0 <= j < records.len() && records[i].focused
            && records[j].focused ==> i == j
}

/// What holds of every snapshot: identifiers ascend and at most one desktop
/// is focused.
pub open spec fn well_formed(records: Seq<DesktopRecord>) -> bool {
    ascending_ids(records) && at_most_one_focused(records)
}

/// `record` is the last one in `records` with its identifier.
pub open spec fn is_last_with_id(records: Seq<DesktopRecord>, record: DesktopRecord) -> bool {
    exists|i: int|
        0 <= i < records.len() && #[trigger] records[i] == record && forall|j: int|
            i < j < records.len() ==> (#[trigger] records[j]).id != record.id
}

/// Some record in `records` has the identifier `id`.
pub open spec fn has_id(records: Seq<DesktopRecord>, id: u32) -> bool {
    exists|i: int| 0 <= i < records.len() && (#[trigger] records[i]).id == id
}

/// Puts `desktop` into a list ordered by identifier. A desktop with the same
/// identifier is replaced. Returns whether one was.
pub fn put_desktop(list: &mut Vec<VirtualDesktop>, desktop: VirtualDesktop) -> (replaced: bool)
    requires
        ascending_ids(records_of(old(list)@)),
    ensures
        ascending_ids(records_of(final(list)@)),
        replaced == has_id(records_of(old(list)@), desktop.id),
        final(list)@.len() == old(list)@.len() + if replaced {
            0int
        } else {
            1int
        },
        forall|r: DesktopRecord|
            records_of(final(list)@).contains(r) <==> (r == desktop@ || (records_of(
                old(list)@,
            ).contains(r) && r.id != desktop.id)),
{
    let ghost before = records_of(list@);
    let mut k: usize = 0;
    while k < list.len() && list[k].id < desktop.id
        invariant
            k <= list.len(),
            list@ == old(list)@,
            forall|j: int| 0 <= j < k ==> (#[trigger] list@[j]).id < desktop.id,
        decreases list.len() - k,
    {
        k += 1;
    }
    if k < list.len() && list[k].id == desktop.id {
        let ghost value = desktop@;
        list.set(k, desktop);
        proof {
            let after = records_of(list@);
            assert(after =~= before.update(k as int, value));
            assert(before[k as int].id == value.id);
            assert forall|i: int, j: int| 0 <= i < j < after.len() implies after[i].id
                < after[j].id by {
                assert(before[i].id < before[j].id);
            }
            assert forall|r: DesktopRecord| after.contains(r) <==> (r == value || (before.contains(
                r,
            ) && r.id != value.id)) by {
                if after.contains(r) {
                    let i = choose|i: int| 0 <= i < after.len() && after[i] == r;
                    if i != k {
                        assert(before[i] == r);
                        if i < k {
                            assert(before[i].id < before[k as int].id);
                        } else {
                            assert(before[k as int].id < before[i].id);
                        }
                    }
                }
                if r == value {
                    assert(after[k as int] == r);
                }
                if before.contains(r) && r.id != value.id {
                    let i = choose|i: int| 0 <= i < before.len() && before[i] == r;
                    assert(after[i] == r);
                }
            }
        }
        true
    } else {
        let ghost value = desktop@;
        list.insert(k, desktop);
        proof {
            let after = records_of(list@);
            assert(after =~= before.insert(k as int, value));
            assert forall|j: int| k <= j < before.len() implies value.id < (
            #[trigger] before[j]).id by {
                if j > k {
                    assert(before[k as int].id < before[j].id);
                }
                assert(old(list)@[k as int].id == before[k as int].id);
            }
            assert forall|j: int| 0 <= j < k implies (#[trigger] before[j]).id < value.id by {
                assert(old(list)@[j].id == before[j].id);
            }
            assert forall|i: int, j: int| 0 <= i < j < after.len() implies after[i].id
                < after[j].id by {
                let bi = if i < k {
                    i
                } else {
                    i - 1
                };
                let bj = if j < k {
                    j
                } else {
                    j - 1
                };
                if i != k && j != k {
                    assert(before[bi].id < before[bj].id);
                } else if i == k {
                    assert(value.id < before[bj].id);
                } else {
                    assert(before[bi].id < value.id);
                }
            }
            assert(!has_id(before, value.id)) by {
                if has_id(before, value.id) {
                    let i = choose|i: int| 0 <= i < before.len() && (#[trigger] before[i]).id
                        == value.id;
                    if i < k {
                        assert(before[i].id < value.id);
                    } else {
                        assert(value.id < before[i].id);
                    }
                }
            }
            assert forall|r: DesktopRecord| after.contains(r) <==> (r == value || (before.contains(
                r,
            ) && r.id != value.id)) by {
                if after.contains(r) {
                    let i = choose|i: int| 0 <= i < after.len() && after[i] == r;
                    if i < k {
                        assert(before[i] == r);
                    } else if i > k {
                        assert(before[i - 1] == r);
                    }
                }
                if r == value {
                    assert(after[k as int] == r);
                }
                if before.contains(r) && r.id != value.id {
                    let i = choose|i: int| 0 <= i < before.len() && before[i] == r;
                    if i < k {
                        assert(after[i] == r);
                    } else {
                        assert(after[i + 1] == r);
                    }
                }
            }
        }
        false
    }
}

/// Tests whether at most one desktop of the list is focused.
pub fn single_focus(list: &Vec<VirtualDesktop>) -> (ok: bool)
    ensures
        ok == at_most_one_focused(records_of(list@)),
{
    let ghost records = records_of(list@);
    let mut seen: bool = false;
    let ghost mut first: int = 0;
    let mut i: usize = 0;
    while i < list.len()
        invariant
            i <= list.len(),
            records == records_of(list@),
            seen ==> 0 <= first < i && records[first].focused,
            !seen ==> forall|j: int| 0 <= j < i ==> !(#[trigger] records[j]).focused,
            seen ==> forall|j: int| 0 <= j < i && (#[trigger] records[j]).focused ==> j == first,
        decreases list.len() - i,
    {
        if list[i].focused {
            if seen {
                assert(records[i as int].focused);
                return false;
            }
            seen = true;
            proof {
                first = i as int;
            }
        }
        i += 1;
    }
    true
}

/// How far a state report has been read: the desktops whose blocks are
/// complete, and the desktop whose block is being read.
pub struct ReportState {
    pub done: Seq<DesktopRecord>,
    pub current: Option<DesktopRecord>,
}

impl ReportState {
    /// All desktops read so far, in the order of the report.
    pub open spec fn desktops(self) -> Seq<DesktopRecord> {
        match self.current {
            Some(desktop) => self.done.push(desktop),
            None => self.done,
        }
    }
}

/// The desktop that a header line `Virtual desk <id>: <name>` opens, if the
/// line has a colon and a number before it.
pub open spec fn header_desktop(line: Seq<char>) -> Option<DesktopRecord> {
    match first_index_of(line, ':') {
        None => None,
        Some(colon) => match u32_of(line.subrange("Virtual desk "@.len() as int, colon)) {
            Some(id) => Some(DesktopRecord::fresh(id, trimmed(line.skip(colon + 1)))),
            None => None,
        },
    }
}

/// The number of windows that a line `Windows: <count>` tells, if the
/// line is one and has a number.
pub open spec fn window_count_in(line: Seq<char>) -> Option<u32> {
    if has_prefix(line, "Windows: "@) {
        u32_of(line.skip("Windows: "@.len() as int))
    } else {
        None
    }
}

/// Whether a line belongs to the block of a desktop: it tells the focus,
/// whether the desktop is populated, or the number of windows.
pub open spec fn is_detail_line(line: Seq<char>) -> bool {
    has_prefix(line, "Focused: "@) || has_prefix(line, "Populated: "@) || has_prefix(
        line,
        "Windows: "@,
    )
}

/// Whether a line, already trimmed, cannot be read though it sets out to
/// tell something: a `Virtual desk` header without a colon or without a
/// number before it, or a `Windows:` line without a number.
pub open spec fn is_unreadable_line(line: Seq<char>) -> bool {
    if has_prefix(line, "Virtual desk "@) {
        header_desktop(line).is_none()
    } else {
        has_prefix(line, "Windows: "@) && window_count_in(line).is_none()
    }
}

/// A desktop after one line of its block has been read. A line that tells
/// nothing leaves the desktop as it is.
pub open spec fn with_detail(desktop: DesktopRecord, line: Seq<char>) -> DesktopRecord {
    if has_prefix(line, "Focused: "@) {
        DesktopRecord { focused: has_suffix(line, "true"@), ..desktop }
    } else if has_prefix(line, "Populated: "@) {
        DesktopRecord { populated: has_suffix(line, "true"@), ..desktop }
    } else {
        match window_count_in(line) {
            Some(count) => DesktopRecord { window_count: count, ..desktop },
            None => desktop,
        }
    }
}

/// The state after one more line, already trimmed, has been read.
pub open spec fn read_line(state: ReportState, line: Seq<char>) -> ReportState {
    if has_prefix(line, "Virtual desk "@) {
        ReportState { done: state.desktops(), current: header_desktop(line) }
    } else {
        match state.current {
            Some(desktop) => ReportState {
                done: state.done,
                current: Some(with_detail(desktop, line)),
            },
            None => state,
        }
    }
}

/// The state after all of `lines` have been read, each trimmed first.
pub open spec fn read_lines(lines: Seq<Seq<char>>) -> ReportState
    decreases lines.len(),
{
    if lines.len() == 0 {
        ReportState { done: Seq::empty(), current: None }
    } else {
        read_line(read_lines(lines.drop_last()), trimmed(lines.last()))
    }
}

/// The desktops that a plain-text state report lists, in its order.
pub open spec fn reported_desktops(report: Seq<char>) -> Seq<DesktopRecord> {
    read_lines(lines_of(report)).desktops()
}

/// Whether every one of `lines` can be read in its place: none is an
/// unreadable header or window count, and every line of a block follows a
/// header. Blank lines and lines that set out to tell nothing, such as a
/// title, are passed over.
pub open spec fn readable_lines(lines: Seq<Seq<char>>) -> bool
    decreases lines.len(),
{
    if lines.len() == 0 {
        true
    } else {
        let line = trimmed(lines.last());
        &&& readable_lines(lines.drop_last())
        &&& !is_unreadable_line(line)
        &&& is_detail_line(line) ==> read_lines(lines.drop_last()).current.is_some()
    }
}

/// Whether a line, already trimmed, is the title of a report.
pub open spec fn is_title_line(line: Seq<char>) -> bool {
    line == "Virtual desks"@
}

/// Whether a line, already trimmed, tells nothing that a report can tell:
/// it is not blank, and neither the title, a header nor a line of a block.
pub open spec fn is_stray_line(line: Seq<char>) -> bool {
    line.len() > 0 && !is_title_line(line) && !has_prefix(line, "Virtual desk "@)
        && !is_detail_line(line)
}

/// Whether one of `lines` is the title of a report.
pub open spec fn has_title(lines: Seq<Seq<char>>) -> bool
    decreases lines.len(),
{
    lines.len() > 0 && (has_title(lines.drop_last()) || is_title_line(trimmed(lines.last())))
}

/// Whether one of `lines` tells nothing that a report can tell.
pub open spec fn has_stray_line(lines: Seq<Seq<char>>) -> bool
    decreases lines.len(),
{
    lines.len() > 0 && (has_stray_line(lines.drop_last()) || is_stray_line(trimmed(lines.last())))
}

/// Whether a plain-text state report is well formed: every line can be
/// read in its place, and the report lists a desktop or is the report of
/// no desktop, which is the title alone. So a text that tells nothing at
/// all is no report, as a text that is no JSON document is no payload,
/// while the title alone stands for an empty list as `[]` does.
pub open spec fn readable_report(report: Seq<char>) -> bool {
    &&& readable_lines(lines_of(report))
    &&& reported_desktops(report).len() > 0 || (has_title(lines_of(report)) && !has_stray_line(
        lines_of(report),
    ))
}

/// The parser's state in executable form.
struct ReportProgress {
    done: Vec<VirtualDesktop>,
    current: Option<VirtualDesktop>,
}

impl View for ReportProgress {
    type V = ReportState;

    closed spec fn view(&self) -> ReportState {
        ReportState {
            done: records_of(self.done@),
            current: match self.current {
                Some(desktop) => Some(desktop@),
                None => None,
            },
        }
    }
}

fn parse_header(line: &Vec<char>) -> (found: Option<VirtualDesktop>)
    requires
        has_prefix(line@, "Virtual desk "@),
    ensures
        match found {
            Some(desktop) => header_desktop(line@) == Some(desktop@),
            None => header_desktop(line@).is_none(),
        },
{
    let prefix = chars_of("Virtual desk ");
    match find_char(line, ':') {
        None => None,
        Some(colon) => {
            assert(is_first_index_of(line@, ':', colon as int));
            assert(colon < line.len());
            proof {
                reveal_strlit("Virtual desk ");
                if colon < prefix@.len() {
                    assert(line@.subrange(0, prefix@.len() as int)[colon as int] == line@[colon as int]);
                    assert(prefix@[colon as int] != ':');
                }
            }
            let digits = slice_of(line, prefix.len(), colon);
            match parse_u32(&digits) {
                None => None,
                Some(id) => {
                    let rest = slice_of(line, colon + 1, line.len());
                    let name = trim(&rest);
                    Some(VirtualDesktop::new(id, string_of(&name)))
                },
            }
        },
    }
}

fn apply_detail(desktop: VirtualDesktop, line: &Vec<char>) -> (changed: VirtualDesktop)
    ensures
        changed@ == with_detail(desktop@, line@),
{
    let mut changed = desktop;
    if starts_with(line, "Focused: ") {
        changed.focused = ends_with(line, "true");
    } else if starts_with(line, "Populated: ") {
        changed.populated = ends_with(line, "true");
    } else {
        match parse_window_count(line) {
            Some(count) => {
                changed.window_count = count;
            },
            None => {},
        }
    }
    changed
}

fn parse_window_count(line: &Vec<char>) -> (count: Option<u32>)
    ensures
        count == window_count_in(line@),
{
    if starts_with(line, "Windows: ") {
        let prefix = chars_of("Windows: ");
        let digits = slice_of(line, prefix.len(), line.len());
        parse_u32(&digits)
    } else {
        None
    }
}

fn title_line(line: &Vec<char>) -> (title: bool)
    ensures
        title == is_title_line(line@),
{
    same_chars(line, &chars_of("Virtual desks"))
}

fn detail_line(line: &Vec<char>) -> (detail: bool)
    ensures
        detail == is_detail_line(line@),
{
    starts_with(line, "Focused: ") || starts_with(line, "Populated: ") || starts_with(
        line,
        "Windows: ",
    )
}

fn unreadable_line(line: &Vec<char>) -> (unreadable: bool)
    ensures
        unreadable == is_unreadable_line(line@),
{
    if starts_with(line, "Virtual desk ") {
        parse_header(line).is_none()
    } else {
        starts_with(line, "Windows: ") && parse_window_count(line).is_none()
    }
}

fn read_report_line(progress: ReportProgress, line: &Vec<char>) -> (next: ReportProgress)
    ensures
        next@ == read_line(progress@, line@),
{
    let ReportProgress { done, current } = progress;
    if starts_with(line, "Virtual desk ") {
        let mut done = done;
        let ghost earlier = done@;
        match current {
            Some(desktop) => {
                done.push(desktop);
                assert(records_of(done@) =~= records_of(earlier).push(desktop@));
            },
            None => {},
        }
        ReportProgress { done, current: parse_header(line) }
    } else {
        match current {
            Some(desktop) => ReportProgress { done, current: Some(apply_detail(desktop, line)) },
            None => ReportProgress { done, current: None },
        }
    }
}

/// Reads the desktops of a plain-text state report, in its order. A report
/// that is not well formed gives nothing.
pub fn parse_report(report: &str) -> (found: Option<Vec<VirtualDesktop>>)
    ensures
        match found {
            Some(desktops) => readable_report(report@) && records_of(desktops@)
                == reported_desktops(report@),
            None => !readable_report(report@),
        },
{
    let text = chars_of(report);
    let lines = split_lines(&text);
    let mut progress = ReportProgress { done: Vec::new(), current: None };
    let mut readable: bool = true;
    let mut title: bool = false;
    let mut stray: bool = false;
    let mut i: usize = 0;
    proof {
        assert(views_of(lines@).take(0) =~= Seq::<Seq<char>>::empty());
        assert(progress@.done =~= Seq::<DesktopRecord>::empty());
    }
    while i < lines.len()
        invariant
            i <= lines.len(),
            progress@ == read_lines(views_of(lines@).take(i as int)),
            readable == readable_lines(views_of(lines@).take(i as int)),
            title == has_title(views_of(lines@).take(i as int)),
            stray == has_stray_line(views_of(lines@).take(i as int)),
        decreases lines.len() - i,
    {
        proof {
            assert(views_of(lines@).take(i + 1).drop_last() =~= views_of(lines@).take(i as int));
            assert(views_of(lines@).take(i + 1).last() == lines@[i as int]@);
        }
        let line = trim(&lines[i]);
        if unreadable_line(&line) || (detail_line(&line) && progress.current.is_none()) {
            readable = false;
        }
        if title_line(&line) {
            title = true;
        } else if line.len() > 0 && !starts_with(&line, "Virtual desk ") && !detail_line(&line) {
            stray = true;
        }
        progress = read_report_line(progress, &line);
        i += 1;
    }
    proof {
        assert(views_of(lines@).take(i as int) =~= views_of(lines@));
    }
    let ReportProgress { done, current } = progress;
    let mut desktops = done;
    let ghost earlier = desktops@;
    match current {
        Some(desktop) => {
            desktops.push(desktop);
            assert(records_of(desktops@) =~= records_of(earlier).push(desktop@));
        },
        None => {},
    }
    if readable && (desktops.len() > 0 || (title && !stray)) {
        Some(desktops)
    } else {
        None
    }
}

/// If some record has the identifier, some record is the last with it.
pub proof fn lemma_last_with_id_exists(records: Seq<DesktopRecord>, id: u32)
    requires
        has_id(records, id),
    ensures
        exists|r: DesktopRecord| #[trigger] is_last_with_id(records, r) && r.id == id,
    decreases records.len(),
{
    let n = records.len() - 1;
    if records[n].id == id {
        assert(is_last_with_id(records, records[n]));
    } else {
        let i = choose|i: int| 0 <= i < records.len() && (#[trigger] records[i]).id == id;
        let shorter = records.drop_last();
        assert(shorter[i].id == id);
        lemma_last_with_id_exists(shorter, id);
        let r = choose|r: DesktopRecord| #[trigger] is_last_with_id(shorter, r) && r.id == id;
        let k = choose|k: int|
            0 <= k < shorter.len() && #[trigger] shorter[k] == r && forall|j: int|
                k < j < shorter.len() ==> (#[trigger] shorter[j]).id != r.id;
        assert(records[k] == r);
        assert forall|j: int| k < j < records.len() implies (#[trigger] records[j]).id != r.id by {
            if j < n {
                assert(shorter[j].id != r.id);
            }
        }
        assert(is_last_with_id(records, r));
    }
}

/// How "last with its identifier" changes when one record is appended.
pub proof fn lemma_last_with_id_push(
    records: Seq<DesktopRecord>,
    added: DesktopRecord,
    r: DesktopRecord,
)
    ensures
        is_last_with_id(records.push(added), r) <==> (r == added || (is_last_with_id(records, r)
            && r.id != added.id)),
{
    let longer = records.push(added);
    let n = records.len() as int;
    if is_last_with_id(longer, r) {
        let i = choose|i: int|
            0 <= i < longer.len() && #[trigger] longer[i] == r && forall|j: int|
                i < j < longer.len() ==> (#[trigger] longer[j]).id != r.id;
        if i < n {
            assert(longer[n].id != r.id);
            assert(records[i] == r);
            assert forall|j: int| i < j < records.len() implies (#[trigger] records[j]).id
                != r.id by {
                assert(longer[j].id != r.id);
            }
            assert(is_last_with_id(records, r));
        }
    }
    if r == added {
        assert(longer[n] == r);
        assert(is_last_with_id(longer, r));
    }
    if is_last_with_id(records, r) && r.id != added.id {
        let i = choose|i: int|
            0 <= i < records.len() && #[trigger] records[i] == r && forall|j: int|
                i < j < records.len() ==> (#[trigger] records[j]).id != r.id;
        assert(longer[i] == r);
        assert forall|j: int| i < j < longer.len() implies (#[trigger] longer[j]).id != r.id by {
            if j < n {
                assert(records[j].id != r.id);
            }
        }
        assert(is_last_with_id(longer, r));
    }
}

/// Orders desktops by identifier. Of several desktops with one identifier
/// the last stays. Returns with the list whether no identifier occurred
/// twice.
pub fn order_desktops(desktops: &Vec<VirtualDesktop>) -> (ordered: (Vec<VirtualDesktop>, bool))
    ensures
        ascending_ids(records_of(ordered.0@)),
        forall|r: DesktopRecord|
            records_of(ordered.0@).contains(r) <==> is_last_with_id(records_of(desktops@), r),
        ordered.1 == distinct_ids(records_of(desktops@)),
        ordered.1 ==> ordered.0@.len() == desktops@.len(),
{
    let ghost all = records_of(desktops@);
    let mut list: Vec<VirtualDesktop> = Vec::new();
    let mut unique: bool = true;
    let mut k: usize = 0;
    proof {
        assert(all.take(0) =~= Seq::<DesktopRecord>::empty());
        assert forall|r: DesktopRecord| !records_of(list@).contains(r) by {}
    }
    while k < desktops.len()
        invariant
            k <= desktops.len(),
            all == records_of(desktops@),
            ascending_ids(records_of(list@)),
            forall|r: DesktopRecord|
                records_of(list@).contains(r) <==> is_last_with_id(all.take(k as int), r),
            unique == distinct_ids(all.take(k as int)),
            unique ==> list@.len() == k,
        decreases desktops.len() - k,
    {
        let ghost before = records_of(list@);
        let ghost seen = all.take(k as int);
        let desktop = desktops[k].clone();
        let ghost added = desktop@;
        assert(added == all[k as int]);
        let replaced = put_desktop(&mut list, desktop);
        proof {
            let seen_next = all.take(k + 1);
            assert(seen_next =~= seen.push(added));
            assert forall|r: DesktopRecord|
                records_of(list@).contains(r) <==> is_last_with_id(seen_next, r) by {
                lemma_last_with_id_push(seen, added, r);
            }
            if replaced {
                let i = choose|i: int| 0 <= i < before.len() && (#[trigger] before[i]).id
                    == added.id;
                assert(before.contains(before[i]));
                assert(is_last_with_id(seen, before[i]));
                let j = choose|j: int| 0 <= j < seen.len() && #[trigger] seen[j] == before[i];
                assert(seen_next[j].id == seen_next[k as int].id);
                assert(!distinct_ids(seen_next));
            } else if unique {
                assert forall|i: int, j: int| 0 <= i < j < seen_next.len() implies seen_next[i].id
                    != seen_next[j].id by {
                    if j < k {
                        assert(seen[i].id != seen[j].id);
                    } else {
                        if seen[i].id == added.id {
                            assert(has_id(seen, added.id));
                            lemma_last_with_id_exists(seen, added.id);
                            let r = choose|r: DesktopRecord| #[trigger]
                                is_last_with_id(seen, r) && r.id == added.id;
                            assert(before.contains(r));
                            let m = choose|m: int| 0 <= m < before.len() && before[m] == r;
                            assert(before[m].id == added.id);
                            assert(has_id(before, added.id));
                        }
                    }
                }
            } else {
                let (i, j) = choose|i: int, j: int|
                    0 <= i < j < seen.len() && seen[i].id == seen[j].id;
                assert(seen_next[i].id == seen_next[j].id);
            }
        }
        unique = unique && !replaced;
        k += 1;
    }
    proof {
        assert(all.take(k as int) =~= all);
    }
    (list, unique)
}

/// The number in the field `key`, if the field holds one of 32 bits.
pub open spec fn u32_field(fields: Seq<(Seq<char>, JsonView)>, key: Seq<char>) -> Option<u32> {
    match field_of(fields, key) {
        Some(value) => as_u32(value),
        None => None,
    }
}

/// The truth value in the field `key`, if the field holds one.
pub open spec fn bool_field(fields: Seq<(Seq<char>, JsonView)>, key: Seq<char>) -> Option<bool> {
    match field_of(fields, key) {
        Some(value) => as_bool(value),
        None => None,
    }
}

/// The string in the field `key`, if the field holds one.
pub open spec fn text_field(fields: Seq<(Seq<char>, JsonView)>, key: Seq<char>) -> Option<
    Seq<char>,
> {
    match field_of(fields, key) {
        Some(value) => as_text(value),
        None => None,
    }
}

/// The numbers in the field `key`, if the field holds an array of numbers
/// of 32 bits.
pub open spec fn list_field(fields: Seq<(Seq<char>, JsonView)>, key: Seq<char>) -> Option<
    Seq<u32>,
> {
    match field_of(fields, key) {
        Some(value) => as_u32_list(value),
        None => None,
    }
}

/// The desktop that one item of a state payload describes: an object with
/// the fields `id`, `name`, `focused`, `populated`, `windows` and
/// `workspaces`, each of its type. Other fields are passed over.
pub open spec fn record_of(item: JsonView) -> Option<DesktopRecord> {
    match item {
        JsonView::Object(fields) => {
            let id = u32_field(fields, "id"@);
            let name = text_field(fields, "name"@);
            let focused = bool_field(fields, "focused"@);
            let populated = bool_field(fields, "populated"@);
            let windows = u32_field(fields, "windows"@);
            let workspaces = list_field(fields, "workspaces"@);
            if id.is_some() && name.is_some() && focused.is_some() && populated.is_some()
                && windows.is_some() && workspaces.is_some() {
                Some(
                    DesktopRecord {
                        id: id.unwrap(),
                        name: name.unwrap(),
                        focused: focused.unwrap(),
                        populated: populated.unwrap(),
                        window_count: windows.unwrap(),
                        workspaces: workspaces.unwrap(),
                    },
                )
            } else {
                None
            }
        },
        _ => None,
    }
}

/// The desktops that a state payload lists, in its order: the payload is an
/// array whose items each describe a desktop.
pub open spec fn payload_records(document: JsonView) -> Option<Seq<DesktopRecord>> {
    match document {
        JsonView::Array(items) => if forall|i: int|
            0 <= i < items.len() ==> record_of(#[trigger] items[i]).is_some() {
            Some(Seq::new(items.len(), |i: int| record_of(items[i]).unwrap()))
        } else {
            None
        },
        _ => None,
    }
}

/// Reads the desktop that one item of a state payload describes.
pub fn desktop_of(item: &Json) -> (found: Option<VirtualDesktop>)
    ensures
        match found {
            Some(desktop) => record_of(item@) == Some(desktop@),
            None => record_of(item@).is_none(),
        },
{
    let id = match item.field("id") {
        Some(value) => value.to_u32(),
        None => None,
    };
    let name = match item.field("name") {
        Some(value) => value.to_text(),
        None => None,
    };
    let focused = match item.field("focused") {
        Some(value) => value.to_bool(),
        None => None,
    };
    let populated = match item.field("populated") {
        Some(value) => value.to_bool(),
        None => None,
    };
    let windows = match item.field("windows") {
        Some(value) => value.to_u32(),
        None => None,
    };
    let workspaces = match item.field("workspaces") {
        Some(value) => value.to_u32_list(),
        None => None,
    };
    match (id, name, focused, populated, windows, workspaces) {
        (
            Some(id),
            Some(name),
            Some(focused),
            Some(populated),
            Some(window_count),
            Some(workspaces),
        ) => Some(VirtualDesktop { id, name, focused, populated, window_count, workspaces }),
        _ => None,
    }
}

/// Reads the desktops that a state payload lists.
pub fn desktops_of_payload(document: &Json) -> (found: Option<Vec<VirtualDesktop>>)
    ensures
        match found {
            Some(list) => payload_records(document@) == Some(records_of(list@)),
            None => payload_records(document@).is_none(),
        },
{
    match document {
        Json::Array(items) => {
            let ghost all = document@->Array_0;
            let mut list: Vec<VirtualDesktop> = Vec::new();
            let mut i: usize = 0;
            proof {
                lemma_array_view(*items);
            }
            while i < items.len()
                invariant
                    i <= items.len(),
                    document@ == JsonView::Array(all),
                    all.len() == items@.len(),
                    forall|j: int| 0 <= j < items@.len() ==> #[trigger] all[j] == items@[j]@,
                    list@.len() == i,
                    forall|j: int| 0 <= j < i ==> record_of(#[trigger] all[j]) == Some(list@[j]@),
                decreases items.len() - i,
            {
                assert(all[i as int] == items@[i as int]@);
                match desktop_of(&items[i]) {
                    Some(desktop) => {
                        list.push(desktop);
                    },
                    None => {
                        return None;
                    },
                }
                i += 1;
            }
            proof {
                assert(records_of(list@) =~= Seq::new(
                    all.len(),
                    |i: int| record_of(all[i]).unwrap(),
                ));
            }
            Some(list)
        },
        _ => None,
    }
}

/// Whether a list of desktops can become a snapshot as it stands: no
/// identifier occurs twice and at most one desktop is focused.
pub open spec fn acceptable(records: Seq<DesktopRecord>) -> bool {
    distinct_ids(records) && at_most_one_focused(records)
}

/// `snapshot` holds exactly the records of `records`, ordered by identifier.
pub open spec fn is_snapshot_of(snapshot: Seq<DesktopRecord>, records: Seq<DesktopRecord>) -> bool {
    &&& ascending_ids(snapshot)
    &&& snapshot.len() == records.len()
    &&& forall|r: DesktopRecord| snapshot.contains(r) <==> records.contains(r)
}

/// The desktops of a payload that the store accepts.
pub open spec fn accepted_payload(document: JsonView) -> Option<Seq<DesktopRecord>> {
    match payload_records(document) {
        Some(records) => if acceptable(records) {
            Some(records)
        } else {
            None
        },
        None => None,
    }
}

/// The desktops of a plain-text state report that the store accepts: the
/// report is well formed, names no identifier twice and focuses at most
/// one desktop.
pub open spec fn accepted_report(report: Seq<char>) -> Option<Seq<DesktopRecord>> {
    if readable_report(report) && acceptable(reported_desktops(report)) {
        Some(reported_desktops(report))
    } else {
        None
    }
}

/// A list in ascending order of identifiers is determined by the records
/// it holds: two such lists with the same records are the same list. So
/// every contract that says which records the store holds says all there
/// is to say of its snapshot.
pub proof fn lemma_ascending_unique(first: Seq<DesktopRecord>, second: Seq<DesktopRecord>)
    requires
        ascending_ids(first),
        ascending_ids(second),
        forall|r: DesktopRecord| first.contains(r) <==> second.contains(r),
    ensures
        first == second,
{
    if first.len() > second.len() {
        let extra = first[second.len() as int];
        assert(first.contains(extra));
        let j = choose|j: int| 0 <= j < second.len() && second[j] == extra;
        lemma_same_prefix(first, second, j);
        assert(first[j].id < first[second.len() as int].id);
    }
    if second.len() > first.len() {
        let extra = second[first.len() as int];
        assert(second.contains(extra));
        let j = choose|j: int| 0 <= j < first.len() && first[j] == extra;
        lemma_same_prefix(first, second, j);
        assert(second[j].id < second[first.len() as int].id);
    }
    assert forall|i: int| 0 <= i < first.len() implies first[i] == second[i] by {
        lemma_same_prefix(first, second, i);
    }
    assert(first =~= second);
}

/// The snapshot of a list of records is unique. So the records of an
/// accepted payload come back from the store in exactly one way: each of
/// them once, every field as it was read, ordered by identifier.
pub proof fn lemma_snapshot_unique(
    first: Seq<DesktopRecord>,
    second: Seq<DesktopRecord>,
    records: Seq<DesktopRecord>,
)
    requires
        is_snapshot_of(first, records),
        is_snapshot_of(second, records),
    ensures
        first == second,
{
    lemma_ascending_unique(first, second);
}

proof fn lemma_same_prefix(first: Seq<DesktopRecord>, second: Seq<DesktopRecord>, i: int)
    requires
        ascending_ids(first),
        ascending_ids(second),
        forall|r: DesktopRecord| first.contains(r) <==> second.contains(r),
        0 <= i < first.len(),
        i < second.len(),
    ensures
        first[i] == second[i],
    decreases i,
{
    assert forall|k: int| 0 <= k < i implies first[k] == second[k] by {
        lemma_same_prefix(first, second, k);
    }
    assert(first.contains(first[i]));
    let j = choose|j: int| 0 <= j < second.len() && second[j] == first[i];
    if j < i {
        assert(first[j] == second[j]);
        assert(first[j].id < first[i].id);
    }
    assert(second.contains(second[i]));
    let m = choose|m: int| 0 <= m < first.len() && first[m] == second[i];
    if m < i {
        assert(first[m] == second[m]);
        assert(second[m].id < second[i].id);
    }
    if j > i {
        assert(second[i].id < second[j].id);
        if m > i {
            assert(first[i].id < first[m].id);
        }
    }
}

/// Where no identifier occurs twice, every record is the last with its
/// identifier.
pub proof fn lemma_distinct_all_last(records: Seq<DesktopRecord>, r: DesktopRecord)
    requires
        distinct_ids(records),
    ensures
        is_last_with_id(records, r) <==> records.contains(r),
{
    if records.contains(r) {
        let i = choose|i: int| 0 <= i < records.len() && records[i] == r;
        assert(records[i] == r);
        assert forall|j: int| i < j < records.len() implies (#[trigger] records[j]).id != r.id by {
            assert(records[i].id != records[j].id);
        }
        assert(is_last_with_id(records, r));
    }
    if is_last_with_id(records, r) {
        let i = choose|i: int|
            0 <= i < records.len() && #[trigger] records[i] == r && forall|j: int|
                i < j < records.len() ==> (#[trigger] records[j]).id != r.id;
        assert(records[i] == r);
    }
}

/// An ordered list that holds only records of a list with at most one
/// focused record has at most one focused record itself.
pub proof fn lemma_focus_carries(records: Seq<DesktopRecord>, ordered: Seq<DesktopRecord>)
    requires
        ascending_ids(ordered),
        at_most_one_focused(records),
        forall|r: DesktopRecord| ordered.contains(r) ==> records.contains(r),
    ensures
        at_most_one_focused(ordered),
{
    assert forall|i: int, j: int|
        0 <= i < ordered.len() && 0 <= j < ordered.len() && ordered[i].focused
            && ordered[j].focused implies i == j by {
        if i != j {
            let a = ordered[i];
            let b = ordered[j];
            assert(ordered.contains(a));
            assert(ordered.contains(b));
            if i < j {
                assert(a.id < b.id);
            } else {
                assert(b.id < a.id);
            }
            let p = choose|p: int| 0 <= p < records.len() && records[p] == a;
            let q = choose|q: int| 0 <= q < records.len() && records[q] == b;
            assert(p == q);
        }
    }
}

/// The name that a desktop description `Virtual desk <id>: <name>` gives:
/// what follows the first colon, trimmed.
pub open spec fn name_in(info: Seq<char>) -> Option<Seq<char>> {
    match first_index_of(info, ':') {
        Some(colon) => Some(trimmed(info.skip(colon + 1))),
        None => None,
    }
}

/// The record with the identifier `id`, if there is one.
pub open spec fn record_with_id(records: Seq<DesktopRecord>, id: u32) -> Option<DesktopRecord> {
    if has_id(records, id) {
        Some(records[choose|i: int| 0 <= i < records.len() && (#[trigger] records[i]).id == id])
    } else {
        None
    }
}

/// The desktop `id` under the name `name`: the one of `records` renamed, or
/// a fresh one where `records` has none.
pub open spec fn named_desktop(records: Seq<DesktopRecord>, id: u32, name: Seq<char>) -> DesktopRecord {
    match record_with_id(records, id) {
        Some(existing) => existing.renamed(name),
        None => DesktopRecord::fresh(id, name),
    }
}

/// The revision after `revision`: one more, without leaving 64 bits.
pub open spec fn next_revision(revision: u64) -> u64 {
    if revision == u64::MAX {
        revision
    } else {
        (revision + 1) as u64
    }
}

/// Whether a map of desktops by identifier holds exactly `records`: every
/// desktop stands under its own identifier, and the desktops of the map
/// are the records.
pub open spec fn holds_records(
    desktops: Map<u32, VirtualDesktop>,
    records: Seq<DesktopRecord>,
) -> bool {
    &&& forall|id: u32| desktops.contains_key(id) ==> (#[trigger] desktops[id]).id == id
    &&& forall|r: DesktopRecord|
        records.contains(r) <==> exists|id: u32|
            desktops.contains_key(id) && (#[trigger] desktops[id])@ == r
}

/// The state store: the desktops of the last payload that was accepted, by
/// identifier, and the number of times the store has changed. Its value is
/// the list of its desktops in ascending order of identifiers.
pub struct VirtualDesktopsManager {
    virtual_desktops: HashMap<u32, VirtualDesktop>,
    ordered: Ghost<Seq<DesktopRecord>>,
    revision: u64,
}

impl View for VirtualDesktopsManager {
    type V = Seq<DesktopRecord>;

    closed spec fn view(&self) -> Seq<DesktopRecord> {
        self.ordered@
    }
}

/// The desktops of a map, in the order in which the map hands them out.
fn desktops_of(map: &HashMap<u32, VirtualDesktop>) -> (list: Vec<VirtualDesktop>)
    ensures
        forall|r: DesktopRecord|
            records_of(list@).contains(r) <==> exists|id: u32|
                map@.contains_key(id) && (#[trigger] map@[id])@ == r,
{
    let mut list: Vec<VirtualDesktop> = Vec::new();
    let values = map.values();
    let ghost all = values.remaining().unref();
    assert(all.to_set() == map@.values());
    for desktop in it: values
        invariant
            it.seq().unref() == all,
            list@.len() == it.index(),
            forall|j: int| 0 <= j < list@.len() ==> (#[trigger] list@[j])@ == all[j]@,
    {
        list.push(desktop.clone());
    }
    proof {
        assert forall|r: DesktopRecord|
            records_of(list@).contains(r) <==> exists|id: u32|
                map@.contains_key(id) && (#[trigger] map@[id])@ == r by {
            if records_of(list@).contains(r) {
                let j = choose|j: int| 0 <= j < list@.len() && records_of(list@)[j] == r;
                assert(all[j]@ == r);
                assert(all.to_set().contains(all[j]));
                assert(map@.values().contains(all[j]));
            }
            if exists|id: u32| map@.contains_key(id) && (#[trigger] map@[id])@ == r {
                let id = choose|id: u32| map@.contains_key(id) && (#[trigger] map@[id])@ == r;
                assert(map@.values().contains(map@[id]));
                assert(all.to_set().contains(map@[id]));
                let j = choose|j: int| 0 <= j < all.len() && all[j] == map@[id];
                assert(records_of(list@)[j] == r);
            }
        }
    }
    list
}

/// A map that holds the desktops of a list without repeated identifiers,
/// each under its identifier.
fn map_of(list: &Vec<VirtualDesktop>) -> (map: HashMap<u32, VirtualDesktop>)
    requires
        ascending_ids(records_of(list@)),
    ensures
        holds_records(map@, records_of(list@)),
{
    let ghost records = records_of(list@);
    let mut map: HashMap<u32, VirtualDesktop> = HashMap::new();
    let mut i: usize = 0;
    while i < list.len()
        invariant
            i <= list.len(),
            records == records_of(list@),
            ascending_ids(records),
            forall|id: u32| map@.contains_key(id) ==> (#[trigger] map@[id]).id == id,
            forall|id: u32|
                map@.contains_key(id) ==> exists|j: int|
                    0 <= j < i && #[trigger] records[j] == map@[id]@,
            forall|j: int|
                0 <= j < i ==> map@.contains_key((#[trigger] records[j]).id) && map@[records[j].id]@
                    == records[j],
        decreases list.len() - i,
    {
        let copy = list[i].clone();
        let ghost before = map@;
        assert(records[i as int] == list@[i as int]@);
        assert(copy@ == records[i as int]);
        map.insert(copy.id, copy);
        proof {
            assert forall|j: int| 0 <= j < i + 1 implies map@.contains_key(
                (#[trigger] records[j]).id,
            ) && map@[records[j].id]@ == records[j] by {
                if j < i {
                    assert(records[j].id < records[i as int].id);
                    assert(before.contains_key(records[j].id));
                }
            }
            assert forall|id: u32| map@.contains_key(id) implies exists|j: int|
                0 <= j < i + 1 && #[trigger] records[j] == map@[id]@ by {
                if id == copy.id {
                    assert(records[i as int] == map@[id]@);
                } else {
                    assert(before.contains_key(id));
                    let j = choose|j: int| 0 <= j < i && #[trigger] records[j] == before[id]@;
                    assert(records[j] == map@[id]@);
                }
            }
        }
        i += 1;
    }
    proof {
        assert forall|r: DesktopRecord|
            records.contains(r) <==> exists|id: u32|
                map@.contains_key(id) && (#[trigger] map@[id])@ == r by {
            if records.contains(r) {
                let j = choose|j: int| 0 <= j < records.len() && records[j] == r;
                assert(map@.contains_key(records[j].id) && map@[records[j].id]@ == r);
            }
            if exists|id: u32| map@.contains_key(id) && (#[trigger] map@[id])@ == r {
                let id = choose|id: u32| map@.contains_key(id) && (#[trigger] map@[id])@ == r;
                let j = choose|j: int| 0 <= j < list.len() && #[trigger] records[j] == map@[id]@;
                assert(records[j] == r);
            }
        }
    }
    map
}

impl VirtualDesktopsManager {
    #[verifier::type_invariant]
    spec fn valid(self) -> bool {
        well_formed(self.ordered@) && holds_records(self.virtual_desktops@, self.ordered@)
    }

    /// How often the store has taken a new state. Of two snapshots the one
    /// taken at the higher revision is the later one.
    pub closed spec fn revision_number(&self) -> u64 {
        self.revision
    }

    /// An empty store.
    pub fn new() -> (store: Self)
        ensures
            store@ == Seq::<DesktopRecord>::empty(),
            store.revision_number() == 0,
    {
        let store = Self {
            virtual_desktops: HashMap::new(),
            ordered: Ghost(Seq::<DesktopRecord>::empty()),
            revision: 0,
        };
        store
    }

    /// How often the store has taken a new state.
    pub fn revision(&self) -> (revision: u64)
        ensures
            revision == self.revision_number(),
    {
        self.revision
    }

    fn commit(&mut self, list: Vec<VirtualDesktop>)
        requires
            well_formed(records_of(list@)),
        ensures
            final(self)@ == records_of(list@),
            final(self).revision_number() == next_revision(old(self).revision_number()),
    {
        let revision = if self.revision < u64::MAX {
            self.revision + 1
        } else {
            self.revision
        };
        let virtual_desktops = map_of(&list);
        *self = VirtualDesktopsManager {
            virtual_desktops,
            ordered: Ghost(records_of(list@)),
            revision,
        };
    }

    /// A snapshot of all desktops, ordered by identifier. The snapshot is a
    /// copy: later changes to the store do not reach it.
    pub fn get_virtual_desktops(&self) -> (snapshot: Vec<VirtualDesktop>)
        ensures
            records_of(snapshot@) == self@,
            snapshot@.len() == self@.len(),
            well_formed(self@),
    {
        proof {
            use_type_invariant(self);
        }
        let held = desktops_of(&self.virtual_desktops);
        let (snapshot, _) = order_desktops(&held);
        proof {
            let found = records_of(held@);
            let sorted = records_of(snapshot@);
            let map = self.virtual_desktops@;
            assert forall|r: DesktopRecord| sorted.contains(r) <==> self@.contains(r) by {
                if sorted.contains(r) {
                    assert(is_last_with_id(found, r));
                    let i = choose|i: int|
                        0 <= i < found.len() && #[trigger] found[i] == r && forall|j: int|
                            i < j < found.len() ==> (#[trigger] found[j]).id != r.id;
                    assert(found.contains(r));
                }
                if self@.contains(r) {
                    let id = choose|id: u32| map.contains_key(id) && (#[trigger] map[id])@ == r;
                    assert(found.contains(r));
                    let i = choose|i: int| 0 <= i < found.len() && found[i] == r;
                    assert(found[i].id == r.id);
                    assert(has_id(found, r.id));
                    lemma_last_with_id_exists(found, r.id);
                    let last = choose|last: DesktopRecord| #[trigger]
                        is_last_with_id(found, last) && last.id == r.id;
                    let k = choose|k: int|
                        0 <= k < found.len() && #[trigger] found[k] == last && forall|j: int|
                            k < j < found.len() ==> (#[trigger] found[j]).id != last.id;
                    assert(found.contains(last));
                    let other = choose|other: u32|
                        map.contains_key(other) && (#[trigger] map[other])@ == last;
                    assert(other == id);
                    assert(sorted.contains(last));
                }
            }
            lemma_ascending_unique(sorted, self@);
        }
        snapshot
    }

    /// The focused desktop, if there is one. No other desktop of the store
    /// is focused.
    pub fn get_focused_virtual_desktop(&self) -> (found: Option<&VirtualDesktop>)
        ensures
            match found {
                Some(desktop) => desktop@.focused && exists|i: int|
                    0 <= i < self@.len() && #[trigger] self@[i] == desktop@ && forall|j: int|
                        0 <= j < self@.len() && (#[trigger] self@[j]).focused ==> j == i,
                None => forall|i: int| 0 <= i < self@.len() ==> !(#[trigger] self@[i]).focused,
            },
    {
        proof {
            use_type_invariant(self);
        }
        let ghost map = self.virtual_desktops@;
        let values = self.virtual_desktops.values();
        let ghost all = values.remaining().unref();
        assert(all.to_set() == map.values());
        for desktop in it: values
            invariant
                it.seq().unref() == all,
                all.to_set() == map.values(),
                map == self.virtual_desktops@,
                well_formed(self@),
                holds_records(map, self@),
                forall|j: int| 0 <= j < it.index() ==> !(#[trigger] all[j]).focused,
        {
            if desktop.focused {
                proof {
                    let here = all[it.index() as int];
                    assert(all.to_set().contains(here));
                    assert(map.values().contains(here));
                    let id = choose|id: u32| map.contains_key(id) && map[id] == here;
                    assert(map[id]@ == here@);
                    assert(self@.contains(here@));
                    let i = choose|i: int| 0 <= i < self@.len() && self@[i] == here@;
                    assert(self@[i] == desktop@);
                }
                return Some(desktop);
            }
        }
        proof {
            assert forall|i: int| 0 <= i < self@.len() implies !(#[trigger] self@[i]).focused by {
                assert(self@.contains(self@[i]));
                let id = choose|id: u32| map.contains_key(id) && (#[trigger] map[id])@ == self@[i];
                assert(map.values().contains(map[id]));
                assert(all.to_set().contains(map[id]));
                let j = choose|j: int| 0 <= j < all.len() && all[j] == map[id];
                assert(!all[j].focused);
            }
        }
        None
    }

    /// Takes a list of desktops as the new state, where it can become a
    /// snapshot as it stands.
    fn take_desktops(&mut self, desktops: Vec<VirtualDesktop>) -> (outcome: Result<
        (),
        VirtualDesktopError,
    >)
        ensures
            well_formed(final(self)@),
            if acceptable(records_of(desktops@)) {
                &&& outcome is Ok
                &&& is_snapshot_of(final(self)@, records_of(desktops@))
                &&& final(self).revision_number() == next_revision(old(self).revision_number())
            } else {
                &&& outcome matches Err(VirtualDesktopError::StateParsing { .. })
                &&& final(self)@ == old(self)@
                &&& final(self).revision_number() == old(self).revision_number()
            },
    {
        proof {
            use_type_invariant(&*self);
        }
        let ghost records = records_of(desktops@);
        let (list, unique) = order_desktops(&desktops);
        if !unique {
            return Err(VirtualDesktopError::parsing_failed("a desktop identifier occurs twice"));
        }
        if !single_focus(&desktops) {
            return Err(VirtualDesktopError::parsing_failed("more than one desktop is focused"));
        }
        proof {
            let ordered = records_of(list@);
            assert forall|r: DesktopRecord| ordered.contains(r) <==> records.contains(r) by {
                lemma_distinct_all_last(records, r);
            }
            lemma_focus_carries(records, ordered);
        }
        self.commit(list);
        Ok(())
    }

    /// Replaces the whole store with the desktops of a plain-text state
    /// report. A report that is not well formed, that names an identifier
    /// twice or that focuses two desktops is refused with `StateParsing`,
    /// and the store stays as it was.
    pub fn parse_virtual_desktop_state(&mut self, state: &str) -> (outcome: Result<
        (),
        VirtualDesktopError,
    >)
        ensures
            well_formed(final(self)@),
            match accepted_report(state@) {
                Some(records) => {
                    &&& outcome is Ok
                    &&& is_snapshot_of(final(self)@, records)
                    &&& final(self).revision_number() == next_revision(
                        old(self).revision_number(),
                    )
                },
                None => {
                    &&& outcome matches Err(VirtualDesktopError::StateParsing { .. })
                    &&& final(self)@ == old(self)@
                    &&& final(self).revision_number() == old(self).revision_number()
                },
            },
    {
        proof {
            use_type_invariant(&*self);
        }
        match parse_report(state) {
            None => Err(VirtualDesktopError::parsing_failed("report is not well formed")),
            Some(desktops) => self.take_desktops(desktops),
        }
    }

    /// Replaces the whole store with the desktops of a state payload that
    /// has been read already. A payload that is no list of desktops, that
    /// names an identifier twice or that focuses two desktops is refused,
    /// and the store stays as it was.
    pub fn replace_from_json(&mut self, document: &Json) -> (outcome: Result<
        (),
        VirtualDesktopError,
    >)
        ensures
            well_formed(final(self)@),
            match accepted_payload(document@) {
                Some(records) => {
                    &&& outcome is Ok
                    &&& is_snapshot_of(final(self)@, records)
                    &&& final(self).revision_number() == next_revision(
                        old(self).revision_number(),
                    )
                },
                None => {
                    &&& outcome matches Err(VirtualDesktopError::StateParsing { .. })
                    &&& final(self)@ == old(self)@
                    &&& final(self).revision_number() == old(self).revision_number()
                },
            },
    {
        proof {
            use_type_invariant(&*self);
        }
        match desktops_of_payload(document) {
            None => Err(
                VirtualDesktopError::parsing_failed("payload is not a list of desktop records"),
            ),
            Some(desktops) => self.take_desktops(desktops),
        }
    }

    /// Replaces the whole store with the desktops of a state payload. Text
    /// that is no JSON document, or a document that `replace_from_json`
    /// refuses, leaves the store as it was.
    pub fn replace_from_payload(&mut self, raw_text: &str) -> (outcome: Result<
        (),
        VirtualDesktopError,
    >)
        ensures
            well_formed(final(self)@),
            match json_document(raw_text@) {
                Some(document) => match accepted_payload(document) {
                    Some(records) => {
                        &&& outcome is Ok
                        &&& is_snapshot_of(final(self)@, records)
                        &&& final(self).revision_number() == next_revision(
                            old(self).revision_number(),
                        )
                    },
                    None => {
                        &&& outcome matches Err(VirtualDesktopError::StateParsing { .. })
                        &&& final(self)@ == old(self)@
                        &&& final(self).revision_number() == old(self).revision_number()
                    },
                },
                None => {
                    &&& outcome matches Err(VirtualDesktopError::StateParsing { .. })
                    &&& final(self)@ == old(self)@
                    &&& final(self).revision_number() == old(self).revision_number()
                },
            },
    {
        proof {
            use_type_invariant(&*self);
        }
        match read_json(raw_text) {
            Ok(document) => self.replace_from_json(&document),
            Err(_) => Err(VirtualDesktopError::parsing_failed("payload is not valid JSON")),
        }
    }

    /// Gives the desktop `vdesk_id` the name that a desktop description
    /// holds. A desktop that the store does not know yet is added, neither
    /// focused nor populated. A description without a colon changes nothing.
    pub fn update_virtual_desktop_name(&mut self, vdesk_id: u32, vdesk_info: &str) -> (outcome:
        Result<(), VirtualDesktopError>)
        ensures
            outcome is Ok,
            well_formed(final(self)@),
            match name_in(vdesk_info@) {
                None => final(self)@ == old(self)@ && final(self).revision_number() == old(
                    self,
                ).revision_number(),
                Some(name) => {
                    &&& final(self).revision_number() == next_revision(old(self).revision_number())
                    &&& forall|r: DesktopRecord|
                        final(self)@.contains(r) <==> (r == named_desktop(
                            old(self)@,
                            vdesk_id,
                            name,
                        ) || (old(self)@.contains(r) && r.id != vdesk_id))
                },
            },
    {
        proof {
            use_type_invariant(&*self);
        }
        let info = chars_of(vdesk_info);
        let colon = match find_char(&info, ':') {
            Some(colon) => colon,
            None => {
                return Ok(());
            },
        };
        assert(is_first_index_of(info@, ':', colon as int));
        assert(colon < info.len());
        let rest = slice_of(&info, colon + 1, info.len());
        let name = string_of(&trim(&rest));
        let ghost before = self@;
        let mut list = self.get_virtual_desktops();
        let mut k: usize = 0;
        while k < list.len() && list[k].id != vdesk_id
            invariant
                k <= list.len(),
                records_of(list@) == before,
                forall|j: int| 0 <= j < k ==> (#[trigger] before[j]).id != vdesk_id,
            decreases list.len() - k,
        {
            assert(before[k as int] == list@[k as int]@);
            k += 1;
        }
        let desktop = if k < list.len() {
            let mut renamed = list[k].clone();
            renamed.name = name;
            proof {
                let at = k as int;
                assert(before[at] == list@[at]@);
                assert(has_id(before, vdesk_id));
                let c = choose|i: int| 0 <= i < before.len() && (#[trigger] before[i]).id
                    == vdesk_id;
                if c < at {
                    assert(before[c].id < before[at].id);
                } else if at < c {
                    assert(before[at].id < before[c].id);
                }
            }
            renamed
        } else {
            proof {
                if has_id(before, vdesk_id) {
                    let c = choose|i: int| 0 <= i < before.len() && (#[trigger] before[i]).id
                        == vdesk_id;
                    assert(before[c].id != vdesk_id);
                }
            }
            VirtualDesktop::new(vdesk_id, name)
        };
        let ghost target = desktop@;
        assert(target == named_desktop(before, vdesk_id, name@));
        put_desktop(&mut list, desktop);
        proof {
            let after = records_of(list@);
            assert forall|i: int, j: int|
                0 <= i < after.len() && 0 <= j < after.len() && after[i].focused
                    && after[j].focused implies i == j by {
                if i != j {
                    if i < j {
                        assert(after[i].id < after[j].id);
                    } else {
                        assert(after[j].id < after[i].id);
                    }
                    assert(after.contains(after[i]));
                    assert(after.contains(after[j]));
                    let a = if after[i] == target && k < before.len() {
                        before[k as int]
                    } else {
                        after[i]
                    };
                    let b = if after[j] == target && k < before.len() {
                        before[k as int]
                    } else {
                        after[j]
                    };
                    if k < before.len() {
                        assert(before.contains(before[k as int]));
                    }
                    assert(before.contains(a) && a.focused && a.id == after[i].id);
                    assert(before.contains(b) && b.focused && b.id == after[j].id);
                    let p = choose|p: int| 0 <= p < before.len() && before[p] == a;
                    let q = choose|q: int| 0 <= q < before.len() && before[q] == b;
                    assert(p == q);
                }
            }
        }
        self.commit(list);
        Ok(())
    }
}

} // verus!
