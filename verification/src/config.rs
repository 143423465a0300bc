//! Configuration of the widget: how desktops are labelled, which are shown,
//! in what order, and how hard the monitor retries.

use crate::errors::VirtualDesktopError;
use crate::text::{
    chars_of, decimal, decimal_chars, find_char, first_index_of, push_decimal, push_str, replace,
    replace_all, same_chars, string_of,
};
use vstd::prelude::*;

verus! {

/// The order in which desktops are shown.
#[derive(Debug, Clone, Copy, PartialEq, Eq, Structural)]
pub enum SortStrategy {
    /// By identifier, ascending.
    Number,
    /// By name, ascending; desktops of one name by identifier.
    Name,
    /// The focused desktop first, the others by identifier.
    FocusedFirst,
}

impl Default for SortStrategy {
    fn default() -> (strategy: Self)
        ensures
            strategy == SortStrategy::Number,
    {
        SortStrategy::Number
    }
}

/// The strategy that a configuration word names.
pub open spec fn strategy_named(word: Seq<char>) -> Option<SortStrategy> {
    if word == "number"@ {
        Some(SortStrategy::Number)
    } else if word == "name"@ {
        Some(SortStrategy::Name)
    } else if word == "focused-first"@ {
        Some(SortStrategy::FocusedFirst)
    } else {
        None
    }
}

impl SortStrategy {
    /// The configuration word of a strategy.
    pub open spec fn label(self) -> Seq<char> {
        match self {
            SortStrategy::Number => "number"@,
            SortStrategy::Name => "name"@,
            SortStrategy::FocusedFirst => "focused-first"@,
        }
    }

    /// The configuration word of the strategy.
    pub fn to_string(&self) -> (word: String)
        ensures
            word@ == self.label(),
    {
        match self {
            SortStrategy::Number => "number".to_owned(),
            SortStrategy::Name => "name".to_owned(),
            SortStrategy::FocusedFirst => "focused-first".to_owned(),
        }
    }

    /// Reads a strategy from its configuration word. Any other word is an
    /// invalid value of `sort_by`.
    pub fn parse(word: &str) -> (outcome: Result<SortStrategy, VirtualDesktopError>)
        ensures
            match strategy_named(word@) {
                Some(strategy) => outcome == Ok::<SortStrategy, VirtualDesktopError>(strategy),
                None => {
                    &&& outcome matches Err(
                        VirtualDesktopError::Configuration { field, value, reason },
                    )
                    &&& field@ == "sort_by"@
                    &&& value@ == word@
                    &&& reason@ == "must be 'number', 'name', or 'focused-first'"@
                },
            },
    {
        let chars = chars_of(word);
        if same_chars(&chars, &chars_of("number")) {
            Ok(SortStrategy::Number)
        } else if same_chars(&chars, &chars_of("name")) {
            Ok(SortStrategy::Name)
        } else if same_chars(&chars, &chars_of("focused-first")) {
            Ok(SortStrategy::FocusedFirst)
        } else {
            Err(
                VirtualDesktopError::invalid_config(
                    "sort_by",
                    word,
                    "must be 'number', 'name', or 'focused-first'",
                ),
            )
        }
    }
}

impl std::str::FromStr for SortStrategy {
    type Err = VirtualDesktopError;

    fn from_str(word: &str) -> (outcome: Result<Self, Self::Err>)
        ensures
            match strategy_named(word@) {
                Some(strategy) => outcome == Ok::<SortStrategy, VirtualDesktopError>(strategy),
                None => {
                    &&& outcome matches Err(
                        VirtualDesktopError::Configuration { field, value, reason },
                    )
                    &&& field@ == "sort_by"@
                    &&& value@ == word@
                    &&& reason@ == "must be 'number', 'name', or 'focused-first'"@
                },
            },
    {
        SortStrategy::parse(word)
    }
}

/// The icon under the first entry named `key`, if there is one.
pub open spec fn icon_of(entries: Seq<(Seq<char>, Seq<char>)>, key: Seq<char>) -> Option<
    Seq<char>,
>
    decreases entries.len(),
{
    if entries.len() == 0 {
        None
    } else if entries[0].0 == key {
        Some(entries[0].1)
    } else {
        icon_of(entries.skip(1), key)
    }
}

/// `first` followed by `rest` is looked up in `first`, then in `rest`.
pub proof fn lemma_icon_of_concat(
    first: Seq<(Seq<char>, Seq<char>)>,
    rest: Seq<(Seq<char>, Seq<char>)>,
    key: Seq<char>,
)
    ensures
        icon_of(first + rest, key) == match icon_of(first, key) {
            Some(icon) => Some(icon),
            None => icon_of(rest, key),
        },
    decreases first.len(),
{
    if first.len() == 0 {
        assert(first + rest =~= rest);
    } else {
        assert((first + rest).skip(1) =~= first.skip(1) + rest);
        lemma_icon_of_concat(first.skip(1), rest, key);
    }
}

/// No key occurs twice among the entries.
pub open spec fn distinct_keys(entries: Seq<(Seq<char>, Seq<char>)>) -> bool {
    forall|i: int, j: int| 0 <= i < j < entries.len() ==> entries[i].0 != entries[j].0
}

/// Icons by desktop identifier or desktop name. Every key has one icon.
#[derive(Debug)]
pub struct IconTable {
    entries: Vec<(String, String)>,
}

/// The keys and icons of a list of entries.
pub open spec fn pairs_of(entries: Seq<(String, String)>) -> Seq<(Seq<char>, Seq<char>)> {
    Seq::new(entries.len(), |i: int| (entries[i].0@, entries[i].1@))
}

impl View for IconTable {
    type V = Seq<(Seq<char>, Seq<char>)>;

    closed spec fn view(&self) -> Seq<(Seq<char>, Seq<char>)> {
        pairs_of(self.entries@)
    }
}

impl Clone for IconTable {
    fn clone(&self) -> (copy: Self)
        ensures
            copy@ == self@,
    {
        proof {
            use_type_invariant(self);
        }
        let ghost held = self@;
        let mut entries: Vec<(String, String)> = Vec::new();
        let mut i: usize = 0;
        while i < self.entries.len()
            invariant
                i <= self.entries.len(),
                entries@.len() == i,
                forall|j: int|
                    0 <= j < i ==> (#[trigger] entries@[j]).0@ == self.entries@[j].0@
                        && entries@[j].1@ == self.entries@[j].1@,
            decreases self.entries.len() - i,
        {
            let key = self.entries[i].0.clone();
            let icon = self.entries[i].1.clone();
            entries.push((key, icon));
            i += 1;
        }
        proof {
            assert(pairs_of(entries@) =~= held);
        }
        let copy = IconTable { entries };
        assert(copy@ =~= self@);
        copy
    }
}

impl IconTable {
    #[verifier::type_invariant]
    spec fn valid(self) -> bool {
        distinct_keys(self@)
    }

    /// The icon that the table gives for `key`.
    pub open spec fn icon(&self, key: Seq<char>) -> Option<Seq<char>> {
        icon_of(self@, key)
    }

    /// A table without icons.
    pub fn new() -> (table: Self)
        ensures
            table@ == Seq::<(Seq<char>, Seq<char>)>::empty(),
    {
        let table = IconTable { entries: Vec::new() };
        assert(table@ =~= Seq::<(Seq<char>, Seq<char>)>::empty());
        table
    }

    /// Whether the table has no icon at all.
    pub fn is_empty(&self) -> (empty: bool)
        ensures
            empty == (self@.len() == 0),
            distinct_keys(self@),
    {
        proof {
            use_type_invariant(self);
        }
        self.entries.len() == 0
    }

    /// The number of icons, which is the number of keys.
    pub fn len(&self) -> (count: usize)
        ensures
            count == self@.len(),
            distinct_keys(self@),
    {
        proof {
            use_type_invariant(self);
        }
        self.entries.len()
    }

    fn position(&self, key: &str) -> (found: Option<usize>)
        ensures
            match found {
                Some(i) => {
                    &&& i < self@.len()
                    &&& self@[i as int].0 == key@
                    &&& self.icon(key@) == Some(self@[i as int].1)
                    &&& forall|j: int| 0 <= j < i ==> (#[trigger] self@[j]).0 != key@
                },
                None => self.icon(key@).is_none() && forall|j: int|
                    0 <= j < self@.len() ==> (#[trigger] self@[j]).0 != key@,
            },
    {
        let wanted = chars_of(key);
        let mut i: usize = 0;
        proof {
            assert(self@.skip(0) =~= self@);
        }
        while i < self.entries.len()
            invariant
                i <= self.entries.len(),
                wanted@ == key@,
                icon_of(self@.skip(i as int), key@) == icon_of(self@, key@),
                forall|j: int| 0 <= j < i ==> (#[trigger] self@[j]).0 != key@,
            decreases self.entries.len() - i,
        {
            let name = chars_of(self.entries[i].0.as_str());
            proof {
                assert(self@.skip(i as int)[0] == self@[i as int]);
                assert(self@.skip(i as int).skip(1) =~= self@.skip(i + 1));
            }
            if same_chars(&name, &wanted) {
                return Some(i);
            }
            i += 1;
        }
        None
    }

    /// The keys with their icons, in the order in which the keys came. No
    /// key comes twice.
    pub fn entries(&self) -> (pairs: Vec<(String, String)>)
        ensures
            pairs@.len() == self@.len(),
            forall|i: int|
                0 <= i < pairs@.len() ==> ((#[trigger] pairs@[i]).0@, pairs@[i].1@) == self@[i],
            distinct_keys(self@),
    {
        proof {
            use_type_invariant(self);
        }
        let copy = self.clone();
        copy.entries
    }

    /// The icon for `key`, if the table has one.
    pub fn get(&self, key: &str) -> (found: Option<&String>)
        ensures
            match found {
                Some(icon) => self.icon(key@) == Some(icon@),
                None => self.icon(key@).is_none(),
            },
    {
        match self.position(key) {
            Some(i) => Some(&self.entries[i].1),
            None => None,
        }
    }

    /// Sets the icon for `key`. Returns the icon that `key` had before.
    pub fn insert(&mut self, key: String, icon: String) -> (previous: Option<String>)
        ensures
            final(self).icon(key@) == Some(icon@),
            forall|other: Seq<char>| other != key@ ==> final(self).icon(other) == old(self).icon(other),
            match previous {
                Some(earlier) => old(self).icon(key@) == Some(earlier@),
                None => old(self).icon(key@).is_none(),
            },
    {
        proof {
            use_type_invariant(&*self);
        }
        let ghost before = self@;
        let ghost name = key@;
        let ghost value = icon@;
        let found = self.position(key.as_str());
        let mut entries: Vec<(String, String)> = Vec::new();
        assert(pairs_of(entries@) =~= Seq::<(Seq<char>, Seq<char>)>::empty());
        std::mem::swap(&mut self.entries, &mut entries);
        assert(pairs_of(entries@) == before);
        match found {
            Some(i) => {
                let previous = entries[i].1.clone();
                entries.set(i, (key, icon));
                proof {
                    let at = i as int;
                    let after = pairs_of(entries@);
                    assert(after =~= before.update(at, (name, value)));
                    assert(before =~= before.take(at) + before.skip(at));
                    assert(after =~= before.take(at) + after.skip(at));
                    assert(after.skip(at).skip(1) =~= before.skip(at).skip(1));
                    assert forall|other: Seq<char>| icon_of(after, other) == (if other == name {
                        Some(value)
                    } else {
                        icon_of(before, other)
                    }) by {
                        lemma_icon_of_concat(before.take(at), before.skip(at), other);
                        lemma_icon_of_concat(before.take(at), after.skip(at), other);
                        assert(before.skip(at)[0] == before[at]);
                        assert(after.skip(at)[0] == (name, value));
                        if other == name {
                            lemma_absent(before.take(at), name);
                        }
                    }
                    assert forall|a: int, b: int| 0 <= a < b < after.len() implies after[a].0
                        != after[b].0 by {
                        assert(before[a].0 != before[b].0);
                    }
                }
                self.entries = entries;
                Some(previous)
            },
            None => {
                entries.push((key, icon));
                proof {
                    let after = pairs_of(entries@);
                    assert(after =~= before + seq![(name, value)]);
                    assert forall|other: Seq<char>| icon_of(after, other) == (if other == name {
                        Some(value)
                    } else {
                        icon_of(before, other)
                    }) by {
                        let single = seq![(name, value)];
                        lemma_icon_of_concat(before, single, other);
                        assert(single[0] == (name, value));
                        assert(icon_of(single.skip(1), other).is_none());
                    }
                    assert forall|a: int, b: int| 0 <= a < b < after.len() implies after[a].0
                        != after[b].0 by {
                        if b < before.len() {
                            assert(before[a].0 != before[b].0);
                        } else {
                            assert(before[a].0 != name);
                        }
                    }
                }
                self.entries = entries;
                None
            },
        }
    }
}

/// Entries none of which is named `key` give no icon for it.
pub proof fn lemma_absent(entries: Seq<(Seq<char>, Seq<char>)>, key: Seq<char>)
    requires
        forall|j: int| 0 <= j < entries.len() ==> (#[trigger] entries[j]).0 != key,
    ensures
        icon_of(entries, key).is_none(),
    decreases entries.len(),
{
    if entries.len() > 0 {
        assert(entries[0].0 != key);
        assert forall|j: int| 0 <= j < entries.skip(1).len() implies (#[trigger] entries.skip(
            1,
        )[j]).0 != key by {
            assert(entries.skip(1)[j] == entries[j + 1]);
        }
        lemma_absent(entries.skip(1), key);
    }
}

/// The configuration of the widget.
#[derive(Debug)]
pub struct ModuleConfig {
    /// Template of the label, with the placeholders `{name}`, `{icon}`,
    /// `{id}` and `{window_count}`.
    pub format: String,
    /// Whether desktops without windows are shown.
    pub show_empty: bool,
    /// Text between two labels.
    pub separator: String,
    /// Icons by desktop identifier or name.
    pub format_icons: IconTable,
    /// Whether the tooltip tells the number of windows.
    pub show_window_count: bool,
    /// The order of the labels.
    pub sort_by: SortStrategy,
    /// How many failed attempts the monitor tolerates.
    pub retry_max: u32,
    /// The delay before the first retry, in milliseconds.
    pub retry_base_delay_ms: u64,
}

impl ModuleConfig {
    /// Whether two configurations hold the same values.
    pub open spec fn same_as(&self, other: &ModuleConfig) -> bool {
        &&& self.format@ == other.format@
        &&& self.show_empty == other.show_empty
        &&& self.separator@ == other.separator@
        &&& self.format_icons@ == other.format_icons@
        &&& self.show_window_count == other.show_window_count
        &&& self.sort_by == other.sort_by
        &&& self.retry_max == other.retry_max
        &&& self.retry_base_delay_ms == other.retry_base_delay_ms
    }
}

impl Clone for ModuleConfig {
    fn clone(&self) -> (copy: Self)
        ensures
            copy.same_as(self),
    {
        ModuleConfig {
            format: self.format.clone(),
            show_empty: self.show_empty,
            separator: self.separator.clone(),
            format_icons: self.format_icons.clone(),
            show_window_count: self.show_window_count,
            sort_by: self.sort_by,
            retry_max: self.retry_max,
            retry_base_delay_ms: self.retry_base_delay_ms,
        }
    }
}

fn default_format() -> (format: String)
    ensures
        format@ == "{name}"@,
{
    "{name}".to_owned()
}

fn default_show_empty() -> (show: bool)
    ensures
        !show,
{
    false
}

fn default_separator() -> (separator: String)
    ensures
        separator@ == " "@,
{
    " ".to_owned()
}

fn default_show_window_count() -> (show: bool)
    ensures
        !show,
{
    false
}

fn default_retry_max() -> (attempts: u32)
    ensures
        attempts == 10,
{
    10
}

fn default_retry_base_delay_ms() -> (delay: u64)
    ensures
        delay == 500,
{
    500
}

impl Default for ModuleConfig {
    fn default() -> (config: Self)
        ensures
            config.format@ == "{name}"@,
            !config.show_empty,
            config.separator@ == " "@,
            config.format_icons@.len() == 0,
            !config.show_window_count,
            config.sort_by == SortStrategy::Number,
            config.retry_max == 10,
            config.retry_base_delay_ms == 500,
    {
        ModuleConfig {
            format: default_format(),
            show_empty: default_show_empty(),
            separator: default_separator(),
            format_icons: IconTable::new(),
            show_window_count: default_show_window_count(),
            sort_by: SortStrategy::Number,
            retry_max: default_retry_max(),
            retry_base_delay_ms: default_retry_base_delay_ms(),
        }
    }
}

/// The largest number of attempts that a configuration may ask for.
pub const MAX_RETRY_ATTEMPTS: u32 = 50;

/// The largest base delay that a configuration may ask for, in
/// milliseconds.
pub const MAX_BASE_DELAY_MS: u64 = 10000;

/// What is wrong with a configuration value: the field, and why.
pub enum ConfigFault {
    /// The label template has no placeholder.
    FormatWithoutPlaceholder,
    /// `retry_max` is zero.
    NoRetries,
    /// `retry_max` is above `MAX_RETRY_ATTEMPTS`.
    TooManyRetries,
    /// `retry_base_delay_ms` is zero.
    NoDelay,
    /// `retry_base_delay_ms` is above `MAX_BASE_DELAY_MS`.
    DelayTooLong,
}

impl ConfigFault {
    /// The name of the field at fault.
    pub open spec fn field(self) -> Seq<char> {
        match self {
            ConfigFault::FormatWithoutPlaceholder => "format"@,
            ConfigFault::NoRetries => "retry_max"@,
            ConfigFault::TooManyRetries => "retry_max"@,
            ConfigFault::NoDelay => "retry_base_delay_ms"@,
            ConfigFault::DelayTooLong => "retry_base_delay_ms"@,
        }
    }

    /// Why the value is refused.
    pub open spec fn reason(self) -> Seq<char> {
        match self {
            ConfigFault::FormatWithoutPlaceholder => "must contain at least one placeholder like {name}, {icon}, {id}, or {window_count}"@,
            ConfigFault::NoRetries => "must be greater than 0"@,
            ConfigFault::TooManyRetries => "must be 50 or less to prevent excessive delays"@,
            ConfigFault::NoDelay => "must be greater than 0"@,
            ConfigFault::DelayTooLong => "must be 10000ms or less to prevent excessive delays"@,
        }
    }
}

/// The first fault of a configuration, in the order in which the values are
/// checked, or `None` where all are within bounds.
pub open spec fn first_fault(format: Seq<char>, retry_max: u32, retry_base_delay_ms: u64) -> Option<
    ConfigFault,
> {
    if first_index_of(format, '{').is_none() {
        Some(ConfigFault::FormatWithoutPlaceholder)
    } else if retry_max == 0 {
        Some(ConfigFault::NoRetries)
    } else if retry_max > MAX_RETRY_ATTEMPTS {
        Some(ConfigFault::TooManyRetries)
    } else if retry_base_delay_ms == 0 {
        Some(ConfigFault::NoDelay)
    } else if retry_base_delay_ms > MAX_BASE_DELAY_MS {
        Some(ConfigFault::DelayTooLong)
    } else {
        None
    }
}

/// The label of a desktop: the template with `{name}`, `{icon}`, `{id}` and
/// `{window_count}` filled in, in this order.
pub open spec fn display_text(
    format: Seq<char>,
    icon: Seq<char>,
    name: Seq<char>,
    id: u32,
    window_count: u32,
) -> Seq<char> {
    replace_all(
        replace_all(
            replace_all(replace_all(format, "{name}"@, name), "{icon}"@, icon),
            "{id}"@,
            decimal(id as nat),
        ),
        "{window_count}"@,
        decimal(window_count as nat),
    )
}

/// The icon of a desktop: the one under its identifier, else the one under
/// its name, else none.
pub open spec fn icon_for(icons: Seq<(Seq<char>, Seq<char>)>, name: Seq<char>, id: u32) -> Seq<
    char,
> {
    match icon_of(icons, decimal(id as nat)) {
        Some(icon) => icon,
        None => match icon_of(icons, name) {
            Some(icon) => icon,
            None => Seq::empty(),
        },
    }
}

/// The tooltip of a desktop.
pub open spec fn tooltip_text(
    show_window_count: bool,
    name: Seq<char>,
    id: u32,
    window_count: u32,
    focused: bool,
) -> Seq<char> {
    "Virtual Desktop "@ + decimal(id as nat) + ": "@ + name + (if show_window_count {
        " ("@ + decimal(window_count as nat) + " windows)"@
    } else {
        Seq::empty()
    }) + (if focused {
        " - focused"@
    } else {
        Seq::empty()
    })
}

impl ModuleConfig {
    /// Whether every value is within bounds.
    pub open spec fn is_valid(&self) -> bool {
        first_fault(self.format@, self.retry_max, self.retry_base_delay_ms).is_none()
    }

    /// Checks that every value is within bounds. The error names the first
    /// value that is not, with its value and the reason.
    pub fn validate(&self) -> (outcome: Result<(), VirtualDesktopError>)
        ensures
            match first_fault(self.format@, self.retry_max, self.retry_base_delay_ms) {
                None => outcome is Ok,
                Some(fault) => {
                    &&& outcome matches Err(
                        VirtualDesktopError::Configuration { field, value, reason },
                    )
                    &&& field@ == fault.field()
                    &&& reason@ == fault.reason()
                    &&& value@ == match fault {
                        ConfigFault::FormatWithoutPlaceholder => self.format@,
                        ConfigFault::NoRetries => decimal(self.retry_max as nat),
                        ConfigFault::TooManyRetries => decimal(self.retry_max as nat),
                        ConfigFault::NoDelay => decimal(self.retry_base_delay_ms as nat),
                        ConfigFault::DelayTooLong => decimal(self.retry_base_delay_ms as nat),
                    }
                },
            },
    {
        let format = chars_of(self.format.as_str());
        if find_char(&format, '{').is_none() {
            return Err(
                VirtualDesktopError::invalid_config(
                    "format",
                    self.format.as_str(),
                    "must contain at least one placeholder like {name}, {icon}, {id}, or {window_count}",
                ),
            );
        }
        if self.retry_max == 0 {
            let value = string_of(&decimal_chars(self.retry_max as u64));
            return Err(
                VirtualDesktopError::invalid_config(
                    "retry_max",
                    value.as_str(),
                    "must be greater than 0",
                ),
            );
        }
        if self.retry_max > MAX_RETRY_ATTEMPTS {
            let value = string_of(&decimal_chars(self.retry_max as u64));
            return Err(
                VirtualDesktopError::invalid_config(
                    "retry_max",
                    value.as_str(),
                    "must be 50 or less to prevent excessive delays",
                ),
            );
        }
        if self.retry_base_delay_ms == 0 {
            let value = string_of(&decimal_chars(self.retry_base_delay_ms));
            return Err(
                VirtualDesktopError::invalid_config(
                    "retry_base_delay_ms",
                    value.as_str(),
                    "must be greater than 0",
                ),
            );
        }
        if self.retry_base_delay_ms > MAX_BASE_DELAY_MS {
            let value = string_of(&decimal_chars(self.retry_base_delay_ms));
            return Err(
                VirtualDesktopError::invalid_config(
                    "retry_base_delay_ms",
                    value.as_str(),
                    "must be 10000ms or less to prevent excessive delays",
                ),
            );
        }
        Ok(())
    }

    /// The label of a desktop.
    pub fn format_virtual_desktop(&self, name: &str, id: u32, window_count: u32) -> (label: String)
        ensures
            label@ == display_text(
                self.format@,
                icon_for(self.format_icons@, name@, id),
                name@,
                id,
                window_count,
            ),
    {
        let id_text = decimal_chars(id as u64);
        let count_text = decimal_chars(window_count as u64);
        let name_text = chars_of(name);
        let id_key = string_of(&id_text);
        let icon: Vec<char> = match self.format_icons.get(id_key.as_str()) {
            Some(icon) => chars_of(icon.as_str()),
            None => match self.format_icons.get(name) {
                Some(icon) => chars_of(icon.as_str()),
                None => Vec::new(),
            },
        };
        proof {
            reveal_strlit("{name}");
            reveal_strlit("{icon}");
            reveal_strlit("{id}");
            reveal_strlit("{window_count}");
        }
        let format = chars_of(self.format.as_str());
        let named = replace(&format, "{name}", &name_text);
        let with_icon = replace(&named, "{icon}", &icon);
        let with_id = replace(&with_icon, "{id}", &id_text);
        let label = replace(&with_id, "{window_count}", &count_text);
        string_of(&label)
    }

    /// The tooltip of a desktop.
    pub fn format_tooltip(&self, name: &str, id: u32, window_count: u32, focused: bool) -> (tooltip:
        String)
        ensures
            tooltip@ == tooltip_text(self.show_window_count, name@, id, window_count, focused),
    {
        let mut out: Vec<char> = Vec::new();
        push_str(&mut out, "Virtual Desktop ");
        push_decimal(&mut out, id as u64);
        push_str(&mut out, ": ");
        push_str(&mut out, name);
        let ghost head = out@;
        if self.show_window_count {
            push_str(&mut out, " (");
            push_decimal(&mut out, window_count as u64);
            push_str(&mut out, " windows)");
            assert(out@ =~= head + (" ("@ + decimal(window_count as nat) + " windows)"@));
        } else {
            assert(out@ =~= head + Seq::<char>::empty());
        }
        let ghost body = out@;
        if focused {
            push_str(&mut out, " - focused");
        } else {
            assert(out@ =~= body + Seq::<char>::empty());
        }
        string_of(&out)
    }
}

/// The configuration as the host hands it over, with the sort order still
/// a word.
#[derive(Debug)]
pub struct Config {
    pub format: String,
    pub show_empty: bool,
    pub separator: String,
    pub format_icons: IconTable,
    pub show_window_count: bool,
    pub sort_by: String,
    pub retry_max: u32,
    pub retry_base_delay_ms: u64,
}

impl ModuleConfig {
    /// Takes over the host's configuration. An unknown sort order or a
    /// value out of bounds is an error.
    pub fn from_host(config: Config) -> (outcome: Result<ModuleConfig, VirtualDesktopError>)
        ensures
            match outcome {
                Ok(module) => {
                    &&& strategy_named(config.sort_by@) == Some(module.sort_by)
                    &&& module.is_valid()
                    &&& module.format@ == config.format@
                    &&& module.show_empty == config.show_empty
                    &&& module.separator@ == config.separator@
                    &&& module.format_icons@ == config.format_icons@
                    &&& module.show_window_count == config.show_window_count
                    &&& module.retry_max == config.retry_max
                    &&& module.retry_base_delay_ms == config.retry_base_delay_ms
                },
                Err(error) => error is Configuration,
            },
            outcome is Ok <==> strategy_named(config.sort_by@).is_some() && first_fault(
                config.format@,
                config.retry_max,
                config.retry_base_delay_ms,
            ).is_none(),
    {
        let sort_by = match SortStrategy::parse(config.sort_by.as_str()) {
            Ok(strategy) => strategy,
            Err(error) => {
                return Err(error);
            },
        };
        let module = ModuleConfig {
            format: config.format,
            show_empty: config.show_empty,
            separator: config.separator,
            format_icons: config.format_icons,
            show_window_count: config.show_window_count,
            sort_by,
            retry_max: config.retry_max,
            retry_base_delay_ms: config.retry_base_delay_ms,
        };
        match module.validate() {
            Ok(()) => Ok(module),
            Err(error) => Err(error),
        }
    }
}

/// The two shapes in which the host may hand a configuration over: under
/// a `config` key, or bare.
#[derive(Debug)]
pub enum ConfigWrapper {
    Nested { config: ModuleConfig },
    Direct(ModuleConfig),
}

impl ConfigWrapper {
    /// The configuration inside either shape.
    pub open spec fn inner(self) -> ModuleConfig {
        match self {
            ConfigWrapper::Nested { config } => config,
            ConfigWrapper::Direct(config) => config,
        }
    }
}

impl From<ConfigWrapper> for ModuleConfig {
    fn from(wrapper: ConfigWrapper) -> (config: ModuleConfig) {
        match wrapper {
            ConfigWrapper::Direct(config) => config,
            ConfigWrapper::Nested { config } => config,
        }
    }
}

impl vstd::std_specs::convert::FromSpecImpl<ConfigWrapper> for ModuleConfig {
    open spec fn obeys_from_spec() -> bool {
        true
    }

    open spec fn from_spec(wrapper: ConfigWrapper) -> ModuleConfig {
        wrapper.inner()
    }
}

} // verus!
