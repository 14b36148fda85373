//! Application state for the interactive interface.
//!
//! Everything here is pure state manipulation: the event loop owns the
//! terminal and the data collection, hands each key press to [`App::on_key`]
//! and each fresh snapshot to [`App::apply_dynamic`].

use vstd::prelude::*;
use ratatui::widgets::TableState;
use crate::format::{
    lemma_usage_percent_at_most_100, temp_sample, temp_sample_of, usage_percent, usage_percent_of,
};
use crate::tui::groups::{group_by_name_of, group_count, lemma_group_by_name};
use crate::tui::history::{history_push, History};
use crate::types::{procs_view, zero_mem_stats, Snapshot, TempReading};

verus! {

/// Number of samples kept for the sparklines (comfortably wider than any
/// realistic terminal, so the visible window is always full).
pub const HISTORY_LEN: usize = 512;

/// Smallest allowed refresh interval, in seconds.
pub const MIN_INTERVAL_SECS: u64 = 1;

/// Largest refresh interval that the `+` key reaches, in seconds.
pub const MAX_INTERVAL_SECS: u64 = 60;

/// Number of top-level tabs.
pub const TAB_COUNT: usize = 4;

// ─── Tabs ─────────────────────────────────────────────────────────────────────

/// Which tab is currently shown.
#[derive(Debug, Clone, Copy, PartialEq, Eq, Structural)]
pub enum Tab {
    Overview,
    Hardware,
    Processes,
    Temps,
}

/// The tab with zero-based index `i`; out-of-range values give `Overview`.
pub open spec fn tab_of(i: int) -> Tab {
    if i == 1 {
        Tab::Hardware
    } else if i == 2 {
        Tab::Processes
    } else if i == 3 {
        Tab::Temps
    } else {
        Tab::Overview
    }
}

/// The zero-based index of a tab.
pub open spec fn tab_index(t: Tab) -> int {
    match t {
        Tab::Overview => 0,
        Tab::Hardware => 1,
        Tab::Processes => 2,
        Tab::Temps => 3,
    }
}

impl Tab {
    /// Map a zero-based tab index onto a [`Tab`], clamping out-of-range values
    /// to [`Tab::Overview`].
    pub fn from_index(i: usize) -> (t: Tab)
        ensures
            t == tab_of(i as int),
    {
        if i == 1 {
            Tab::Hardware
        } else if i == 2 {
            Tab::Processes
        } else if i == 3 {
            Tab::Temps
        } else {
            Tab::Overview
        }
    }

    /// The zero-based index of this tab.
    pub fn index(self) -> (i: usize)
        ensures
            i as int == tab_index(self),
    {
        match self {
            Tab::Overview => 0,
            Tab::Hardware => 1,
            Tab::Processes => 2,
            Tab::Temps => 3,
        }
    }
}

/// Every tab has an index below [`TAB_COUNT`], and the index leads back to it;
/// every index below [`TAB_COUNT`] leads to a tab with that index.
pub proof fn lemma_tab_index_round_trip(t: Tab, i: int)
    ensures
        0 <= tab_index(t) < TAB_COUNT,
        tab_of(tab_index(t)) == t,
        0 <= i < TAB_COUNT ==> tab_index(tab_of(i)) == i,
{
}

/// The tab after `t`, wrapping around.
pub open spec fn next_tab_of(t: Tab) -> Tab {
    tab_of((tab_index(t) + 1) % (TAB_COUNT as int))
}

/// The tab before `t`, wrapping around.
pub open spec fn prev_tab_of(t: Tab) -> Tab {
    tab_of((tab_index(t) + TAB_COUNT - 1) % (TAB_COUNT as int))
}

/// Moving to the next tab and back (or back and then forward) returns to the
/// starting tab.
pub proof fn lemma_next_prev_tab_inverse(t: Tab)
    ensures
        prev_tab_of(next_tab_of(t)) == t,
        next_tab_of(prev_tab_of(t)) == t,
{
}

// ─── Keys ─────────────────────────────────────────────────────────────────────

/// The key of a key press.
#[derive(Debug, Clone, Copy, PartialEq, Eq, Structural)]
pub enum KeyCode {
    Char(char),
    F(u8),
    Esc,
    Tab,
    BackTab,
    Left,
    Right,
    Up,
    Down,
    PageUp,
    PageDown,
    Home,
    End,
    Other,
}

/// A key press: the key, and whether Control was held.
#[derive(Debug, Clone, Copy, PartialEq, Eq, Structural)]
pub struct Key {
    pub code: KeyCode,
    pub control: bool,
}

/// What a key press asks for.
#[derive(Debug, Clone, Copy, PartialEq, Eq, Structural)]
pub enum Action {
    Quit,
    ToggleHelp,
    Refresh,
    Slower,
    Faster,
    SelectTab(usize),
    NextTab,
    PrevTab,
    ScrollDown(u16),
    ScrollUp(u16),
    Home,
    End,
    ToggleGroup,
    Ignore,
}

/// The action of a key press: Ctrl+C quits (Control has no other use);
/// `q`/`Esc` quit, `?`/`h`/F1 toggle help, `r` refreshes, `+`/`=` slow down,
/// `-`/`_` speed up, `1`–`4` pick a tab, Tab/Right and BackTab/Left cycle tabs,
/// the arrows scroll by one row and PageDown/PageUp by ten, Home/End jump,
/// `g` groups the process table by name (and back).
pub open spec fn action_of(k: Key) -> Action {
    if k.control && (k.code == KeyCode::Char('c') || k.code == KeyCode::Char('C')) {
        Action::Quit
    } else {
        match k.code {
            KeyCode::Char(c) => if c == 'q' || c == 'Q' {
                Action::Quit
            } else if c == '?' || c == 'h' {
                Action::ToggleHelp
            } else if c == 'r' || c == 'R' {
                Action::Refresh
            } else if c == '+' || c == '=' {
                Action::Slower
            } else if c == '-' || c == '_' {
                Action::Faster
            } else if '1' <= c && c <= '4' {
                Action::SelectTab((c as int - '1' as int) as usize)
            } else if c == 'g' {
                Action::ToggleGroup
            } else {
                Action::Ignore
            },
            KeyCode::F(n) => if n == 1 {
                Action::ToggleHelp
            } else {
                Action::Ignore
            },
            KeyCode::Esc => Action::Quit,
            KeyCode::Tab => Action::NextTab,
            KeyCode::Right => Action::NextTab,
            KeyCode::BackTab => Action::PrevTab,
            KeyCode::Left => Action::PrevTab,
            KeyCode::Down => Action::ScrollDown(1),
            KeyCode::Up => Action::ScrollUp(1),
            KeyCode::PageDown => Action::ScrollDown(10),
            KeyCode::PageUp => Action::ScrollUp(10),
            KeyCode::Home => Action::Home,
            KeyCode::End => Action::End,
            KeyCode::Other => Action::Ignore,
        }
    }
}

/// The key bindings, key by key, with or without Control held (Control only
/// changes `c`/`C`, which then quits): `q`, `Q` and Esc quit; `?`, `h` and F1
/// toggle the help; `r` and `R` refresh; `+` and `=` slow down, `-` and `_`
/// speed up; `1`–`4` select the four tabs; Tab and Right go to the next tab,
/// BackTab and Left to the previous one; Down and Up scroll by one row,
/// PageDown and PageUp by ten; Home and End jump; `g` toggles grouping.
pub proof fn lemma_key_bindings(control: bool)
    ensures
        action_of(Key { code: KeyCode::Char('q'), control }) == Action::Quit,
        action_of(Key { code: KeyCode::Char('Q'), control }) == Action::Quit,
        action_of(Key { code: KeyCode::Esc, control }) == Action::Quit,
        action_of(Key { code: KeyCode::Char('c'), control: true }) == Action::Quit,
        action_of(Key { code: KeyCode::Char('C'), control: true }) == Action::Quit,
        action_of(Key { code: KeyCode::Char('c'), control: false }) == Action::Ignore,
        action_of(Key { code: KeyCode::Char('?'), control }) == Action::ToggleHelp,
        action_of(Key { code: KeyCode::Char('h'), control }) == Action::ToggleHelp,
        action_of(Key { code: KeyCode::F(1), control }) == Action::ToggleHelp,
        action_of(Key { code: KeyCode::Char('r'), control }) == Action::Refresh,
        action_of(Key { code: KeyCode::Char('R'), control }) == Action::Refresh,
        action_of(Key { code: KeyCode::Char('+'), control }) == Action::Slower,
        action_of(Key { code: KeyCode::Char('='), control }) == Action::Slower,
        action_of(Key { code: KeyCode::Char('-'), control }) == Action::Faster,
        action_of(Key { code: KeyCode::Char('_'), control }) == Action::Faster,
        action_of(Key { code: KeyCode::Char('1'), control }) == Action::SelectTab(0),
        action_of(Key { code: KeyCode::Char('2'), control }) == Action::SelectTab(1),
        action_of(Key { code: KeyCode::Char('3'), control }) == Action::SelectTab(2),
        action_of(Key { code: KeyCode::Char('4'), control }) == Action::SelectTab(3),
        action_of(Key { code: KeyCode::Tab, control }) == Action::NextTab,
        action_of(Key { code: KeyCode::Right, control }) == Action::NextTab,
        action_of(Key { code: KeyCode::BackTab, control }) == Action::PrevTab,
        action_of(Key { code: KeyCode::Left, control }) == Action::PrevTab,
        action_of(Key { code: KeyCode::Down, control }) == Action::ScrollDown(1),
        action_of(Key { code: KeyCode::Up, control }) == Action::ScrollUp(1),
        action_of(Key { code: KeyCode::PageDown, control }) == Action::ScrollDown(10),
        action_of(Key { code: KeyCode::PageUp, control }) == Action::ScrollUp(10),
        action_of(Key { code: KeyCode::Home, control }) == Action::Home,
        action_of(Key { code: KeyCode::End, control }) == Action::End,
        action_of(Key { code: KeyCode::Char('g'), control }) == Action::ToggleGroup,
        action_of(Key { code: KeyCode::Char('x'), control }) == Action::Ignore,
        action_of(Key { code: KeyCode::F(2), control }) == Action::Ignore,
{
}

/// The action that a key press asks for.
pub fn key_action(k: Key) -> (a: Action)
    ensures
        a == action_of(k),
{
    if k.control {
        if let KeyCode::Char(c) = k.code {
            if c == 'c' || c == 'C' {
                return Action::Quit;
            }
        }
    }
    match k.code {
        KeyCode::Char(c) => {
            if c == 'q' || c == 'Q' {
                Action::Quit
            } else if c == '?' || c == 'h' {
                Action::ToggleHelp
            } else if c == 'r' || c == 'R' {
                Action::Refresh
            } else if c == '+' || c == '=' {
                Action::Slower
            } else if c == '-' || c == '_' {
                Action::Faster
            } else if '1' <= c && c <= '4' {
                Action::SelectTab((c as u32 - '1' as u32) as usize)
            } else if c == 'g' {
                Action::ToggleGroup
            } else {
                Action::Ignore
            }
        },
        KeyCode::F(n) => if n == 1 {
            Action::ToggleHelp
        } else {
            Action::Ignore
        },
        KeyCode::Esc => Action::Quit,
        KeyCode::Tab => Action::NextTab,
        KeyCode::Right => Action::NextTab,
        KeyCode::BackTab => Action::PrevTab,
        KeyCode::Left => Action::PrevTab,
        KeyCode::Down => Action::ScrollDown(1),
        KeyCode::Up => Action::ScrollUp(1),
        KeyCode::PageDown => Action::ScrollDown(10),
        KeyCode::PageUp => Action::ScrollUp(10),
        KeyCode::Home => Action::Home,
        KeyCode::End => Action::End,
        KeyCode::Other => Action::Ignore,
    }
}

// ─── Table selection (ratatui `TableState`) ───────────────────────────────────

/// `TableState::select_next`: the selection moves one row down (saturating),
/// or to the first row when nothing is selected.
#[verifier::external_body]
fn table_select_next(selected: Option<usize>) -> (r: Option<usize>)
    ensures
        r == Some(
            match selected {
                Some(i) => if i == usize::MAX {
                    i
                } else {
                    (i + 1) as usize
                },
                None => 0usize,
            },
        ),
{
    let mut state = TableState::new().with_selected(selected);
    state.select_next();
    state.selected()
}

/// `TableState::select_previous`: the selection moves one row up (stopping at
/// the first row), or to `usize::MAX` when nothing is selected.
#[verifier::external_body]
fn table_select_previous(selected: Option<usize>) -> (r: Option<usize>)
    ensures
        r == Some(
            match selected {
                Some(i) => if i == 0 {
                    0usize
                } else {
                    (i - 1) as usize
                },
                None => usize::MAX,
            },
        ),
{
    let mut state = TableState::new().with_selected(selected);
    state.select_previous();
    state.selected()
}

/// `TableState::scroll_down_by`: the selection (row 0 when none) moves
/// `amount` rows down, saturating.
#[verifier::external_body]
fn table_scroll_down_by(selected: Option<usize>, amount: u16) -> (r: Option<usize>)
    ensures
        r == Some(
            (match selected {
                Some(i) => if i + amount > usize::MAX {
                    usize::MAX as int
                } else {
                    i + amount
                },
                None => amount as int,
            }) as usize,
        ),
{
    let mut state = TableState::new().with_selected(selected);
    state.scroll_down_by(amount);
    state.selected()
}

/// `TableState::scroll_up_by`: the selection (row 0 when none) moves `amount`
/// rows up, stopping at the first row.
#[verifier::external_body]
fn table_scroll_up_by(selected: Option<usize>, amount: u16) -> (r: Option<usize>)
    ensures
        r == Some(
            (match selected {
                Some(i) => if i < amount {
                    0
                } else {
                    i - amount
                },
                None => 0,
            }) as usize,
        ),
{
    let mut state = TableState::new().with_selected(selected);
    state.scroll_up_by(amount);
    state.selected()
}

/// `TableState::select_first`: the first row is selected.
#[verifier::external_body]
fn table_select_first(selected: Option<usize>) -> (r: Option<usize>)
    ensures
        r == Some(0usize),
{
    let mut state = TableState::new().with_selected(selected);
    state.select_first();
    state.selected()
}

/// `TableState::select`: the given row (or none) is selected.
#[verifier::external_body]
fn table_select(selected: Option<usize>, index: Option<usize>) -> (r: Option<usize>)
    ensures
        r == index,
{
    let mut state = TableState::new().with_selected(selected);
    state.select(index);
    state.selected()
}

/// The selection kept inside `len` rows: none for an empty table, the first
/// row when nothing was selected, the last row when past the end.
pub open spec fn clamp_selection_of(sel: Option<usize>, len: nat) -> Option<usize> {
    if len == 0 {
        None
    } else {
        match sel {
            None => Some(0),
            Some(i) => if i >= len {
                Some((len - 1) as usize)
            } else {
                Some(i)
            },
        }
    }
}

/// Whether a selection fits a table of `len` rows: none exactly when the
/// table is empty, otherwise a row of the table.
pub open spec fn selection_fits(sel: Option<usize>, len: nat) -> bool {
    &&& (sel is None <==> len == 0)
    &&& (sel matches Some(i) ==> i < len)
}

/// The selection after a scroll action on a table of `len` rows (an empty
/// table ignores scrolling).
pub open spec fn scrolled(sel: Option<usize>, len: nat, a: Action) -> Option<usize> {
    if len == 0 {
        sel
    } else {
        match a {
            Action::ScrollDown(by) => clamp_selection_of(
                Some(
                    if by == 1 {
                        match sel {
                            Some(i) => if i == usize::MAX {
                                i
                            } else {
                                (i + 1) as usize
                            },
                            None => 0usize,
                        }
                    } else {
                        (match sel {
                            Some(i) => if i + by > usize::MAX {
                                usize::MAX as int
                            } else {
                                i + by
                            },
                            None => by as int,
                        }) as usize
                    },
                ),
                len,
            ),
            Action::ScrollUp(by) => Some(
                if by == 1 {
                    match sel {
                        Some(i) => if i == 0 {
                            0usize
                        } else {
                            (i - 1) as usize
                        },
                        None => usize::MAX,
                    }
                } else {
                    (match sel {
                        Some(i) => if i < by {
                            0
                        } else {
                            i - by
                        },
                        None => 0,
                    }) as usize
                },
            ),
            Action::Home => Some(0usize),
            Action::End => Some((len - 1) as usize),
            _ => sel,
        }
    }
}

/// Every action keeps a fitting selection fitting: scrolling never leaves
/// the table, and an empty table keeps no selection.
pub proof fn lemma_scroll_keeps_selection(sel: Option<usize>, len: nat, a: Action)
    requires
        selection_fits(sel, len),
        len <= usize::MAX,
    ensures
        selection_fits(scrolled(sel, len, a), len),
{
}

/// Clamping always gives a fitting selection, and leaves a fitting one as it is.
pub proof fn lemma_clamp_selection(sel: Option<usize>, len: nat)
    requires
        len <= usize::MAX,
    ensures
        selection_fits(clamp_selection_of(sel, len), len),
        selection_fits(sel, len) ==> clamp_selection_of(sel, len) == sel,
{
}

// ─── Refresh interval ─────────────────────────────────────────────────────────

/// The refresh interval in whole seconds, at least [`MIN_INTERVAL_SECS`].
pub open spec fn interval_secs_of(interval: u64) -> u64 {
    if interval >= MIN_INTERVAL_SECS {
        interval
    } else {
        MIN_INTERVAL_SECS
    }
}

/// The interval after `+`: one second longer, unless already at or beyond
/// [`MAX_INTERVAL_SECS`].
pub open spec fn slower_of(interval: u64) -> u64 {
    if interval_secs_of(interval) < MAX_INTERVAL_SECS {
        (interval_secs_of(interval) + 1) as u64
    } else {
        interval
    }
}

/// The interval after `-`: one second shorter, kept within
/// [`MIN_INTERVAL_SECS`]`..=`[`MAX_INTERVAL_SECS`].
pub open spec fn faster_of(interval: u64) -> u64 {
    let s = (interval_secs_of(interval) - 1) as u64;
    if s < MIN_INTERVAL_SECS {
        MIN_INTERVAL_SECS
    } else if s > MAX_INTERVAL_SECS {
        MAX_INTERVAL_SECS
    } else {
        s
    }
}

/// `+` never shortens the refresh interval and `-` never lengthens one within
/// range; after `-` the interval is always within the adjustable range, and
/// `+` keeps an interval within that range.
pub proof fn lemma_interval_keys(interval: u64)
    ensures
        interval_secs_of(slower_of(interval)) >= interval_secs_of(interval),
        MIN_INTERVAL_SECS <= faster_of(interval) <= MAX_INTERVAL_SECS,
        interval_secs_of(interval) <= MAX_INTERVAL_SECS ==> faster_of(interval) <= interval_secs_of(
            interval,
        ),
        interval_secs_of(interval) <= MAX_INTERVAL_SECS ==> MIN_INTERVAL_SECS <= slower_of(interval)
            <= MAX_INTERVAL_SECS,
{
}

// ─── Application state ────────────────────────────────────────────────────────

/// The hottest reading among `temps`, in thousandths of a degree.
pub open spec fn max_milli(temps: Seq<TempReading>) -> Option<i64>
    decreases temps.len(),
{
    if temps.len() == 0 {
        None
    } else {
        match max_milli(temps.drop_last()) {
            None => Some(temps.last().milli_celsius),
            Some(m) => if m >= temps.last().milli_celsius {
                Some(m)
            } else {
                Some(temps.last().milli_celsius)
            },
        }
    }
}

/// RAM in use (total − available, 0 if more is available), in kilobytes.
pub open spec fn used_kb_of(s: Snapshot) -> u64 {
    if s.mem.total_kb >= s.mem.available_kb {
        (s.mem.total_kb - s.mem.available_kb) as u64
    } else {
        0
    }
}

/// The number of rows of the process table: one per process, or one per
/// distinct process name when grouped.
pub open spec fn row_count_of(s: Snapshot, grouped: bool) -> nat {
    if grouped {
        group_by_name_of(procs_view(s.top_consumers@)).len()
    } else {
        s.top_consumers@.len()
    }
}

/// The process table never has more rows than there are processes.
proof fn lemma_row_count_bound(s: Snapshot, grouped: bool)
    ensures
        row_count_of(s, grouped) <= s.top_consumers@.len(),
        row_count_of(s, grouped) <= usize::MAX,
{
    lemma_group_by_name(procs_view(s.top_consumers@));
    assert(s.top_consumers.len() == s.top_consumers@.len());
}

/// The samples that a snapshot adds to the usage and temperature histories.
pub open spec fn usage_sample(s: Snapshot) -> u64 {
    usage_percent_of(used_kb_of(s), s.mem.total_kb) as u64
}

/// Complete interface state: the latest snapshot, sparkline histories, the
/// selected tab, process-table selection and the refresh interval.
#[derive(Debug)]
pub struct App {
    /// Latest data. Static fields (`dimms`, `array`, `mobo`, `pi`) come from
    /// the one-off startup collection and are never overwritten.
    pub snapshot: Snapshot,
    /// Currently selected tab.
    pub tab: Tab,
    /// Data refresh interval, in seconds.
    pub interval: u64,
    /// Set once the user asks to quit; the event loop exits on the next pass.
    pub quit: bool,
    /// Whether the help overlay is visible.
    pub show_help: bool,
    /// Set by `r`; the event loop refreshes immediately and clears it.
    pub force_refresh: bool,
    /// RAM usage percentage (0–100) over the last [`HISTORY_LEN`] ticks.
    pub used_history: History,
    /// Maximum RAM temperature (whole °C) over the last [`HISTORY_LEN`] ticks.
    pub temp_history: History,
    /// Number of data refreshes applied since startup.
    pub updates: u64,
    /// Selected row of the Processes table.
    pub selected: Option<usize>,
    /// Whether the Processes table is grouped by process name.
    pub grouped: bool,
}

impl App {
    /// The invariant that every operation keeps: the process-table selection
    /// fits the table (grouped or not), the interval is at least [`MIN_INTERVAL_SECS`], both
    /// histories have capacity [`HISTORY_LEN`] and hold no more than that, and
    /// every usage sample is a percentage.
    pub open spec fn wf(&self) -> bool {
        &&& selection_fits(self.selected, row_count_of(self.snapshot, self.grouped))
        &&& self.interval >= MIN_INTERVAL_SECS
        &&& self.used_history.max_len() == HISTORY_LEN
        &&& self.temp_history.max_len() == HISTORY_LEN
        &&& self.used_history@.len() <= HISTORY_LEN
        &&& self.temp_history@.len() <= HISTORY_LEN
        &&& forall|i: int| 0 <= i < self.used_history@.len() ==> self.used_history@[i] <= 100
    }

    /// Build the initial state from the startup snapshot and the refresh
    /// interval in seconds (raised to at least [`MIN_INTERVAL_SECS`]; an
    /// interval above [`MAX_INTERVAL_SECS`] is kept).
    pub fn new(snapshot: Snapshot, interval: u64) -> (app: App)
        ensures
            app.snapshot == snapshot,
            app.tab == Tab::Overview,
            app.interval == interval_secs_of(interval),
            !app.quit && !app.show_help && !app.force_refresh,
            app.updates == 0,
            app.used_history@ == seq![usage_sample(snapshot)],
            app.used_history.max_len() == HISTORY_LEN,
            app.temp_history@ == (match max_milli(snapshot.temps@) {
                Some(m) => seq![temp_sample_of(m) as u64],
                None => Seq::<u64>::empty(),
            }),
            app.temp_history.max_len() == HISTORY_LEN,
            app.selected == clamp_selection_of(Some(0), snapshot.top_consumers@.len()),
            !app.grouped,
            app.wf(),
    {
        let secs = if interval >= MIN_INTERVAL_SECS {
            interval
        } else {
            MIN_INTERVAL_SECS
        };
        let mut app = App {
            snapshot,
            tab: Tab::Overview,
            interval: secs,
            quit: false,
            show_help: false,
            force_refresh: false,
            used_history: History::new(HISTORY_LEN),
            temp_history: History::new(HISTORY_LEN),
            updates: 0,
            selected: table_select(None, Some(0)),
            grouped: false,
        };
        app.record_history();
        app.clamp_selection();
        proof {
            assert(app.snapshot.top_consumers.len() == app.snapshot.top_consumers@.len());
            lemma_clamp_selection(Some(0), app.snapshot.top_consumers@.len());
            let used = used_kb_of(snapshot);
            lemma_usage_percent_at_most_100(used, snapshot.mem.total_kb);
        }
        app
    }

    /// Merge a freshly collected dynamic snapshot (`mem`, `temps`,
    /// `top_consumers`) into the state, keeping the static hardware data.
    pub fn apply_dynamic(&mut self, dynamic: Snapshot)
        ensures
            final(self).snapshot.mem == dynamic.mem,
            final(self).snapshot.temps == dynamic.temps,
            final(self).snapshot.top_consumers == dynamic.top_consumers,
            final(self).snapshot.dimms == old(self).snapshot.dimms,
            final(self).snapshot.array == old(self).snapshot.array,
            final(self).snapshot.pi == old(self).snapshot.pi,
            final(self).snapshot.mobo == old(self).snapshot.mobo,
            final(self).updates == (if old(self).updates == u64::MAX {
                u64::MAX
            } else {
                (old(self).updates + 1) as u64
            }),
            final(self).used_history@ == history_push(
                old(self).used_history@,
                usage_sample(dynamic),
                old(self).used_history.max_len(),
            ),
            final(self).used_history.max_len() == old(self).used_history.max_len(),
            final(self).temp_history@ == (match max_milli(dynamic.temps@) {
                Some(m) => history_push(
                    old(self).temp_history@,
                    temp_sample_of(m) as u64,
                    old(self).temp_history.max_len(),
                ),
                None => old(self).temp_history@,
            }),
            final(self).temp_history.max_len() == old(self).temp_history.max_len(),
            final(self).selected == clamp_selection_of(
                old(self).selected,
                row_count_of(dynamic, old(self).grouped),
            ),
            final(self).grouped == old(self).grouped,
            final(self).tab == old(self).tab,
            final(self).interval == old(self).interval,
            final(self).quit == old(self).quit,
            final(self).show_help == old(self).show_help,
            final(self).force_refresh == old(self).force_refresh,
            old(self).wf() ==> final(self).wf(),
    {
        proof {
            lemma_row_count_bound(dynamic, old(self).grouped);
            lemma_clamp_selection(old(self).selected, row_count_of(dynamic, old(self).grouped));
            if old(self).wf() {
                crate::tui::history::lemma_push_bounded(
                    old(self).used_history@,
                    usage_sample(dynamic),
                    HISTORY_LEN as nat,
                );
                lemma_usage_percent_at_most_100(used_kb_of(dynamic), dynamic.mem.total_kb);
                crate::tui::history::lemma_push_within(
                    old(self).used_history@,
                    usage_sample(dynamic),
                    HISTORY_LEN as nat,
                    100,
                );
                if let Some(m) = max_milli(dynamic.temps@) {
                    crate::tui::history::lemma_push_bounded(
                        old(self).temp_history@,
                        temp_sample_of(m) as u64,
                        HISTORY_LEN as nat,
                    );
                }
            }
        }
        self.snapshot.mem = dynamic.mem;
        self.snapshot.temps = dynamic.temps;
        self.snapshot.top_consumers = dynamic.top_consumers;
        self.updates = self.updates.saturating_add(1);
        self.record_history();
        self.clamp_selection();
    }

    /// Push the current usage / temperature samples onto the sparkline rings.
    fn record_history(&mut self)
        ensures
            final(self).grouped == old(self).grouped,
            final(self).used_history@ == history_push(
                old(self).used_history@,
                usage_sample(old(self).snapshot),
                old(self).used_history.max_len(),
            ),
            final(self).used_history.max_len() == old(self).used_history.max_len(),
            final(self).temp_history@ == (match max_milli(old(self).snapshot.temps@) {
                Some(m) => history_push(
                    old(self).temp_history@,
                    temp_sample_of(m) as u64,
                    old(self).temp_history.max_len(),
                ),
                None => old(self).temp_history@,
            }),
            final(self).temp_history.max_len() == old(self).temp_history.max_len(),
            final(self).snapshot == old(self).snapshot,
            final(self).selected == old(self).selected,
            final(self).tab == old(self).tab,
            final(self).interval == old(self).interval,
            final(self).quit == old(self).quit,
            final(self).show_help == old(self).show_help,
            final(self).force_refresh == old(self).force_refresh,
            final(self).updates == old(self).updates,
    {
        let sample = usage_percent(self.used_kb(), self.snapshot.mem.total_kb);
        self.used_history.push(sample);
        if let Some(m) = self.max_temp_milli() {
            self.temp_history.push(temp_sample(m));
        }
    }

    /// Keep the process-table selection inside the current row count.
    fn clamp_selection(&mut self)
        ensures
            final(self).selected == clamp_selection_of(
                old(self).selected,
                row_count_of(old(self).snapshot, old(self).grouped),
            ),
            final(self).grouped == old(self).grouped,
            final(self).snapshot == old(self).snapshot,
            final(self).used_history == old(self).used_history,
            final(self).temp_history == old(self).temp_history,
            final(self).tab == old(self).tab,
            final(self).interval == old(self).interval,
            final(self).quit == old(self).quit,
            final(self).show_help == old(self).show_help,
            final(self).force_refresh == old(self).force_refresh,
            final(self).updates == old(self).updates,
    {
        let len = self.row_count();
        if len == 0 {
            self.selected = table_select(self.selected, None);
        } else {
            match self.selected {
                None => {
                    self.selected = table_select(self.selected, Some(0));
                },
                Some(i) => {
                    if i >= len {
                        self.selected = table_select(self.selected, Some(len - 1));
                    }
                },
            }
        }
    }

    // ─── Derived values ───────────────────────────────────────────────────

    /// The number of rows of the Processes table: one per process, or one per
    /// distinct process name when grouped.
    pub fn row_count(&self) -> (n: usize)
        ensures
            n == row_count_of(self.snapshot, self.grouped),
    {
        if self.grouped {
            group_count(&self.snapshot.top_consumers)
        } else {
            self.snapshot.top_consumers.len()
        }
    }

    /// RAM in use (total − available), in kilobytes.
    pub fn used_kb(&self) -> (r: u64)
        ensures
            r == used_kb_of(self.snapshot),
    {
        self.snapshot.mem.total_kb.saturating_sub(self.snapshot.mem.available_kb)
    }

    /// Swap in use (total − free), in kilobytes.
    pub fn swap_used_kb(&self) -> (r: u64)
        ensures
            r == (if self.snapshot.mem.swap_total_kb >= self.snapshot.mem.swap_free_kb {
                (self.snapshot.mem.swap_total_kb - self.snapshot.mem.swap_free_kb) as u64
            } else {
                0
            }),
    {
        self.snapshot.mem.swap_total_kb.saturating_sub(self.snapshot.mem.swap_free_kb)
    }

    /// The hottest current temperature reading, in thousandths of a degree,
    /// if any sensors were found.
    pub fn max_temp_milli(&self) -> (r: Option<i64>)
        ensures
            r == max_milli(self.snapshot.temps@),
    {
        let temps = &self.snapshot.temps;
        let mut best: Option<i64> = None;
        let mut i: usize = 0;
        assert(temps@.take(0) =~= Seq::<TempReading>::empty());
        while i < temps.len()
            invariant
                i <= temps.len(),
                best == max_milli(temps@.take(i as int)),
            decreases temps.len() - i,
        {
            assert(temps@.take(i + 1).drop_last() =~= temps@.take(i as int));
            let c = temps[i].milli_celsius;
            best = match best {
                None => Some(c),
                Some(m) => if m >= c {
                    Some(m)
                } else {
                    Some(c)
                },
            };
            i = i + 1;
        }
        assert(temps@.take(temps.len() as int) =~= temps@);
        best
    }

    /// Refresh interval in whole seconds (as shown in the footer).
    pub fn interval_secs(&self) -> (r: u64)
        ensures
            r == interval_secs_of(self.interval),
    {
        if self.interval >= MIN_INTERVAL_SECS {
            self.interval
        } else {
            MIN_INTERVAL_SECS
        }
    }

    /// Whether the event loop should collect fresh data now, `elapsed_nanos`
    /// after the last collection: on request, or once the interval has passed.
    pub fn refresh_due(&self, elapsed_nanos: u128) -> (r: bool)
        ensures
            r == (self.force_refresh || elapsed_nanos >= self.interval as int * 1_000_000_000),
    {
        self.force_refresh || elapsed_nanos >= self.interval as u128 * 1_000_000_000
    }

    // ─── State transitions ────────────────────────────────────────────────

    /// Select a tab by zero-based index (out-of-range values are ignored).
    pub fn select_tab(&mut self, index: usize)
        ensures
            final(self).grouped == old(self).grouped,
            final(self).tab == (if index < TAB_COUNT {
                tab_of(index as int)
            } else {
                old(self).tab
            }),
            final(self).snapshot == old(self).snapshot,
            final(self).used_history == old(self).used_history,
            final(self).temp_history == old(self).temp_history,
            final(self).selected == old(self).selected,
            final(self).interval == old(self).interval,
            final(self).quit == old(self).quit,
            final(self).show_help == old(self).show_help,
            final(self).force_refresh == old(self).force_refresh,
            final(self).updates == old(self).updates,
    {
        if index < TAB_COUNT {
            self.tab = Tab::from_index(index);
        }
    }

    /// Move to the next tab, wrapping around.
    pub fn next_tab(&mut self)
        ensures
            final(self).grouped == old(self).grouped,
            final(self).tab == next_tab_of(old(self).tab),
            final(self).snapshot == old(self).snapshot,
            final(self).used_history == old(self).used_history,
            final(self).temp_history == old(self).temp_history,
            final(self).selected == old(self).selected,
            final(self).interval == old(self).interval,
            final(self).quit == old(self).quit,
            final(self).show_help == old(self).show_help,
            final(self).force_refresh == old(self).force_refresh,
            final(self).updates == old(self).updates,
    {
        self.tab = Tab::from_index((self.tab.index() + 1) % TAB_COUNT);
    }

    /// Move to the previous tab, wrapping around.
    pub fn prev_tab(&mut self)
        ensures
            final(self).grouped == old(self).grouped,
            final(self).tab == prev_tab_of(old(self).tab),
            final(self).snapshot == old(self).snapshot,
            final(self).used_history == old(self).used_history,
            final(self).temp_history == old(self).temp_history,
            final(self).selected == old(self).selected,
            final(self).interval == old(self).interval,
            final(self).quit == old(self).quit,
            final(self).show_help == old(self).show_help,
            final(self).force_refresh == old(self).force_refresh,
            final(self).updates == old(self).updates,
    {
        self.tab = Tab::from_index((self.tab.index() + TAB_COUNT - 1) % TAB_COUNT);
    }

    /// Increase the refresh interval by one second, up to [`MAX_INTERVAL_SECS`].
    ///
    /// A no-op once the interval is at (or, via an explicit interval, beyond)
    /// the maximum, so `+` can never shorten the interval.
    pub fn slower(&mut self)
        ensures
            final(self).grouped == old(self).grouped,
            final(self).interval == slower_of(old(self).interval),
            final(self).snapshot == old(self).snapshot,
            final(self).used_history == old(self).used_history,
            final(self).temp_history == old(self).temp_history,
            final(self).selected == old(self).selected,
            final(self).tab == old(self).tab,
            final(self).quit == old(self).quit,
            final(self).show_help == old(self).show_help,
            final(self).force_refresh == old(self).force_refresh,
            final(self).updates == old(self).updates,
    {
        let secs = self.interval_secs();
        if secs < MAX_INTERVAL_SECS {
            self.interval = secs + 1;
        }
    }

    /// Decrease the refresh interval by one second, floored at
    /// [`MIN_INTERVAL_SECS`]; an interval above [`MAX_INTERVAL_SECS`] is pulled
    /// back into the adjustable range.
    pub fn faster(&mut self)
        ensures
            final(self).grouped == old(self).grouped,
            final(self).interval == faster_of(old(self).interval),
            final(self).snapshot == old(self).snapshot,
            final(self).used_history == old(self).used_history,
            final(self).temp_history == old(self).temp_history,
            final(self).selected == old(self).selected,
            final(self).tab == old(self).tab,
            final(self).quit == old(self).quit,
            final(self).show_help == old(self).show_help,
            final(self).force_refresh == old(self).force_refresh,
            final(self).updates == old(self).updates,
    {
        let s = self.interval_secs() - 1;
        self.interval = if s < MIN_INTERVAL_SECS {
            MIN_INTERVAL_SECS
        } else if s > MAX_INTERVAL_SECS {
            MAX_INTERVAL_SECS
        } else {
            s
        };
    }

    /// Move the process-table selection for a scroll action.
    fn scroll(&mut self, a: Action)
        ensures
            final(self).selected == scrolled(
                old(self).selected,
                row_count_of(old(self).snapshot, old(self).grouped),
                a,
            ),
            final(self).grouped == old(self).grouped,
            final(self).snapshot == old(self).snapshot,
            final(self).used_history == old(self).used_history,
            final(self).temp_history == old(self).temp_history,
            final(self).tab == old(self).tab,
            final(self).interval == old(self).interval,
            final(self).quit == old(self).quit,
            final(self).show_help == old(self).show_help,
            final(self).force_refresh == old(self).force_refresh,
            final(self).updates == old(self).updates,
    {
        let len = self.row_count();
        if len == 0 {
            return;
        }
        match a {
            Action::ScrollDown(by) => {
                self.selected = if by == 1 {
                    table_select_next(self.selected)
                } else {
                    table_scroll_down_by(self.selected, by)
                };
                self.clamp_selection();
            },
            Action::ScrollUp(by) => {
                self.selected = if by == 1 {
                    table_select_previous(self.selected)
                } else {
                    table_scroll_up_by(self.selected, by)
                };
            },
            Action::Home => {
                self.selected = table_select_first(self.selected);
            },
            Action::End => {
                self.selected = table_select(self.selected, Some(len - 1));
            },
            _ => {},
        }
    }

    /// Handle one key press: pure state mutation, the event loop only decides
    /// when to call this.
    pub fn on_key(&mut self, key: Key)
        ensures
            final(self).quit == (old(self).quit || action_of(key) == Action::Quit),
            final(self).show_help == (if action_of(key) == Action::ToggleHelp {
                !old(self).show_help
            } else {
                old(self).show_help
            }),
            final(self).force_refresh == (old(self).force_refresh || action_of(key)
                == Action::Refresh),
            final(self).interval == (match action_of(key) {
                Action::Slower => slower_of(old(self).interval),
                Action::Faster => faster_of(old(self).interval),
                _ => old(self).interval,
            }),
            final(self).tab == (match action_of(key) {
                Action::SelectTab(i) => if i < TAB_COUNT {
                    tab_of(i as int)
                } else {
                    old(self).tab
                },
                Action::NextTab => next_tab_of(old(self).tab),
                Action::PrevTab => prev_tab_of(old(self).tab),
                _ => old(self).tab,
            }),
            final(self).grouped == (if action_of(key) == Action::ToggleGroup {
                !old(self).grouped
            } else {
                old(self).grouped
            }),
            final(self).selected == (if action_of(key) == Action::ToggleGroup {
                clamp_selection_of(
                    old(self).selected,
                    row_count_of(old(self).snapshot, !old(self).grouped),
                )
            } else {
                scrolled(
                    old(self).selected,
                    row_count_of(old(self).snapshot, old(self).grouped),
                    action_of(key),
                )
            }),
            final(self).snapshot == old(self).snapshot,
            final(self).used_history == old(self).used_history,
            final(self).temp_history == old(self).temp_history,
            final(self).updates == old(self).updates,
            old(self).wf() ==> final(self).wf(),
    {
        proof {
            lemma_row_count_bound(old(self).snapshot, old(self).grouped);
            lemma_row_count_bound(old(self).snapshot, !old(self).grouped);
            lemma_clamp_selection(
                old(self).selected,
                row_count_of(old(self).snapshot, !old(self).grouped),
            );
            if old(self).wf() {
                lemma_scroll_keeps_selection(
                    old(self).selected,
                    row_count_of(old(self).snapshot, old(self).grouped),
                    action_of(key),
                );
            }
        }
        let a = key_action(key);
        match a {
            Action::Quit => self.quit = true,
            Action::ToggleHelp => self.show_help = !self.show_help,
            Action::Refresh => self.force_refresh = true,
            Action::Slower => self.slower(),
            Action::Faster => self.faster(),
            Action::SelectTab(i) => self.select_tab(i),
            Action::NextTab => self.next_tab(),
            Action::PrevTab => self.prev_tab(),
            Action::ScrollDown(_) | Action::ScrollUp(_) | Action::Home | Action::End => self.scroll(
                a,
            ),
            Action::ToggleGroup => {
                self.grouped = !self.grouped;
                self.clamp_selection();
            },
            Action::Ignore => {},
        }
    }
}

impl Default for App {
    /// The state for an empty snapshot and a two-second interval.
    fn default() -> (app: App)
        ensures
            app.snapshot.top_consumers@.len() == 0,
            app.snapshot.temps@.len() == 0,
            app.snapshot.mem == zero_mem_stats(),
            app.tab == Tab::Overview,
            app.interval == 2,
            !app.quit && !app.show_help && !app.force_refresh,
            app.updates == 0,
            app.selected is None,
            !app.grouped,
            app.used_history@ == seq![0u64],
            app.temp_history@.len() == 0,
            app.wf(),
    {
        App::new(Snapshot::default(), 2)
    }
}

} // verus!
