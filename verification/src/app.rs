//! Application state: navigation, filtering, sorting, folding and kill
//! requests, as a state machine driven by key presses and refreshes.

use vstd::prelude::*;

use crate::model::{session_views, Session, SessionView};
use crate::rows::{
    is_folded, key_views, row_views, session_rows, session_rows_of, session_wf, Row, RowView,
    Sort,
};
use crate::text::{chars_of, decimal, is_whitespace, is_ws, push_char, string_of};
use crate::ui::{Body, Footer};

verus! {

/// A key, as far as the key map tells keys apart.
#[derive(Clone, Copy, PartialEq, Eq, Structural)]
pub enum Key {
    Char(char),
    Esc,
    Enter,
    Backspace,
    Up,
    Down,
    Left,
    Right,
    PageUp,
    PageDown,
    Home,
    End,
    Tab,
    BackTab,
    Other,
}

/// A key press, with whether Ctrl was held.
#[derive(Clone, Copy, PartialEq, Eq, Structural)]
pub struct KeyPress {
    pub code: Key,
    pub ctrl: bool,
}

/// The signal a kill request sends.
#[derive(Clone, Copy, PartialEq, Eq, Structural)]
pub enum Signal {
    Term,
    Kill,
}

/// What the key map does with a key outside filter entry.
#[derive(Clone, Copy, PartialEq, Eq, Structural)]
pub enum Command {
    Quit,
    Up,
    Down,
    HalfPageUp,
    HalfPageDown,
    PageUp,
    PageDown,
    PrevTab,
    NextTab,
    Top,
    Bottom,
    Fold,
    StartFilter,
    ClearFilter,
    SortCpu,
    SortMem,
    Kill(Signal),
    Nothing,
}

/// A request to signal the process of the selected row; `name` is its
/// short name, for the status line.
pub struct KillRequest {
    pub pid: u32,
    pub signal: Signal,
    pub name: String,
}

pub struct KillRequestView {
    pub pid: u32,
    pub signal: Signal,
    pub name: Seq<char>,
}

impl View for KillRequest {
    type V = KillRequestView;

    open spec fn view(&self) -> KillRequestView {
        KillRequestView { pid: self.pid, signal: self.signal, name: self.name@ }
    }
}

/// How sending a signal went: sent, refused, not supported on this
/// platform, or the process was gone.
#[derive(Clone, Copy, PartialEq, Eq, Structural)]
pub enum KillOutcome {
    Sent,
    Failed,
    Unsupported,
    Gone,
}

pub struct App {
    pub sessions: Vec<Session>,
    pub selected_tab: usize,
    pub sort: Sort,
    /// The folded windows, by session name and window index.
    pub collapsed: Vec<(String, u32)>,
    pub filter: String,
    pub filtering: bool,
    pub selected: usize,
    pub status: Option<String>,
    /// How many more refreshes the status message stays.
    pub status_ttl: u8,
    pub should_quit: bool,
    /// Visible list height from the last render, used for page scrolling.
    pub viewport: usize,
}

pub struct AppView {
    pub sessions: Seq<SessionView>,
    pub selected_tab: usize,
    pub sort: Sort,
    pub collapsed: Seq<(Seq<char>, u32)>,
    pub filter: Seq<char>,
    pub filtering: bool,
    pub selected: usize,
    pub status: Option<Seq<char>>,
    pub status_ttl: u8,
    pub should_quit: bool,
    pub viewport: usize,
}

pub open spec fn opt_string_view(o: Option<String>) -> Option<Seq<char>> {
    match o {
        Some(s) => Some(s@),
        None => None,
    }
}

impl View for App {
    type V = AppView;

    open spec fn view(&self) -> AppView {
        AppView {
            sessions: session_views(self.sessions@),
            selected_tab: self.selected_tab,
            sort: self.sort,
            collapsed: key_views(self.collapsed@),
            filter: self.filter@,
            filtering: self.filtering,
            selected: self.selected,
            status: opt_string_view(self.status),
            status_ttl: self.status_ttl,
            should_quit: self.should_quit,
            viewport: self.viewport,
        }
    }
}

/// The footer: the filter while it is typed, else the status message when
/// there is one, else the key help.
pub open spec fn footer_of(v: AppView) -> Footer {
    if v.filtering {
        Footer::Editing
    } else if v.status is Some {
        Footer::Status
    } else {
        Footer::Help { filtered: v.filter.len() > 0 }
    }
}

/// What the list area shows: a note when there are no rows, else the rows
/// with the selection highlighted (the last row where the selection is
/// beyond the end).
pub open spec fn body_of(v: AppView) -> Body {
    let n = app_rows(v).len();
    if n == 0 {
        if v.sessions.len() == 0 {
            Body::NoSessions
        } else {
            Body::NoMatches
        }
    } else if v.selected < n {
        Body::Rows { highlighted: v.selected }
    } else {
        Body::Rows { highlighted: (n - 1) as usize }
    }
}

/// The time between refreshes, in nanoseconds: two seconds.
pub open spec fn tick_nanos() -> u128 {
    2_000_000_000
}

/// How long to wait for a key, in nanoseconds, when `elapsed` nanoseconds
/// have passed since the last refresh: the rest of the tick, if any.
pub fn poll_wait(elapsed: u128) -> (w: u128)
    ensures
        w == if elapsed >= tick_nanos() {
            0
        } else {
            tick_nanos() - elapsed
        },
{
    if elapsed >= 2_000_000_000 {
        0
    } else {
        2_000_000_000 - elapsed
    }
}

/// Whether a refresh is due `elapsed` nanoseconds after the last one.
pub fn refresh_due(elapsed: u128) -> (r: bool)
    ensures
        r == (elapsed >= tick_nanos()),
{
    elapsed >= 2_000_000_000
}

/// Every session's windows hold processes with distinct PIDs whose memory
/// adds up within `u64`, as a session tree built from the process table has.
pub open spec fn sessions_wf(s: Seq<SessionView>) -> bool {
    forall|i: int| 0 <= i < s.len() ==> session_wf(#[trigger] s[i])
}

/// The visible rows: those of the selected session, if there is one.
pub open spec fn app_rows(v: AppView) -> Seq<RowView> {
    if v.selected_tab < v.sessions.len() {
        session_rows(v.sessions[v.selected_tab as int], v.filter, v.sort, v.collapsed)
    } else {
        Seq::empty()
    }
}

pub open spec fn sat_sub(a: int, b: int) -> usize {
    if a >= b {
        (a - b) as usize
    } else {
        0
    }
}

/// The selection moved back onto the last row if it is past it.
pub open spec fn clamped(v: AppView) -> AppView {
    let n = app_rows(v).len();
    if v.selected >= n {
        AppView { selected: sat_sub(n as int, 1), ..v }
    } else {
        v
    }
}

/// Half a page, at least one row.
pub open spec fn half_page_of(v: AppView) -> usize {
    if v.viewport / 2 >= 1 {
        (v.viewport / 2) as usize
    } else {
        1
    }
}

/// A page, at least one row.
pub open spec fn page_of(v: AppView) -> usize {
    if v.viewport >= 1 {
        v.viewport
    } else {
        1
    }
}

/// The next session, wrapping around.
pub open spec fn next_tab_of(v: AppView) -> AppView {
    if v.sessions.len() == 0 {
        v
    } else {
        AppView { selected_tab: ((v.selected_tab + 1) % (v.sessions.len() as int)) as usize, selected: 0, ..v }
    }
}

/// The previous session, wrapping around.
pub open spec fn prev_tab_of(v: AppView) -> AppView {
    if v.sessions.len() == 0 {
        v
    } else {
        AppView {
            selected_tab: ((v.selected_tab + v.sessions.len() - 1) % (v.sessions.len() as int)) as usize,
            selected: 0,
            ..v
        }
    }
}

/// `c` without any entry equal to `key`.
pub open spec fn without(c: Seq<(Seq<char>, u32)>, key: (Seq<char>, u32)) -> Seq<(Seq<char>, u32)>
    decreases c.len(),
{
    if c.len() == 0 {
        c
    } else if c.last() == key {
        without(c.drop_last(), key)
    } else {
        without(c.drop_last(), key).push(c.last())
    }
}

/// Taking entries out keeps a list free of repeats.
proof fn lemma_without_no_duplicates(c: Seq<(Seq<char>, u32)>, key: (Seq<char>, u32))
    requires
        c.no_duplicates(),
    ensures
        without(c, key).no_duplicates(),
        forall|x: (Seq<char>, u32)| without(c, key).contains(x) ==> c.contains(x),
    decreases c.len(),
{
    if c.len() > 0 {
        let d = c.drop_last();
        assert(d.no_duplicates());
        lemma_without_no_duplicates(d, key);
        let w = without(d, key);
        assert forall|x: (Seq<char>, u32)| d.contains(x) implies c.contains(x) by {
            let k = choose|k: int| 0 <= k < d.len() && d[k] == x;
            assert(c[k] == x);
        }
        if c.last() != key {
            assert(!d.contains(c.last())) by {
                if d.contains(c.last()) {
                    let k = choose|k: int| 0 <= k < d.len() && d[k] == c.last();
                    assert(c[k] == c[c.len() - 1]);
                }
            }
            assert(!w.contains(c.last()));
            let wp = w.push(c.last());
            assert forall|a: int, b: int| 0 <= a < b < wp.len() implies wp[a] != wp[b] by {
                if b == w.len() {
                    assert(w.contains(wp[a]));
                }
            }
            assert forall|x: (Seq<char>, u32)| wp.contains(x) implies c.contains(x) by {
                let k = choose|k: int| 0 <= k < wp.len() && wp[k] == x;
                if k < w.len() {
                    assert(w.contains(x));
                } else {
                    assert(c[c.len() - 1] == x);
                }
            }
        }
    }
}

/// Folding or unfolding the window whose header is selected; nothing when
/// the selected row is not a window header.
pub open spec fn toggled(v: AppView) -> AppView {
    let rows = app_rows(v);
    if v.selected < rows.len() {
        match rows[v.selected as int] {
            RowView::Window { key, collapsed, .. } => if collapsed {
                AppView { collapsed: without(v.collapsed, key), ..v }
            } else if v.collapsed.contains(key) {
                v
            } else {
                AppView { collapsed: v.collapsed.push(key), ..v }
            },
            RowView::Proc { .. } => v,
        }
    } else {
        v
    }
}

/// The number of leading characters of `t` that are not white space.
pub open spec fn word_len(t: Seq<char>) -> nat
    decreases t.len(),
{
    if t.len() == 0 || is_ws(t[0]) {
        0
    } else {
        1 + word_len(t.drop_first())
    }
}

/// The first white-space separated word of `s`, or all of `s` if it has
/// none.
pub open spec fn first_word(s: Seq<char>) -> Seq<char> {
    let t = crate::text::trim_start(s);
    if t.len() == 0 {
        s
    } else {
        t.take(word_len(t) as int)
    }
}

/// What follows the last `'/'` of `s` (all of `s` if it has none).
pub open spec fn after_last_slash(s: Seq<char>) -> Seq<char>
    decreases s.len(),
{
    if s.len() == 0 {
        s
    } else if s.last() == '/' {
        Seq::empty()
    } else {
        after_last_slash(s.drop_last()).push(s.last())
    }
}

/// A short, human-friendly process name: the base name of the command's
/// first word, at most 40 characters.
pub open spec fn short_name(cmd: Seq<char>) -> Seq<char> {
    let base = after_last_slash(first_word(cmd));
    if base.len() <= 40 {
        base
    } else {
        base.take(40)
    }
}

/// The process to signal: that of the selected row, if it is a process row.
pub open spec fn kill_target(v: AppView, sig: Signal) -> Option<KillRequestView> {
    let rows = app_rows(v);
    if v.selected < rows.len() {
        match rows[v.selected as int] {
            RowView::Proc { proc, .. } => Some(
                KillRequestView { pid: proc.pid, signal: sig, name: short_name(proc.command) },
            ),
            RowView::Window { .. } => None,
        }
    } else {
        None
    }
}

/// The key map outside filter entry.
pub open spec fn command_of(k: KeyPress) -> Command {
    match k.code {
        Key::Char(c) => if c == 'c' && k.ctrl {
            Command::Quit
        } else if c == 'q' {
            Command::Quit
        } else if c == 'k' {
            Command::Up
        } else if c == 'j' {
            Command::Down
        } else if c == 'u' && k.ctrl {
            Command::HalfPageUp
        } else if c == 'd' && k.ctrl {
            Command::HalfPageDown
        } else if c == 'h' {
            Command::PrevTab
        } else if c == 'l' {
            Command::NextTab
        } else if c == 'g' {
            Command::Top
        } else if c == 'G' {
            Command::Bottom
        } else if c == ' ' {
            Command::Fold
        } else if c == '/' {
            Command::StartFilter
        } else if c == 'p' || c == 'P' {
            Command::SortCpu
        } else if c == 'm' || c == 'M' {
            Command::SortMem
        } else if c == 'x' {
            Command::Kill(Signal::Kill)
        } else if c == 't' {
            Command::Kill(Signal::Term)
        } else {
            Command::Nothing
        },
        Key::Up => Command::Up,
        Key::Down => Command::Down,
        Key::PageUp => Command::PageUp,
        Key::PageDown => Command::PageDown,
        Key::Left => Command::PrevTab,
        Key::BackTab => Command::PrevTab,
        Key::Right => Command::NextTab,
        Key::Tab => Command::NextTab,
        Key::Home => Command::Top,
        Key::End => Command::Bottom,
        Key::Enter => Command::Fold,
        Key::Esc => Command::ClearFilter,
        _ => Command::Nothing,
    }
}

/// The state after command `c`, before the selection is clamped.
pub open spec fn apply(v: AppView, c: Command) -> AppView {
    match c {
        Command::Quit => AppView { should_quit: true, ..v },
        Command::Up => AppView { selected: sat_sub(v.selected as int, 1), ..v },
        Command::Down => AppView { selected: (v.selected + 1) as usize, ..v },
        Command::HalfPageUp => AppView { selected: sat_sub(v.selected as int, half_page_of(v) as int), ..v },
        Command::HalfPageDown => AppView { selected: (v.selected + half_page_of(v)) as usize, ..v },
        Command::PageUp => AppView { selected: sat_sub(v.selected as int, v.viewport as int), ..v },
        Command::PageDown => AppView { selected: (v.selected + page_of(v)) as usize, ..v },
        Command::PrevTab => prev_tab_of(v),
        Command::NextTab => next_tab_of(v),
        Command::Top => AppView { selected: 0, ..v },
        Command::Bottom => AppView { selected: sat_sub(app_rows(v).len() as int, 1), ..v },
        Command::Fold => toggled(v),
        Command::StartFilter => AppView { filtering: true, ..v },
        Command::ClearFilter => AppView { filter: Seq::empty(), ..v },
        Command::SortCpu => AppView { sort: Sort::Cpu, ..v },
        Command::SortMem => AppView { sort: Sort::Mem, ..v },
        Command::Kill(_) => v,
        Command::Nothing => v,
    }
}

/// The state after a key typed while the filter is being entered, before
/// the selection is clamped.
pub open spec fn filter_key(v: AppView, k: KeyPress) -> AppView {
    match k.code {
        Key::Esc => AppView { filtering: false, filter: Seq::empty(), ..v },
        Key::Enter => AppView { filtering: false, ..v },
        Key::Backspace => AppView {
            filter: if v.filter.len() > 0 {
                v.filter.drop_last()
            } else {
                v.filter
            },
            ..v
        },
        Key::Char(c) => AppView { filter: v.filter.push(c), selected: 0, ..v },
        _ => v,
    }
}

/// What a key press does: the next state, and the kill request it makes.
pub open spec fn step(v: AppView, k: KeyPress) -> (AppView, Option<KillRequestView>) {
    if v.filtering {
        (clamped(filter_key(v, k)), None)
    } else {
        let c = command_of(k);
        (
            clamped(apply(v, c)),
            match c {
                Command::Kill(sig) => kill_target(v, sig),
                _ => None,
            },
        )
    }
}

/// A key press that would not overflow the selection or the tab index.
pub open spec fn key_in_range(v: AppView, k: KeyPress) -> bool {
    !v.filtering ==> match command_of(k) {
        Command::Down => v.selected + 1 <= usize::MAX,
        Command::HalfPageDown => v.selected + half_page_of(v) <= usize::MAX,
        Command::PageDown => v.selected + page_of(v) <= usize::MAX,
        Command::NextTab => v.sessions.len() > 0 ==> v.selected_tab + 1 <= usize::MAX,
        Command::PrevTab => v.selected_tab + v.sessions.len() <= usize::MAX,
        _ => true,
    }
}

/// The first session marked current.
pub open spec fn first_current(s: Seq<SessionView>) -> Option<int>
    decreases s.len(),
{
    if s.len() == 0 {
        None
    } else {
        match first_current(s.drop_last()) {
            Some(i) => Some(i),
            None => if s.last().current {
                Some(s.len() - 1)
            } else {
                None
            },
        }
    }
}

/// The first session named `name`.
pub open spec fn find_session(s: Seq<SessionView>, name: Seq<char>) -> Option<int>
    decreases s.len(),
{
    if s.len() == 0 {
        None
    } else {
        match find_session(s.drop_last(), name) {
            Some(i) => Some(i),
            None => if s.last().name == name {
                Some(s.len() - 1)
            } else {
                None
            },
        }
    }
}

/// The state of a new viewer over `sessions`: the current session selected
/// (the first if none is current), sorted by CPU, nothing folded or
/// filtered, a 20-row page.
pub open spec fn initial(sessions: Seq<SessionView>) -> AppView {
    AppView {
        sessions,
        selected_tab: match first_current(sessions) {
            Some(i) => i as usize,
            None => 0,
        },
        sort: Sort::Cpu,
        collapsed: Seq::empty(),
        filter: Seq::empty(),
        filtering: false,
        selected: 0,
        status: None,
        status_ttl: 0,
        should_quit: false,
        viewport: 20,
    }
}

/// New sessions in place of the old, the same session kept selected (by
/// name) where it still exists, and the tab index kept in range.
pub open spec fn retabbed(v: AppView, fresh: Seq<SessionView>) -> AppView {
    let tab1: usize = if v.selected_tab < v.sessions.len() {
        match find_session(fresh, v.sessions[v.selected_tab as int].name) {
            Some(p) => p as usize,
            None => v.selected_tab,
        }
    } else {
        v.selected_tab
    };
    let tab2: usize = if tab1 >= fresh.len() {
        sat_sub(fresh.len() as int, 1)
    } else {
        tab1
    };
    AppView { sessions: fresh, selected_tab: tab2, ..v }
}

/// The state after a refresh: new sessions where tmux answered, the
/// selection clamped, and the status message one refresh older (it goes
/// when its time is up).
pub open spec fn refreshed(v: AppView, fresh: Option<Seq<SessionView>>) -> AppView {
    let v1 = match fresh {
        Some(f) => retabbed(v, f),
        None => v,
    };
    let v2 = clamped(v1);
    if v2.status_ttl > 0 {
        let ttl = (v2.status_ttl - 1) as u8;
        AppView {
            status_ttl: ttl,
            status: if ttl == 0 {
                None
            } else {
                v2.status
            },
            ..v2
        }
    } else {
        v2
    }
}

pub open spec fn signal_label(s: Signal) -> Seq<char> {
    match s {
        Signal::Kill => "SIGKILL"@,
        Signal::Term => "SIGTERM"@,
    }
}

/// The status line after a kill request went out.
pub open spec fn kill_message(req: KillRequestView, outcome: KillOutcome) -> Seq<char> {
    let label = signal_label(req.signal);
    match outcome {
        KillOutcome::Sent => "Sent "@ + label + " → "@ + decimal(req.pid as nat) + " "@ + req.name,
        KillOutcome::Failed => "Failed to send "@ + label + " → "@ + decimal(req.pid as nat),
        KillOutcome::Unsupported => label + " unsupported on this platform"@,
        KillOutcome::Gone => "PID "@ + decimal(req.pid as nat) + " no longer exists"@,
    }
}

/// How long a status message stays, in refreshes.
pub open spec fn status_refreshes() -> u8 {
    3
}

/// `s` without its last character, if it has one.
fn pop_char(s: &mut String)
    ensures
        final(s)@ == if old(s)@.len() > 0 {
            old(s)@.drop_last()
        } else {
            old(s)@
        },
{
    let v = chars_of(s.as_str());
    if v.len() > 0 {
        *s = string_of(&v, 0, v.len() - 1);
        proof {
            assert(v@.subrange(0, v@.len() - 1) =~= v@.drop_last());
        }
    }
}

/// The key map outside filter entry.
pub fn command(k: KeyPress) -> (c: Command)
    ensures
        c == command_of(k),
{
    match k.code {
        Key::Char('c') if k.ctrl => Command::Quit,
        Key::Char('q') => Command::Quit,
        Key::Up | Key::Char('k') => Command::Up,
        Key::Down | Key::Char('j') => Command::Down,
        Key::Char('u') if k.ctrl => Command::HalfPageUp,
        Key::Char('d') if k.ctrl => Command::HalfPageDown,
        Key::PageUp => Command::PageUp,
        Key::PageDown => Command::PageDown,
        Key::Left | Key::Char('h') | Key::BackTab => Command::PrevTab,
        Key::Right | Key::Char('l') | Key::Tab => Command::NextTab,
        Key::Home | Key::Char('g') => Command::Top,
        Key::End | Key::Char('G') => Command::Bottom,
        Key::Enter | Key::Char(' ') => Command::Fold,
        Key::Char('/') => Command::StartFilter,
        Key::Esc => Command::ClearFilter,
        Key::Char('p') | Key::Char('P') => Command::SortCpu,
        Key::Char('m') | Key::Char('M') => Command::SortMem,
        Key::Char('x') => Command::Kill(Signal::Kill),
        Key::Char('t') => Command::Kill(Signal::Term),
        _ => Command::Nothing,
    }
}

/// Short, human-friendly process name for status messages.
pub fn short(cmd: &str) -> (r: String)
    ensures
        r@ == short_name(cmd@),
{
    let v = chars_of(cmd);
    let n = v.len();
    // the first word
    let mut a: usize = 0;
    while a < n && is_whitespace(v[a])
        invariant
            0 <= a <= n == v@.len(),
            forall|k: int| 0 <= k < a ==> is_ws(#[trigger] v@[k]),
        decreases n - a,
    {
        a += 1;
    }
    let mut b: usize = a;
    while b < n && !is_whitespace(v[b])
        invariant
            a <= b <= n == v@.len(),
            forall|k: int| a <= k < b ==> !is_ws(#[trigger] v@[k]),
        decreases n - b,
    {
        b += 1;
    }
    let (lo, hi) = if a == n {
        (0, n)
    } else {
        (a, b)
    };
    proof {
        crate::text::lemma_trim_start_skip(v@, a as int);
        let t = v@.skip(a as int);
        if a < n {
            assert(t[0] == v@[a as int]);
            assert(!is_ws(t[0]));
        }
        assert(crate::text::trim_start(t) == t);
        if a < n {
            lemma_word_len(t, (b - a) as int);
            assert(t.take((b - a) as int) =~= v@.subrange(a as int, b as int));
        } else {
            assert(v@.subrange(0, n as int) =~= v@);
        }
        assert(first_word(v@) == v@.subrange(lo as int, hi as int));
    }
    // what follows the last '/'
    let mut c = hi;
    while c > lo && v[c - 1] != '/'
        invariant
            lo <= c <= hi <= n == v@.len(),
            forall|k: int| c <= k < hi ==> #[trigger] v@[k] != '/',
        decreases c - lo,
    {
        c -= 1;
    }
    proof {
        lemma_after_last_slash(v@.subrange(lo as int, hi as int), (c - lo) as int);
        assert(v@.subrange(lo as int, hi as int).skip((c - lo) as int) =~= v@.subrange(c as int, hi as int));
    }
    let end = if hi - c <= 40 {
        hi
    } else {
        c + 40
    };
    proof {
        if hi - c > 40 {
            assert(v@.subrange(c as int, hi as int).take(40) =~= v@.subrange(c as int, c + 40));
        }
    }
    string_of(&v, c, end)
}

proof fn lemma_word_len(t: Seq<char>, w: int)
    requires
        0 <= w <= t.len(),
        forall|k: int| 0 <= k < w ==> !is_ws(#[trigger] t[k]),
        w == t.len() || is_ws(t[w]),
    ensures
        word_len(t) == w,
    decreases w,
{
    if w > 0 {
        assert forall|k: int| 0 <= k < w - 1 implies !is_ws(#[trigger] t.drop_first()[k]) by {
            assert(t.drop_first()[k] == t[k + 1]);
        }
        if w < t.len() {
            assert(t.drop_first()[w - 1] == t[w]);
        }
        lemma_word_len(t.drop_first(), w - 1);
    }
}

proof fn lemma_after_last_slash(s: Seq<char>, c: int)
    requires
        0 <= c <= s.len(),
        forall|k: int| c <= k < s.len() ==> #[trigger] s[k] != '/',
        c == 0 || s[c - 1] == '/',
    ensures
        after_last_slash(s) == s.skip(c),
    decreases s.len(),
{
    if s.len() > c {
        lemma_after_last_slash(s.drop_last(), c);
        assert(s.drop_last().skip(c).push(s.last()) =~= s.skip(c));
    } else if s.len() > 0 {
        assert(s.skip(c) =~= Seq::<char>::empty());
    } else {
        assert(s.skip(c) =~= s);
    }
}

/// `c` without the entries equal to `(name, index)`.
fn remove_key(c: &Vec<(String, u32)>, name: &String, index: u32) -> (r: Vec<(String, u32)>)
    ensures
        key_views(r@) == without(key_views(c@), (name@, index)),
{
    let ghost cv = key_views(c@);
    let mut r: Vec<(String, u32)> = Vec::new();
    let mut i: usize = 0;
    while i < c.len()
        invariant
            0 <= i <= c.len(),
            cv == key_views(c@),
            key_views(r@) == without(cv.take(i as int), (name@, index)),
        decreases c.len() - i,
    {
        proof {
            assert(cv.take(i + 1).drop_last() =~= cv.take(i as int));
            assert(cv.take(i + 1).last() == cv[i as int]);
            assert(cv[i as int] == (c@[i as int].0@, c@[i as int].1));
        }
        if !(c[i].1 == index && c[i].0 == *name) {
            let ghost before = key_views(r@);
            r.push((c[i].0.clone(), c[i].1));
            proof {
                assert(key_views(r@) =~= before.push(cv[i as int]));
            }
        }
        i += 1;
    }
    proof {
        assert(cv.take(i as int) =~= cv);
    }
    r
}

fn signal_label_str(sig: Signal) -> (r: &'static str)
    ensures
        r@ == signal_label(sig),
{
    match sig {
        Signal::Kill => "SIGKILL",
        Signal::Term => "SIGTERM",
    }
}

impl App {
    /// The sessions hold windows whose processes have distinct PIDs and
    /// whose memory adds up within `u64`.
    pub open spec fn wf(&self) -> bool {
        &&& sessions_wf(self@.sessions)
        &&& self@.collapsed.no_duplicates()
    }

    /// A viewer over `sessions` with the current session selected.
    pub fn new(sessions: Vec<Session>) -> (app: App)
        requires
            sessions_wf(session_views(sessions@)),
        ensures
            app@ == initial(session_views(sessions@)),
            app.wf(),
    {
        let ghost sv = session_views(sessions@);
        let mut tab: usize = 0;
        let mut found = false;
        let mut i: usize = 0;
        while i < sessions.len()
            invariant
                0 <= i <= sessions.len(),
                sv == session_views(sessions@),
                found == first_current(sv.take(i as int)) is Some,
                found ==> first_current(sv.take(i as int)) == Some(tab as int),
                !found ==> tab == 0,
            decreases sessions.len() - i,
        {
            proof {
                assert(sv.take(i + 1).drop_last() =~= sv.take(i as int));
                assert(sv.take(i + 1).last() == sessions@[i as int]@);
            }
            if !found && sessions[i].current {
                tab = i;
                found = true;
            }
            i += 1;
        }
        proof {
            assert(sv.take(i as int) =~= sv);
        }
        let app = App {
            sessions,
            selected_tab: tab,
            sort: Sort::Cpu,
            collapsed: Vec::new(),
            filter: String::new(),
            filtering: false,
            selected: 0,
            status: None,
            status_ttl: 0,
            should_quit: false,
            viewport: 20,
        };
        proof {
            assert(key_views(app.collapsed@) =~= Seq::<(Seq<char>, u32)>::empty());
            assert(app@ =~= initial(sv));
        }
        app
    }

    /// The visible rows: a header per window of the selected session
    /// followed by its processes laid out as a tree, honoring the filter,
    /// the sort order and the folded windows.
    pub fn rows(&self) -> (rows: Vec<Row>)
        requires
            self.wf(),
        ensures
            row_views(rows@) == app_rows(self@),
    {
        if self.selected_tab < self.sessions.len() {
            proof {
                assert(self@.sessions[self.selected_tab as int] == self.sessions@[self.selected_tab as int]@);
            }
            session_rows_of(&self.sessions[self.selected_tab], &self.filter, self.sort, &self.collapsed)
        } else {
            let r: Vec<Row> = Vec::new();
            proof {
                assert(row_views(r@) =~= Seq::<RowView>::empty());
            }
            r
        }
    }

    fn clamp(&mut self)
        requires
            old(self).wf(),
        ensures
            final(self)@ == clamped(old(self)@),
            final(self).wf(),
    {
        let n = self.rows().len();
        if self.selected >= n {
            self.selected = if n >= 1 { n - 1 } else { 0 };
        }
    }

    /// Records the visible list height, so page scrolling moves by a real
    /// page.
    pub fn set_viewport(&mut self, rows: usize)
        ensures
            final(self)@ == (AppView { viewport: rows, ..old(self)@ }),
            half_page_of(final(self)@) == if rows / 2 >= 1 {
                rows / 2
            } else {
                1
            },
    {
        self.viewport = rows;
    }

    fn half_page(&self) -> (r: usize)
        ensures
            r == half_page_of(self@),
    {
        let h = self.viewport / 2;
        if h >= 1 {
            h
        } else {
            1
        }
    }

    fn next_tab(&mut self)
        requires
            old(self)@.sessions.len() > 0 ==> old(self)@.selected_tab + 1 <= usize::MAX,
        ensures
            final(self)@ == next_tab_of(old(self)@),
    {
        if self.sessions.len() > 0 {
            self.selected_tab = (self.selected_tab + 1) % self.sessions.len();
            self.selected = 0;
        }
    }

    fn prev_tab(&mut self)
        requires
            old(self)@.selected_tab + old(self)@.sessions.len() <= usize::MAX,
        ensures
            final(self)@ == prev_tab_of(old(self)@),
    {
        if self.sessions.len() > 0 {
            let n = self.sessions.len();
            self.selected_tab = (self.selected_tab + n - 1) % n;
            self.selected = 0;
        }
    }

    fn toggle_fold(&mut self)
        requires
            old(self).wf(),
        ensures
            final(self)@ == toggled(old(self)@),
            final(self).wf(),
    {
        let rows = self.rows();
        if self.selected < rows.len() {
            match &rows[self.selected] {
                Row::Window { key, collapsed, .. } => {
                    if *collapsed {
                        proof {
                            lemma_without_no_duplicates(key_views(self.collapsed@), (key.0@, key.1));
                        }
                        self.collapsed = remove_key(&self.collapsed, &key.0, key.1);
                    } else if !is_folded(&self.collapsed, &key.0, key.1) {
                        let ghost before = key_views(self.collapsed@);
                        self.collapsed.push((key.0.clone(), key.1));
                        proof {
                            let after = before.push((key.0@, key.1));
                            assert(key_views(self.collapsed@) =~= after);
                            assert forall|a: int, b: int| 0 <= a < b < after.len() implies after[a]
                                != after[b] by {
                                if b == before.len() {
                                    assert(before.contains(after[a]));
                                }
                            }
                        }
                    }
                },
                Row::Proc { .. } => {},
            }
        }
    }

    fn kill_target(&self, sig: Signal) -> (r: Option<KillRequest>)
        requires
            self.wf(),
        ensures
            match r {
                Some(q) => kill_target(self@, sig) == Some(q@),
                None => kill_target(self@, sig) is None,
            },
    {
        let rows = self.rows();
        if self.selected < rows.len() {
            match &rows[self.selected] {
                Row::Proc { proc, .. } => {
                    Some(KillRequest { pid: proc.pid, signal: sig, name: short(proc.command.as_str()) })
                },
                Row::Window { .. } => None,
            }
        } else {
            None
        }
    }

    /// What the list area shows.
    pub fn body(&self) -> (b: Body)
        requires
            self.wf(),
        ensures
            b == body_of(self@),
    {
        let n = self.rows().len();
        if n == 0 {
            if self.sessions.len() == 0 {
                Body::NoSessions
            } else {
                Body::NoMatches
            }
        } else if self.selected < n {
            Body::Rows { highlighted: self.selected }
        } else {
            Body::Rows { highlighted: n - 1 }
        }
    }

    /// What the footer line shows.
    pub fn footer(&self) -> (f: Footer)
        ensures
            f == footer_of(self@),
    {
        if self.filtering {
            Footer::Editing
        } else if self.status.is_some() {
            Footer::Status
        } else {
            Footer::Help { filtered: self.filter.as_str().unicode_len() > 0 }
        }
    }

    /// Whether `on_key` can take `key` without the selection or the tab
    /// index overflowing.
    pub fn accepts(&self, key: KeyPress) -> (r: bool)
        ensures
            r == key_in_range(self@, key),
    {
        if self.filtering {
            return true;
        }
        match command(key) {
            Command::Down => self.selected < usize::MAX,
            Command::HalfPageDown => self.selected <= usize::MAX - self.half_page(),
            Command::PageDown => {
                let h = if self.viewport >= 1 { self.viewport } else { 1 };
                self.selected <= usize::MAX - h
            },
            Command::NextTab => self.sessions.len() == 0 || self.selected_tab < usize::MAX,
            Command::PrevTab => self.selected_tab <= usize::MAX - self.sessions.len(),
            _ => true,
        }
    }

    /// Handles a key press; a kill key hands back the request to signal the
    /// selected process, for the caller to carry out and report with
    /// `record_kill`.
    pub fn on_key(&mut self, key: KeyPress) -> (req: Option<KillRequest>)
        requires
            old(self).wf(),
            key_in_range(old(self)@, key),
        ensures
            final(self).wf(),
            final(self)@ == step(old(self)@, key).0,
            match req {
                Some(q) => step(old(self)@, key).1 == Some(q@),
                None => step(old(self)@, key).1 is None,
            },
            final(self).selected < app_rows(final(self)@).len() || (app_rows(final(self)@).len() == 0
                && final(self).selected == 0),
    {
        proof {
            key_keeps_selection_on_a_row(self@, key);
        }
        if self.filtering {
            match key.code {
                Key::Esc => {
                    self.filtering = false;
                    self.filter = String::new();
                },
                Key::Enter => self.filtering = false,
                Key::Backspace => {
                    pop_char(&mut self.filter);
                },
                Key::Char(c) => {
                    push_char(&mut self.filter, c);
                    self.selected = 0;
                },
                _ => {},
            }
            self.clamp();
            return None;
        }
        let c = command(key);
        let mut req: Option<KillRequest> = None;
        match c {
            Command::Quit => self.should_quit = true,
            Command::Up => self.selected = if self.selected >= 1 { self.selected - 1 } else { 0 },
            Command::Down => self.selected = self.selected + 1,
            Command::HalfPageUp => {
                let h = self.half_page();
                self.selected = if self.selected >= h { self.selected - h } else { 0 };
            },
            Command::HalfPageDown => {
                let h = self.half_page();
                self.selected = self.selected + h;
            },
            Command::PageUp => {
                let h = self.viewport;
                self.selected = if self.selected >= h { self.selected - h } else { 0 };
            },
            Command::PageDown => {
                let h = if self.viewport >= 1 { self.viewport } else { 1 };
                self.selected = self.selected + h;
            },
            Command::PrevTab => self.prev_tab(),
            Command::NextTab => self.next_tab(),
            Command::Top => self.selected = 0,
            Command::Bottom => {
                let n = self.rows().len();
                self.selected = if n >= 1 { n - 1 } else { 0 };
            },
            Command::Fold => self.toggle_fold(),
            Command::StartFilter => self.filtering = true,
            Command::ClearFilter => self.filter = String::new(),
            Command::SortCpu => self.sort = Sort::Cpu,
            Command::SortMem => self.sort = Sort::Mem,
            Command::Kill(sig) => {
                req = self.kill_target(sig);
            },
            Command::Nothing => {},
        }
        self.clamp();
        req
    }

    /// Shows how a kill request went in the status line, for three
    /// refreshes.
    pub fn record_kill(&mut self, req: &KillRequest, outcome: KillOutcome)
        ensures
            final(self)@ == (AppView {
                status: Some(kill_message(req@, outcome)),
                status_ttl: status_refreshes(),
                ..old(self)@
            }),
    {
        let label = signal_label_str(req.signal);
        let mut msg = String::new();
        match outcome {
            KillOutcome::Sent => {
                msg.append("Sent ");
                msg.append(label);
                msg.append(" → ");
                crate::text::push_decimal(&mut msg, req.pid as u64);
                msg.append(" ");
                msg.append(req.name.as_str());
            },
            KillOutcome::Failed => {
                msg.append("Failed to send ");
                msg.append(label);
                msg.append(" → ");
                crate::text::push_decimal(&mut msg, req.pid as u64);
            },
            KillOutcome::Unsupported => {
                msg.append(label);
                msg.append(" unsupported on this platform");
            },
            KillOutcome::Gone => {
                msg.append("PID ");
                crate::text::push_decimal(&mut msg, req.pid as u64);
                msg.append(" no longer exists");
            },
        }
        proof {
            assert(msg@ =~= kill_message(req@, outcome));
        }
        self.status = Some(msg);
        self.status_ttl = 3;
    }

    /// Takes in the re-read session tree (`None` where tmux could not be
    /// queried), keeping the user roughly in place, and ages the status
    /// message.
    pub fn refresh(&mut self, fresh: Option<Vec<Session>>)
        requires
            old(self).wf(),
            fresh matches Some(f) ==> sessions_wf(session_views(f@)),
        ensures
            final(self).wf(),
            final(self)@ == refreshed(
                old(self)@,
                match fresh {
                    Some(f) => Some(session_views(f@)),
                    None => None,
                },
            ),
            final(self).selected < app_rows(final(self)@).len() || (app_rows(final(self)@).len() == 0
                && final(self).selected == 0),
    {
        proof {
            refresh_keeps_selection_on_a_row(
                self@,
                match fresh {
                    Some(ref f) => Some(session_views(f@)),
                    None => None,
                },
            );
        }
        match fresh {
            Some(f) => {
                let ghost fv = session_views(f@);
                let keep: Option<String> = if self.selected_tab < self.sessions.len() {
                    Some(self.sessions[self.selected_tab].name.clone())
                } else {
                    None
                };
                self.sessions = f;
                match keep {
                    Some(name) => {
                        let mut i: usize = 0;
                        let mut pos: Option<usize> = None;
                        while i < self.sessions.len()
                            invariant
                                0 <= i <= self.sessions.len(),
                                fv == session_views(self.sessions@),
                                match pos {
                                    Some(p) => find_session(fv.take(i as int), name@) == Some(p as int),
                                    None => find_session(fv.take(i as int), name@) is None,
                                },
                            decreases self.sessions.len() - i,
                        {
                            proof {
                                assert(fv.take(i + 1).drop_last() =~= fv.take(i as int));
                                assert(fv.take(i + 1).last() == self.sessions@[i as int]@);
                            }
                            if pos.is_none() && self.sessions[i].name == name {
                                pos = Some(i);
                            }
                            i += 1;
                        }
                        proof {
                            assert(fv.take(i as int) =~= fv);
                        }
                        match pos {
                            Some(p) => self.selected_tab = p,
                            None => {},
                        }
                    },
                    None => {},
                }
                if self.selected_tab >= self.sessions.len() {
                    self.selected_tab = if self.sessions.len() >= 1 { self.sessions.len() - 1 } else { 0 };
                }
            },
            None => {},
        }
        self.clamp();
        if self.status_ttl > 0 {
            self.status_ttl = self.status_ttl - 1;
            if self.status_ttl == 0 {
                self.status = None;
            }
        }
    }
}

/// Whether `sessions` meet `sessions_wf`, as `App` needs of them.
pub fn sessions_are_wf(sessions: &Vec<Session>) -> (r: bool)
    ensures
        r == sessions_wf(session_views(sessions@)),
{
    let ghost sv = session_views(sessions@);
    let mut i: usize = 0;
    while i < sessions.len()
        invariant
            0 <= i <= sessions.len(),
            sv == session_views(sessions@),
            forall|k: int| 0 <= k < i ==> session_wf(#[trigger] sv[k]),
        decreases sessions.len() - i,
    {
        let s = &sessions[i];
        proof {
            assert(sv[i as int] == s@);
        }
        let mut j: usize = 0;
        while j < s.windows.len()
            invariant
                0 <= j <= s.windows.len(),
                i < sessions.len(),
                sv == session_views(sessions@),
                sv[i as int] == s@,
                forall|k: int| 0 <= k < j ==> crate::rows::window_wf(#[trigger] s@.windows[k]),
            decreases s.windows.len() - j,
        {
            proof {
                assert(s@.windows[j as int] == s.windows@[j as int]@);
            }
            if !crate::rows::window_is_wf(&s.windows[j]) {
                proof {
                    assert(!crate::rows::window_wf(sv[i as int].windows[j as int]));
                    assert(!session_wf(sv[i as int]));
                }
                return false;
            }
            j += 1;
        }
        if !crate::rows::windows_apart(&s.windows) {
            proof {
                assert(!session_wf(sv[i as int]));
            }
            return false;
        }
        i += 1;
    }
    true
}

/// After any key press the selection is on a row, or at the top when
/// there are no rows.
pub proof fn key_keeps_selection_on_a_row(v: AppView, k: KeyPress)
    ensures
        ({
            let w = step(v, k).0;
            w.selected < app_rows(w).len() || (app_rows(w).len() == 0 && w.selected == 0)
        }),
{
}

/// After any refresh the selection is on a row, or at the top when there
/// are no rows.
pub proof fn refresh_keeps_selection_on_a_row(v: AppView, fresh: Option<Seq<SessionView>>)
    ensures
        ({
            let w = refreshed(v, fresh);
            w.selected < app_rows(w).len() || (app_rows(w).len() == 0 && w.selected == 0)
        }),
{
}

pub open spec fn press(code: Key) -> KeyPress {
    KeyPress { code, ctrl: false }
}

/// Switching to the next session moves one tab on, wrapping around;
/// switching back moves one tab back, wrapping around; either puts the
/// selection at the top. Switching to the next session and back returns
/// to the same session, and so does switching back and then forward.
pub proof fn tab_round_trip(v: AppView)
    requires
        !v.filtering,
        v.selected_tab < v.sessions.len() <= usize::MAX,
    ensures
        step(step(v, press(Key::Tab)).0, press(Key::BackTab)).0.selected_tab == v.selected_tab,
        step(step(v, press(Key::BackTab)).0, press(Key::Tab)).0.selected_tab == v.selected_tab,
        step(step(v, press(Key::Tab)).0, press(Key::BackTab)).0.sessions == v.sessions,
        step(v, press(Key::Tab)).0.selected_tab == (v.selected_tab + 1) % (v.sessions.len() as int),
        step(v, press(Key::BackTab)).0.selected_tab == (v.selected_tab + v.sessions.len() - 1) % (
        v.sessions.len() as int),
        step(v, press(Key::Tab)).0.selected == 0,
        step(v, press(Key::BackTab)).0.selected == 0,
{
    let n = v.sessions.len() as int;
    let t = v.selected_tab as int;
    assert(command_of(press(Key::Tab)) == Command::NextTab);
    assert(command_of(press(Key::BackTab)) == Command::PrevTab);
    let w1 = step(v, press(Key::Tab)).0;
    assert(w1 == clamped(next_tab_of(v)));
    assert(w1.sessions == v.sessions && !w1.filtering);
    assert(w1.selected_tab == ((t + 1) % n) as usize);
    let w2 = step(w1, press(Key::Tab)).0;
    let u1 = step(v, press(Key::BackTab)).0;
    assert(u1 == clamped(prev_tab_of(v)));
    assert(u1.sessions == v.sessions && !u1.filtering);
    assert(u1.selected_tab == ((t + n - 1) % n) as usize);
    assert(step(w1, press(Key::BackTab)).0 == clamped(prev_tab_of(w1)));
    assert(step(u1, press(Key::Tab)).0 == clamped(next_tab_of(u1)));
    // forward then back
    let t1 = (t + 1) % n;
    if t + 1 < n {
        vstd::arithmetic::div_mod::lemma_small_mod((t + 1) as nat, n as nat);
        vstd::arithmetic::div_mod::lemma_mod_add_multiples_vanish(t, n);
        vstd::arithmetic::div_mod::lemma_small_mod(t as nat, n as nat);
        assert((t1 + n - 1) % n == t);
    } else {
        vstd::arithmetic::div_mod::lemma_mod_self_0(n);
        vstd::arithmetic::div_mod::lemma_small_mod((n - 1) as nat, n as nat);
        assert((t1 + n - 1) % n == t);
    }
    // back then forward
    let t2 = (t + n - 1) % n;
    if t > 0 {
        vstd::arithmetic::div_mod::lemma_mod_add_multiples_vanish(t - 1, n);
        vstd::arithmetic::div_mod::lemma_small_mod((t - 1) as nat, n as nat);
        vstd::arithmetic::div_mod::lemma_small_mod(t as nat, n as nat);
        assert((t2 + 1) % n == t);
    } else {
        vstd::arithmetic::div_mod::lemma_small_mod((n - 1) as nat, n as nat);
        vstd::arithmetic::div_mod::lemma_mod_self_0(n);
        assert((t2 + 1) % n == t);
    }
}

/// A status message shows for two more refreshes and is gone at the
/// third, whatever the refreshes bring.
pub proof fn status_ages_out(
    v: AppView,
    msg: Seq<char>,
    f1: Option<Seq<SessionView>>,
    f2: Option<Seq<SessionView>>,
    f3: Option<Seq<SessionView>>,
)
    ensures
        ({
            let v0 = AppView { status: Some(msg), status_ttl: status_refreshes(), ..v };
            let v1 = refreshed(v0, f1);
            let v2 = refreshed(v1, f2);
            let v3 = refreshed(v2, f3);
            v1.status == Some(msg) && v2.status == Some(msg) && v3.status is None
        }),
{
}

proof fn lemma_find_session(s: Seq<SessionView>, name: Seq<char>)
    ensures
        find_session(s, name) matches Some(p) ==> 0 <= p < s.len() && s[p].name == name,
        find_session(s, name) is None ==> forall|i: int| 0 <= i < s.len() ==> s[i].name != name,
    decreases s.len(),
{
    if s.len() > 0 {
        lemma_find_session(s.drop_last(), name);
        assert forall|i: int| 0 <= i < s.len() - 1 implies s[i] == s.drop_last()[i] by {}
    }
}

/// A refresh keeps the selected session selected, by name, wherever it
/// now stands among the sessions.
pub proof fn refresh_keeps_session(v: AppView, fresh: Seq<SessionView>)
    requires
        v.selected_tab < v.sessions.len(),
        fresh.len() <= usize::MAX,
        exists|i: int| 0 <= i < fresh.len() && fresh[i].name == v.sessions[v.selected_tab as int].name,
    ensures
        ({
            let w = refreshed(v, Some(fresh));
            w.selected_tab < w.sessions.len() && w.sessions[w.selected_tab as int].name
                == v.sessions[v.selected_tab as int].name
        }),
{
    let name = v.sessions[v.selected_tab as int].name;
    lemma_find_session(fresh, name);
    let r = retabbed(v, fresh);
    let p = find_session(fresh, name)->0;
    assert(r.selected_tab == p as usize);
    assert(r.sessions == fresh);
    let c = clamped(r);
    assert(c.selected_tab == r.selected_tab && c.sessions == r.sessions);
}

/// A short name has at most 40 characters.
pub proof fn short_name_fits(cmd: Seq<char>)
    ensures
        short_name(cmd).len() <= 40,
{
}

/// Half a page follows the page height last set: half of it, at least one
/// row. A new app starts with a page of 20 rows, so half a page of 10.
pub proof fn half_page_follows_viewport(v: AppView, rows: usize, sessions: Seq<SessionView>)
    ensures
        half_page_of(AppView { viewport: rows, ..v }) == if rows / 2 >= 1 {
            rows / 2
        } else {
            1
        },
        initial(sessions).viewport == 20,
        half_page_of(initial(sessions)) == 10,
{
}

/// While the filter is being typed, a typed character goes to the end of
/// the filter and Backspace takes the last character off (nothing when the
/// filter is empty): typing a character and then Backspace gives back the
/// filter as it was. Ctrl makes no difference there.
pub proof fn typing_then_backspace(v: AppView, c: char, ctrl: bool)
    requires
        v.filtering,
    ensures
        ({
            let typed = step(v, KeyPress { code: Key::Char(c), ctrl }).0;
            let erased = step(v, KeyPress { code: Key::Backspace, ctrl }).0;
            &&& typed.filtering
            &&& typed.filter == v.filter.push(c)
            &&& step(typed, KeyPress { code: Key::Backspace, ctrl }).0.filter == v.filter
            &&& erased.filtering
            &&& v.filter.len() > 0 ==> erased.filter.push(v.filter.last()) == v.filter
            &&& v.filter.len() == 0 ==> erased.filter.len() == 0
        }),
{
    let typed = step(v, KeyPress { code: Key::Char(c), ctrl }).0;
    assert(typed.filter.drop_last() =~= v.filter);
    if v.filter.len() > 0 {
        assert(v.filter.drop_last().push(v.filter.last()) =~= v.filter);
    }
}

/// Outside filter entry, P or p sorts by CPU and M or m sorts by memory,
/// whatever the order was and with or without Ctrl; nothing else changes
/// but the selection, which is kept on a row.
pub proof fn sort_keys(v: AppView, ctrl: bool)
    requires
        !v.filtering,
    ensures
        step(v, KeyPress { code: Key::Char('P'), ctrl }).0.sort == Sort::Cpu,
        step(v, KeyPress { code: Key::Char('p'), ctrl }).0.sort == Sort::Cpu,
        step(v, KeyPress { code: Key::Char('M'), ctrl }).0.sort == Sort::Mem,
        step(v, KeyPress { code: Key::Char('m'), ctrl }).0.sort == Sort::Mem,
        ({
            let w = step(v, KeyPress { code: Key::Char('P'), ctrl }).0;
            w == (AppView { sort: Sort::Cpu, selected: w.selected, ..v })
        }),
        ({
            let w = step(v, KeyPress { code: Key::Char('M'), ctrl }).0;
            w == (AppView { sort: Sort::Mem, selected: w.selected, ..v })
        }),
{
}

/// Outside filter entry, with the selection on a row, PageUp moves the
/// selection up by the page height, stopping at the top row, and changes
/// nothing else.
pub proof fn page_up_moves_one_page(v: AppView, ctrl: bool)
    requires
        !v.filtering,
        v.selected < app_rows(v).len(),
    ensures
        ({
            let w = step(v, KeyPress { code: Key::PageUp, ctrl }).0;
            &&& w.selected == if v.selected >= v.viewport {
                v.selected - v.viewport
            } else {
                0
            }
            &&& w == (AppView { selected: w.selected, ..v })
        }),
{
}

/// Outside filter entry, x asks to SIGKILL and t to SIGTERM the process on
/// the row shown at the selection (under the filter, sort order and folds
/// in effect), named by its PID and short name; on a window header, or
/// with no row selected, there is no request. The view is left as it is
/// but for keeping the selection on a row.
pub proof fn kill_keys_target_the_shown_row(v: AppView, ctrl: bool)
    requires
        !v.filtering,
    ensures
        ({
            let rows = app_rows(v);
            let kill = step(v, KeyPress { code: Key::Char('x'), ctrl });
            let term = step(v, KeyPress { code: Key::Char('t'), ctrl });
            &&& (kill.1 is Some) == (v.selected < rows.len() && rows[v.selected as int] is Proc)
            &&& (term.1 is Some) == (v.selected < rows.len() && rows[v.selected as int] is Proc)
            &&& kill.1 matches Some(q) ==> {
                &&& q.pid == rows[v.selected as int]->proc.pid
                &&& q.signal == Signal::Kill
                &&& q.name == short_name(rows[v.selected as int]->proc.command)
            }
            &&& term.1 matches Some(q) ==> {
                &&& q.pid == rows[v.selected as int]->proc.pid
                &&& q.signal == Signal::Term
                &&& q.name == short_name(rows[v.selected as int]->proc.command)
            }
            &&& kill.0 == v || v.selected >= rows.len()
        }),
{
}

/// The view after pressing `code` (with Ctrl held when `ctrl`).
pub open spec fn after_key(v: AppView, code: Key, ctrl: bool) -> AppView {
    step(v, KeyPress { code, ctrl }).0
}

/// The row `d` rows below row `sel` of `n` rows, stopping at the last.
pub open spec fn row_below(sel: int, d: int, n: int) -> int {
    if sel + d < n {
        sel + d
    } else {
        n - 1
    }
}

/// The row `d` rows above row `sel`, stopping at the top.
pub open spec fn row_above(sel: int, d: int) -> int {
    if sel >= d {
        sel - d
    } else {
        0
    }
}

/// Outside filter entry, with the selection on one of the rows, the
/// movement keys move the selection and change nothing else: Up or k one
/// row up, Down or j one row down, Ctrl-u and Ctrl-d half a page (half the
/// page height, at least one row) up and down, PageDown a page (at least
/// one row) down, Home or g to the top and End or G to the last row.
/// Moving up stops at the top row, moving down at the last row.
pub proof fn movement_keys(v: AppView, ctrl: bool)
    requires
        !v.filtering,
        v.selected < app_rows(v).len(),
        v.selected + v.viewport + 1 <= usize::MAX,
    ensures
        ({
            let n = app_rows(v).len() as int;
            let sel = v.selected as int;
            let half: int = if v.viewport / 2 >= 1 {
                (v.viewport / 2) as int
            } else {
                1
            };
            let page = if v.viewport >= 1 {
                v.viewport as int
            } else {
                1
            };
            &&& after_key(v, Key::Up, ctrl) == (AppView { selected: row_above(sel, 1) as usize, ..v })
            &&& after_key(v, Key::Char('k'), ctrl) == (AppView {
                selected: row_above(sel, 1) as usize,
                ..v
            })
            &&& after_key(v, Key::Down, ctrl) == (AppView {
                selected: row_below(sel, 1, n) as usize,
                ..v
            })
            &&& after_key(v, Key::Char('j'), ctrl) == (AppView {
                selected: row_below(sel, 1, n) as usize,
                ..v
            })
            &&& after_key(v, Key::Char('u'), true) == (AppView {
                selected: row_above(sel, half) as usize,
                ..v
            })
            &&& after_key(v, Key::Char('d'), true) == (AppView {
                selected: row_below(sel, half, n) as usize,
                ..v
            })
            &&& after_key(v, Key::PageDown, ctrl) == (AppView {
                selected: row_below(sel, page, n) as usize,
                ..v
            })
            &&& after_key(v, Key::Home, ctrl) == (AppView { selected: 0, ..v })
            &&& after_key(v, Key::Char('g'), ctrl) == (AppView { selected: 0, ..v })
            &&& after_key(v, Key::End, ctrl) == (AppView { selected: (n - 1) as usize, ..v })
            &&& after_key(v, Key::Char('G'), ctrl) == (AppView { selected: (n - 1) as usize, ..v })
        }),
{
}

/// Outside filter entry: q, or Ctrl-c, asks to quit and changes nothing
/// else; c without Ctrl does nothing; / starts typing a filter; Esc clears
/// the filter; Left, h and BackTab do what switching to the previous
/// session does, Right, l and Tab what switching to the next one does,
/// and Enter and Space both fold or unfold.
pub proof fn command_keys(v: AppView, ctrl: bool)
    requires
        !v.filtering,
        v.selected < app_rows(v).len() || (app_rows(v).len() == 0 && v.selected == 0),
    ensures
        after_key(v, Key::Char('q'), ctrl) == (AppView { should_quit: true, ..v }),
        after_key(v, Key::Char('c'), true) == (AppView { should_quit: true, ..v }),
        after_key(v, Key::Char('c'), false) == v,
        after_key(v, Key::Char('/'), ctrl) == (AppView { filtering: true, ..v }),
        after_key(v, Key::Esc, ctrl).filter.len() == 0,
        after_key(v, Key::Esc, ctrl) == (AppView {
            filter: Seq::empty(),
            selected: after_key(v, Key::Esc, ctrl).selected,
            ..v
        }),
        after_key(v, Key::Left, ctrl) == after_key(v, Key::BackTab, false),
        after_key(v, Key::Char('h'), ctrl) == after_key(v, Key::BackTab, false),
        after_key(v, Key::Right, ctrl) == after_key(v, Key::Tab, false),
        after_key(v, Key::Char('l'), ctrl) == after_key(v, Key::Tab, false),
        after_key(v, Key::Char(' '), ctrl) == after_key(v, Key::Enter, false),
{
}

/// While the filter is being typed: Enter stops typing and keeps the
/// filter; Esc stops typing and clears it; a typed character puts the
/// selection back at the top; no key there quits, sorts, moves between
/// sessions or sends a signal.
pub proof fn filter_entry_keys(v: AppView, k: KeyPress)
    requires
        v.filtering,
    ensures
        after_key(v, Key::Enter, k.ctrl).filter == v.filter,
        !after_key(v, Key::Enter, k.ctrl).filtering,
        after_key(v, Key::Esc, k.ctrl).filter.len() == 0,
        !after_key(v, Key::Esc, k.ctrl).filtering,
        k.code is Char ==> step(v, k).0.selected == 0,
        step(v, k).1 is None,
        step(v, k).0.should_quit == v.should_quit,
        step(v, k).0.sort == v.sort,
        step(v, k).0.selected_tab == v.selected_tab,
        step(v, k).0.sessions == v.sessions,
        step(v, k).0.collapsed == v.collapsed,
{
}

proof fn lemma_word_len_of(w: Seq<char>, rest: Seq<char>)
    requires
        forall|i: int| 0 <= i < w.len() ==> !is_ws(#[trigger] w[i]),
        rest.len() == 0 || is_ws(rest[0]),
    ensures
        word_len(w + rest) == w.len(),
    decreases w.len(),
{
    if w.len() == 0 {
        assert(w + rest =~= rest);
    } else {
        assert((w + rest)[0] == w[0]);
        assert((w + rest).drop_first() =~= w.drop_first() + rest);
        lemma_word_len_of(w.drop_first(), rest);
    }
}

proof fn lemma_after_last_slash_of(p: Seq<char>, base: Seq<char>)
    requires
        p.len() == 0 || p.last() == '/',
        forall|i: int| 0 <= i < base.len() ==> #[trigger] base[i] != '/',
    ensures
        after_last_slash(p + base) == base,
    decreases base.len(),
{
    if base.len() == 0 {
        assert(p + base =~= p);
    } else {
        let s = p + base;
        assert(s.last() == base.last());
        assert(s.drop_last() =~= p + base.drop_last());
        lemma_after_last_slash_of(p, base.drop_last());
        assert(base.drop_last().push(base.last()) =~= base);
    }
}

/// The short name of a command line made of leading white space, a first
/// word that is a path (`dir/base`, any `dir` without white space) or a
/// plain `base`, then nothing or white space and anything: `base`, cut to
/// its first 40 characters when it is longer.
pub proof fn short_name_is_the_base_name(
    lead: Seq<char>,
    dir: Seq<char>,
    base: Seq<char>,
    rest: Seq<char>,
    path: bool,
)
    requires
        forall|i: int| 0 <= i < lead.len() ==> is_ws(#[trigger] lead[i]),
        forall|i: int| 0 <= i < dir.len() ==> !is_ws(#[trigger] dir[i]),
        base.len() > 0,
        forall|i: int| 0 <= i < base.len() ==> !is_ws(#[trigger] base[i]) && base[i] != '/',
        rest.len() == 0 || is_ws(rest[0]),
    ensures
        ({
            let word = if path {
                dir + seq!['/'] + base
            } else {
                base
            };
            short_name(lead + word + rest) == if base.len() <= 40 {
                base
            } else {
                base.take(40)
            }
        }),
{
    let p = if path {
        dir + seq!['/']
    } else {
        Seq::<char>::empty()
    };
    let word = if path {
        dir + seq!['/'] + base
    } else {
        base
    };
    assert(word =~= p + base);
    assert(is_ws(' '));
    assert forall|i: int| 0 <= i < word.len() implies !is_ws(#[trigger] word[i]) by {
        if i < p.len() {
            if path && i < dir.len() {
                assert(word[i] == dir[i]);
            } else {
                assert(word[i] == '/');
                assert(('/' as u32) == 0x2f);
            }
        } else {
            assert(word[i] == base[i - p.len()]);
        }
    }
    let cmd = lead + word + rest;
    assert forall|k: int| 0 <= k < lead.len() implies is_ws(#[trigger] cmd[k]) by {
        assert(cmd[k] == lead[k]);
    }
    crate::text::lemma_trim_start_skip(cmd, lead.len() as int);
    assert(cmd.skip(lead.len() as int) =~= word + rest);
    assert((word + rest)[0] == word[0]);
    assert(crate::text::trim_start(word + rest) == word + rest);
    lemma_word_len_of(word, rest);
    assert((word + rest).take(word.len() as int) =~= word);
    assert(first_word(cmd) == word);
    lemma_after_last_slash_of(p, base);
}

/// The status line reports a kill request by its signal (`SIGKILL` for a
/// kill, `SIGTERM` for a terminate): a signal sent names the PID and the
/// short name, a refused one names the PID, an unsupported one names only
/// the signal, and a process already gone is named by its PID.
pub proof fn kill_status_messages(req: KillRequestView)
    ensures
        ({
            let sig = match req.signal {
                Signal::Kill => "SIGKILL"@,
                Signal::Term => "SIGTERM"@,
            };
            &&& kill_message(req, KillOutcome::Sent) == "Sent "@ + sig + " → "@ + decimal(
                req.pid as nat,
            ) + " "@ + req.name
            &&& kill_message(req, KillOutcome::Failed) == "Failed to send "@ + sig + " → "@
                + decimal(req.pid as nat)
            &&& kill_message(req, KillOutcome::Unsupported) == sig
                + " unsupported on this platform"@
            &&& kill_message(req, KillOutcome::Gone) == "PID "@ + decimal(req.pid as nat)
                + " no longer exists"@
        }),
{
}

proof fn lemma_first_current(s: Seq<SessionView>)
    ensures
        first_current(s) matches Some(i) ==> 0 <= i < s.len() && s[i].current && forall|k: int|
            0 <= k < i ==> !(#[trigger] s[k]).current,
        first_current(s) is None ==> forall|k: int| 0 <= k < s.len() ==> !(#[trigger] s[k]).current,
    decreases s.len(),
{
    if s.len() > 0 {
        let d = s.drop_last();
        lemma_first_current(d);
        assert forall|k: int| 0 <= k < d.len() implies d[k] == s[k] by {}
    }
}

/// A new viewer starts on the first session marked current (on the first
/// session when none is), at the top row, sorted by CPU, with nothing
/// folded, no filter, no status message and a 20-row page.
pub proof fn new_app_starts_on_the_current_session(s: Seq<SessionView>)
    requires
        s.len() <= usize::MAX,
    ensures
        ({
            let v = initial(s);
            &&& v.sessions == s
            &&& (exists|i: int| 0 <= i < s.len() && s[i].current) ==> {
                &&& v.selected_tab < s.len()
                &&& s[v.selected_tab as int].current
                &&& forall|k: int| 0 <= k < v.selected_tab ==> !(#[trigger] s[k]).current
            }
            &&& !(exists|i: int| 0 <= i < s.len() && s[i].current) ==> v.selected_tab == 0
            &&& v.selected == 0
            &&& v.sort == Sort::Cpu
            &&& v.collapsed.len() == 0
            &&& v.filter.len() == 0
            &&& !v.filtering
            &&& v.status is None
            &&& !v.should_quit
            &&& v.viewport == 20
        }),
{
    lemma_first_current(s);
    if exists|i: int| 0 <= i < s.len() && s[i].current {
        let i = choose|i: int| 0 <= i < s.len() && s[i].current;
        assert(s[i].current);
    }
}

/// A refresh takes the new session list when tmux answered and keeps the
/// old one when it did not; either way the selected session index stays
/// within the list (0 when it is empty), and the sort order, folds and
/// filter are kept.
pub proof fn refresh_takes_the_new_sessions(v: AppView, fresh: Option<Seq<SessionView>>)
    requires
        v.selected_tab < v.sessions.len() || v.selected_tab == 0,
    ensures
        ({
            let w = refreshed(v, fresh);
            &&& w.sessions == match fresh {
                Some(f) => f,
                None => v.sessions,
            }
            &&& fresh is None ==> w.selected_tab == v.selected_tab
            &&& w.selected_tab < w.sessions.len() || w.selected_tab == 0
            &&& w.sort == v.sort
            &&& w.collapsed == v.collapsed
            &&& w.filter == v.filter
            &&& w.filtering == v.filtering
            &&& w.viewport == v.viewport
        }),
{
    match fresh {
        Some(f) => {
            let name = if v.selected_tab < v.sessions.len() {
                v.sessions[v.selected_tab as int].name
            } else {
                Seq::empty()
            };
            lemma_find_session(f, name);
        },
        None => {},
    }
}

} // verus!
