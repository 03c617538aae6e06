//! The decisions of the interactive loop: what a key press does to the app
//! state and which outside work it asks for, when a refresh or a status
//! message is due, what a finished fetch does, and how the editor is invoked.
//! The loop itself (terminal, timers, threads, processes) lies outside.

use crate::app::{clamp_selection, moved, other_view, proto_next, scrolled, App, AppView, Mode};
use crate::app::{restored, selection_key};
use crate::model::{opt_view, timeline, Interaction, InteractionView};
use crate::text::{append_decimal, chars_of, decimal, push_char, split_words, string_of, words};
use crate::time::{format_instant, formatted};
use vstd::prelude::*;

verus! {

/// A key press, as far as the app tells keys apart.
#[derive(Clone, Copy, PartialEq, Eq, Structural, Debug)]
pub enum Key {
    /// A character, and whether Control was held.
    Char(char, bool),
    Esc,
    Enter,
    Backspace,
    Up,
    Down,
    Home,
    End,
    PageUp,
    PageDown,
    Other,
}

/// Outside work that a key press asks for.
#[derive(Clone, Copy, PartialEq, Eq, Structural, Debug)]
pub enum Action {
    Nothing,
    /// Open the selection in the editor.
    OpenEditor,
    /// Fetch the log again.
    Refresh,
}

impl AppView {
    /// `self` in this input mode.
    pub open spec fn with_mode(self, mode: Mode) -> AppView {
        AppView { mode, ..self }
    }

    /// `self` with this query.
    pub open spec fn with_query(self, query: Seq<char>) -> AppView {
        AppView { query, ..self }
    }

    /// `self` remembering this query as the one before editing.
    pub open spec fn with_query_before_edit(self, query_before_edit: Seq<char>) -> AppView {
        AppView { query_before_edit, ..self }
    }

    /// `self` with this status message.
    pub open spec fn with_status(self, status: Seq<char>) -> AppView {
        AppView { status, ..self }
    }

    /// `self` with the help overlay shown or not.
    pub open spec fn with_help(self, show_help: bool) -> AppView {
        AppView { show_help, ..self }
    }

    /// `self` asked to quit.
    pub open spec fn quitting(self) -> AppView {
        AppView { should_quit: true, ..self }
    }

    /// `self` after moving the selection by `delta` rows (nothing without rows).
    pub open spec fn moved_by(self, delta: i64) -> AppView {
        if self.groups.len() == 0 {
            self
        } else {
            self.at_row(moved(self.selected, delta, self.groups.len()))
        }
    }
}

/// What a key press does while the query is edited: `Esc` cancels the edit,
/// putting back the query from before it began; `Enter` applies it.
pub open spec fn editing_step(v: AppView, key: Key) -> AppView {
    match key {
        Key::Esc => v.with_query(v.query_before_edit).with_mode(Mode::Normal).recomputed(),
        Key::Enter => v.with_mode(Mode::Normal).recomputed().at_row(0),
        Key::Backspace => v.with_query(
            if v.query.len() > 0 {
                v.query.drop_last()
            } else {
                v.query
            },
        ).recomputed(),
        Key::Char(c, _) => v.with_query(v.query.push(c)).recomputed(),
        _ => v,
    }
}

/// What a key press does in normal mode to the app.
pub open spec fn normal_view(v: AppView, key: Key) -> AppView {
    match key {
        Key::Char('q', _) | Key::Esc => v.quitting(),
        Key::Char('c', true) => v.quitting(),
        Key::Char('?', _) => v.with_help(true),
        Key::Char('/', _) => v.with_mode(Mode::Editing).with_status(seq![]).with_query_before_edit(v.query),
        Key::Char('p', _) => v.with_proto(proto_next(v.proto)).recomputed(),
        Key::Char('s', _) => v.with_grouping(!v.grouping).recomputed().at_row(0),
        Key::Char('t', _) => v.with_view(other_view(v.view)),
        Key::Char('j', _) | Key::Down => v.moved_by(1),
        Key::Char('k', _) | Key::Up => v.moved_by(-1i64),
        Key::Char('g', _) | Key::Home => v.at_row(0),
        Key::Char('G', _) | Key::End => v.at_row(clamp_selection(usize::MAX, v.groups.len())),
        Key::Char('J', _) | Key::PageDown => v.with_scroll(scrolled(v.detail_scroll, 5)),
        Key::Char('K', _) | Key::PageUp => v.with_scroll(scrolled(v.detail_scroll, -5i32)),
        _ => v,
    }
}

/// The outside work that a key press in normal mode asks for: `e` opens the
/// editor, and `r` asks for a refresh unless a fetch is under way.
pub open spec fn normal_action(key: Key, fetching: bool) -> Action {
    match key {
        Key::Char('e', _) => Action::OpenEditor,
        Key::Char('r', _) => if fetching {
            Action::Nothing
        } else {
            Action::Refresh
        },
        _ => Action::Nothing,
    }
}

/// What a key press does in normal mode, and the outside work it asks for.
pub open spec fn normal_step(v: AppView, key: Key, fetching: bool) -> (AppView, Action) {
    (normal_view(v, key), normal_action(key, fetching))
}

/// What a key press does: any key closes the help overlay; while the query is
/// edited keys edit it; otherwise keys are commands.
pub open spec fn key_step(v: AppView, key: Key, fetching: bool) -> (AppView, Action) {
    if v.show_help {
        (v.with_help(false), Action::Nothing)
    } else if v.mode == Mode::Editing {
        (editing_step(v, key), Action::Nothing)
    } else {
        normal_step(v, key, fetching)
    }
}

/// What the interactive loop notices, one thing at a time.
pub enum LoopEvent {
    /// The loop woke; this many whole seconds have passed since the last fetch
    /// ended (or since the start).
    Tick(u64),
    /// A key was pressed.
    Press(Key),
    /// A fetch delivered its outcome: the log's text, or why it failed.
    Delivered(Result<String, String>),
}

/// A loop event as values.
pub enum LoopEventView {
    Tick(u64),
    Press(Key),
    Delivered(Result<Seq<char>, Seq<char>>),
}

/// A loop event as values.
pub open spec fn event_view(e: LoopEvent) -> LoopEventView {
    match e {
        LoopEvent::Tick(s) => LoopEventView::Tick(s),
        LoopEvent::Press(k) => LoopEventView::Press(k),
        LoopEvent::Delivered(r) => LoopEventView::Delivered(fetch_view(r)),
    }
}

/// One step of the interactive loop: the app afterwards, whether a fetch is
/// under way afterwards, and the outside work asked for (`Refresh` means: start
/// a fetch now). A tick starts the automatic refresh when it is due; a key does
/// what `key_step` says; a delivered outcome is applied and ends the fetch.
pub open spec fn loop_step(v: AppView, fetching: bool, ev: LoopEventView) -> (AppView, bool, Action) {
    match ev {
        LoopEventView::Tick(elapsed) => if v.refresh_secs > 0 && !fetching && elapsed >= v.refresh_secs {
            (v.with_status("auto-refreshing\u{2026}"@), true, Action::Refresh)
        } else {
            (v, fetching, Action::Nothing)
        },
        LoopEventView::Press(key) => {
            let (w, a) = key_step(v, key, fetching);
            (w, fetching || a == Action::Refresh, a)
        },
        LoopEventView::Delivered(result) => (after_fetch(v, result), false, Action::Nothing),
    }
}

/// How many fetches an action starts.
pub open spec fn started(a: Action) -> int {
    if a == Action::Refresh {
        1
    } else {
        0
    }
}

/// How many fetch outcomes an event delivers.
pub open spec fn delivered(ev: LoopEventView) -> int {
    if ev is Delivered {
        1
    } else {
        0
    }
}

/// The loop run over `evs` from app `v`, the flag `fetching` and `out` fetches
/// started but not yet delivered: the app, the flag and that count at the end.
pub open spec fn run_loop(v: AppView, fetching: bool, out: int, evs: Seq<LoopEventView>) -> (AppView, bool, int)
    decreases evs.len(),
{
    if evs.len() == 0 {
        (v, fetching, out)
    } else {
        let (w, f, a) = loop_step(v, fetching, evs[0]);
        run_loop(w, f, out + started(a) - delivered(evs[0]), evs.drop_first())
    }
}

/// Whether, running the loop over `evs`, every outcome arrives while some
/// fetch is still undelivered (an outcome only ever answers a started fetch).
pub open spec fn outcomes_answer_fetches(v: AppView, fetching: bool, out: int, evs: Seq<LoopEventView>) -> bool
    decreases evs.len(),
{
    if evs.len() == 0 {
        true
    } else {
        let (w, f, a) = loop_step(v, fetching, evs[0]);
        &&& (evs[0] is Delivered ==> out >= 1)
        &&& outcomes_answer_fetches(w, f, out + started(a) - delivered(evs[0]), evs.drop_first())
    }
}

/// One loop step keeps at most one fetch under way, and the flag `fetching`
/// tells exactly whether one is: a fetch starts only when none is under way.
pub proof fn lemma_loop_step_one_fetch(v: AppView, fetching: bool, out: int, ev: LoopEventView)
    requires
        0 <= out <= 1,
        fetching <==> out == 1,
        ev is Delivered ==> out >= 1,
    ensures
        ({
            let (w, f, a) = loop_step(v, fetching, ev);
            let o = out + started(a) - delivered(ev);
            &&& 0 <= o <= 1
            &&& (f <==> o == 1)
            &&& (a == Action::Refresh ==> !fetching)
        }),
{
    match ev {
        LoopEventView::Press(key) => {
            let a = key_step(v, key, fetching).1;
            assert(a == Action::Refresh ==> !fetching);
        },
        _ => {},
    }
}

/// At most one fetch is ever under way: run from a state where the flag
/// `fetching` tells whether the one fetch is under way, over any events in which
/// outcomes only answer started fetches, the loop never has two fetches
/// undelivered, and its flag still tells whether one is.
pub proof fn lemma_one_fetch_at_a_time(v: AppView, fetching: bool, out: int, evs: Seq<LoopEventView>)
    requires
        0 <= out <= 1,
        fetching <==> out == 1,
        outcomes_answer_fetches(v, fetching, out, evs),
    ensures
        ({
            let (w, f, o) = run_loop(v, fetching, out, evs);
            &&& 0 <= o <= 1
            &&& (f <==> o == 1)
        }),
    decreases evs.len(),
{
    if evs.len() > 0 {
        lemma_loop_step_one_fetch(v, fetching, out, evs[0]);
        let (w, f, a) = loop_step(v, fetching, evs[0]);
        lemma_one_fetch_at_a_time(w, f, out + started(a) - delivered(evs[0]), evs.drop_first());
    }
}

/// The status message while a fetch asked for by key runs.
pub open spec fn refreshing_line(host: Seq<char>) -> Seq<char> {
    "refreshing from "@ + host + "\u{2026}"@
}

/// The status message while a fetch asked for by key runs.
pub fn refreshing_status(host: &str) -> (r: String)
    ensures
        r@ == refreshing_line(host@),
{
    let mut s = String::from_str("refreshing from ");
    s.append(host);
    s.append("\u{2026}");
    s
}

/// Up and down: in normal mode without the help overlay, `k` does what Up does
/// and `j` what Down does; Up selects the row above (staying on the first row)
/// and Down the row below (staying on the last), with the detail pane at the
/// top and nothing else changed.
pub proof fn lemma_vertical_keys(v: AppView, ctrl: bool, fetching: bool)
    requires
        v.wf(),
        v.mode == Mode::Normal,
        !v.show_help,
        v.groups.len() > 0,
    ensures
        key_step(v, Key::Char('k', ctrl), fetching) == key_step(v, Key::Up, fetching),
        key_step(v, Key::Char('j', ctrl), fetching) == key_step(v, Key::Down, fetching),
        key_step(v, Key::Up, fetching) == (
            AppView {
                selected: (if v.selected == 0 {
                    0
                } else {
                    v.selected - 1
                }) as usize,
                detail_scroll: 0,
                ..v
            },
            Action::Nothing,
        ),
        key_step(v, Key::Down, fetching) == (
            AppView {
                selected: (if v.selected + 1 < v.groups.len() {
                    v.selected + 1
                } else {
                    v.selected as int
                }) as usize,
                detail_scroll: 0,
                ..v
            },
            Action::Nothing,
        ),
{
}

/// The app after the keys `keys`, pressed one after another.
pub open spec fn press_all(v: AppView, keys: Seq<Key>, fetching: bool) -> AppView
    decreases keys.len(),
{
    if keys.len() == 0 {
        v
    } else {
        press_all(key_step(v, keys[0], fetching).0, keys.drop_first(), fetching)
    }
}

/// While the query is edited, keys other than `Esc` and `Enter` keep the
/// interactions, the filter, the grouping and the query from before the edit.
proof fn lemma_editing_keeps(w: AppView, keys: Seq<Key>, fetching: bool)
    requires
        w.mode == Mode::Editing,
        !w.show_help,
        forall|k: int| 0 <= k < keys.len() ==> !(#[trigger] keys[k] is Esc) && !(keys[k] is Enter),
    ensures
        ({
            let u = press_all(w, keys, fetching);
            &&& u.mode == Mode::Editing
            &&& !u.show_help
            &&& u.all == w.all
            &&& u.proto == w.proto
            &&& u.grouping == w.grouping
            &&& u.query_before_edit == w.query_before_edit
        }),
    decreases keys.len(),
{
    if keys.len() > 0 {
        assert(!(keys[0] is Esc) && !(keys[0] is Enter));
        let w2 = key_step(w, keys[0], fetching).0;
        assert(w2 == editing_step(w, keys[0]));
        assert forall|k: int| 0 <= k < keys.drop_first().len() implies !(#[trigger] keys.drop_first()[k] is Esc)
            && !(keys.drop_first()[k] is Enter) by {
            assert(keys.drop_first()[k] == keys[k + 1]);
        }
        lemma_editing_keeps(w2, keys.drop_first(), fetching);
    }
}

/// `Esc` cancels a query edit: after `/`, any keys other than `Esc` and
/// `Enter`, and then `Esc`, the query, the filtered interactions and the rows
/// are those from before the edit, and keys act as commands again.
pub proof fn lemma_esc_cancels_edit(v: AppView, keys: Seq<Key>, fetching: bool)
    requires
        v.wf(),
        !v.show_help,
        v.mode == Mode::Normal,
        forall|k: int| 0 <= k < keys.len() ==> !(#[trigger] keys[k] is Esc) && !(keys[k] is Enter),
    ensures
        ({
            let w = press_all(key_step(v, Key::Char('/', false), fetching).0, keys, fetching);
            let u = key_step(w, Key::Esc, fetching).0;
            &&& u.query == v.query
            &&& u.filtered == v.filtered
            &&& u.groups == v.groups
            &&& u.mode == Mode::Normal
        }),
{
    let w0 = key_step(v, Key::Char('/', false), fetching).0;
    lemma_editing_keeps(w0, keys, fetching);
}

/// Whether an automatic refresh is due: enabled, none under way, and at least
/// the interval elapsed since the last one.
pub fn auto_refresh_due(refresh_secs: u64, fetching: bool, elapsed_secs: u64) -> (r: bool)
    ensures
        r == (refresh_secs > 0 && !fetching && elapsed_secs >= refresh_secs),
{
    refresh_secs > 0 && !fetching && elapsed_secs >= refresh_secs
}

/// Whether a status message shown for this long (seconds and nanoseconds) is
/// due to be cleared: after more than four seconds.
pub fn status_expired(elapsed_secs: u64, elapsed_nanos: u32) -> (r: bool)
    ensures
        r == (elapsed_secs > 4 || (elapsed_secs == 4 && elapsed_nanos > 0)),
{
    elapsed_secs > 4 || (elapsed_secs == 4 && elapsed_nanos > 0)
}

/// The status message after a refresh: the new number of interactions, or why
/// the fetch failed.
pub open spec fn fetch_status(n: nat, result: Result<Seq<char>, Seq<char>>) -> Seq<char> {
    match result {
        Ok(_) => "updated \u{2014} "@ + decimal(n) + " interactions"@,
        Err(e) => "refresh failed: "@ + e,
    }
}

/// The app after a finished fetch: a successful one replaces the interactions
/// (keeping the user's place, see `App::reload`) and reports their number; a
/// failed one only reports why.
pub open spec fn after_fetch(v: AppView, result: Result<Seq<char>, Seq<char>>) -> AppView {
    match result {
        Ok(data) => {
            let w = restored(v.with_all(timeline(data)).recomputed(), v.selected == 0, selection_key(v));
            w.with_status(fetch_status(w.all.len(), result))
        },
        Err(_) => v.with_status(fetch_status(0, result)),
    }
}

/// A fetch outcome as values.
pub open spec fn fetch_view(r: Result<String, String>) -> Result<Seq<char>, Seq<char>> {
    match r {
        Ok(s) => Ok(s@),
        Err(e) => Err(e@),
    }
}

/// The program and arguments that open a file in the editor: the configured
/// editor, else `$EDITOR`, else `nvim`, split at whitespace; the first word is
/// the program (`nvim` when there is none) and the rest precede the file.
pub open spec fn editor_words(configured: Option<Seq<char>>, env: Option<Seq<char>>) -> Seq<Seq<char>> {
    let chosen = match configured {
        Some(e) => e,
        None => match env {
            Some(e) => e,
            None => "nvim"@,
        },
    };
    if words(chosen).len() == 0 {
        seq!["nvim"@]
    } else {
        words(chosen)
    }
}

/// The program and arguments that open a file in the editor (see `editor_words`).
pub fn editor_command(configured: &Option<String>, env: &Option<String>) -> (r: Vec<String>)
    ensures
        r@.map_values(|s: String| s@) == editor_words(opt_view(*configured), opt_view(*env)),
{
    let chosen = match configured {
        Some(e) => chars_of(e.as_str()),
        None => match env {
            Some(e) => chars_of(e.as_str()),
            None => chars_of("nvim"),
        },
    };
    let ws = split_words(&chosen);
    let mut out: Vec<String> = Vec::new();
    if ws.len() == 0 {
        out.push(String::from_str("nvim"));
        assert(out@.map_values(|s: String| s@) =~= seq!["nvim"@]);
        return out;
    }
    let ghost wv = ws@.map_values(|w: Vec<char>| w@);
    let mut k: usize = 0;
    while k < ws.len()
        invariant
            k <= ws@.len(),
            wv == ws@.map_values(|w: Vec<char>| w@),
            out@.map_values(|s: String| s@) == wv.take(k as int),
        decreases ws@.len() - k,
    {
        let ghost before = out@.map_values(|s: String| s@);
        out.push(string_of(&ws[k]));
        assert(out@.map_values(|s: String| s@) =~= before.push(wv[k as int]));
        assert(wv.take(k + 1) =~= wv.take(k as int).push(wv[k as int]));
        k = k + 1;
    }
    assert(wv.take(k as int) =~= wv);
    out
}

/// The name of the file that an exported interaction is written to.
pub open spec fn export_file_name(it: InteractionView) -> Seq<char> {
    "oob-"@ + it.protocol + "-"@ + formatted(it.timestamp, "%Y%m%dT%H%M%S"@) + ".txt"@
}

/// The name of the file that an exported interaction is written to.
pub fn export_file(it: &Interaction) -> (r: String)
    ensures
        r@ == export_file_name(it@),
{
    let mut out = String::from_str("oob-");
    out.append(it.protocol.as_str());
    out.append("-");
    let stamp = format_instant(it.timestamp, "%Y%m%dT%H%M%S");
    out.append(stamp.as_str());
    out.append(".txt");
    out
}

impl App {
    /// Applies a finished fetch (see `after_fetch`).
    pub fn apply_fetch(&mut self, result: Result<String, String>)
        requires
            old(self)@.wf(),
        ensures
            final(self)@ == after_fetch(old(self)@, fetch_view(result)),
            final(self)@.wf(),
    {
        match result {
            Ok(data) => {
                let n = self.reload(data.as_str());
                let mut s = String::from_str("updated \u{2014} ");
                append_decimal(&mut s, n as u64);
                s.append(" interactions");
                self.status = s;
            },
            Err(e) => {
                let mut s = String::from_str("refresh failed: ");
                s.append(e.as_str());
                self.status = s;
            },
        }
    }

    /// One step of the interactive loop (see `loop_step`): returns whether a
    /// fetch is under way afterwards and the outside work asked for.
    pub fn step(&mut self, fetching: bool, ev: LoopEvent) -> (r: (bool, Action))
        requires
            old(self)@.wf(),
            old(self)@.groups.len() <= i64::MAX,
        ensures
            (final(self)@, r.0, r.1) == loop_step(old(self)@, fetching, event_view(ev)),
            final(self)@.wf(),
    {
        match ev {
            LoopEvent::Tick(elapsed) => {
                if auto_refresh_due(self.refresh_secs, fetching, elapsed) {
                    self.status = String::from_str("auto-refreshing\u{2026}");
                    (true, Action::Refresh)
                } else {
                    (fetching, Action::Nothing)
                }
            },
            LoopEvent::Press(key) => {
                let a = self.handle_key(key, fetching);
                let starts = match a {
                    Action::Refresh => true,
                    _ => false,
                };
                (fetching || starts, a)
            },
            LoopEvent::Delivered(result) => {
                self.apply_fetch(result);
                (false, Action::Nothing)
            },
        }
    }

    /// `query` without its last character, when it has one.
    fn pop_query(&mut self)
        ensures
            final(self)@ == old(self)@.with_query(
                if old(self)@.query.len() > 0 {
                    old(self)@.query.drop_last()
                } else {
                    old(self)@.query
                },
            ),
    {
        let q = chars_of(self.query.as_str());
        if q.len() > 0 {
            let mut v: Vec<char> = Vec::new();
            let mut k: usize = 0;
            let last = q.len() - 1;
            while k < last
                invariant
                    q@ == self.query@,
                    last == q@.len() - 1,
                    k <= last,
                    v@ == q@.take(k as int),
                decreases q@.len() - k,
            {
                v.push(q[k]);
                assert(q@.take(k + 1) =~= q@.take(k as int).push(q@[k as int]));
                k = k + 1;
            }
            assert(q@.take(k as int) =~= q@.drop_last());
            self.query = string_of(&v);
        }
    }

    /// Handles one key press (see `key_step`), returning the outside work that it
    /// asks for; `fetching` tells whether a fetch is under way.
    pub fn handle_key(&mut self, key: Key, fetching: bool) -> (a: Action)
        requires
            old(self)@.wf(),
            old(self)@.groups.len() <= i64::MAX,
        ensures
            (final(self)@, a) == key_step(old(self)@, key, fetching),
            final(self)@.wf(),
    {
        if self.show_help {
            self.show_help = false;
            return Action::Nothing;
        }
        if self.mode == Mode::Editing {
            match key {
                Key::Esc => {
                    self.query = self.query_before_edit.clone();
                    self.mode = Mode::Normal;
                    self.recompute();
                },
                Key::Enter => {
                    self.mode = Mode::Normal;
                    self.recompute();
                    self.select_first();
                },
                Key::Backspace => {
                    self.pop_query();
                    self.recompute();
                },
                Key::Char(c, _) => {
                    push_char(&mut self.query, c);
                    self.recompute();
                },
                _ => {},
            }
            return Action::Nothing;
        }
        match key {
            Key::Char('q', _) | Key::Esc => {
                self.should_quit = true;
            },
            Key::Char('c', true) => {
                self.should_quit = true;
            },
            Key::Char('?', _) => {
                self.show_help = true;
            },
            Key::Char('/', _) => {
                self.mode = Mode::Editing;
                self.status = String::new();
                self.query_before_edit = self.query.clone();
            },
            Key::Char('p', _) => self.cycle_proto(),
            Key::Char('s', _) => self.toggle_grouping(),
            Key::Char('e', _) => {
                return Action::OpenEditor;
            },
            Key::Char('t', _) => self.toggle_view(),
            Key::Char('j', _) | Key::Down => self.move_selection(1),
            Key::Char('k', _) | Key::Up => self.move_selection(-1),
            Key::Char('g', _) | Key::Home => self.select_first(),
            Key::Char('G', _) | Key::End => self.select_last(),
            Key::Char('J', _) | Key::PageDown => self.scroll_detail(5),
            Key::Char('K', _) | Key::PageUp => self.scroll_detail(-5),
            Key::Char('r', _) => {
                if !fetching {
                    return Action::Refresh;
                }
            },
            _ => {},
        }
        Action::Nothing
    }
}

} // verus!
