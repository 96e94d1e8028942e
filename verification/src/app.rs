//! The program's state between keys: the dashboards, which one is
//! selected, the screen, the editor and the status line. A key changes that
//! state and may ask the program for work this state cannot do itself
//! (files, libqcperf calls); the program reports the outcome back.
use vstd::prelude::*;

use crate::backend::qcperf::QcPerf;
use crate::backend::session::{holders_of, SessionTable};
use crate::error::{error_text, Error};
use crate::model::capability::Capability;
use crate::model::dashboard::{
    fresh_dashboard, is_overview, no_random_id_text, random_bytes, same_dashboard, Dashboard,
    DashboardId, RunState,
};
use crate::seqs::{first_index, lemma_first_index_is};
use crate::text::{copy_string, decimal, push_decimal, push_str};
use crate::theme::Theme;
use crate::ui::editor::{key_edits, metric_rows, rows_of, rows_view, Editor, EditorEffect, Key};

verus! {

#[derive(Clone, Copy, Debug, PartialEq, Eq, Structural)]
pub enum Screen {
    List,
    View,
    Edit,
    Help,
}

/// Work a key leaves to the program.
pub enum Command {
    Nothing,
    Quit,
    /// Write dashboard `index` to its file.
    Save(usize),
    /// Delete the file of the dashboard with this id.
    Delete(DashboardId),
    /// Start dashboard `index`'s requests, then report with `start_finished`.
    Start(usize),
    /// Leave dashboard `index`'s requests, then report with `stop_finished`.
    Stop(usize),
    /// Write dashboard `index`'s rings to its CSV file.
    ExportCsv(usize),
    /// Write a snapshot of dashboard `index`.
    Snapshot(usize),
    /// Let the requests of this running dashboard follow its edit, then
    /// report with `edit_reconciled`.
    Reconcile(Dashboard),
    /// Write this edited dashboard to its file.
    Store(Dashboard),
}

pub struct App {
    qc: Option<QcPerf>,
    dashboards: Vec<Dashboard>,
    selected: usize,
    screen: Screen,
    editor: Option<Editor>,
    help_return: Screen,
    theme: Theme,
    status: String,
    init_error: Option<String>,
}

// ---------------------------------------------------------------------------
// Texts
// ---------------------------------------------------------------------------

pub open spec fn greeting_text() -> Seq<char> {
    "Up/Down select a dashboard, Enter opens it, ? shows help"@
}

pub open spec fn not_initialized_text() -> Seq<char> {
    "libqcperf is not initialized"@
}

pub open spec fn no_metrics_text() -> Seq<char> {
    "edit the dashboard and choose at least one metric before starting"@
}

pub open spec fn stop_first_text() -> Seq<char> {
    "stop the dashboard before deleting it"@
}

/// The status line at startup: the last warning libqcperf left, or else the
/// initialization error, or else the greeting.
pub open spec fn start_status(qc: Option<QcPerf>, init_error: Option<String>) -> Seq<char> {
    let first = match init_error {
        Some(e) => e@,
        None => greeting_text(),
    };
    match qc {
        Some(q) => if q.spec_warnings().len() > 0 {
            q.spec_warnings().last()
        } else {
            first
        },
        None => first,
    }
}

/// The name a new dashboard gets when `count` dashboards exist.
pub open spec fn new_name(count: nat) -> Seq<char> {
    "Dashboard "@ + decimal(count + 1)
}

pub open spec fn follow_text(name: Seq<char>, enabled: bool) -> Seq<char> {
    if enabled {
        name + " will append CSV while it runs"@
    } else {
        name + " CSV follow is off"@
    }
}

fn text_of(parts: &str) -> (r: String)
    ensures
        r@ == parts@,
{
    let mut s = String::new();
    push_str(&mut s, parts);
    s
}

fn prefixed(prefix: &str, name: &String) -> (r: String)
    ensures
        r@ == prefix@ + name@,
{
    let mut s = String::new();
    push_str(&mut s, prefix);
    push_str(&mut s, name.as_str());
    s
}

// ---------------------------------------------------------------------------
// Selection
// ---------------------------------------------------------------------------

/// The dashboard the view shows: the selected one, or the last one when the
/// selection lies past the end; none when there are no dashboards.
pub open spec fn current(count: nat, selected: nat) -> Option<nat> {
    if count == 0 {
        None
    } else if selected < count {
        Some(selected)
    } else {
        Some((count - 1) as nat)
    }
}

/// The selection after cycling `forward` (or back) through `count`
/// dashboards.
pub open spec fn cycled(selected: nat, count: nat, forward: bool) -> nat
    recommends
        count > 0,
{
    if forward {
        ((selected % count) + 1) % count
    } else {
        (((selected % count) + count - 1) as nat) % count
    }
}

/// Position of the first dashboard with id `id`, or the length.
pub open spec fn id_pos(dashboards: Seq<Dashboard>, id: DashboardId) -> int {
    first_index(dashboards, |d: Dashboard| d.id == id)
}

/// The run state the dashboard with id `id` has in `dashboards`, or idle.
pub open spec fn run_of(dashboards: Seq<Dashboard>, id: DashboardId) -> RunState {
    let i = id_pos(dashboards, id);
    if i < dashboards.len() {
        dashboards[i].run
    } else {
        RunState::Idle
    }
}

/// `cursor`, or the last position when it lies past the end.
pub open spec fn clamped(cursor: nat, len: nat) -> int {
    if cursor < len {
        cursor as int
    } else {
        len - 1
    }
}

/// Another dashboard than the edited one holds the capability of the
/// editor's row.
pub open spec fn rate_locked_in<V>(sessions: SessionTable<V>, caps: Seq<Capability>, editor: Editor) -> bool {
    let rows = rows_of(caps);
    if rows.len() == 0 {
        false
    } else {
        let row = rows[clamped(editor.cursor as nat, rows.len())];
        let holders = holders_of(sessions.view(), row.0, row.1);
        exists|k: int| 0 <= k < holders.len() && #[trigger] holders[k] != editor.dashboard.id
    }
}

/// Whether the capability under the editor's cursor is held by another
/// dashboard than the one being edited.
pub fn rate_locked<V>(sessions: &SessionTable<V>, capabilities: &[Capability], editor: &Editor) -> (r:
    bool)
    ensures
        r == rate_locked_in(*sessions, capabilities@, *editor),
{
    let rows = metric_rows(capabilities);
    if rows.len() == 0 {
        return false;
    }
    let at = if editor.cursor < rows.len() {
        editor.cursor
    } else {
        rows.len() - 1
    };
    assert(rows_view(rows@).len() == rows@.len());
    assert(rows_view(rows@)[at as int] == rows@[at as int].view());
    let holders = sessions.holders(rows[at].backend_id, rows[at].capability_id);
    let ghost row = rows_of(capabilities@)[clamped(editor.cursor as nat, rows_of(capabilities@).len())];
    assert(holders@ == holders_of(sessions.view(), row.0, row.1));
    let mut k: usize = 0;
    while k < holders.len()
        invariant
            k <= holders@.len(),
            rows_of(capabilities@).len() > 0,
            row == rows_of(capabilities@)[clamped(editor.cursor as nat, rows_of(capabilities@).len())],
            holders@ == holders_of(sessions.view(), row.0, row.1),
            forall|j: int| 0 <= j < k ==> holders@[j] == editor.dashboard.id,
        decreases holders.len() - k,
    {
        if holders[k] != editor.dashboard.id {
            assert(holders@[k as int] != editor.dashboard.id);
            return true;
        }
        k = k + 1;
    }
    false
}

impl App {
    pub closed spec fn spec_dashboards(&self) -> Seq<Dashboard> {
        self.dashboards@
    }

    pub closed spec fn spec_selected(&self) -> nat {
        self.selected as nat
    }

    pub closed spec fn spec_screen(&self) -> Screen {
        self.screen
    }

    pub closed spec fn spec_help_return(&self) -> Screen {
        self.help_return
    }

    pub closed spec fn spec_editor(&self) -> Option<Editor> {
        self.editor
    }

    pub closed spec fn spec_status(&self) -> Seq<char> {
        self.status@
    }

    pub closed spec fn spec_qc(&self) -> Option<QcPerf> {
        self.qc
    }

    pub closed spec fn spec_theme(&self) -> Theme {
        self.theme
    }

    pub closed spec fn spec_init_error(&self) -> Option<String> {
        self.init_error
    }

    pub open spec fn spec_capabilities(&self) -> Seq<Capability> {
        match self.spec_qc() {
            Some(qc) => qc.spec_capabilities(),
            None => Seq::empty(),
        }
    }

    /// `self` and `other` agree on everything but the dashboards, the
    /// selection, the screens, the editor and the status.
    pub open spec fn same_frame(&self, other: &Self) -> bool {
        &&& self.spec_qc() == other.spec_qc()
        &&& self.spec_theme() == other.spec_theme()
        &&& self.spec_init_error() == other.spec_init_error()
    }

    /// `self` and `other` agree on everything.
    pub open spec fn same_state(&self, other: &Self) -> bool {
        &&& self.same_frame(other)
        &&& self.spec_dashboards() == other.spec_dashboards()
        &&& self.spec_selected() == other.spec_selected()
        &&& self.spec_screen() == other.spec_screen()
        &&& self.spec_help_return() == other.spec_help_return()
        &&& self.spec_editor() == other.spec_editor()
        &&& self.spec_status() == other.spec_status()
    }

    /// The program's state at startup, with `drawn` the random bytes for the
    /// id of an overview. `loaded` are the saved dashboards; when there are
    /// none and libqcperf is up, the overview of every capability is created
    /// from `drawn` and the command asks to save it, or, without bytes, the
    /// status says no id could be drawn and there are no dashboards. The
    /// status otherwise shows the last warning libqcperf left, else the
    /// initialization error, else a greeting.
    pub fn start_with(
        qc: Option<QcPerf>,
        init_error: Option<String>,
        loaded: Vec<Dashboard>,
        theme: Theme,
        drawn: Option<[u8; 16]>,
    ) -> (r: (Self, Command))
        ensures
            r.0.spec_qc() == qc,
            r.0.spec_init_error() == init_error,
            r.0.spec_theme() == theme,
            r.0.spec_selected() == 0,
            r.0.spec_screen() == Screen::List,
            r.0.spec_help_return() == Screen::List,
            r.0.spec_editor() is None,
            if loaded@.len() == 0 && qc is Some {
                match drawn {
                    Some(bytes) => {
                        &&& r.0.spec_dashboards().len() == 1
                        &&& is_overview(r.0.spec_dashboards()[0], qc->0.spec_capabilities(), bytes@)
                        &&& r.1 == Command::Save(0)
                        &&& r.0.spec_status() == start_status(qc, init_error)
                    },
                    None => {
                        &&& r.0.spec_dashboards().len() == 0
                        &&& r.1 is Nothing
                        &&& r.0.spec_status() == no_random_id_text()
                    },
                }
            } else {
                &&& r.0.spec_dashboards() == loaded@
                &&& r.1 is Nothing
                &&& r.0.spec_status() == start_status(qc, init_error)
            },
    {
        let mut dashboards = loaded;
        let mut command = Command::Nothing;
        let mut failed: Option<Error> = None;
        if dashboards.len() == 0 {
            match &qc {
                Some(q) => {
                    match Dashboard::overview_from_draw(q.capabilities(), drawn) {
                        Ok(overview) => {
                            dashboards.push(overview);
                            command = Command::Save(0);
                        },
                        Err(e) => {
                            failed = Some(e);
                        },
                    }
                },
                None => {},
            }
        }
        let mut status = match &init_error {
            Some(e) => copy_string(e),
            None => text_of("Up/Down select a dashboard, Enter opens it, ? shows help"),
        };
        match &qc {
            Some(q) => {
                let warnings = q.warnings();
                if warnings.len() > 0 {
                    assert(warnings@.map_values(|w: String| w@)[warnings@.len() - 1] == warnings@[warnings@.len() - 1]@);
                    status = copy_string(&warnings[warnings.len() - 1]);
                }
            },
            None => {},
        }
        match &failed {
            Some(e) => {
                status = e.text();
            },
            None => {},
        }
        let app = App {
            qc,
            dashboards,
            selected: 0,
            screen: Screen::List,
            editor: None,
            help_return: Screen::List,
            theme,
            status,
            init_error,
        };
        (app, command)
    }

    /// The program's state at startup: `start_with` of the random bytes the
    /// system gave for the overview's id, when an overview is needed.
    pub fn new(qc: Option<QcPerf>, init_error: Option<String>, loaded: Vec<Dashboard>, theme: Theme) -> (r: (
        Self,
        Command,
    ))
        ensures
            r.0.spec_qc() == qc,
            r.0.spec_init_error() == init_error,
            r.0.spec_theme() == theme,
            r.0.spec_selected() == 0,
            r.0.spec_screen() == Screen::List,
            r.0.spec_help_return() == Screen::List,
            r.0.spec_editor() is None,
            if loaded@.len() == 0 && qc is Some {
                ||| {
                    &&& r.0.spec_dashboards().len() == 1
                    &&& r.0.spec_dashboards()[0].name@ == "Overview"@
                    &&& r.0.spec_dashboards()[0].run == RunState::Idle
                    &&& !r.0.spec_dashboards()[0].csv_export
                    &&& (r.0.spec_dashboards()[0].id >> 76u128) & 0xFu128 == 4
                    &&& (r.0.spec_dashboards()[0].id >> 62u128) & 0x3u128 == 2
                    &&& r.0.spec_dashboards()[0].graphs@
                        == crate::model::dashboard::overview_parts(qc->0.spec_capabilities()).0
                    &&& r.0.spec_dashboards()[0].rates@
                        == crate::model::dashboard::overview_parts(qc->0.spec_capabilities()).1
                    &&& r.1 == Command::Save(0)
                    &&& r.0.spec_status() == start_status(qc, init_error)
                }
                ||| {
                    &&& r.0.spec_dashboards().len() == 0
                    &&& r.1 is Nothing
                    &&& r.0.spec_status() == no_random_id_text()
                }
            } else {
                &&& r.0.spec_dashboards() == loaded@
                &&& r.1 is Nothing
                &&& r.0.spec_status() == start_status(qc, init_error)
            },
    {
        let needs_overview = loaded.len() == 0 && qc.is_some();
        let drawn = if needs_overview {
            random_bytes()
        } else {
            None
        };
        Self::start_with(qc, init_error, loaded, theme, drawn)
    }

    pub fn screen(&self) -> (r: Screen)
        ensures
            r == self.spec_screen(),
    {
        self.screen
    }

    pub fn dashboards(&self) -> (r: &[Dashboard])
        ensures
            r@ == self.spec_dashboards(),
    {
        self.dashboards.as_slice()
    }

    pub fn selected(&self) -> (r: usize)
        ensures
            r == self.spec_selected(),
    {
        self.selected
    }

    /// Index of the dashboard the view shows; see `current`.
    pub fn current_index(&self) -> (r: Option<usize>)
        ensures
            match current(self.spec_dashboards().len(), self.spec_selected()) {
                Some(i) => r == Some(i as usize),
                None => r is None,
            },
    {
        let n = self.dashboards.len();
        if n == 0 {
            None
        } else if self.selected < n {
            Some(self.selected)
        } else {
            Some(n - 1)
        }
    }

    /// The dashboard the view shows.
    pub fn selected_dashboard(&self) -> (r: Option<&Dashboard>)
        ensures
            match current(self.spec_dashboards().len(), self.spec_selected()) {
                Some(i) => r == Some(&self.spec_dashboards()[i as int]),
                None => r is None,
            },
    {
        match self.current_index() {
            Some(i) => Some(&self.dashboards[i]),
            None => None,
        }
    }

    /// The capabilities libqcperf reported; none when it is not up.
    pub fn capabilities(&self) -> (r: &[Capability])
        ensures
            r@ == self.spec_capabilities(),
    {
        match &self.qc {
            Some(q) => q.capabilities(),
            None => &[],
        }
    }

    pub fn qc(&self) -> (r: Option<&QcPerf>)
        ensures
            match self.spec_qc() {
                Some(q) => r == Some(&q),
                None => r is None,
            },
    {
        match &self.qc {
            Some(q) => Some(q),
            None => None,
        }
    }

    pub fn theme(&self) -> (r: &Theme)
        ensures
            *r == self.spec_theme(),
    {
        &self.theme
    }

    pub fn status(&self) -> (r: &str)
        ensures
            r@ == self.spec_status(),
    {
        self.status.as_str()
    }

    pub fn init_error(&self) -> (r: Option<&str>)
        ensures
            match self.spec_init_error() {
                Some(e) => r matches Some(t) && t@ == e@,
                None => r is None,
            },
    {
        match &self.init_error {
            Some(e) => Some(e.as_str()),
            None => None,
        }
    }

    pub fn editor(&self) -> (r: Option<&Editor>)
        ensures
            match self.spec_editor() {
                Some(e) => r == Some(&e),
                None => r is None,
            },
    {
        match &self.editor {
            Some(e) => Some(e),
            None => None,
        }
    }

    /// Shows `text` in the status line.
    pub fn set_status(&mut self, text: String)
        ensures
            final(self).spec_status() == text@,
            final(self).same_frame(old(self)),
            final(self).spec_dashboards() == old(self).spec_dashboards(),
            final(self).spec_selected() == old(self).spec_selected(),
            final(self).spec_screen() == old(self).spec_screen(),
            final(self).spec_help_return() == old(self).spec_help_return(),
            final(self).spec_editor() == old(self).spec_editor(),
    {
        self.status = text;
    }

    /// Shows a libqcperf message: `<level>: <text>`.
    pub fn show_message(&mut self, level: &str, text: &str)
        ensures
            final(self).spec_status() == level@ + ": "@ + text@,
            final(self).same_frame(old(self)),
            final(self).spec_dashboards() == old(self).spec_dashboards(),
            final(self).spec_selected() == old(self).spec_selected(),
            final(self).spec_screen() == old(self).spec_screen(),
            final(self).spec_help_return() == old(self).spec_help_return(),
            final(self).spec_editor() == old(self).spec_editor(),
    {
        let mut s = String::new();
        push_str(&mut s, level);
        push_str(&mut s, ": ");
        push_str(&mut s, text);
        self.status = s;
    }

    fn set_run(&mut self, index: usize, run: RunState)
        requires
            index < old(self).spec_dashboards().len(),
        ensures
            final(self).spec_dashboards() == old(self).spec_dashboards().update(
                index as int,
                Dashboard { run, ..old(self).spec_dashboards()[index as int] },
            ),
            final(self).same_frame(old(self)),
            final(self).spec_selected() == old(self).spec_selected(),
            final(self).spec_screen() == old(self).spec_screen(),
            final(self).spec_help_return() == old(self).spec_help_return(),
            final(self).spec_editor() == old(self).spec_editor(),
            final(self).spec_status() == old(self).spec_status(),
    {
        let mut d = self.dashboards.remove(index);
        d.run = run;
        self.dashboards.insert(index, d);
        assert(self.dashboards@ =~= old(self).dashboards@.update(
            index as int,
            Dashboard { run, ..old(self).dashboards@[index as int] },
        ));
    }

    /// Reports how starting dashboard `index` went: it runs, or the status
    /// shows the error.
    pub fn start_finished(&mut self, index: usize, result: Result<(), Error>)
        requires
            index < old(self).spec_dashboards().len(),
        ensures
            final(self).same_frame(old(self)),
            final(self).spec_selected() == old(self).spec_selected(),
            final(self).spec_screen() == old(self).spec_screen(),
            final(self).spec_help_return() == old(self).spec_help_return(),
            final(self).spec_editor() == old(self).spec_editor(),
            match result {
                Ok(()) => final(self).spec_dashboards() == old(self).spec_dashboards().update(
                    index as int,
                    Dashboard { run: RunState::Running, ..old(self).spec_dashboards()[index as int] },
                ) && final(self).spec_status() == "started "@ + old(
                    self,
                ).spec_dashboards()[index as int].name@,
                Err(e) => final(self).spec_dashboards() == old(self).spec_dashboards()
                    && final(self).spec_status() == error_text(e),
            },
    {
        match result {
            Ok(()) => {
                self.set_run(index, RunState::Running);
                let text = prefixed("started ", &self.dashboards[index].name);
                self.status = text;
            },
            Err(e) => {
                self.status = e.text();
            },
        }
    }

    /// Reports how stopping dashboard `index` went: it is stopped, or the
    /// status shows the error.
    pub fn stop_finished(&mut self, index: usize, result: Result<(), Error>)
        requires
            index < old(self).spec_dashboards().len(),
        ensures
            final(self).same_frame(old(self)),
            final(self).spec_selected() == old(self).spec_selected(),
            final(self).spec_screen() == old(self).spec_screen(),
            final(self).spec_help_return() == old(self).spec_help_return(),
            final(self).spec_editor() == old(self).spec_editor(),
            match result {
                Ok(()) => final(self).spec_dashboards() == old(self).spec_dashboards().update(
                    index as int,
                    Dashboard { run: RunState::Stopped, ..old(self).spec_dashboards()[index as int] },
                ) && final(self).spec_status() == "stopped "@ + old(
                    self,
                ).spec_dashboards()[index as int].name@,
                Err(e) => final(self).spec_dashboards() == old(self).spec_dashboards()
                    && final(self).spec_status() == error_text(e),
            },
    {
        match result {
            Ok(()) => {
                self.set_run(index, RunState::Stopped);
                let text = prefixed("stopped ", &self.dashboards[index].name);
                self.status = text;
            },
            Err(e) => {
                self.status = e.text();
            },
        }
    }
}

impl App {
    /// The state after a key is this one, with the given parts.
    pub open spec fn state_is(
        &self,
        base: &Self,
        dashboards: Seq<Dashboard>,
        selected: nat,
        screen: Screen,
        help_return: Screen,
        editor: Option<Editor>,
        status: Seq<char>,
    ) -> bool {
        &&& self.same_frame(base)
        &&& self.spec_dashboards() == dashboards
        &&& self.spec_selected() == selected
        &&& self.spec_screen() == screen
        &&& self.spec_help_return() == help_return
        &&& self.spec_editor() == editor
        &&& self.spec_status() == status
    }

    /// `next` is this state with a different status.
    pub open spec fn with_status(&self, next: &Self, status: Seq<char>) -> bool {
        next.state_is(
            self,
            self.spec_dashboards(),
            self.spec_selected(),
            self.spec_screen(),
            self.spec_help_return(),
            self.spec_editor(),
            status,
        )
    }

    /// `next` is this state with the editor opened on a copy of dashboard
    /// `index`.
    pub open spec fn opened_editor(&self, next: &Self, index: nat) -> bool {
        &&& next.same_frame(self)
        &&& next.spec_dashboards() == self.spec_dashboards()
        &&& next.spec_selected() == self.spec_selected()
        &&& next.spec_screen() == Screen::Edit
        &&& next.spec_help_return() == self.spec_help_return()
        &&& next.spec_status() == self.spec_status()
        &&& next.spec_editor() matches Some(e) && same_dashboard(
            e.dashboard,
            self.spec_dashboards()[index as int],
        ) && e.cursor == 0 && e.active
    }

    /// `n` on the list with `drawn` the random bytes for the new
    /// dashboard's id: a new empty dashboard at the end, selected and open in
    /// the editor, and the command to save it; without bytes, only the status
    /// says no id could be drawn.
    pub open spec fn dashboard_added(&self, next: &Self, drawn: Option<[u8; 16]>, r: Command) -> bool {
        let ds = self.spec_dashboards();
        let n = ds.len();
        match drawn {
            None => r is Nothing && self.with_status(next, no_random_id_text()),
            Some(bytes) => {
                let d = next.spec_dashboards()[n as int];
                &&& r == Command::Save(n as usize)
                &&& next.spec_dashboards().len() == n + 1
                &&& next.spec_dashboards().take(n as int) == ds
                &&& fresh_dashboard(d, new_name(n), bytes@)
                &&& next.same_frame(self)
                &&& next.spec_selected() == n
                &&& next.spec_screen() == Screen::Edit
                &&& next.spec_help_return() == self.spec_help_return()
                &&& next.spec_status() == self.spec_status()
                &&& next.spec_editor() matches Some(e) && same_dashboard(e.dashboard, d) && e.cursor
                    == 0 && e.active
            },
        }
    }

    /// What a key does on the dashboard list.
    pub open spec fn list_key(&self, next: &Self, key: Key, r: Command) -> bool {
        let ds = self.spec_dashboards();
        let n = ds.len();
        let sel = self.spec_selected();
        let same = next.same_state(self) && r is Nothing;
        match key {
            Key::Up => r is Nothing && next.state_is(
                self,
                ds,
                if sel > 0 {
                    (sel - 1) as nat
                } else {
                    0
                },
                self.spec_screen(),
                self.spec_help_return(),
                self.spec_editor(),
                self.spec_status(),
            ),
            Key::Down => r is Nothing && next.state_is(
                self,
                ds,
                if sel + 1 < n {
                    sel + 1
                } else {
                    sel
                },
                self.spec_screen(),
                self.spec_help_return(),
                self.spec_editor(),
                self.spec_status(),
            ),
            Key::Enter => r is Nothing && next.state_is(
                self,
                ds,
                sel,
                if n > 0 {
                    Screen::View
                } else {
                    self.spec_screen()
                },
                self.spec_help_return(),
                self.spec_editor(),
                self.spec_status(),
            ),
            Key::Char('n') => exists|drawn: Option<[u8; 16]>| self.dashboard_added(next, drawn, r),
            Key::Char('d') => match current(n, sel) {
                None => same,
                Some(i) => if ds[i as int].run == RunState::Running {
                    r is Nothing && self.with_status(next, stop_first_text())
                } else {
                    &&& r == Command::Delete(ds[i as int].id)
                    &&& next.state_is(
                        self,
                        ds.remove(i as int),
                        if sel >= n - 1 && sel > 0 {
                            (sel - 1) as nat
                        } else {
                            sel
                        },
                        self.spec_screen(),
                        self.spec_help_return(),
                        self.spec_editor(),
                        "deleted "@ + ds[i as int].name@,
                    )
                },
            },
            _ => same,
        }
    }

    /// What a key does on the live view.
    pub open spec fn view_key(&self, next: &Self, key: Key, r: Command) -> bool {
        let ds = self.spec_dashboards();
        let n = ds.len();
        let sel = self.spec_selected();
        let same = next.same_state(self) && r is Nothing;
        match key {
            Key::Esc => r is Nothing && next.state_is(
                self,
                ds,
                sel,
                Screen::List,
                self.spec_help_return(),
                self.spec_editor(),
                self.spec_status(),
            ),
            Key::Char('e') => if sel < n {
                r is Nothing && self.opened_editor(next, sel)
            } else {
                same
            },
            Key::Char('s') => match current(n, sel) {
                None => same,
                Some(i) => if self.spec_qc() is None {
                    r is Nothing && self.with_status(
                        next,
                        match self.spec_init_error() {
                            Some(e) => e@,
                            None => not_initialized_text(),
                        },
                    )
                } else if ds[i as int].rates@.len() == 0 {
                    r is Nothing && self.with_status(next, no_metrics_text())
                } else {
                    r == Command::Start(i as usize) && next.same_state(self)
                },
            },
            Key::Char('x') => match current(n, sel) {
                Some(i) if self.spec_qc() is Some => r == Command::Stop(i as usize) && next.same_state(
                    self,
                ),
                _ => same,
            },
            Key::Char('c') => match current(n, sel) {
                Some(i) => r == Command::ExportCsv(i as usize) && next.same_state(self),
                None => same,
            },
            Key::Char('p') => match current(n, sel) {
                Some(i) => r == Command::Snapshot(i as usize) && next.same_state(self),
                None => same,
            },
            Key::Char('v') => if sel < n {
                let d = ds[sel as int];
                &&& r == Command::Save(sel as usize)
                &&& next.state_is(
                    self,
                    ds.update(sel as int, Dashboard { csv_export: !d.csv_export, ..d }),
                    sel,
                    self.spec_screen(),
                    self.spec_help_return(),
                    self.spec_editor(),
                    follow_text(d.name@, !d.csv_export),
                )
            } else {
                same
            },
            Key::Tab | Key::Right { .. } | Key::Left { .. } => if n > 0 {
                let to = cycled(sel, n, !(key is Left));
                r is Nothing && next.state_is(
                    self,
                    ds,
                    to,
                    self.spec_screen(),
                    self.spec_help_return(),
                    self.spec_editor(),
                    "showing "@ + ds[to as int].name@,
                )
            } else {
                same
            },
            _ => same,
        }
    }

    /// Finishing an edit of `d`: it replaces the first dashboard with its id
    /// and the view returns; the edited dashboard is to be written.
    pub open spec fn stored(&self, next: &Self, d: Dashboard, status: Seq<char>, r: Command) -> bool {
        let ds = self.spec_dashboards();
        let i = id_pos(ds, d.id);
        &&& next.state_is(
            self,
            if i < ds.len() {
                ds.update(i, d)
            } else {
                ds
            },
            self.spec_selected(),
            Screen::View,
            self.spec_help_return(),
            None,
            status,
        )
        &&& r matches Command::Store(x) && same_dashboard(x, d)
    }

    /// Saving the editor's dashboard `edited`: it keeps the run state it has
    /// in the list. A running one goes to the program to reconcile its
    /// requests first (when libqcperf is up); otherwise it is stored.
    pub open spec fn save_edit(&self, next: &Self, edited: Dashboard, r: Command) -> bool {
        let was = run_of(self.spec_dashboards(), edited.id);
        let d = Dashboard { run: was, ..edited };
        if was == RunState::Running && self.spec_qc() is Some {
            &&& next.state_is(
                self,
                self.spec_dashboards(),
                self.spec_selected(),
                self.spec_screen(),
                self.spec_help_return(),
                None,
                self.spec_status(),
            )
            &&& r matches Command::Reconcile(x) && x == d
        } else {
            self.stored(
                next,
                d,
                if was == RunState::Running {
                    self.spec_status()
                } else {
                    "saved "@ + d.name@
                },
                r,
            )
        }
    }

    /// What a key does in the editor, given the requests running now.
    pub open spec fn edit_key<V>(&self, next: &Self, key: Key, sessions: SessionTable<V>, r: Command) -> bool {
        match self.spec_editor() {
            None => r is Nothing && next.state_is(
                self,
                self.spec_dashboards(),
                self.spec_selected(),
                Screen::View,
                self.spec_help_return(),
                None,
                self.spec_status(),
            ),
            Some(ed) => {
                let caps = self.spec_capabilities();
                let locked = rate_locked_in(sessions, caps, ed);
                exists|e2: Editor, eff: EditorEffect|
                    #![trigger key_edits(ed, e2, key, caps, locked, eff)]
                    key_edits(ed, e2, key, caps, locked, eff) && match eff {
                        EditorEffect::Nothing => r is Nothing && next.state_is(
                            self,
                            self.spec_dashboards(),
                            self.spec_selected(),
                            self.spec_screen(),
                            self.spec_help_return(),
                            Some(e2),
                            self.spec_status(),
                        ),
                        EditorEffect::Status(t) => r is Nothing && next.state_is(
                            self,
                            self.spec_dashboards(),
                            self.spec_selected(),
                            self.spec_screen(),
                            self.spec_help_return(),
                            Some(e2),
                            t@,
                        ),
                        EditorEffect::Cancel => r is Nothing && next.state_is(
                            self,
                            self.spec_dashboards(),
                            self.spec_selected(),
                            if self.spec_dashboards().len() == 0 {
                                Screen::List
                            } else {
                                Screen::View
                            },
                            self.spec_help_return(),
                            None,
                            self.spec_status(),
                        ),
                        EditorEffect::Saved => self.save_edit(next, e2.dashboard, r),
                    }
            },
        }
    }

    /// Adds an empty dashboard whose id is made from `drawn` and opens it in
    /// the editor; see `dashboard_added`.
    pub fn add_dashboard(&mut self, drawn: Option<[u8; 16]>) -> (r: Command)
        requires
            old(self).spec_dashboards().len() < usize::MAX,
        ensures
            old(self).dashboard_added(final(self), drawn, r),
    {
        let n = self.dashboards.len();
        let mut name = String::new();
        push_str(&mut name, "Dashboard ");
        push_decimal(&mut name, (n as u64) + 1);
        match Dashboard::from_draw(name, drawn) {
            Ok(dashboard) => {
                self.dashboards.push(dashboard);
                self.selected = n;
                assert(self.dashboards@.take(n as int) =~= old(self).dashboards@);
                self.open_editor();
                Command::Save(n)
            },
            Err(e) => {
                self.status = e.text();
                Command::Nothing
            },
        }
    }

    /// Opens the editor on a copy of the selected dashboard, if there is one.
    fn open_editor(&mut self)
        ensures
            if old(self).spec_selected() < old(self).spec_dashboards().len() {
                old(self).opened_editor(final(self), old(self).spec_selected())
            } else {
                final(self).same_state(old(self))
            },
    {
        if self.selected < self.dashboards.len() {
            let copy = self.dashboards[self.selected].duplicate();
            self.editor = Some(Editor::open(copy));
            self.screen = Screen::Edit;
        }
    }

    fn key_list(&mut self, key: Key) -> (r: Command)
        requires
            old(self).spec_dashboards().len() < usize::MAX,
        ensures
            old(self).list_key(final(self), key, r),
    {
        let n = self.dashboards.len();
        match key {
            Key::Up => {
                if self.selected > 0 {
                    self.selected = self.selected - 1;
                }
                Command::Nothing
            },
            Key::Down => {
                if n > 0 && self.selected < n - 1 {
                    self.selected = self.selected + 1;
                }
                Command::Nothing
            },
            Key::Enter => {
                if n > 0 {
                    self.screen = Screen::View;
                }
                Command::Nothing
            },
            Key::Char(ch) => {
                if ch == 'n' {
                    let drawn = random_bytes();
                    let r = self.add_dashboard(drawn);
                    assert(old(self).dashboard_added(self, drawn, r));
                    r
                } else if ch == 'd' {
                    self.delete_selected()
                } else {
                    Command::Nothing
                }
            },
            _ => Command::Nothing,
        }
    }

    fn delete_selected(&mut self) -> (r: Command)
        ensures
            ({
                let ds = old(self).spec_dashboards();
                let n = ds.len();
                let sel = old(self).spec_selected();
                match current(n, sel) {
                    None => final(self).same_state(old(self)) && r is Nothing,
                    Some(i) => if ds[i as int].run == RunState::Running {
                        r is Nothing && old(self).with_status(final(self), stop_first_text())
                    } else {
                        &&& r == Command::Delete(ds[i as int].id)
                        &&& final(self).state_is(
                            old(self),
                            ds.remove(i as int),
                            if sel >= n - 1 && sel > 0 {
                                (sel - 1) as nat
                            } else {
                                sel
                            },
                            old(self).spec_screen(),
                            old(self).spec_help_return(),
                            old(self).spec_editor(),
                            "deleted "@ + ds[i as int].name@,
                        )
                    },
                }
            }),
    {
        let index = match self.current_index() {
            Some(i) => i,
            None => {
                return Command::Nothing;
            },
        };
        if self.dashboards[index].run == RunState::Running {
            self.status = text_of("stop the dashboard before deleting it");
            return Command::Nothing;
        }
        let removed = self.dashboards.remove(index);
        if self.selected >= self.dashboards.len() && self.selected > 0 {
            self.selected = self.selected - 1;
        }
        self.status = prefixed("deleted ", &removed.name);
        Command::Delete(removed.id)
    }

    fn key_view(&mut self, key: Key) -> (r: Command)
        ensures
            old(self).view_key(final(self), key, r),
    {
        let n = self.dashboards.len();
        match key {
            Key::Esc => {
                self.screen = Screen::List;
                Command::Nothing
            },
            Key::Tab | Key::Right { .. } => {
                self.cycle(true);
                Command::Nothing
            },
            Key::Left { .. } => {
                self.cycle(false);
                Command::Nothing
            },
            Key::Char(ch) => {
                if ch == 'e' {
                    self.open_editor();
                    Command::Nothing
                } else if ch == 's' {
                    self.start_selected()
                } else if ch == 'x' {
                    match self.current_index() {
                        Some(i) => if self.qc.is_some() {
                            Command::Stop(i)
                        } else {
                            Command::Nothing
                        },
                        None => Command::Nothing,
                    }
                } else if ch == 'c' {
                    match self.current_index() {
                        Some(i) => Command::ExportCsv(i),
                        None => Command::Nothing,
                    }
                } else if ch == 'p' {
                    match self.current_index() {
                        Some(i) => Command::Snapshot(i),
                        None => Command::Nothing,
                    }
                } else if ch == 'v' {
                    self.toggle_csv_follow()
                } else {
                    Command::Nothing
                }
            },
            _ => Command::Nothing,
        }
    }

    fn start_selected(&mut self) -> (r: Command)
        ensures
            ({
                let ds = old(self).spec_dashboards();
                match current(ds.len(), old(self).spec_selected()) {
                    None => final(self).same_state(old(self)) && r is Nothing,
                    Some(i) => if old(self).spec_qc() is None {
                        r is Nothing && old(self).with_status(
                            final(self),
                            match old(self).spec_init_error() {
                                Some(e) => e@,
                                None => not_initialized_text(),
                            },
                        )
                    } else if ds[i as int].rates@.len() == 0 {
                        r is Nothing && old(self).with_status(final(self), no_metrics_text())
                    } else {
                        r == Command::Start(i as usize) && final(self).same_state(old(self))
                    },
                }
            }),
    {
        let index = match self.current_index() {
            Some(i) => i,
            None => {
                return Command::Nothing;
            },
        };
        if self.qc.is_none() {
            let text = match &self.init_error {
                Some(e) => copy_string(e),
                None => text_of("libqcperf is not initialized"),
            };
            self.status = text;
            return Command::Nothing;
        }
        if self.dashboards[index].rates.len() == 0 {
            self.status = text_of("edit the dashboard and choose at least one metric before starting");
            return Command::Nothing;
        }
        Command::Start(index)
    }

    fn toggle_csv_follow(&mut self) -> (r: Command)
        ensures
            ({
                let ds = old(self).spec_dashboards();
                let sel = old(self).spec_selected();
                if sel < ds.len() {
                    let d = ds[sel as int];
                    &&& r == Command::Save(sel as usize)
                    &&& final(self).state_is(
                        old(self),
                        ds.update(sel as int, Dashboard { csv_export: !d.csv_export, ..d }),
                        sel,
                        old(self).spec_screen(),
                        old(self).spec_help_return(),
                        old(self).spec_editor(),
                        follow_text(d.name@, !d.csv_export),
                    )
                } else {
                    final(self).same_state(old(self)) && r is Nothing
                }
            }),
    {
        let index = self.selected;
        if index >= self.dashboards.len() {
            return Command::Nothing;
        }
        let mut d = self.dashboards.remove(index);
        d.csv_export = !d.csv_export;
        let mut text = copy_string(&d.name);
        if d.csv_export {
            push_str(&mut text, " will append CSV while it runs");
        } else {
            push_str(&mut text, " CSV follow is off");
        }
        self.dashboards.insert(index, d);
        assert(self.dashboards@ =~= old(self).dashboards@.update(
            index as int,
            Dashboard { csv_export: !old(self).dashboards@[index as int].csv_export, ..old(self).dashboards@[index as int] },
        ));
        self.status = text;
        Command::Save(index)
    }

    fn cycle(&mut self, forward: bool)
        ensures
            ({
                let ds = old(self).spec_dashboards();
                let n = ds.len();
                if n > 0 {
                    let to = cycled(old(self).spec_selected(), n, forward);
                    final(self).state_is(
                        old(self),
                        ds,
                        to,
                        old(self).spec_screen(),
                        old(self).spec_help_return(),
                        old(self).spec_editor(),
                        "showing "@ + ds[to as int].name@,
                    )
                } else {
                    final(self).same_state(old(self))
                }
            }),
    {
        let n = self.dashboards.len();
        if n == 0 {
            return;
        }
        let at = self.selected % n;
        let next = if forward {
            (at + 1) % n
        } else if at == 0 {
            n - 1
        } else {
            at - 1
        };
        assert(!forward ==> next == ((at + n - 1) as nat) % (n as nat)) by (nonlinear_arith)
            requires
                at < n,
                n > 0,
                !forward ==> next == (if at == 0 {
                    n - 1
                } else {
                    at - 1
                }),
        ;
        self.selected = next;
        self.status = prefixed("showing ", &self.dashboards[next].name);
    }

    fn run_index(&self, id: DashboardId) -> (r: usize)
        ensures
            r == id_pos(self.spec_dashboards(), id),
            r <= self.spec_dashboards().len(),
    {
        let ghost p = |d: Dashboard| d.id == id;
        let mut i: usize = 0;
        while i < self.dashboards.len()
            invariant
                i <= self.dashboards@.len(),
                p == (|d: Dashboard| d.id == id),
                forall|j: int| 0 <= j < i ==> !p(#[trigger] self.dashboards@[j]),
            decreases self.dashboards.len() - i,
        {
            if self.dashboards[i].id == id {
                proof {
                    lemma_first_index_is(self.dashboards@, p, i as int);
                }
                return i;
            }
            i = i + 1;
        }
        proof {
            lemma_first_index_is(self.dashboards@, p, i as int);
        }
        i
    }

    fn store(&mut self, d: Dashboard, status: String) -> (r: Command)
        ensures
            old(self).stored(final(self), d, status@, r),
    {
        let i = self.run_index(d.id);
        let copy = d.duplicate();
        if i < self.dashboards.len() {
            self.dashboards.set(i, d);
        }
        self.status = status;
        self.screen = Screen::View;
        self.editor = None;
        Command::Store(copy)
    }

    fn save_editor(&mut self, edited: Dashboard) -> (r: Command)
        requires
            old(self).spec_editor() is None,
        ensures
            old(self).save_edit(final(self), edited, r),
    {
        let i = self.run_index(edited.id);
        let was = if i < self.dashboards.len() {
            self.dashboards[i].run
        } else {
            RunState::Idle
        };
        let mut dashboard = edited;
        dashboard.run = was;
        if was == RunState::Running {
            if self.qc.is_some() {
                return Command::Reconcile(dashboard);
            }
            let status = copy_string(&self.status);
            self.store(dashboard, status)
        } else {
            let status = prefixed("saved ", &dashboard.name);
            self.store(dashboard, status)
        }
    }

    /// Reports how reconciling the requests of the edited, running
    /// `dashboard` went: the status shows the note it left, or that it was
    /// saved, or the error; then the dashboard is stored.
    pub fn edit_reconciled(&mut self, dashboard: Dashboard, outcome: Result<Option<String>, Error>) -> (r:
        Command)
        ensures
            old(self).stored(
                final(self),
                dashboard,
                match outcome {
                    Ok(Some(note)) => note@,
                    Ok(None) => "saved "@ + dashboard.name@,
                    Err(e) => error_text(e),
                },
                r,
            ),
    {
        let status = match outcome {
            Ok(Some(note)) => note,
            Ok(None) => prefixed("saved ", &dashboard.name),
            Err(e) => e.text(),
        };
        self.store(dashboard, status)
    }

    fn key_edit<V>(&mut self, key: Key, sessions: &SessionTable<V>) -> (r: Command)
        ensures
            old(self).edit_key(final(self), key, *sessions, r),
    {
        let mut editor = match self.editor.take() {
            Some(e) => e,
            None => {
                self.screen = Screen::View;
                return Command::Nothing;
            },
        };
        let ghost ed = editor;
        let locked = rate_locked(sessions, self.capabilities(), &editor);
        let effect = editor.handle_key(key, self.capabilities(), locked);
        let ghost e2 = editor;
        let ghost eff = effect;
        let r = match effect {
            EditorEffect::Nothing => {
                self.editor = Some(editor);
                Command::Nothing
            },
            EditorEffect::Status(text) => {
                self.editor = Some(editor);
                self.status = text;
                Command::Nothing
            },
            EditorEffect::Cancel => {
                self.screen = if self.dashboards.len() == 0 {
                    Screen::List
                } else {
                    Screen::View
                };
                Command::Nothing
            },
            EditorEffect::Saved => self.save_editor(editor.dashboard),
        };
        assert(key_edits(ed, e2, key, old(self).spec_capabilities(), locked, eff));
        r
    }

    /// Handles one key. Outside the editor, `q` quits and `?` opens the help
    /// (Esc returns from it); the rest depends on the screen: see
    /// `list_key`, `view_key` and `edit_key`.
    pub fn handle_key<V>(&mut self, key: Key, sessions: &SessionTable<V>) -> (r: Command)
        requires
            old(self).spec_dashboards().len() < usize::MAX,
        ensures
            if key == Key::Char('q') && old(self).spec_screen() != Screen::Edit {
                r is Quit && final(self).same_state(old(self))
            } else if key == Key::Char('?') && old(self).spec_screen() != Screen::Edit {
                r is Nothing && final(self).state_is(
                    old(self),
                    old(self).spec_dashboards(),
                    old(self).spec_selected(),
                    Screen::Help,
                    old(self).spec_screen(),
                    old(self).spec_editor(),
                    old(self).spec_status(),
                )
            } else {
                match old(self).spec_screen() {
                    Screen::List => old(self).list_key(final(self), key, r),
                    Screen::View => old(self).view_key(final(self), key, r),
                    Screen::Edit => old(self).edit_key(final(self), key, *sessions, r),
                    Screen::Help => r is Nothing && if key == Key::Esc {
                        final(self).state_is(
                            old(self),
                            old(self).spec_dashboards(),
                            old(self).spec_selected(),
                            old(self).spec_help_return(),
                            old(self).spec_help_return(),
                            old(self).spec_editor(),
                            old(self).spec_status(),
                        )
                    } else {
                        final(self).same_state(old(self))
                    },
                }
            },
    {
        if key == Key::Char('q') && self.screen != Screen::Edit {
            return Command::Quit;
        }
        if key == Key::Char('?') && self.screen != Screen::Edit {
            self.help_return = self.screen;
            self.screen = Screen::Help;
            return Command::Nothing;
        }
        match self.screen {
            Screen::List => self.key_list(key),
            Screen::View => self.key_view(key),
            Screen::Edit => self.key_edit(key, sessions),
            Screen::Help => {
                if key == Key::Esc {
                    self.screen = self.help_return;
                }
                Command::Nothing
            },
        }
    }
}

/// Leaving or switching dashboards, opening the editor, taking a snapshot or
/// writing CSV from the live view start and stop nothing: every dashboard,
/// its run state included, stays as it was.
pub proof fn lemma_view_keys_keep_dashboards(app: App, next: App, key: Key, r: Command)
    requires
        app.view_key(&next, key, r),
        key == Key::Esc || key == Key::Tab || key is Left || key is Right || key == Key::Char('e')
            || key == Key::Char('p') || key == Key::Char('c'),
    ensures
        next.spec_dashboards() == app.spec_dashboards(),
{
}

/// In the live view, Tab and Right show the next dashboard and Left the
/// previous one, wrapping around at either end; the status names the
/// dashboard now shown.
pub proof fn lemma_view_cycle_keys(app: App, next: App, key: Key, r: Command)
    requires
        app.view_key(&next, key, r),
        key == Key::Tab || key is Left || key is Right,
        app.spec_selected() < app.spec_dashboards().len(),
    ensures
        ({
            let n = app.spec_dashboards().len();
            let sel = app.spec_selected();
            &&& next.spec_dashboards() == app.spec_dashboards()
            &&& r is Nothing
            &&& !(key is Left) ==> next.spec_selected() == if sel + 1 < n {
                sel + 1
            } else {
                0
            }
            &&& key is Left ==> next.spec_selected() == if sel > 0 {
                sel - 1
            } else {
                n - 1
            }
            &&& next.spec_status() == "showing "@ + app.spec_dashboards()[next.spec_selected() as int].name@
        }),
{
    let n = app.spec_dashboards().len();
    let sel = app.spec_selected();
    assert(sel % n == sel) by (nonlinear_arith)
        requires
            sel < n,
    ;
    if sel + 1 < n {
        assert((sel + 1) % n == sel + 1) by (nonlinear_arith)
            requires
                sel + 1 < n,
        ;
    } else {
        assert((sel + 1) % n == 0) by (nonlinear_arith)
            requires
                sel + 1 == n,
                n > 0,
        ;
    }
    if sel > 0 {
        assert(((sel + n - 1) as nat) % n == sel - 1) by (nonlinear_arith)
            requires
                0 < sel < n,
        ;
    } else {
        assert(((sel + n - 1) as nat) % n == n - 1) by (nonlinear_arith)
            requires
                sel == 0,
                n > 0,
        ;
    }
}

} // verus!
