//! What each key does on each screen, and when the screen is drawn anew.

use vstd::prelude::*;
use crate::monitor::Detail;
use crate::monitor::charts::Chart;
use crate::monitor::mark::Marks;
use crate::monitor::panels::Tab;

verus! {

/// A key.
#[derive(Clone, Copy, PartialEq, Eq, Debug, Structural)]
pub enum Key {
    Esc,
    Enter,
    Tab,
    BackTab,
    Up,
    Down,
    Left,
    Right,
    PageUp,
    PageDown,
    End,
    Backspace,
    Delete,
    Char(char),
    Other,
}

/// A key that was pressed, alone or with Ctrl.
#[derive(Clone, Copy, PartialEq, Eq, Debug, Structural)]
pub struct Press {
    pub key: Key,
    pub ctrl: bool,
}

/// A box or a screen that takes every key while it is open.
#[derive(Clone, Copy, PartialEq, Eq, Debug, Structural)]
pub enum Overlay {
    /// The question before something that cannot be undone.
    Confirm,
    MarkEditor,
    EndpointEditor,
    SessionEditor,
    Marks,
    Rules,
    Handoffs,
    Actions,
    Text,
}

/// What fills the screen.
#[derive(Clone, Copy, PartialEq, Eq, Debug, Structural)]
pub enum Focus {
    /// The panels of a tab.
    Panels,
    Chart,
    /// A table, with or without a search in it.
    Table { searching: bool },
    Detail,
    /// The form of a new execution.
    Wizard,
    /// The log of an execution.
    ToolMonitor,
    /// The cards of an execution.
    Board,
    Module,
}

/// Which overlays are open.
#[derive(Clone, Copy, PartialEq, Eq, Debug, Structural)]
pub struct Opened {
    pub confirm: bool,
    pub mark_editor: bool,
    pub endpoint_editor: bool,
    pub session_editor: bool,
    pub marks: bool,
    pub rules: bool,
    pub handoffs: bool,
    pub actions: bool,
    pub text: bool,
}

/// What is on the screen.
#[derive(Clone, Copy, PartialEq, Eq, Debug, Structural)]
pub struct Screen {
    pub opened: Opened,
    pub focus: Focus,
    pub tab: Tab,
}

/// What a key asks for. A count is in lines, or in pages where it says so.
#[derive(Clone, Copy, PartialEq, Eq, Debug, Structural)]
pub enum Action {
    Nothing,
    Quit,
    ArmQuit,
    /// The key belongs to what is open.
    Overlay(Overlay),
    BoardEscape,
    BoardLog,
    BoardRefresh,
    BoardScroll(i64),
    BoardOpenCard(char),
    CloseDetail,
    WizardBack,
    ToolEscape,
    ClearSearch,
    ModuleEscape,
    ExitFocus,
    ToggleMark,
    OpenMarks,
    ModuleKey,
    OpenSessionEditor,
    WizardAdvance,
    WizardMove(i64),
    WizardPage(i64),
    WizardCycle(i64),
    WizardBackspace,
    WizardType(char),
    ToolToggleFilter,
    OpenHandoffs,
    ToolToggleAlerts,
    ToolToggleHex,
    ToolClear,
    ToolFollow,
    ToolScroll(i64),
    ToolBackspace,
    ToolType(char),
    OpenWizard,
    OpenToolMonitor,
    RemoveExecution,
    EditExecution,
    RestartExecution,
    ToggleExecution,
    MoveExecution(i64),
    PageExecution(i64),
    OpenModuleList,
    NextTab,
    PrevTab,
    RefreshNow,
    Shortcut(char),
    OpenRow,
    ScrollDetail(i64),
    MoveSelection(i64),
    PageSelection(i64),
    Expand,
    Collapse,
    RequestKill,
    SearchBackspace,
    SearchPush(char),
}

/// What is open on top: the question first, as nothing under it may act on the key that answers
/// it.
pub open spec fn on_top(o: Opened) -> Option<Overlay> {
    if o.confirm {
        Some(Overlay::Confirm)
    } else if o.mark_editor {
        Some(Overlay::MarkEditor)
    } else if o.endpoint_editor {
        Some(Overlay::EndpointEditor)
    } else if o.session_editor {
        Some(Overlay::SessionEditor)
    } else if o.marks {
        Some(Overlay::Marks)
    } else if o.rules {
        Some(Overlay::Rules)
    } else if o.handoffs {
        Some(Overlay::Handoffs)
    } else if o.actions {
        Some(Overlay::Actions)
    } else if o.text {
        Some(Overlay::Text)
    } else {
        None
    }
}

fn topmost(o: &Opened) -> (r: Option<Overlay>)
    ensures
        r == on_top(*o),
{
    if o.confirm {
        Some(Overlay::Confirm)
    } else if o.mark_editor {
        Some(Overlay::MarkEditor)
    } else if o.endpoint_editor {
        Some(Overlay::EndpointEditor)
    } else if o.session_editor {
        Some(Overlay::SessionEditor)
    } else if o.marks {
        Some(Overlay::Marks)
    } else if o.rules {
        Some(Overlay::Rules)
    } else if o.handoffs {
        Some(Overlay::Handoffs)
    } else if o.actions {
        Some(Overlay::Actions)
    } else if o.text {
        Some(Overlay::Text)
    } else {
        None
    }
}

/// What Esc backs out of. Where nothing fills the screen there is nothing, and it never quits.
pub open spec fn escape(f: Focus) -> Action {
    match f {
        Focus::Panels => Action::Nothing,
        Focus::Detail => Action::CloseDetail,
        Focus::Wizard => Action::WizardBack,
        Focus::ToolMonitor => Action::ToolEscape,
        Focus::Table { searching } => if searching {
            Action::ClearSearch
        } else {
            Action::ExitFocus
        },
        Focus::Module => Action::ModuleEscape,
        Focus::Board => Action::BoardEscape,
        Focus::Chart => Action::ExitFocus,
    }
}

fn on_escape(f: Focus) -> (r: Action)
    ensures
        r == escape(f),
{
    match f {
        Focus::Panels => Action::Nothing,
        Focus::Detail => Action::CloseDetail,
        Focus::Wizard => Action::WizardBack,
        Focus::ToolMonitor => Action::ToolEscape,
        Focus::Table { searching } => if searching {
            Action::ClearSearch
        } else {
            Action::ExitFocus
        },
        Focus::Module => Action::ModuleEscape,
        Focus::Board => Action::BoardEscape,
        Focus::Chart => Action::ExitFocus,
    }
}

/// What the cards of an execution do with a key: letters are theirs, with Ctrl they are the
/// program's.
pub open spec fn board(p: Press) -> Action {
    match p.key {
        Key::Tab => Action::BoardLog,
        Key::Up => Action::BoardScroll((-1) as i64),
        Key::Down => Action::BoardScroll(1),
        Key::PageUp => Action::BoardScroll((-15) as i64),
        Key::PageDown => Action::BoardScroll(15),
        Key::Char(c) => if p.ctrl {
            if c == 'r' {
                Action::BoardRefresh
            } else {
                Action::Nothing
            }
        } else if c == 'q' {
            Action::BoardEscape
        } else {
            Action::BoardOpenCard(c)
        },
        _ => Action::Nothing,
    }
}

fn on_board(p: Press) -> (r: Action)
    ensures
        r == board(p),
{
    match p.key {
        Key::Tab => Action::BoardLog,
        Key::Up => Action::BoardScroll(-1),
        Key::Down => Action::BoardScroll(1),
        Key::PageUp => Action::BoardScroll(-15),
        Key::PageDown => Action::BoardScroll(15),
        Key::Char(c) => if p.ctrl {
            if c == 'r' {
                Action::BoardRefresh
            } else {
                Action::Nothing
            }
        } else if c == 'q' {
            Action::BoardEscape
        } else {
            Action::BoardOpenCard(c)
        },
        _ => Action::Nothing,
    }
}

/// What the form of a new execution does with a key.
pub open spec fn wizard(p: Press) -> Action {
    match p.key {
        Key::Enter => Action::WizardAdvance,
        Key::Up => Action::WizardMove((-1) as i64),
        Key::Down => Action::WizardMove(1),
        Key::PageUp => Action::WizardPage((-1) as i64),
        Key::PageDown => Action::WizardPage(1),
        Key::Left => Action::WizardCycle((-1) as i64),
        Key::Right => Action::WizardCycle(1),
        Key::Backspace => Action::WizardBackspace,
        Key::Char(c) => Action::WizardType(c),
        _ => Action::Nothing,
    }
}

fn on_wizard(p: Press) -> (r: Action)
    ensures
        r == wizard(p),
{
    match p.key {
        Key::Enter => Action::WizardAdvance,
        Key::Up => Action::WizardMove(-1),
        Key::Down => Action::WizardMove(1),
        Key::PageUp => Action::WizardPage(-1),
        Key::PageDown => Action::WizardPage(1),
        Key::Left => Action::WizardCycle(-1),
        Key::Right => Action::WizardCycle(1),
        Key::Backspace => Action::WizardBackspace,
        Key::Char(c) => Action::WizardType(c),
        _ => Action::Nothing,
    }
}

/// What the log of an execution does with a key: its search takes every letter that comes alone.
pub open spec fn tool(p: Press) -> Action {
    match p.key {
        Key::Tab => Action::ToolToggleHex,
        Key::End => Action::ToolFollow,
        Key::Up => Action::ToolScroll((-1) as i64),
        Key::Down => Action::ToolScroll(1),
        Key::PageUp => Action::ToolScroll((-15) as i64),
        Key::PageDown => Action::ToolScroll(15),
        Key::Backspace => Action::ToolBackspace,
        Key::Char(c) => if p.ctrl && c == 'f' {
            Action::ToolToggleFilter
        } else if p.ctrl && c == 'p' {
            Action::OpenHandoffs
        } else if p.ctrl && c == 'a' {
            Action::ToolToggleAlerts
        } else if p.ctrl && c == 'l' {
            Action::ToolClear
        } else {
            Action::ToolType(c)
        },
        _ => Action::Nothing,
    }
}

fn on_tool(p: Press) -> (r: Action)
    ensures
        r == tool(p),
{
    match p.key {
        Key::Tab => Action::ToolToggleHex,
        Key::End => Action::ToolFollow,
        Key::Up => Action::ToolScroll(-1),
        Key::Down => Action::ToolScroll(1),
        Key::PageUp => Action::ToolScroll(-15),
        Key::PageDown => Action::ToolScroll(15),
        Key::Backspace => Action::ToolBackspace,
        Key::Char(c) => if p.ctrl && c == 'f' {
            Action::ToolToggleFilter
        } else if p.ctrl && c == 'p' {
            Action::OpenHandoffs
        } else if p.ctrl && c == 'a' {
            Action::ToolToggleAlerts
        } else if p.ctrl && c == 'l' {
            Action::ToolClear
        } else {
            Action::ToolType(c)
        },
        _ => Action::Nothing,
    }
}

/// What a detail does with a key.
pub open spec fn detail(p: Press) -> Action {
    match p.key {
        Key::Up => Action::ScrollDetail((-1) as i64),
        Key::Down => Action::ScrollDetail(1),
        Key::PageUp => Action::ScrollDetail((-10) as i64),
        Key::PageDown => Action::ScrollDetail(10),
        Key::Char(c) => if c == 'q' {
            Action::CloseDetail
        } else if p.ctrl && c == 'p' {
            Action::OpenHandoffs
        } else {
            Action::Nothing
        },
        _ => Action::Nothing,
    }
}

fn on_detail(p: Press) -> (r: Action)
    ensures
        r == detail(p),
{
    match p.key {
        Key::Up => Action::ScrollDetail(-1),
        Key::Down => Action::ScrollDetail(1),
        Key::PageUp => Action::ScrollDetail(-10),
        Key::PageDown => Action::ScrollDetail(10),
        Key::Char(c) => if c == 'q' {
            Action::CloseDetail
        } else if p.ctrl && c == 'p' {
            Action::OpenHandoffs
        } else {
            Action::Nothing
        },
        _ => Action::Nothing,
    }
}

/// What a table does with a key: what is typed over it is a search, with no mode to enter first.
pub open spec fn table(p: Press) -> Action {
    match p.key {
        Key::Enter => Action::OpenRow,
        Key::Up => Action::MoveSelection((-1) as i64),
        Key::Down => Action::MoveSelection(1),
        Key::PageUp => Action::PageSelection((-1) as i64),
        Key::PageDown => Action::PageSelection(1),
        Key::Right => Action::Expand,
        Key::Left => Action::Collapse,
        Key::Delete => Action::RequestKill,
        Key::Backspace => Action::SearchBackspace,
        Key::Char(c) => Action::SearchPush(c),
        _ => Action::Nothing,
    }
}

fn on_table(p: Press) -> (r: Action)
    ensures
        r == table(p),
{
    match p.key {
        Key::Enter => Action::OpenRow,
        Key::Up => Action::MoveSelection(-1),
        Key::Down => Action::MoveSelection(1),
        Key::PageUp => Action::PageSelection(-1),
        Key::PageDown => Action::PageSelection(1),
        Key::Right => Action::Expand,
        Key::Left => Action::Collapse,
        Key::Delete => Action::RequestKill,
        Key::Backspace => Action::SearchBackspace,
        Key::Char(c) => Action::SearchPush(c),
        _ => Action::Nothing,
    }
}

/// What the panels of any tab do with a key.
pub open spec fn panels(p: Press) -> Action {
    match p.key {
        Key::Enter => Action::OpenModuleList,
        Key::Tab => Action::NextTab,
        Key::BackTab => Action::PrevTab,
        Key::Char(c) => if c == ' ' {
            Action::RefreshNow
        } else {
            Action::Shortcut(c)
        },
        _ => Action::Nothing,
    }
}

/// What the tab of tools does with a key of its own: it has no panels with shortcuts, so its
/// letters are free.
pub open spec fn tools_tab(p: Press) -> Action {
    match p.key {
        Key::Enter => Action::OpenToolMonitor,
        Key::Delete => Action::RemoveExecution,
        Key::Up => Action::MoveExecution((-1) as i64),
        Key::Down => Action::MoveExecution(1),
        Key::PageUp => Action::PageExecution((-1) as i64),
        Key::PageDown => Action::PageExecution(1),
        Key::Char(c) => if c == 'a' {
            Action::OpenWizard
        } else if c == 'e' && !p.ctrl {
            Action::EditExecution
        } else if c == 'r' {
            Action::RestartExecution
        } else if c == ' ' {
            Action::ToggleExecution
        } else {
            panels(p)
        },
        _ => panels(p),
    }
}

fn on_panels(p: Press) -> (r: Action)
    ensures
        r == panels(p),
{
    match p.key {
        Key::Enter => Action::OpenModuleList,
        Key::Tab => Action::NextTab,
        Key::BackTab => Action::PrevTab,
        Key::Char(c) => if c == ' ' {
            Action::RefreshNow
        } else {
            Action::Shortcut(c)
        },
        _ => Action::Nothing,
    }
}

fn on_tools_tab(p: Press) -> (r: Action)
    ensures
        r == tools_tab(p),
{
    match p.key {
        Key::Enter => Action::OpenToolMonitor,
        Key::Delete => Action::RemoveExecution,
        Key::Up => Action::MoveExecution(-1),
        Key::Down => Action::MoveExecution(1),
        Key::PageUp => Action::PageExecution(-1),
        Key::PageDown => Action::PageExecution(1),
        Key::Char(c) => if c == 'a' {
            Action::OpenWizard
        } else if c == 'e' && !p.ctrl {
            Action::EditExecution
        } else if c == 'r' {
            Action::RestartExecution
        } else if c == ' ' {
            Action::ToggleExecution
        } else {
            on_panels(p)
        },
        _ => on_panels(p),
    }
}

/// A letter with Ctrl.
pub open spec fn chord(p: Press, c: char) -> bool {
    p.ctrl && p.key == Key::Char(c)
}

/// What a key asks for, when it is not the one that quits. What is open on top takes it first;
/// behind that come the gestures that are the same everywhere, and then what fills the screen.
pub open spec fn routed(p: Press, s: Screen) -> Action {
    match on_top(s.opened) {
        Some(o) => Action::Overlay(o),
        None => if p.key == Key::Esc {
            escape(s.focus)
        } else if chord(p, 'e') && (s.focus is Table || s.focus is Module) {
            Action::ToggleMark
        } else if chord(p, 'g') {
            Action::OpenMarks
        } else if s.focus is Module {
            Action::ModuleKey
        } else if chord(p, 'n') && s.tab is Tmux {
            Action::OpenSessionEditor
        } else {
            match s.focus {
                Focus::Board => board(p),
                Focus::Wizard => wizard(p),
                Focus::ToolMonitor => tool(p),
                Focus::Detail => detail(p),
                Focus::Table { searching } => table(p),
                Focus::Chart => if p.key == Key::Char('q') {
                    Action::ExitFocus
                } else {
                    Action::Nothing
                },
                Focus::Panels => if s.tab is Tools {
                    tools_tab(p)
                } else {
                    panels(p)
                },
                Focus::Module => Action::ModuleKey,
            }
        },
    }
}

/// What a key asks for, when it is not the one that quits.
pub fn route(p: Press, s: &Screen) -> (r: Action)
    ensures
        r == routed(p, *s),
{
    match topmost(&s.opened) {
        Some(o) => {
            return Action::Overlay(o);
        },
        None => {},
    }
    let is_table = matches!(s.focus, Focus::Table { .. });
    let is_module = matches!(s.focus, Focus::Module);
    if p.key == Key::Esc {
        on_escape(s.focus)
    } else if p.ctrl && p.key == Key::Char('e') && (is_table || is_module) {
        Action::ToggleMark
    } else if p.ctrl && p.key == Key::Char('g') {
        Action::OpenMarks
    } else if is_module {
        Action::ModuleKey
    } else if p.ctrl && p.key == Key::Char('n') && s.tab == Tab::Tmux {
        Action::OpenSessionEditor
    } else {
        match s.focus {
            Focus::Board => on_board(p),
            Focus::Wizard => on_wizard(p),
            Focus::ToolMonitor => on_tool(p),
            Focus::Detail => on_detail(p),
            Focus::Table { searching: _ } => on_table(p),
            Focus::Chart => if p.key == Key::Char('q') {
                Action::ExitFocus
            } else {
                Action::Nothing
            },
            Focus::Panels => if s.tab == Tab::Tools {
                on_tools_tab(p)
            } else {
                on_panels(p)
            },
            Focus::Module => Action::ModuleKey,
        }
    }
}

/// What a key does, and whether the next one can quit. Ctrl+C twice in a row is the one way out:
/// the first arms it, and any other key disarms it.
pub open spec fn pressed(armed: bool, p: Press, s: Screen) -> (Action, bool) {
    if chord(p, 'c') {
        if armed {
            (Action::Quit, armed)
        } else {
            (Action::ArmQuit, true)
        }
    } else {
        (routed(p, s), false)
    }
}

/// What a key does.
pub fn press(armed: &mut bool, p: Press, s: &Screen) -> (r: Action)
    ensures
        (r, *final(armed)) == pressed(*old(armed), p, *s),
{
    if p.ctrl && p.key == Key::Char('c') {
        if *armed {
            return Action::Quit;
        }
        *armed = true;
        return Action::ArmQuit;
    }
    *armed = false;
    route(p, s)
}

/// Nothing but Ctrl+C on top of another Ctrl+C closes the program.
pub proof fn lemma_one_way_out(armed: bool, p: Press, s: Screen)
    ensures
        pressed(armed, p, s).0 is Quit <==> armed && chord(p, 'c'),
{
}

/// Ctrl+C twice in a row quits, and one key between them keeps it from doing so.
pub proof fn lemma_twice_in_a_row(a: Press, b: Press, c: Press, s: Screen)
    requires
        chord(a, 'c'),
        chord(c, 'c'),
        !chord(b, 'c'),
    ensures
        pressed(pressed(false, a, s).1, c, s).0 is Quit,
        !(pressed(pressed(pressed(false, a, s).1, b, s).1, c, s).0 is Quit),
{
}

/// While a question waits for an answer, no key does anything but answer it.
pub proof fn lemma_question_first(p: Press, s: Screen)
    requires
        s.opened.confirm,
    ensures
        routed(p, s) == Action::Overlay(Overlay::Confirm),
{
}

/// The list of marks opens from any screen.
pub proof fn lemma_marks_from_anywhere(p: Press, s: Screen)
    requires
        chord(p, 'g'),
        on_top(s.opened) is None,
    ensures
        routed(p, s) == Action::OpenMarks,
{
}

/// Marking is one gesture, the same in every table and in every module.
pub proof fn lemma_one_mark_gesture(p: Press, s: Screen)
    requires
        chord(p, 'e'),
        on_top(s.opened) is None,
        s.focus is Table || s.focus is Module,
    ensures
        routed(p, s) == Action::ToggleMark,
{
}

/// Over a table and over a log, every letter that comes alone is typed into the search.
pub proof fn lemma_letters_search(c: char, s: Screen)
    requires
        on_top(s.opened) is None,
    ensures
        s.focus is Table ==> routed(Press { key: Key::Char(c), ctrl: false }, s)
            == Action::SearchPush(c),
        s.focus is ToolMonitor ==> routed(Press { key: Key::Char(c), ctrl: false }, s)
            == Action::ToolType(c),
{
}

// --- the loop ------------------------------------------------------------------------------------------------

/// The longest wait before looking at whether a tool wrote something, in milliseconds.
pub const REDRAW_SLICE: u64 = 60;

/// How long to wait for a key: until the next sample, and no longer than a slice.
pub fn wait(interval: u64, elapsed: u64) -> (r: u64)
    ensures
        r <= REDRAW_SLICE,
        r == (if interval <= elapsed {
            0
        } else if interval - elapsed > REDRAW_SLICE {
            REDRAW_SLICE as int
        } else {
            interval - elapsed
        }),
{
    if interval <= elapsed {
        0
    } else if interval - elapsed > REDRAW_SLICE {
        REDRAW_SLICE
    } else {
        interval - elapsed
    }
}

/// What is to be done between one frame and the next, before a key is waited for.
#[derive(Clone, Copy, PartialEq, Eq, Debug, Structural)]
pub enum Duty {
    /// Hand the terminal to a shell.
    Shell,
    /// Hand the terminal to a session of a multiplexer.
    Attach,
    /// Fill in a tab that was switched to.
    Sample,
    Wait,
}

/// What is to be done between one frame and the next. While a shell or a session has the
/// terminal, nothing may be drawn over it.
pub fn duty(shell: bool, attach: bool, sample: bool) -> (r: Duty)
    ensures
        r == (if shell {
            Duty::Shell
        } else if attach {
            Duty::Attach
        } else if sample {
            Duty::Sample
        } else {
            Duty::Wait
        }),
{
    if shell {
        Duty::Shell
    } else if attach {
        Duty::Attach
    } else if sample {
        Duty::Sample
    } else {
        Duty::Wait
    }
}

/// Whether something changed that was drawn, and would show: a change that would not is no
/// reason to draw. Either way it counts as seen.
pub fn noticed(drawn: &mut u64, now: u64, shows: bool) -> (r: bool)
    ensures
        *final(drawn) == now,
        r == (now != *old(drawn) && shows),
{
    if now != *drawn {
        *drawn = now;
        shows
    } else {
        false
    }
}

/// Up goes back and down goes on, by as much, wherever there is something to move through.
pub proof fn lemma_up_and_down(ctrl: bool)
    ensures
        ({
            let up = Press { key: Key::Up, ctrl };
            let down = Press { key: Key::Down, ctrl };
            let back = Press { key: Key::PageUp, ctrl };
            let on = Press { key: Key::PageDown, ctrl };
            &&& table(up) == Action::MoveSelection((-1) as i64) && table(down) == Action::MoveSelection(1)
            &&& table(back) == Action::PageSelection((-1) as i64) && table(on) == Action::PageSelection(1)
            &&& detail(up) == Action::ScrollDetail((-1) as i64) && detail(down) == Action::ScrollDetail(1)
            &&& board(up) == Action::BoardScroll((-1) as i64) && board(down) == Action::BoardScroll(1)
            &&& tool(up) == Action::ToolScroll((-1) as i64) && tool(down) == Action::ToolScroll(1)
            &&& wizard(up) == Action::WizardMove((-1) as i64) && wizard(down) == Action::WizardMove(1)
            &&& tools_tab(up) == Action::MoveExecution((-1) as i64) && tools_tab(down)
                == Action::MoveExecution(1)
        }),
{
}

} // verus!
