//! The sidebar: a column left of the editor with tabs on what a project is — the files on
//! disk, what git sees changed, the history. The sidebar owns what the tabs share: the
//! keys, the mouse, the cursor's movement, the folding of directories and the layout.
//!
//! Nothing is asked of git or the disk here: what is to be asked, opened or said is told as an
//! [`Act`], and the answer lands back in the tab that asked. What the history tab does with its
//! commits is its own: the sidebar holds what it shows of it, and tells what it is asked for.

use vstd::prelude::*;
use vstd::string::*;

use crate::changes::{self, ChangesTab, Opening};
use crate::context_menu::{ContextMenu, Entry as MenuEntry};
use crate::diff_view::DiffView;
use crate::entries::{self, draw_entry, EntryPaint, Folds, Row, RowPaint};
use crate::file_tree::{self, row_dirs};
use crate::files::{FilesTab, PromptTarget};
use crate::git::{self, told, Commit};
use crate::list::{self, List};
use crate::message::Message;
use crate::number;
use crate::path::{self, same};
use crate::screen::{
    self, larger, rest, smaller, sum, KeyCode, KeyEvent, Mark, MouseButton, MouseEvent,
    MouseEventKind, Rect, Scope, Style,
};
use crate::text::{self, chars_of, copy_optional, holds};

verus! {

/// How long a tab that asks git waits after an answer before asking again, while it is on
/// screen, in milliseconds.
pub const REFRESH: u64 = 2000;

/// Two clicks on the same row closer than this are a double click: the terminal reports
/// each press on its own, so the sidebar tells them apart itself.
pub const DOUBLE_CLICK: u64 = 500;

/// How long a letter typed in the tree waits for the next one before it starts a new name.
pub const TYPING: u64 = 800;

/// The narrowest the separator can be dragged to.
pub const MIN_WIDTH: u16 = 12;

/// The columns the sidebar always leaves to the editor, however wide it is asked to be.
pub const EDITOR_ROOM: u16 = 20;

#[derive(Clone, Copy, PartialEq, Eq, Structural, Debug)]
pub enum TabKind {
    Files,
    Changes,
    Commits,
}

impl TabKind {
    /// The tab after this one in the order of the strip, round the end.
    pub open spec fn following(self) -> TabKind {
        match self {
            TabKind::Files => TabKind::Changes,
            TabKind::Changes => TabKind::Commits,
            TabKind::Commits => TabKind::Files,
        }
    }

    /// The tab after this one in the order of the strip, which Tab walks.
    pub fn next(self) -> (kind: TabKind)
        ensures
            kind == self.following(),
    {
        match self {
            TabKind::Files => TabKind::Changes,
            TabKind::Changes => TabKind::Commits,
            TabKind::Commits => TabKind::Files,
        }
    }
}

/// Walking the tabs comes round to the first after all three.
pub proof fn law_three_tabs_come_round(kind: TabKind)
    ensures
        kind.following().following().following() == kind,
        kind.following() != kind,
{
}

/// How a row is opened.
#[derive(Clone, Copy, PartialEq, Eq, Structural, Debug)]
pub enum Activation {
    Enter,
    Click,
}

/// A double click opens a row as Enter does.
pub open spec fn activation(double: bool) -> Activation {
    if double {
        Activation::Enter
    } else {
        Activation::Click
    }
}

/// Rows and where their list stands.
pub struct Column {
    pub rows: Vec<Row>,
    pub list: List,
}

/// What the history tab shows: its commits, and beside them the files of one when they are
/// shown in columns.
pub struct CommitsTab {
    pub label: String,
    pub folds: Option<Folds>,
    pub history: Column,
    pub files: Option<Column>,
    /// Whether the files have the cursor, when there are columns.
    pub on_files: bool,
    /// What is said in place of rows.
    pub message: Option<Message>,
}

impl CommitsTab {
    /// Whether the column the cursor is in is that of the files.
    pub open spec fn in_files(self) -> bool {
        self.on_files && self.files is Some
    }

    pub open spec fn rows_view(self) -> Seq<entries::RowView> {
        if self.in_files() {
            entries::row_views(self.files->0.rows@)
        } else {
            entries::row_views(self.history.rows@)
        }
    }

    pub open spec fn list_view(self) -> List {
        if self.in_files() {
            self.files->0.list
        } else {
            self.history.list
        }
    }

    /// This tab with the list of the column the cursor is in at another place.
    pub open spec fn with_list(self, list: List) -> CommitsTab {
        if self.in_files() {
            CommitsTab { files: Some(Column { list, ..self.files->0 }), ..self }
        } else {
            CommitsTab { history: Column { list, ..self.history }, ..self }
        }
    }

    /// Whether the files of a commit stand beside the history.
    pub fn has_columns(&self) -> (yes: bool)
        ensures
            yes == (self.files is Some),
    {
        self.files.is_some()
    }

    /// Gives the cursor to the files, or to the history.
    pub fn focus_files(&mut self, files: bool)
        ensures
            *final(self) == (CommitsTab { on_files: files, ..*old(self) }),
    {
        self.on_files = files;
    }

    pub fn rows(&self) -> (rows: &Vec<Row>)
        ensures
            entries::row_views(rows@) == self.rows_view(),
    {
        match &self.files {
            Some(files) => if self.on_files {
                &files.rows
            } else {
                &self.history.rows
            },
            None => &self.history.rows,
        }
    }

    pub fn list(&self) -> (list: List)
        ensures
            list == self.list_view(),
    {
        match &self.files {
            Some(files) => if self.on_files {
                files.list
            } else {
                self.history.list
            },
            None => self.history.list,
        }
    }

    fn set_list(&mut self, list: List)
        ensures
            *final(self) == old(self).with_list(list),
    {
        match self.files.take() {
            Some(column) => {
                if self.on_files {
                    self.files = Some(Column { rows: column.rows, list });
                } else {
                    self.files = Some(column);
                    self.history.list = list;
                }
            },
            None => {
                self.history.list = list;
            },
        }
    }
}

/// What is to be done next, outside of the sidebar.
pub enum Act {
    Nothing,
    /// The key is the editor's.
    Ignored,
    /// Directories are read.
    Read(Vec<String>),
    /// Directories are read, and the next look at the disk is waited for, or already is.
    Shown { read: Vec<String>, watch: bool },
    /// `git status` is asked.
    Status,
    /// A file is opened in the focused view.
    OpenFile(String),
    /// Something is said.
    Say(Message),
    /// A name is asked for, or a deletion confirmed.
    PromptNew(PromptTarget),
    PromptRename(PromptTarget),
    PromptDelete(PromptTarget),
    /// A menu is opened on what is under the pointer.
    Menu { row: u16, column: u16, target: PromptTarget },
    /// The width is kept between sessions.
    KeepWidth(u16),
    /// The history tab lays itself out and asks what it asks.
    ShowCommits,
    RebuildCommits,
    /// The history tab steps back, where it has somewhere to go; where it has none, the keys
    /// may go over to the editor.
    StepBack { leave: bool },
    OpenCommits(Activation),
    RefreshCommits,
    RevealCommits(String),
    History(String),
    EnterCommit(Commit),
}

pub struct Sidebar {
    pub root: String,
    pub tab: TabKind,
    pub files: FilesTab,
    pub changes: ChangesTab,
    pub commits: CommitsTab,
    pub diff: DiffView,
    pub open: bool,
    pub focused: bool,
    /// Whether the first render has laid the rows out.
    pub built: bool,
    /// The document the sidebar last moved onto, so a buffer switch is noticed at render.
    pub revealed: Option<String>,
    pub area: Rect,
    /// Where each tab's label was drawn on the strip, for a click to land on.
    pub tab_columns: ((u16, u16), (u16, u16), (u16, u16)),
    /// The width the separator was dragged to, kept between sessions over the configured.
    pub width: Option<u16>,
    /// Whether the separator is being dragged, so the mouse is the sidebar's wherever it goes.
    pub resizing: bool,
    /// Why the remembered width could not be read, said on the first render: at startup the
    /// editor's own messages would cover it.
    pub width_error: Option<String>,
    /// The row last clicked and when, so a second click on it soon after is a double click.
    pub last_click: Option<(usize, u64)>,
    /// What has been typed to walk to a row by name, and when the last letter landed.
    pub typed: (String, Option<u64>),
}

/// Whether a key is a shortcut of the editor's rather than one of the sidebar's.
pub open spec fn is_shortcut(key: KeyEvent) -> bool {
    key.code is F || key.modifiers.control || key.modifiers.alt || key.modifiers.command
}

/// Whether a key is a shortcut of the editor's rather than one of the sidebar's. A key
/// held with Ctrl, Alt or Cmd, and a function key, are shortcuts wherever the focus is;
/// a plain letter is not, or it would run a command on the file behind the sidebar.
pub fn is_editor_shortcut(key: KeyEvent) -> (yes: bool)
    ensures
        yes == is_shortcut(key),
{
    if let KeyCode::F(_) = key.code {
        return true;
    }
    key.modifiers.control || key.modifiers.alt || key.modifiers.command
}

/// Whether something that was at `at` is less than `limit` ago.
pub open spec fn within(at: Option<u64>, now: u64, limit: u64) -> bool {
    at matches Some(at) && now - at < limit
}

fn is_within(at: Option<u64>, now: u64, limit: u64) -> (yes: bool)
    ensures
        yes == within(at, now, limit),
{
    match at {
        Some(at) => now < at || now - at < limit,
        None => false,
    }
}

/// Whether the name of a row starts with what was typed, in whatever case.
pub open spec fn starts(row: entries::RowView, typed: Seq<char>) -> bool {
    row matches entries::RowView::Entry(entry) && text::starts_with(
        text::lowercase(entry.name),
        text::lowercase(typed),
    )
}

/// The first row that starts with what was typed, `step` rows after `from` or later, round the
/// end and up to `from` itself.
pub open spec fn next_typed(
    rows: Seq<entries::RowView>,
    from: int,
    typed: Seq<char>,
    step: int,
) -> Option<int>
    decreases rows.len() - step + 1,
{
    if step > rows.len() {
        None
    } else if starts(rows[(from + step) % rows.len() as int], typed) {
        Some((from + step) % rows.len() as int)
    } else {
        next_typed(rows, from, typed, step + 1)
    }
}

/// The first row that starts with what was typed, from the row after `from` on.
pub fn find_typed(rows: &Vec<Row>, from: usize, typed: &str) -> (found: Option<usize>)
    ensures
        match found {
            Some(index) => next_typed(entries::row_views(rows@), from as int, typed@, 1) == Some(
                index as int,
            ),
            None => next_typed(entries::row_views(rows@), from as int, typed@, 1) is None,
        },
{
    let ghost all = entries::row_views(rows@);
    let lower = chars_of(text::to_lowercase(typed).as_str());
    let n = rows.len();
    let mut step: usize = 1;
    while step <= n
        invariant
            1 <= step,
            n == rows.len(),
            all == entries::row_views(rows@),
            lower@ == text::lowercase(typed@),
            next_typed(all, from as int, typed@, 1) == next_typed(
                all,
                from as int,
                typed@,
                step as int,
            ),
        decreases n - step + 1,
    {
        let index = ((from as u128 + step as u128) % (n as u128)) as usize;
        assert(all[index as int] == rows@[index as int]@);
        if let Some(entry) = rows[index].entry() {
            let name = chars_of(text::to_lowercase(entry.name.as_str()).as_str());
            if holds(&name, &lower, 0) {
                return Some(index);
            }
        }
        if step == n {
            assert(next_typed(all, from as int, typed@, step + 1) is None);
            return None;
        }
        step += 1;
    }
    None
}

impl Sidebar {
    /// The rows of the tab on screen.
    pub open spec fn rows(self) -> Seq<entries::RowView> {
        match self.tab {
            TabKind::Files => entries::row_views(self.files.rows@),
            TabKind::Changes => entries::row_views(self.changes.rows@),
            TabKind::Commits => self.commits.rows_view(),
        }
    }

    /// Where the list of the tab on screen stands.
    pub open spec fn list(self) -> List {
        match self.tab {
            TabKind::Files => self.files.list,
            TabKind::Changes => self.changes.list,
            TabKind::Commits => self.commits.list_view(),
        }
    }

    /// Which directories of the tab on screen are open.
    pub open spec fn folds(self) -> Option<entries::FoldsView> {
        match self.tab {
            TabKind::Files => Some(self.files.folds@),
            TabKind::Changes => Some(self.changes.folds@),
            TabKind::Commits => match self.commits.folds {
                Some(folds) => Some(folds@),
                None => None,
            },
        }
    }

    /// Whether a directory of the tab on screen is open.
    pub open spec fn opens(self, path: Seq<char>) -> bool {
        self.folds() matches Some(folds) && folds.opens(path)
    }

    /// This sidebar with the list of the tab on screen at another place.
    pub open spec fn with_list(self, list: List) -> Sidebar {
        match self.tab {
            TabKind::Files => Sidebar { files: FilesTab { list, ..self.files }, ..self },
            TabKind::Changes => Sidebar { changes: ChangesTab { list, ..self.changes }, ..self },
            TabKind::Commits => Sidebar { commits: self.commits.with_list(list), ..self },
        }
    }

    /// Whether `next` is this sidebar with the list of the tab on screen at that place.
    pub open spec fn moved(self, at: (int, int), next: Sidebar) -> bool {
        exists|list: List|
            {
                &&& list.stands(self.list().len as int, self.list().page as int, at)
                &&& next == #[trigger] self.with_list(list)
            }
    }

    /// Where a cursor at that row puts the list of the tab on screen.
    pub open spec fn placed(self, cursor: int) -> (int, int) {
        list::settled(
            self.list().len as int,
            self.list().page as int,
            cursor,
            self.list().scroll as int,
        )
    }

    /// The row under the cursor.
    pub open spec fn under(self) -> Option<entries::RowView> {
        if self.list().cursor < self.rows().len() {
            Some(self.rows()[self.list().cursor as int])
        } else {
            None
        }
    }

    /// The directory under the cursor.
    pub open spec fn dir_under(self) -> Option<Seq<char>> {
        match self.under() {
            Some(row) => row.dir(),
            None => None,
        }
    }

    pub fn new(root: String, open: bool, width: Result<Option<u16>, String>, commits: CommitsTab)
        -> (sidebar: Self)
        ensures
            sidebar.root@ == root@,
            sidebar.files.fresh(root@),
            sidebar.changes.fresh(root@),
            sidebar.diff.fresh(root@),
            sidebar.commits == commits,
            sidebar.tab == TabKind::Files,
            sidebar.open == open,
            !sidebar.focused,
            !sidebar.built,
            sidebar.revealed is None,
            sidebar.area == (Rect { x: 0, y: 0, width: 0, height: 0 }),
            sidebar.tab_columns == ((0u16, 0u16), (0u16, 0u16), (0u16, 0u16)),
            !sidebar.resizing,
            sidebar.last_click is None,
            sidebar.typed.0@.len() == 0,
            sidebar.typed.1 is None,
            match width {
                Ok(width) => sidebar.width == width && sidebar.width_error is None,
                Err(err) => sidebar.width is None && text::optional(sidebar.width_error) == Some(
                    "Could not read the sidebar's width: "@ + err@,
                ),
            },
    {
        // A broken file costs the remembered width, not the sidebar.
        let (width, width_error) = match width {
            Ok(width) => (width, None),
            Err(err) => (None, Some(told("Could not read the sidebar's width: ", err.as_str()))),
        };
        Sidebar {
            files: FilesTab::new(root.clone()),
            changes: ChangesTab::new(root.clone()),
            commits,
            diff: DiffView::new(root.clone()),
            root,
            tab: TabKind::Files,
            open,
            focused: false,
            built: false,
            revealed: None,
            area: Rect::none(),
            tab_columns: ((0, 0), (0, 0), (0, 0)),
            width,
            resizing: false,
            width_error,
            last_click: None,
            typed: (String::new(), None),
        }
    }

    /// Whether the history is shown in columns.
    pub open spec fn split(self) -> bool {
        self.tab == TabKind::Commits && self.commits.files is Some
    }

    /// The sidebar's width: the one the separator was dragged to, else the configured one,
    /// twice that for columns.
    pub fn width(&self, configured: u16) -> (width: u16)
        ensures
            ({
                let one = match self.width {
                    Some(width) => width,
                    None => configured,
                };
                width == if self.split() {
                    screen::capped(one * 2)
                } else {
                    one as int
                }
            }),
    {
        let width = match self.width {
            Some(width) => width,
            None => configured,
        };
        if self.tab == TabKind::Commits && self.commits.has_columns() {
            sum(width, width)
        } else {
            width
        }
    }

    pub fn resizing(&self) -> (yes: bool)
        ensures
            yes == self.resizing,
    {
        self.resizing
    }

    /// Whether `kind` is the tab on screen.
    pub fn showing(&self, kind: TabKind) -> (yes: bool)
        ensures
            yes == (self.open && self.tab == kind),
    {
        self.open && self.tab == kind
    }

    /// Whether `next` is this sidebar with the tab on screen just put there, and `act` what it
    /// asks: it lays itself out and asks what it asks.
    pub open spec fn came(self, narrowed: Seq<entries::RowView>, next: Sidebar, act: Act) -> bool {
        &&& next == (Sidebar {
            built: true,
            revealed: None,
            files: next.files,
            changes: next.changes,
            ..self
        })
        &&& if self.tab == TabKind::Files {
            exists|laid: FilesTab, asked: Seq<Seq<char>>|
                {
                    &&& #[trigger] self.files.rebuilt(narrowed, laid, asked)
                    &&& next.files == (FilesTab { armed: true, ..laid })
                    &&& act matches Act::Shown { read, watch } && text::views(read@) == asked
                        && watch == !laid.armed
                }
        } else {
            next.files == self.files
        }
        &&& if self.tab == TabKind::Changes {
            exists|laid: ChangesTab|
                {
                    &&& #[trigger] self.changes.rebuilt(laid)
                    &&& next.changes == (ChangesTab {
                        asking: laid.asking || !laid.armed,
                        ..laid
                    })
                    &&& if !laid.armed && !laid.asking {
                        act is Status
                    } else {
                        act is Nothing
                    }
                }
        } else {
            next.changes == self.changes
        }
        &&& self.tab == TabKind::Commits ==> act is ShowCommits
    }

    /// The tab on screen was just put there: it lays itself out and asks what it asks.
    pub fn came_on_screen(&mut self, narrowed: Vec<Row>) -> (act: Act)
        ensures
            old(self).came(entries::row_views(narrowed@), *final(self), act),
    {
        self.built = true;
        self.revealed = None;
        match self.tab {
            TabKind::Files => {
                let read = self.files.rebuild(narrowed);
                let ghost laid = self.files;
                let watch = self.files.watch();
                assert(old(self).files.rebuilt(
                    entries::row_views(narrowed@),
                    laid,
                    text::views(read@),
                ));
                Act::Shown { read, watch }
            },
            TabKind::Changes => {
                self.changes.rebuild();
                let ghost laid = self.changes;
                let start = self.changes.shown();
                assert(old(self).changes.rebuilt(laid));
                if start {
                    Act::Status
                } else {
                    Act::Nothing
                }
            },
            TabKind::Commits => Act::ShowCommits,
        }
    }

    pub fn toggle(&mut self, narrowed: Vec<Row>) -> (act: Act)
        ensures
            if old(self).open {
                &&& act is Nothing
                &&& *final(self) == (Sidebar { open: false, focused: false, ..*old(self) })
            } else {
                (Sidebar { open: true, ..*old(self) }).came(
                    entries::row_views(narrowed@),
                    *final(self),
                    act,
                )
            },
    {
        self.open = !self.open;
        if self.open {
            self.came_on_screen(narrowed)
        } else {
            self.focused = false;
            Act::Nothing
        }
    }

    /// Gives the sidebar the keys. The render moves onto the current file, once it knows how
    /// many rows fit.
    pub fn focus(&mut self, narrowed: Vec<Row>) -> (act: Act)
        ensures
            if old(self).open {
                &&& act is Nothing
                &&& *final(self) == (Sidebar { focused: true, revealed: None, ..*old(self) })
            } else {
                (Sidebar { open: true, focused: true, ..*old(self) }).came(
                    entries::row_views(narrowed@),
                    *final(self),
                    act,
                )
            },
    {
        let was_open = self.open;
        self.open = true;
        self.focused = true;
        if !was_open {
            return self.came_on_screen(narrowed);
        }
        self.revealed = None;
        Act::Nothing
    }

    /// Shows the history of one file in the Commits tab, focused.
    pub fn show_history(&mut self, path: String) -> (act: Act)
        ensures
            if !path::below(path@, old(self).root@) {
                &&& act matches Act::Say(message) && message.is_error && message.text@ == path@
                    + " is outside the workspace"@
                &&& *final(self) == *old(self)
            } else {
                &&& act matches Act::History(shown) && shown@ == path@
                &&& *final(self) == (Sidebar {
                    open: true,
                    focused: true,
                    tab: TabKind::Commits,
                    revealed: None,
                    ..*old(self)
                })
            },
    {
        if !path::starts_with(path.as_str(), self.root.as_str()) {
            let text = told(path.as_str(), " is outside the workspace");
            return Act::Say(Message { text, is_error: true });
        }
        self.open = true;
        self.focused = true;
        self.tab = TabKind::Commits;
        self.revealed = None;
        Act::History(path)
    }

    /// Opens `commit` into its files in the Commits tab, focused.
    pub fn open_commit(&mut self, commit: Commit) -> (act: Act)
        ensures
            act == Act::EnterCommit(commit),
            *final(self) == (Sidebar {
                open: true,
                focused: true,
                tab: TabKind::Commits,
                revealed: None,
                ..*old(self)
            }),
    {
        self.open = true;
        self.focused = true;
        self.tab = TabKind::Commits;
        self.revealed = None;
        Act::EnterCommit(commit)
    }

    /// The rows of the tab on screen.
    fn active_rows(&self) -> (rows: &Vec<Row>)
        ensures
            entries::row_views(rows@) == self.rows(),
    {
        match self.tab {
            TabKind::Files => &self.files.rows,
            TabKind::Changes => &self.changes.rows,
            TabKind::Commits => self.commits.rows(),
        }
    }

    /// Where the list of the tab on screen stands.
    fn active_list(&self) -> (list: List)
        ensures
            list == self.list(),
    {
        match self.tab {
            TabKind::Files => self.files.list,
            TabKind::Changes => self.changes.list,
            TabKind::Commits => self.commits.list(),
        }
    }

    fn set_list(&mut self, list: List)
        ensures
            *final(self) == old(self).with_list(list),
    {
        match self.tab {
            TabKind::Files => {
                self.files.list = list;
            },
            TabKind::Changes => {
                self.changes.list = list;
            },
            TabKind::Commits => self.commits.set_list(list),
        }
    }

    /// Whether a directory of the tab on screen is open.
    fn is_open(&self, path: &str) -> (yes: bool)
        ensures
            yes == self.opens(path@),
    {
        match self.tab {
            TabKind::Files => self.files.folds.is_open(path),
            TabKind::Changes => self.changes.folds.is_open(path),
            TabKind::Commits => match &self.commits.folds {
                Some(folds) => folds.is_open(path),
                None => false,
            },
        }
    }

    /// The directory under the cursor.
    fn cursor_on_dir(&self) -> (dir: Option<String>)
        ensures
            text::optional(dir) == self.dir_under(),
    {
        let rows = self.active_rows();
        let list = self.active_list();
        if list.cursor >= rows.len() {
            return None;
        }
        assert(self.rows()[list.cursor as int] == rows@[list.cursor as int]@);
        match rows[list.cursor].dir() {
            Some(dir) => Some(dir.to_owned()),
            None => None,
        }
    }

    /// Whether `next` is this sidebar after the directories of the tab on screen at some paths
    /// were opened, or closed, and `act` what that asks: the tab lays itself out again.
    pub open spec fn refolded(
        self,
        folds: spec_fn(entries::FoldsView) -> entries::FoldsView,
        narrowed: Seq<entries::RowView>,
        next: Sidebar,
        act: Act,
    ) -> bool {
        match self.tab {
            TabKind::Files => exists|folded: FilesTab, asked: Seq<Seq<char>>|
                {
                    &&& folded.folds@ == folds(self.files.folds@)
                    &&& folded == (FilesTab { folds: folded.folds, ..self.files })
                    &&& #[trigger] folded.rebuilt(narrowed, next.files, asked)
                    &&& act matches Act::Read(read) && text::views(read@) == asked
                    &&& next == (Sidebar { files: next.files, ..self })
                },
            TabKind::Changes => exists|folded: ChangesTab|
                {
                    &&& folded.folds@ == folds(self.changes.folds@)
                    &&& folded == (ChangesTab { folds: folded.folds, ..self.changes })
                    &&& #[trigger] folded.rebuilt(next.changes)
                    &&& act is Nothing
                    &&& next == (Sidebar { changes: next.changes, ..self })
                },
            TabKind::Commits => match self.commits.folds {
                None => act is Nothing && next == self,
                Some(held) => {
                    &&& next.commits.folds matches Some(now) && now@ == folds(held@)
                    &&& act is RebuildCommits
                    &&& next == (Sidebar {
                        commits: CommitsTab { folds: next.commits.folds, ..self.commits },
                        ..self
                    })
                },
            },
        }
    }

    /// What opening or closing one directory does to folds.
    pub open spec fn fold_one(path: Seq<char>, open: bool) -> spec_fn(
        entries::FoldsView,
    ) -> entries::FoldsView {
        |folds: entries::FoldsView| folds.with(set![path::components(path)], open)
    }

    /// What closing every directory does to folds.
    pub open spec fn fold_all(dirs: Seq<Seq<char>>) -> spec_fn(
        entries::FoldsView,
    ) -> entries::FoldsView {
        |folds: entries::FoldsView| folds.all_closed(entries::spelled(dirs))
    }

    pub fn set_dir_open(&mut self, dir: String, open: bool, narrowed: Vec<Row>) -> (act: Act)
        ensures
            old(self).refolded(
                Sidebar::fold_one(dir@, open),
                entries::row_views(narrowed@),
                *final(self),
                act,
            ),
    {
        match self.tab {
            TabKind::Files => {
                self.files.folds.set(dir, open);
                let ghost folded = self.files;
                let read = self.files.rebuild(narrowed);
                assert(folded.rebuilt(
                    entries::row_views(narrowed@),
                    self.files,
                    text::views(read@),
                ));
                Act::Read(read)
            },
            TabKind::Changes => {
                self.changes.folds.set(dir, open);
                let ghost folded = self.changes;
                self.changes.rebuild();
                assert(folded.rebuilt(self.changes));
                Act::Nothing
            },
            TabKind::Commits => match self.commits.folds.take() {
                Some(folds) => {
                    let mut folds = folds;
                    folds.set(dir, open);
                    self.commits.folds = Some(folds);
                    Act::RebuildCommits
                },
                None => Act::Nothing,
            },
        }
    }

    /// Whether `next` is this sidebar with the directory under the cursor folded or unfolded.
    pub open spec fn toggled(self, narrowed: Seq<entries::RowView>, next: Sidebar, act: Act) -> bool {
        match self.dir_under() {
            Some(dir) => self.refolded(
                Sidebar::fold_one(dir, !self.opens(dir)),
                narrowed,
                next,
                act,
            ),
            None => act is Nothing && next == self,
        }
    }

    pub fn toggle_dir(&mut self, narrowed: Vec<Row>) -> (act: Act)
        ensures
            old(self).toggled(entries::row_views(narrowed@), *final(self), act),
    {
        match self.cursor_on_dir() {
            Some(dir) => {
                let open = self.is_open(dir.as_str());
                self.set_dir_open(dir, !open, narrowed)
            },
            None => Act::Nothing,
        }
    }

    /// Whether `next` is this sidebar with the directory under the cursor open.
    pub open spec fn unfolded(
        self,
        narrowed: Seq<entries::RowView>,
        next: Sidebar,
        act: Act,
    ) -> bool {
        match self.dir_under() {
            Some(dir) if !self.opens(dir) => self.refolded(
                Sidebar::fold_one(dir, true),
                narrowed,
                next,
                act,
            ),
            _ => act is Nothing && next == self,
        }
    }

    pub fn expand_dir(&mut self, narrowed: Vec<Row>) -> (act: Act)
        ensures
            old(self).unfolded(entries::row_views(narrowed@), *final(self), act),
    {
        match self.cursor_on_dir() {
            Some(dir) => if self.is_open(dir.as_str()) {
                Act::Nothing
            } else {
                self.set_dir_open(dir, true, narrowed)
            },
            None => Act::Nothing,
        }
    }

    pub fn collapse_all(&mut self, narrowed: Vec<Row>) -> (act: Act)
        ensures
            old(self).refolded(
                Sidebar::fold_all(file_tree::dirs_of(old(self).rows())),
                entries::row_views(narrowed@),
                *final(self),
                act,
            ),
    {
        let dirs = row_dirs(self.active_rows());
        match self.tab {
            TabKind::Files => {
                self.files.folds.close_all(&dirs);
                let ghost folded = self.files;
                let read = self.files.rebuild(narrowed);
                assert(folded.rebuilt(
                    entries::row_views(narrowed@),
                    self.files,
                    text::views(read@),
                ));
                Act::Read(read)
            },
            TabKind::Changes => {
                self.changes.folds.close_all(&dirs);
                let ghost folded = self.changes;
                self.changes.rebuild();
                assert(folded.rebuilt(self.changes));
                Act::Nothing
            },
            TabKind::Commits => match self.commits.folds.take() {
                Some(folds) => {
                    let mut folds = folds;
                    folds.close_all(&dirs);
                    self.commits.folds = Some(folds);
                    Act::RebuildCommits
                },
                None => Act::Nothing,
            },
        }
    }

    /// Whether `next` is this sidebar with the directory under the cursor closed, or, on a file
    /// or a closed directory, with the cursor on the row that holds it.
    pub open spec fn collapsed_or_up(
        self,
        narrowed: Seq<entries::RowView>,
        next: Sidebar,
        act: Act,
    ) -> bool {
        match self.under() {
            None => act is Nothing && next == self,
            Some(row) => match row.dir() {
                Some(dir) if self.opens(dir) => self.refolded(
                    Sidebar::fold_one(dir, false),
                    narrowed,
                    next,
                    act,
                ),
                _ => match file_tree::parent_row(
                    self.rows(),
                    self.list().cursor as int,
                    row.depth(),
                ) {
                    Some(parent) if row.depth() != 0 => act is Nothing && self.moved(
                        self.placed(parent),
                        next,
                    ),
                    _ => act is Nothing && next == self,
                },
            },
        }
    }

    /// Closes the directory under the cursor; on a file or a closed directory, jumps to
    /// the parent instead, so repeated presses walk up the tree.
    pub fn collapse_or_parent(&mut self, narrowed: Vec<Row>) -> (act: Act)
        ensures
            old(self).collapsed_or_up(entries::row_views(narrowed@), *final(self), act),
    {
        let list = self.active_list();
        if list.cursor >= self.active_rows().len() {
            assert(self.rows().len() <= list.cursor);
            return Act::Nothing;
        }
        if let Some(dir) = self.cursor_on_dir() {
            if self.is_open(dir.as_str()) {
                return self.set_dir_open(dir, false, narrowed);
            }
        }
        let rows = self.active_rows();
        let ghost all = self.rows();
        assert(all[list.cursor as int] == rows@[list.cursor as int]@);
        let depth = rows[list.cursor].depth();
        if depth == 0 {
            return Act::Nothing;
        }
        let found = last_above(rows, list.cursor, depth);
        if let Some(at) = found {
            let ghost start = *self;
            let mut list = list;
            list.select(at);
            self.set_list(list);
            assert(start.moved(start.placed(at as int), *self)) by {
                assert(*self == start.with_list(list));
            }
        }
        Act::Nothing
    }

    /// What is to be done to open the row under the cursor: a directory is folded or unfolded,
    /// anything else is the tab's to open.
    pub open spec fn opened_row(
        self,
        how: Activation,
        narrowed: Seq<entries::RowView>,
        next: Sidebar,
        act: Act,
    ) -> bool {
        if self.dir_under() is Some {
            self.toggled(narrowed, next, act)
        } else {
            &&& next == self
            &&& match self.tab {
                TabKind::Files => match changes::cursor_path(self.rows(), self.list()) {
                    Some(path) => act matches Act::OpenFile(file) && file@ == path,
                    None => act is Nothing,
                },
                TabKind::Changes => match self.under() {
                    Some(entries::RowView::Entry(entry)) => if entry.change == Some(
                        git::Change::Deleted,
                    ) {
                        act matches Act::Say(message) && !message.is_error && message.text@
                            == entries::listed_name(entry.path, self.changes.root@)
                            + " is deleted"@
                    } else {
                        act matches Act::OpenFile(file) && file@ == entry.path
                    },
                    _ => act is Nothing,
                },
                TabKind::Commits => act == Act::OpenCommits(how),
            }
        }
    }

    /// Opens the row under the cursor: a directory is folded or unfolded, anything else is
    /// the tab's to open.
    pub fn open_row(&mut self, how: Activation, narrowed: Vec<Row>) -> (act: Act)
        ensures
            old(self).opened_row(how, entries::row_views(narrowed@), *final(self), act),
    {
        if self.cursor_on_dir().is_some() {
            return self.toggle_dir(narrowed);
        }
        match self.tab {
            TabKind::Files => match self.files.open() {
                Opening::Open(path) => Act::OpenFile(path),
                _ => Act::Nothing,
            },
            TabKind::Changes => match self.changes.open() {
                Opening::Nothing => Act::Nothing,
                Opening::Say(text) => Act::Say(Message { text, is_error: false }),
                Opening::Open(path) => Act::OpenFile(path),
            },
            TabKind::Commits => Act::OpenCommits(how),
        }
    }

    /// The tab opened something, and the keys go over to the editor: the file now in focus is
    /// the one the sidebar is on.
    pub fn left(&mut self, document: Option<String>)
        ensures
            *final(self) == (Sidebar { revealed: document, focused: false, ..*old(self) }),
    {
        self.revealed = document;
        self.focused = false;
    }

    /// The history tab was asked to step back, and had somewhere to go or not: where it had
    /// none, the keys go over to the editor if they may.
    pub fn stepped_back(&mut self, leave: bool, went: bool)
        ensures
            *final(self) == (Sidebar {
                focused: old(self).focused && !(leave && !went),
                ..*old(self)
            }),
    {
        if leave && !went {
            self.focused = false;
        }
    }

    /// Whether `next` is this sidebar on another tab, or a step back asked of the same one.
    pub open spec fn switched(
        self,
        kind: TabKind,
        narrowed: Seq<entries::RowView>,
        next: Sidebar,
        act: Act,
    ) -> bool {
        if self.tab == kind {
            &&& next == self
            &&& if kind == TabKind::Commits {
                act == (Act::StepBack { leave: false })
            } else {
                act is Nothing
            }
        } else {
            (Sidebar { tab: kind, ..self }).came(narrowed, next, act)
        }
    }

    pub fn switch_tab(&mut self, kind: TabKind, narrowed: Vec<Row>) -> (act: Act)
        ensures
            old(self).switched(kind, entries::row_views(narrowed@), *final(self), act),
    {
        if self.tab == kind {
            // Asking for the tab again steps back, where the tab has somewhere to go.
            return if kind == TabKind::Commits {
                Act::StepBack { leave: false }
            } else {
                Act::Nothing
            };
        }
        self.tab = kind;
        self.came_on_screen(narrowed)
    }

    /// Whether a target is where a prompt acts: the workspace, and the entry under the cursor.
    pub open spec fn targets(self, target: PromptTarget) -> bool {
        &&& target.root@ == self.root@
        &&& text::optional(target.path) == changes::cursor_path(self.rows(), self.list())
        &&& target.is_dir == (self.dir_under() is Some)
    }

    /// Where a prompt acts: the workspace, and the entry under the cursor.
    pub fn prompt_target(&self) -> (target: PromptTarget)
        ensures
            self.targets(target),
    {
        let list = self.active_list();
        let path = changes::path_under(self.active_rows(), &list);
        let is_dir = self.cursor_on_dir().is_some();
        PromptTarget { root: self.root.clone(), path, is_dir }
    }

    pub fn contains(&self, row: u16, column: u16) -> (yes: bool)
        ensures
            yes == (self.open && self.area.covers(row, column)),
    {
        self.open && self.area.contains(row, column)
    }

    /// What was typed, with one character more: after the last when that is not long ago, else
    /// on its own.
    pub open spec fn typing(self, c: char, now: u64) -> Seq<char> {
        if within(self.typed.1, now, TYPING) {
            self.typed.0@.push(c)
        } else {
            seq![c]
        }
    }

    /// Whether `next` is this sidebar on the next row that starts with what was typed.
    pub open spec fn jumped(self, c: char, now: u64, next: Sidebar) -> bool {
        exists|noted: Sidebar|
            {
                &&& noted.typed.0@ == self.typing(c, now)
                &&& noted.typed.1 == Some(now)
                &&& noted == (Sidebar { typed: noted.typed, ..self })
                &&& #[trigger] noted.walked_to(
                    next_typed(self.rows(), self.list().cursor as int, self.typing(c, now), 1),
                    next,
                )
            }
    }

    /// Whether `next` is this sidebar with the cursor on a row, if there is one.
    pub open spec fn walked_to(self, row: Option<int>, next: Sidebar) -> bool {
        match row {
            Some(row) => self.moved(self.placed(row), next),
            None => next == self,
        }
    }

    /// Walks to the next row whose name starts with what has been typed. Letters typed one
    /// after another build a longer name; a pause starts a new one.
    pub fn jump_to_typed(&mut self, c: char, now: u64)
        ensures
            old(self).jumped(c, now, *final(self)),
    {
        let ghost start = *self;
        let mut typed = String::new();
        if is_within(self.typed.1, now, TYPING) {
            typed = self.typed.0.clone();
        }
        typed.push(c);
        assert(typed@ =~= start.typing(c, now));
        // From the row after this one, so typing the same letter walks the ones that match.
        let list = self.active_list();
        let found = find_typed(self.active_rows(), list.cursor, typed.as_str());
        self.typed = (typed, Some(now));
        let ghost noted = *self;
        assert(noted.rows() == start.rows() && noted.list() == start.list());
        if let Some(index) = found {
            let mut list = list;
            list.select(index);
            self.set_list(list);
            assert(*self == noted.with_list(list));
            assert(noted.moved(noted.placed(index as int), *self));
        }
        assert(noted.walked_to(
            next_typed(start.rows(), start.list().cursor as int, start.typing(c, now), 1),
            *self,
        ));
    }
}

/// What a key or the mouse comes to: what is to be done, and whether the cursor moved, which the
/// history tab follows.
pub struct Reply {
    pub act: Act,
    pub moved: bool,
}

impl Sidebar {
    /// Whether the tab on screen is of the disk, which creating, renaming and deleting act on.
    pub open spec fn edits_disk(self) -> bool {
        self.tab != TabKind::Commits
    }

    /// Whether `next` is this sidebar with the tab on screen asked for again.
    pub open spec fn refreshed(self, next: Sidebar, act: Act) -> bool {
        match self.tab {
            TabKind::Files => act matches Act::Read(read) && self.files.refreshed(
                next.files,
                text::views(read@),
            ) && next == (Sidebar { files: next.files, ..self }),
            TabKind::Changes => {
                &&& if self.changes.asking {
                    act is Nothing
                } else {
                    act is Status
                }
                &&& next == (Sidebar {
                    changes: ChangesTab { asking: true, ..self.changes },
                    ..self
                })
            },
            TabKind::Commits => act is RefreshCommits && next == self,
        }
    }

    /// Asks again for what the tab on screen shows.
    pub fn refresh(&mut self) -> (act: Act)
        ensures
            old(self).refreshed(*final(self), act),
    {
        match self.tab {
            TabKind::Files => Act::Read(self.files.refresh()),
            TabKind::Changes => if self.changes.refresh() {
                Act::Status
            } else {
                Act::Nothing
            },
            TabKind::Commits => Act::RefreshCommits,
        }
    }

    /// Whether `next` is this sidebar after a key, and `act` what is to be done.
    pub open spec fn keyed(
        self,
        key: KeyEvent,
        now: u64,
        narrowed: Seq<entries::RowView>,
        next: Sidebar,
        act: Act,
    ) -> bool {
        let plain = key.modifiers.plain();
        let control = key.modifiers.only_control();
        let cursor = self.list().cursor as int;
        let page = self.list().page as int;
        let half = screen::most(page / 2, 1);
        if self.split() && key.code == KeyCode::Left && plain {
            act is Nothing && next == (Sidebar {
                commits: CommitsTab { on_files: false, ..self.commits },
                ..self
            })
        } else if self.split() && key.code == KeyCode::Right && plain && !self.commits.on_files {
            act is Nothing && next == (Sidebar {
                commits: CommitsTab { on_files: true, ..self.commits },
                ..self
            })
        } else {
            match key.code {
                KeyCode::Esc => if self.tab == TabKind::Commits {
                    act == (Act::StepBack { leave: true }) && next == self
                } else {
                    act is Nothing && next == (Sidebar { focused: false, ..self })
                },
                KeyCode::Down => act is Nothing && self.moved(self.placed(cursor + 1), next),
                KeyCode::Up => act is Nothing && self.moved(
                    self.placed(screen::most(cursor - 1, 0)),
                    next,
                ),
                KeyCode::PageDown => act is Nothing && self.moved(
                    self.placed(cursor + page),
                    next,
                ),
                KeyCode::PageUp => act is Nothing && self.moved(
                    self.placed(screen::less_by(cursor, page)),
                    next,
                ),
                KeyCode::Home => act is Nothing && self.moved(self.placed(0), next),
                KeyCode::End => act is Nothing && self.moved(
                    self.placed(screen::less_by(self.list().len as int, 1)),
                    next,
                ),
                KeyCode::Enter => self.opened_row(Activation::Enter, narrowed, next, act),
                KeyCode::Right => if self.dir_under() is Some {
                    self.unfolded(narrowed, next, act)
                } else {
                    self.opened_row(Activation::Enter, narrowed, next, act)
                },
                KeyCode::Left => if key.modifiers.only_shift() {
                    self.refolded(
                        Sidebar::fold_all(file_tree::dirs_of(self.rows())),
                        narrowed,
                        next,
                        act,
                    )
                } else {
                    self.collapsed_or_up(narrowed, next, act)
                },
                KeyCode::Tab => self.switched(self.tab.following(), narrowed, next, act),
                KeyCode::F(5) => self.refreshed(next, act),
                KeyCode::F(2) if self.edits_disk() => next == self && (
                act matches Act::PromptRename(target) && self.targets(target)),
                KeyCode::Delete if self.edits_disk() => next == self && (
                act matches Act::PromptDelete(target) && self.targets(target)),
                KeyCode::Char(c) => if control && c == 'd' {
                    act is Nothing && self.moved(self.placed(cursor + half), next)
                } else if control && c == 'u' {
                    act is Nothing && self.moved(
                        self.placed(screen::most(cursor - half, 0)),
                        next,
                    )
                } else if control && c == 'n' && self.edits_disk() {
                    next == self && (act matches Act::PromptNew(target) && self.targets(target))
                } else if is_shortcut(key) {
                    act is Ignored && next == self
                } else {
                    act is Nothing && self.jumped(c, now, next)
                },
                _ => next == self && if is_shortcut(key) {
                    act is Ignored
                } else {
                    act is Nothing
                },
            }
        }
    }

    fn put_list(&mut self, list: List, Ghost(at): Ghost<(int, int)>)
        requires
            list.stands(old(self).list().len as int, old(self).list().page as int, at),
        ensures
            old(self).moved(at, *final(self)),
    {
        let ghost start = *self;
        self.set_list(list);
        assert(*self == start.with_list(list));
    }

    /// What a key that moves the cursor does, if it is one.
    fn move_key(&mut self, key: KeyEvent) -> (done: bool)
        ensures
            ({
                let control = key.modifiers.only_control();
                let start = *old(self);
                let cursor = start.list().cursor as int;
                let page = start.list().page as int;
                let half = screen::most(page / 2, 1);
                match key.code {
                    KeyCode::Down => done && start.moved(start.placed(cursor + 1), *final(self)),
                    KeyCode::Up => done && start.moved(
                        start.placed(screen::most(cursor - 1, 0)),
                        *final(self),
                    ),
                    KeyCode::PageDown => done && start.moved(
                        start.placed(cursor + page),
                        *final(self),
                    ),
                    KeyCode::PageUp => done && start.moved(
                        start.placed(screen::less_by(cursor, page)),
                        *final(self),
                    ),
                    KeyCode::Home => done && start.moved(start.placed(0), *final(self)),
                    KeyCode::End => done && start.moved(
                        start.placed(screen::less_by(start.list().len as int, 1)),
                        *final(self),
                    ),
                    KeyCode::Char(c) if control && c == 'd' => done && start.moved(
                        start.placed(cursor + half),
                        *final(self),
                    ),
                    KeyCode::Char(c) if control && c == 'u' => done && start.moved(
                        start.placed(screen::most(cursor - half, 0)),
                        *final(self),
                    ),
                    _ => !done && *final(self) == start,
                }
            }),
    {
        let mut list = self.active_list();
        let half_page = list.half_page();
        match key.code {
            KeyCode::Down => list.move_by(1),
            KeyCode::Up => list.move_by(-1),
            KeyCode::PageDown => list.turn_page(true),
            KeyCode::PageUp => list.turn_page(false),
            KeyCode::Home => list.home(),
            KeyCode::End => list.end(),
            KeyCode::Char(c) => {
                if key.modifiers.is_control() && c == 'd' {
                    list.move_by(half_page);
                } else if key.modifiers.is_control() && c == 'u' {
                    list.move_by(-half_page);
                } else {
                    return false;
                }
            },
            _ => return false,
        }
        self.put_list(list, Ghost((list.cursor as int, list.scroll as int)));
        true
    }

    /// What a key comes to, whether or not the cursor moved.
    fn act_on_key(&mut self, key: KeyEvent, now: u64, narrowed: Vec<Row>) -> (act: Act)
        ensures
            old(self).keyed(key, now, entries::row_views(narrowed@), *final(self), act),
    {
        let plain = key.modifiers.is_plain();
        if self.tab == TabKind::Commits && self.commits.has_columns() {
            if key.code == KeyCode::Left && plain {
                self.commits.focus_files(false);
                return Act::Nothing;
            }
            if key.code == KeyCode::Right && plain && !self.commits.on_files {
                self.commits.focus_files(true);
                return Act::Nothing;
            }
        }
        if self.move_key(key) {
            return Act::Nothing;
        }
        let edits_disk = self.tab != TabKind::Commits;
        match key.code {
            KeyCode::Esc => {
                if self.tab == TabKind::Commits {
                    Act::StepBack { leave: true }
                } else {
                    self.focused = false;
                    Act::Nothing
                }
            },
            KeyCode::Enter => self.open_row(Activation::Enter, narrowed),
            KeyCode::Right => if self.cursor_on_dir().is_some() {
                self.expand_dir(narrowed)
            } else {
                self.open_row(Activation::Enter, narrowed)
            },
            KeyCode::Left => if key.modifiers.is_shift() {
                self.collapse_all(narrowed)
            } else {
                self.collapse_or_parent(narrowed)
            },
            KeyCode::Tab => {
                let next = self.tab.next();
                self.switch_tab(next, narrowed)
            },
            KeyCode::F(n) => if n == 5 {
                self.refresh()
            } else if n == 2 && edits_disk {
                Act::PromptRename(self.prompt_target())
            } else {
                Act::Ignored
            },
            KeyCode::Delete => if edits_disk {
                Act::PromptDelete(self.prompt_target())
            } else if is_editor_shortcut(key) {
                Act::Ignored
            } else {
                Act::Nothing
            },
            KeyCode::Char(c) => if key.modifiers.is_control() && c == 'n' && edits_disk {
                Act::PromptNew(self.prompt_target())
            } else if is_editor_shortcut(key) {
                // Anything the sidebar does not use but the editor might: it goes through, so
                // Ctrl-q quits and Ctrl-s saves wherever the focus is.
                Act::Ignored
            } else {
                // A letter is not a command here: typing walks to the row that starts with what
                // you typed, the way a file explorer does.
                self.jump_to_typed(c, now);
                Act::Nothing
            },
            _ => if is_editor_shortcut(key) {
                Act::Ignored
            } else {
                Act::Nothing
            },
        }
    }

    /// What a key comes to.
    pub fn handle_key(&mut self, key: KeyEvent, now: u64, narrowed: Vec<Row>) -> (reply: Reply)
        ensures
            old(self).keyed(key, now, entries::row_views(narrowed@), *final(self), reply.act),
            reply.moved == (final(self).list().cursor != old(self).list().cursor && !(
            old(self).split() && key.modifiers.plain() && (key.code == KeyCode::Left || (key.code
                == KeyCode::Right && !old(self).commits.on_files)))),
    {
        let before = self.active_list().cursor;
        let columns = self.tab == TabKind::Commits && self.commits.has_columns()
            && key.modifiers.is_plain() && (key.code == KeyCode::Left || (key.code
            == KeyCode::Right && !self.commits.on_files));
        let act = self.act_on_key(key, now, narrowed);
        let moved = self.active_list().cursor != before && !columns;
        Reply { act, moved }
    }

    // ---- The mouse ----

    /// This sidebar with the column the mouse is in given the cursor, when there are columns.
    pub open spec fn pointed(self, event: MouseEvent) -> Sidebar {
        if self.split() && event.row > self.area.y {
            let files = event.column >= screen::capped(self.area.x + self.area.width / 2);
            Sidebar {
                commits: CommitsTab { on_files: files, ..self.commits },
                last_click: if self.commits.on_files != files {
                    None
                } else {
                    self.last_click
                },
                ..self
            }
        } else {
            self
        }
    }

    /// The width a separator dragged to a column gives the sidebar.
    pub open spec fn dragged(self, column: u16, editor_width: u16) -> int {
        let total = screen::capped(self.area.width + editor_width);
        let widest = screen::most(screen::less_by(total, EDITOR_ROOM as int), MIN_WIDTH as int);
        let wanted = screen::capped(screen::less_by(column as int, self.area.x as int) + 1);
        let width = screen::least(screen::most(wanted, MIN_WIDTH as int), widest);
        if self.split() {
            width / 2
        } else {
            width
        }
    }

    /// The tab whose label a column of the strip is on.
    pub open spec fn tab_at(self, column: u16) -> Option<TabKind> {
        let (files, changes, commits) = self.tab_columns;
        if files.0 <= column < files.1 {
            Some(TabKind::Files)
        } else if changes.0 <= column < changes.1 {
            Some(TabKind::Changes)
        } else if commits.0 <= column < commits.1 {
            Some(TabKind::Commits)
        } else {
            None
        }
    }

    /// Whether a press on a row is the second one soon after another.
    pub open spec fn doubles(self, index: int, now: u64) -> bool {
        self.last_click matches Some(last) && last.0 == index && now - last.1 < DOUBLE_CLICK
    }

    /// Whether `next` is this sidebar after a press of the left button on it.
    pub open spec fn clicked(
        self,
        event: MouseEvent,
        now: u64,
        narrowed: Seq<entries::RowView>,
        next: Sidebar,
        act: Act,
        moved: bool,
    ) -> bool {
        let at = Sidebar { focused: true, ..self };
        let line = screen::less_by(event.row as int, self.area.y as int);
        let index = self.list().scroll + line - 1;
        if line == 0 {
            &&& !moved
            &&& match self.tab_at(event.column) {
                Some(kind) => at.switched(kind, narrowed, next, act),
                None => act is Nothing && next == at,
            }
        } else if index >= self.list().len {
            !moved && act is Nothing && next == at
        } else {
            let double = self.doubles(index, now);
            let pressed = Sidebar {
                last_click: if double {
                    None
                } else {
                    Some((index as usize, now))
                },
                ..at
            };
            &&& moved == (index != self.list().cursor)
            &&& exists|on: Sidebar|
                {
                    &&& pressed.moved(pressed.placed(index), on)
                    &&& #[trigger] on.opened_row(activation(double), narrowed, next, act)
                }
        }
    }

    /// Whether `next` is this sidebar after a press of the right button on it: it takes the row
    /// it lands on and offers what can be done to it.
    pub open spec fn offered(
        self,
        event: MouseEvent,
        next: Sidebar,
        act: Act,
        moved: bool,
    ) -> bool {
        let at = Sidebar { focused: true, ..self };
        let line = screen::less_by(event.row as int, self.area.y as int);
        let index = self.list().scroll + line - 1;
        &&& moved == (line > 0 && index < self.list().len)
        &&& if moved {
            at.moved(at.placed(index), next)
        } else {
            next == at
        }
        &&& act matches Act::Menu { row, column, target } && row == event.row && column
            == event.column && next.targets(target)
    }

    /// Whether `next` is this sidebar after what the mouse did, and `act` what is to be done.
    pub open spec fn moused(
        self,
        event: MouseEvent,
        editor_width: u16,
        scroll_lines: isize,
        now: u64,
        narrowed: Seq<entries::RowView>,
        next: Sidebar,
        act: Act,
        moved: bool,
    ) -> bool {
        match event.kind {
            MouseEventKind::Down(MouseButton::Left) => if event.column == screen::less_by(
                self.area.end(),
                1,
            ) {
                !moved && act is Nothing && next == (Sidebar { resizing: true, ..self })
            } else {
                self.clicked(event, now, narrowed, next, act, moved)
            },
            MouseEventKind::Drag(MouseButton::Left) if self.resizing => {
                &&& !moved && act is Nothing
                &&& next == (Sidebar {
                    width: Some(self.dragged(event.column, editor_width) as u16),
                    ..self
                })
            },
            MouseEventKind::Up(MouseButton::Left) if self.resizing => {
                &&& !moved
                &&& next == (Sidebar { resizing: false, ..self })
                &&& match self.width {
                    Some(width) => act == Act::KeepWidth(width),
                    None => act is Nothing,
                }
            },
            MouseEventKind::Down(MouseButton::Right) if self.edits_disk() => self.offered(
                event,
                next,
                act,
                moved,
            ),
            MouseEventKind::ScrollDown => {
                &&& act is Nothing
                &&& self.moved(self.list().scrolled(scroll_lines as int), next)
                &&& moved == (next.list().cursor != self.list().cursor)
            },
            MouseEventKind::ScrollUp => {
                &&& act is Nothing
                &&& self.moved(self.list().scrolled(-scroll_lines), next)
                &&& moved == (next.list().cursor != self.list().cursor)
            },
            _ => !moved && act is Nothing && next == self,
        }
    }

    fn point(&mut self, event: &MouseEvent)
        ensures
            *final(self) == old(self).pointed(*event),
    {
        if self.tab == TabKind::Commits && self.commits.has_columns() && event.row > self.area.y {
            let files = event.column >= sum(self.area.x, self.area.width / 2);
            let changed = self.commits.on_files != files;
            self.commits.focus_files(files);
            if changed {
                self.last_click = None;
            }
        }
    }

    fn click(&mut self, event: &MouseEvent, now: u64, narrowed: Vec<Row>) -> (reply: Reply)
        ensures
            old(self).clicked(
                *event,
                now,
                entries::row_views(narrowed@),
                *final(self),
                reply.act,
                reply.moved,
            ),
    {
        let ghost start = *self;
        self.focused = true;
        // The first line holds the tabs, not a row.
        let line = rest(event.row, self.area.y) as usize;
        if line == 0 {
            let (files, changes, commits) = self.tab_columns;
            let column = event.column;
            let act = if column >= files.0 && column < files.1 {
                self.switch_tab(TabKind::Files, narrowed)
            } else if column >= changes.0 && column < changes.1 {
                self.switch_tab(TabKind::Changes, narrowed)
            } else if column >= commits.0 && column < commits.1 {
                self.switch_tab(TabKind::Commits, narrowed)
            } else {
                Act::Nothing
            };
            return Reply { act, moved: false };
        }
        let mut list = self.active_list();
        let index = match list.row_at(line - 1) {
            Some(index) => index,
            None => return Reply { act: Act::Nothing, moved: false },
        };
        let double = match self.last_click {
            Some(last) => last.0 == index && (now < last.1 || now - last.1 < DOUBLE_CLICK),
            None => false,
        };
        self.last_click =
        if double {
            None
        } else {
            Some((index, now))
        };
        let ghost pressed = *self;
        let moved = index != list.cursor;
        list.select(index);
        self.put_list(list, Ghost(pressed.placed(index as int)));
        let ghost on = *self;
        let how = if double {
            Activation::Enter
        } else {
            Activation::Click
        };
        let act = self.open_row(how, narrowed);
        assert(on.opened_row(how, entries::row_views(narrowed@), *self, act));
        Reply { act, moved }
    }

    fn offer(&mut self, event: &MouseEvent) -> (reply: Reply)
        ensures
            old(self).offered(*event, *final(self), reply.act, reply.moved),
    {
        self.focused = true;
        let ghost at = *self;
        let line = rest(event.row, self.area.y) as usize;
        let mut moved = false;
        if line > 0 {
            let mut list = self.active_list();
            if let Some(index) = list.row_at(line - 1) {
                list.select(index);
                self.put_list(list, Ghost(at.placed(index as int)));
                moved = true;
            }
        }
        let target = self.prompt_target();
        Reply { act: Act::Menu { row: event.row, column: event.column, target }, moved }
    }

    fn scroll(&mut self, lines: isize) -> (moved: bool)
        ensures
            old(self).moved(old(self).list().scrolled(lines as int), *final(self)),
            moved == (final(self).list().cursor != old(self).list().cursor),
    {
        let mut list = self.active_list();
        let before = list.cursor;
        list.scroll_by(lines);
        self.put_list(list, Ghost(old(self).list().scrolled(lines as int)));
        self.active_list().cursor != before
    }

    /// What the mouse comes to.
    pub fn handle_mouse(
        &mut self,
        event: &MouseEvent,
        editor_width: u16,
        scroll_lines: isize,
        now: u64,
        narrowed: Vec<Row>,
    ) -> (reply: Reply)
        requires
            scroll_lines > isize::MIN,
        ensures
            old(self).pointed(*event).moused(
                *event,
                editor_width,
                scroll_lines,
                now,
                entries::row_views(narrowed@),
                *final(self),
                reply.act,
                reply.moved,
            ),
    {
        self.point(event);
        match event.kind {
            MouseEventKind::Down(MouseButton::Left) => {
                if event.column == rest(self.area.right(), 1) {
                    self.resizing = true;
                } else {
                    return self.click(event, now, narrowed);
                }
            },
            MouseEventKind::Drag(MouseButton::Left) => {
                if self.resizing {
                    // The separator is the sidebar's last column, so it lands where the mouse is.
                    let total = sum(self.area.width, editor_width);
                    let widest = larger(rest(total, EDITOR_ROOM), MIN_WIDTH);
                    let wanted = sum(rest(event.column, self.area.x), 1);
                    let wanted = smaller(larger(wanted, MIN_WIDTH), widest);
                    let split = self.tab == TabKind::Commits && self.commits.has_columns();
                    self.width =
                    Some(
                        if split {
                            wanted / 2
                        } else {
                            wanted
                        },
                    );
                }
            },
            MouseEventKind::Up(MouseButton::Left) => {
                if self.resizing {
                    self.resizing = false;
                    if let Some(width) = self.width {
                        return Reply { act: Act::KeepWidth(width), moved: false };
                    }
                }
            },
            MouseEventKind::Down(MouseButton::Right) => {
                if self.tab != TabKind::Commits {
                    return self.offer(event);
                }
            },
            MouseEventKind::ScrollDown => {
                let moved = self.scroll(scroll_lines);
                return Reply { act: Act::Nothing, moved };
            },
            MouseEventKind::ScrollUp => {
                let moved = self.scroll(-scroll_lines);
                return Reply { act: Act::Nothing, moved };
            },
            _ => {},
        }
        Reply { act: Act::Nothing, moved: false }
    }

    /// Something on disk changed under `path`, by one of the sidebar's own prompts. Tells the
    /// directories that are to be read, and whether `git status` is to be asked.
    pub fn disk_changed(&mut self, path: &str, narrowed: Vec<Row>) -> (asked: (
        Vec<String>,
        Vec<String>,
        bool,
    ))
        ensures
            old(self).files.changed_under(
                path@,
                entries::row_views(narrowed@),
                final(self).files,
                text::views(asked.0@),
                text::views(asked.1@),
            ),
            asked.2 == !old(self).changes.asking,
            *final(self) == (Sidebar {
                files: final(self).files,
                changes: ChangesTab { asking: true, ..old(self).changes },
                ..*old(self)
            }),
    {
        let (first, second) = self.files.disk_changed(path, narrowed);
        let status = self.changes.ask();
        (first, second, status)
    }
}

// ---- Drawing ----

/// What is drawn on a line: a file or a directory, or the commit of a row.
pub enum LinePaint {
    Entry(EntryPaint),
    Commit { row: usize, paint: RowPaint },
}

/// A column of rows: where it stands, and the lines of it, each with what its row is marked
/// with.
pub struct ColumnPaint {
    pub area: Rect,
    pub lines: Vec<(Option<Mark>, LinePaint)>,
}

/// What is drawn below the strip: nothing, a message, or one column of rows or two, the line
/// between them in a column of its own.
pub enum Body {
    Nothing,
    Message { x: u16, y: u16, width: u16, message: Message },
    One(ColumnPaint),
    Two { history: ColumnPaint, files: ColumnPaint, between: u16 },
}

/// How many rows of a list are drawn.
pub open spec fn drawn(rows: int, list: List) -> int {
    screen::least(screen::less_by(rows, list.scroll as int), list.page as int)
}

impl CommitsTab {
    /// Whether `next` is this tab with room for so many rows.
    pub open spec fn paged(self, page: int, next: CommitsTab) -> bool {
        &&& next.history.list.stands(
            self.history.list.len as int,
            list::room(page),
            list::settled(
                self.history.list.len as int,
                page,
                self.history.list.cursor as int,
                self.history.list.scroll as int,
            ),
        )
        &&& match self.files {
            None => next.files is None,
            Some(files) => next.files matches Some(now) && {
                &&& now.list.stands(
                    files.list.len as int,
                    list::room(page),
                    list::settled(
                        files.list.len as int,
                        page,
                        files.list.cursor as int,
                        files.list.scroll as int,
                    ),
                )
                &&& now.rows == files.rows
            },
        }
        &&& next == (CommitsTab {
            history: Column { list: next.history.list, ..self.history },
            files: next.files,
            ..self
        })
    }

    /// Tells the columns how many rows there is room for.
    pub fn set_page(&mut self, page: usize)
        ensures
            old(self).paged(page as int, *final(self)),
    {
        self.history.list.set_page(page);
        match self.files.take() {
            Some(column) => {
                let mut column = column;
                column.list.set_page(page);
                self.files = Some(column);
            },
            None => {},
        }
    }
}

impl Sidebar {
    /// Whether `next` is this sidebar about to be drawn on an area, the rows that fit known.
    pub open spec fn readied(self, area: Rect, next: Sidebar) -> bool {
        let page = screen::less_by(area.height as int, 1);
        &&& if self.tab == TabKind::Files {
            &&& next.files.list.stands(
                self.files.list.len as int,
                list::room(page),
                list::settled(
                    self.files.list.len as int,
                    page,
                    self.files.list.cursor as int,
                    self.files.list.scroll as int,
                ),
            )
            &&& next.files == (FilesTab { list: next.files.list, ..self.files })
        } else {
            next.files == self.files
        }
        &&& if self.tab == TabKind::Changes {
            &&& next.changes.list.stands(
                self.changes.list.len as int,
                list::room(page),
                list::settled(
                    self.changes.list.len as int,
                    page,
                    self.changes.list.cursor as int,
                    self.changes.list.scroll as int,
                ),
            )
            &&& next.changes == (ChangesTab { list: next.changes.list, ..self.changes })
        } else {
            next.changes == self.changes
        }
        &&& if self.tab == TabKind::Commits {
            self.commits.paged(page, next.commits)
        } else {
            next.commits == self.commits
        }
        &&& next == (Sidebar {
            width_error: None,
            area,
            files: next.files,
            changes: next.changes,
            commits: next.commits,
            ..self
        })
    }

    /// Begins a render: tells what went wrong at the start, if it was not said yet, and, the
    /// first time, what the tab on screen asks.
    pub fn begin(&mut self, area: Rect, narrowed: Vec<Row>) -> (begun: (Option<String>, Act))
        ensures
            begun.0 == old(self).width_error,
            exists|ready: Sidebar|
                {
                    &&& #[trigger] old(self).readied(area, ready)
                    &&& if old(self).built {
                        begun.1 is Nothing && *final(self) == ready
                    } else {
                        ready.came(entries::row_views(narrowed@), *final(self), begun.1)
                    }
                },
    {
        let fault = self.width_error.take();
        self.area = area;
        let page = rest(area.height, 1) as usize;
        match self.tab {
            TabKind::Files => self.files.list.set_page(page),
            TabKind::Changes => self.changes.list.set_page(page),
            TabKind::Commits => self.commits.set_page(page),
        }
        let ghost ready = *self;
        assert(old(self).readied(area, ready));
        if !self.built {
            let act = self.came_on_screen(narrowed);
            return (fault, act);
        }
        (fault, Act::Nothing)
    }

    /// Whether the file being edited is another than the sidebar was last moved onto.
    pub open spec fn elsewhere(self, document: Option<Seq<char>>) -> bool {
        match (document, self.revealed) {
            (Some(path), Some(revealed)) => !path::equal(path, revealed@),
            (Some(_), None) => true,
            (None, _) => false,
        }
    }

    /// Whether `next` is this sidebar with the tab on screen moved onto the file being edited,
    /// when that is another one.
    pub open spec fn followed(
        self,
        document: Option<Seq<char>>,
        narrowed: Seq<entries::RowView>,
        next: Sidebar,
        act: Act,
    ) -> bool {
        if !self.elsewhere(document) {
            act is Nothing && next == self
        } else {
            let path = document->0;
            &&& text::optional(next.revealed) == document
            &&& next == (Sidebar {
                revealed: next.revealed,
                files: next.files,
                changes: next.changes,
                ..self
            })
            &&& if self.tab == TabKind::Files {
                act matches Act::Read(read) && self.files.onto(
                    path,
                    narrowed,
                    next.files,
                    text::views(read@),
                )
            } else {
                next.files == self.files
            }
            &&& if self.tab == TabKind::Changes {
                act is Nothing && self.changes.moved_onto(path, next.changes)
            } else {
                next.changes == self.changes
            }
            &&& self.tab == TabKind::Commits ==> (act matches Act::RevealCommits(shown) && shown@
                == path)
        }
    }

    /// Moves the tab on screen onto the focused document, if it shows files and that is another
    /// one than before. Called at render, where the rows that fit are known, so the file lands
    /// mid-screen.
    pub fn follow(&mut self, document: &Option<String>, narrowed: Vec<Row>) -> (act: Act)
        ensures
            old(self).followed(
                text::optional(*document),
                entries::row_views(narrowed@),
                *final(self),
                act,
            ),
    {
        let path = match document {
            Some(path) => path,
            None => return Act::Nothing,
        };
        let known = match &self.revealed {
            Some(revealed) => same(path.as_str(), revealed.as_str()),
            None => false,
        };
        if known {
            return Act::Nothing;
        }
        self.revealed = Some(path.clone());
        match self.tab {
            TabKind::Files => Act::Read(self.files.move_onto(path.as_str(), narrowed)),
            TabKind::Changes => {
                self.changes.move_onto(path.as_str());
                Act::Nothing
            },
            TabKind::Commits => Act::RevealCommits(path.clone()),
        }
    }

    /// Where the line between the sidebar and the editor is drawn: its last column.
    pub fn separator(&self) -> (line: Rect)
        ensures
            line.x == screen::less_by(self.area.end(), 1),
            line.y == self.area.y,
            line.width == 1,
            line.height == self.area.floor() - self.area.y,
    {
        Rect {
            x: rest(self.area.right(), 1),
            y: self.area.y,
            width: 1,
            height: rest(self.area.bottom(), self.area.y),
        }
    }

    /// What the tabs read as.
    pub fn labels(&self) -> (labels: (String, String, String))
        ensures
            labels.0@ == "Files"@,
            labels.1@ == (if self.changes.counted() == 0 {
                "Changes"@
            } else {
                "Changes "@ + number::decimal(self.changes.counted() as nat)
            }),
            labels.2@ == self.commits.label@,
    {
        ("Files".to_owned(), self.changes.label(), self.commits.label.clone())
    }

    /// Where the labels of the tabs stand, given the columns the ones drawn so far ended
    /// before: the column of the next and the room left for it, two columns after the last.
    pub fn label_room(&self, last_end: Option<u16>) -> (place: (u16, u16))
        ensures
            place.0 == (match last_end {
                None => screen::capped(self.area.x + 1),
                Some(end) => screen::capped(end + 2),
            }),
            place.1 == screen::less_by(screen::less_by(self.area.end(), 1), place.0 as int),
    {
        let x = match last_end {
            None => sum(self.area.x, 1),
            Some(end) => sum(end, 2),
        };
        (x, rest(rest(self.area.right(), 1), x))
    }

    /// How the label of a tab looks: the one on screen stands out.
    pub fn label_style(&self, kind: TabKind) -> (style: Style)
        ensures
            style == if kind == self.tab {
                (Style { scope: Scope::Directory, bold: true, over: None })
            } else {
                (Style { scope: Scope::Inactive, bold: false, over: None })
            },
    {
        if kind == self.tab {
            Style { scope: Scope::Directory, bold: true, over: None }
        } else {
            Style { scope: Scope::Inactive, bold: false, over: None }
        }
    }

    /// Remembers where the labels were drawn.
    pub fn labels_drawn(&mut self, columns: ((u16, u16), (u16, u16), (u16, u16)))
        ensures
            *final(self) == (Sidebar { tab_columns: columns, ..*old(self) }),
    {
        self.tab_columns = columns;
    }

    /// What the row at a place of a list is marked with: the selected one is, with the focus or
    /// in columns, as selected where the keys are and dimmed elsewhere.
    pub open spec fn mark(self, list: List, index: int, focused: bool) -> Option<Mark> {
        if index == list.cursor && (self.focused || self.split()) {
            if self.focused && focused {
                Some(Mark::Focused)
            } else {
                Some(Mark::Dimmed)
            }
        } else {
            None
        }
    }

    /// How the row on a line of a column is drawn.
    pub open spec fn row_paint(
        self,
        row: entries::RowView,
        list: List,
        focused: bool,
        area: Rect,
        document: Option<Seq<char>>,
        line: int,
    ) -> RowPaint {
        RowPaint {
            line: Rect {
                x: area.x,
                y: screen::capped(area.y + 1 + line) as u16,
                width: screen::less_by(area.width as int, 1) as u16,
                height: 1,
            },
            selected: self.mark(list, list.scroll + line, focused),
            current: document matches Some(path) && row.is_at(path),
        }
    }

    /// Whether that is what is drawn for the row on a line of a column.
    pub open spec fn line_drawn(
        self,
        rows: Seq<entries::RowView>,
        list: List,
        focused: bool,
        area: Rect,
        document: Option<Seq<char>>,
        line: int,
        drawn: (Option<Mark>, LinePaint),
    ) -> bool {
        let index = list.scroll + line;
        let row = rows[index];
        let paint = self.row_paint(row, list, focused, area, document, line);
        &&& drawn.0 == paint.selected
        &&& match row {
            entries::RowView::Entry(entry) => drawn.1 matches LinePaint::Entry(laid)
                && entries::entry_laid(
                laid,
                paint,
                entry,
                self.opens(entry.path),
                entries::letter_column(paint.line),
            ),
            entries::RowView::Commit(_) => drawn.1 matches LinePaint::Commit { row: at, paint: held }
                && at == index && held == paint,
        }
    }

    /// Whether that is a column of rows.
    pub open spec fn column_drawn(
        self,
        rows: Seq<entries::RowView>,
        list: List,
        focused: bool,
        area: Rect,
        document: Option<Seq<char>>,
        column: ColumnPaint,
    ) -> bool {
        &&& column.area == area
        &&& column.lines@.len() == drawn(rows.len() as int, list)
        &&& forall|line: int|
            0 <= line < column.lines@.len() ==> self.line_drawn(
                rows,
                list,
                focused,
                area,
                document,
                line,
                #[trigger] column.lines@[line],
            )
    }

    fn draw_line(
        &self,
        rows: &Vec<Row>,
        list: List,
        focused: bool,
        area: Rect,
        document: &Option<String>,
        line: usize,
    ) -> (drawn: (Option<Mark>, LinePaint))
        requires
            list.scroll + line < rows.len(),
        ensures
            self.line_drawn(
                entries::row_views(rows@),
                list,
                focused,
                area,
                text::optional(*document),
                line as int,
                drawn,
            ),
    {
        let index = list.scroll + line;
        assert(entries::row_views(rows@)[index as int] == rows@[index as int]@);
        let y: u16 = if area.y as u128 + 1 + (line as u128) < 0xffff {
            (area.y as u128 + 1 + line as u128) as u16
        } else {
            0xffff
        };
        let split = self.tab == TabKind::Commits && self.commits.has_columns();
        let selected = if index == list.cursor && (self.focused || split) {
            if self.focused && focused {
                Some(Mark::Focused)
            } else {
                Some(Mark::Dimmed)
            }
        } else {
            None
        };
        let current = match document {
            Some(path) => match rows[index].path() {
                Some(here) => same(here, path.as_str()),
                None => false,
            },
            None => false,
        };
        let paint = RowPaint {
            line: Rect { x: area.x, y, width: rest(area.width, 1), height: 1 },
            selected,
            current,
        };
        match &rows[index] {
            Row::Entry(entry) => {
                let open = self.is_open(entry.path.as_str());
                (selected, LinePaint::Entry(draw_entry(&paint, entry, open)))
            },
            Row::Commit(_) => (selected, LinePaint::Commit { row: index, paint }),
        }
    }

    fn draw_column(
        &self,
        rows: &Vec<Row>,
        list: List,
        focused: bool,
        area: Rect,
        document: &Option<String>,
    ) -> (column: ColumnPaint)
        ensures
            self.column_drawn(
                entries::row_views(rows@),
                list,
                focused,
                area,
                text::optional(*document),
                column,
            ),
    {
        let ghost all = entries::row_views(rows@);
        let mut lines: Vec<(Option<Mark>, LinePaint)> = Vec::new();
        while lines.len() < list.page && list.scroll < rows.len() && lines.len() < rows.len()
            - list.scroll
            invariant
                all == entries::row_views(rows@),
                lines@.len() <= drawn(rows.len() as int, list),
                forall|line: int|
                    0 <= line < lines@.len() ==> self.line_drawn(
                        all,
                        list,
                        focused,
                        area,
                        text::optional(*document),
                        line,
                        #[trigger] lines@[line],
                    ),
            decreases list.page - lines.len(),
        {
            let line = self.draw_line(rows, list, focused, area, document, lines.len());
            lines.push(line);
        }
        ColumnPaint { area, lines }
    }

    /// What is said in place of rows.
    pub open spec fn empty_text(self) -> Option<(Seq<char>, bool)> {
        match self.tab {
            TabKind::Files => None,
            TabKind::Changes => Some(
                match self.changes.answer {
                    None => ("reading git status…"@, false),
                    Some(Ok(_)) => ("no changes"@, false),
                    Some(Err(err)) => (err@, true),
                },
            ),
            TabKind::Commits => match self.commits.message {
                Some(message) => Some((message.text@, message.is_error)),
                None => None,
            },
        }
    }

    fn empty_message(&self) -> (message: Option<Message>)
        ensures
            match message {
                Some(message) => self.empty_text() == Some((message.text@, message.is_error)),
                None => self.empty_text() is None,
            },
    {
        match self.tab {
            TabKind::Files => None,
            TabKind::Changes => Some(self.changes.empty_message()),
            TabKind::Commits => match &self.commits.message {
                Some(message) => Some(
                    Message { text: message.text.clone(), is_error: message.is_error },
                ),
                None => None,
            },
        }
    }

    /// The left half of the area, for the history.
    pub open spec fn left_half(self) -> Rect {
        Rect { width: self.area.width / 2, ..self.area }
    }

    /// The right half of the area, for the files of a commit.
    pub open spec fn right_half(self) -> Rect {
        Rect {
            x: screen::capped(self.area.x + self.area.width / 2) as u16,
            width: (self.area.width - self.area.width / 2) as u16,
            ..self.area
        }
    }

    /// Lays out what is drawn below the strip.
    pub fn body(&self, document: &Option<String>) -> (body: Body)
        ensures
            if self.split() {
                body matches Body::Two { history, files, between } && {
                    &&& self.column_drawn(
                        entries::row_views(self.commits.history.rows@),
                        self.commits.history.list,
                        !self.commits.on_files,
                        self.left_half(),
                        text::optional(*document),
                        history,
                    )
                    &&& self.column_drawn(
                        entries::row_views(self.commits.files->0.rows@),
                        self.commits.files->0.list,
                        self.commits.on_files,
                        self.right_half(),
                        text::optional(*document),
                        files,
                    )
                    &&& between == screen::less_by(self.right_half().x as int, 1)
                }
            } else if self.rows().len() == 0 {
                match self.empty_text() {
                    None => body is Nothing,
                    Some(text) => body matches Body::Message { x, y, width, message } && {
                        &&& x == screen::capped(self.area.x + 1)
                        &&& y == screen::capped(self.area.y + 1)
                        &&& width == screen::less_by(
                            screen::less_by(self.area.width as int, 1),
                            1,
                        )
                        &&& (message.text@, message.is_error) == text
                    },
                }
            } else {
                body matches Body::One(column) && self.column_drawn(
                    self.rows(),
                    self.list(),
                    true,
                    self.area,
                    text::optional(*document),
                    column,
                )
            },
    {
        if self.tab == TabKind::Commits {
            if let Some(beside) = &self.commits.files {
                let half = self.area.width / 2;
                let middle = sum(self.area.x, half);
                let left = Rect {
                    x: self.area.x,
                    y: self.area.y,
                    width: half,
                    height: self.area.height,
                };
                let right = Rect {
                    x: middle,
                    y: self.area.y,
                    width: self.area.width - half,
                    height: self.area.height,
                };
                let on_files = self.commits.on_files;
                let held = &self.commits.history;
                let history = self.draw_column(&held.rows, held.list, !on_files, left, document);
                let files = self.draw_column(
                    &beside.rows,
                    beside.list,
                    on_files,
                    right,
                    document,
                );
                return Body::Two { history, files, between: rest(middle, 1) };
            }
        }
        let rows = self.active_rows();
        assert(self.rows().len() == rows.len());
        if rows.len() == 0 {
            return match self.empty_message() {
                None => Body::Nothing,
                Some(message) => Body::Message {
                    x: sum(self.area.x, 1),
                    y: sum(self.area.y, 1),
                    width: rest(rest(self.area.width, 1), 1),
                    message,
                },
            };
        }
        let list = self.active_list();
        Body::One(self.draw_column(rows, list, true, self.area, document))
    }
}

// ---- The menu ----

/// What an entry of the menu does.
pub enum MenuAction {
    New(PromptTarget),
    Rename(PromptTarget),
    Delete(PromptTarget),
    Copy(Option<String>),
}

/// Whether two targets are the same place.
pub open spec fn one_target(a: PromptTarget, b: PromptTarget) -> bool {
    a.root@ == b.root@ && text::optional(a.path) == text::optional(b.path) && a.is_dir == b.is_dir
}

/// What can be done to the row the pointer is on. Every one of them has a key as well —
/// the menu is the other way in, never the only one.
pub fn open_menu(row: u16, column: u16, target: &PromptTarget) -> (menu: ContextMenu<MenuAction>)
    ensures
        menu.at == (row, column),
        menu.focused == 0,
        menu.entries@.len() == 4,
        menu.entries@[0].label@ == "New file or folder"@,
        menu.entries@[0].key@ == "Ctrl-n"@,
        menu.entries@[0].action matches MenuAction::New(held) && one_target(held, *target),
        menu.entries@[1].label@ == "Rename"@,
        menu.entries@[1].key@ == "F2"@,
        menu.entries@[1].action matches MenuAction::Rename(held) && one_target(held, *target),
        menu.entries@[2].label@ == "Delete"@,
        menu.entries@[2].key@ == "Del"@,
        menu.entries@[2].action matches MenuAction::Delete(held) && one_target(held, *target),
        menu.entries@[3].label@ == "Copy the path"@,
        menu.entries@[3].key@ == ""@,
        menu.entries@[3].action matches MenuAction::Copy(path) && text::optional(path)
            == text::optional(target.path),
{
    let mut list: Vec<MenuEntry<MenuAction>> = Vec::new();
    list.push(MenuEntry::new("New file or folder", "Ctrl-n", MenuAction::New(target.clone())));
    list.push(MenuEntry::new("Rename", "F2", MenuAction::Rename(target.clone())));
    list.push(MenuEntry::new("Delete", "Del", MenuAction::Delete(target.clone())));
    list.push(
        MenuEntry::new("Copy the path", "", MenuAction::Copy(copy_optional(&target.path))),
    );
    ContextMenu::new((row, column), list)
}

/// The last row before `n` that is less deep.
fn last_above(rows: &Vec<Row>, n: usize, depth: usize) -> (found: Option<usize>)
    requires
        n <= rows.len(),
    ensures
        match found {
            Some(at) => file_tree::parent_row(
                entries::row_views(rows@),
                n as int,
                depth as int,
            ) == Some(at as int),
            None => file_tree::parent_row(
                entries::row_views(rows@),
                n as int,
                depth as int,
            ) is None,
        },
{
    let ghost all = entries::row_views(rows@);
    let mut i = n;
    while i > 0
        invariant
            i <= n <= rows.len(),
            all == entries::row_views(rows@),
            file_tree::parent_row(all, n as int, depth as int) == file_tree::parent_row(
                all,
                i as int,
                depth as int,
            ),
        decreases i,
    {
        assert(all[i - 1] == rows@[i - 1]@);
        if rows[i - 1].depth() < depth {
            return Some(i - 1);
        }
        i -= 1;
    }
    None
}

/// However the separator is dragged, the sidebar keeps its least width, give or take the column
/// that two halves leave over, and leaves the editor its room where there is that much.
pub proof fn law_dragging_leaves_room(sidebar: Sidebar, column: u16, editor_width: u16)
    ensures
        ({
            let one = sidebar.dragged(column, editor_width);
            let shown = if sidebar.split() {
                one * 2
            } else {
                one
            };
            &&& MIN_WIDTH <= shown + 1
            &&& !sidebar.split() ==> MIN_WIDTH <= shown
            &&& sidebar.area.width + editor_width >= MIN_WIDTH + EDITOR_ROOM ==> shown + EDITOR_ROOM
                <= sidebar.area.width + editor_width
        }),
{
}

// ---- What the keys and the mouse do ----

/// Where the cursor goes by so many rows: no further than the first and the last.
pub open spec fn stepped(cursor: int, by: int, len: int) -> int {
    if cursor + by < 0 {
        0
    } else if cursor + by >= len {
        len - 1
    } else {
        cursor + by
    }
}

proof fn lemma_moved(sidebar: Sidebar, at: (int, int), next: Sidebar)
    requires
        sidebar.moved(at, next),
    ensures
        next.rows() == sidebar.rows(),
        next.tab == sidebar.tab,
        next.list().cursor == at.0,
        next.list().scroll == at.1,
        next.list().len == sidebar.list().len,
        next.list().page == sidebar.list().page,
        next.folds() == sidebar.folds(),
{
}

/// The keys that move the cursor move it by a row, a screen or half a screen, or to an end, no
/// further than there are rows, which stay as they are.
pub proof fn law_keys_move_the_cursor(
    sidebar: Sidebar,
    key: KeyEvent,
    now: u64,
    narrowed: Seq<entries::RowView>,
    next: Sidebar,
    act: Act,
)
    requires
        sidebar.keyed(key, now, narrowed, next, act),
        sidebar.list().cursor < sidebar.list().len,
    ensures
        ({
            let cursor = sidebar.list().cursor as int;
            let page = sidebar.list().page as int;
            let len = sidebar.list().len as int;
            let half = if page < 2 {
                1
            } else {
                page / 2
            };
            let ctrl = key.modifiers.control && !key.modifiers.shift && !key.modifiers.alt
                && !key.modifiers.command;
            let by: Option<int> = match key.code {
                KeyCode::Down => Some(1),
                KeyCode::Up => Some(-1),
                KeyCode::PageDown => Some(page),
                KeyCode::PageUp => Some(-page),
                KeyCode::Home => Some(-len),
                KeyCode::End => Some(len),
                KeyCode::Char('d') if ctrl => Some(half),
                KeyCode::Char('u') if ctrl => Some(-half),
                _ => None,
            };
            by matches Some(by) ==> {
                &&& act is Nothing
                &&& next.rows() == sidebar.rows()
                &&& next.tab == sidebar.tab
                &&& next.list().cursor == stepped(cursor, by, len)
            }
        }),
{
    let cursor = sidebar.list().cursor as int;
    let page = sidebar.list().page as int;
    let half = screen::most(page / 2, 1);
    match key.code {
        KeyCode::Down => lemma_moved(sidebar, sidebar.placed(cursor + 1), next),
        KeyCode::Up => lemma_moved(sidebar, sidebar.placed(screen::most(cursor - 1, 0)), next),
        KeyCode::PageDown => lemma_moved(sidebar, sidebar.placed(cursor + page), next),
        KeyCode::PageUp => lemma_moved(
            sidebar,
            sidebar.placed(screen::less_by(cursor, page)),
            next,
        ),
        KeyCode::Home => lemma_moved(sidebar, sidebar.placed(0), next),
        KeyCode::End => lemma_moved(
            sidebar,
            sidebar.placed(screen::less_by(sidebar.list().len as int, 1)),
            next,
        ),
        KeyCode::Char(c) => {
            if key.modifiers.only_control() && c == 'd' {
                lemma_moved(sidebar, sidebar.placed(cursor + half), next);
            } else if key.modifiers.only_control() && c == 'u' {
                lemma_moved(sidebar, sidebar.placed(screen::most(cursor - half, 0)), next);
            }
        },
        _ => {},
    }
}

/// Walking by name goes to the first row after the cursor that starts with what was typed,
/// round the end, the cursor's own last of all; nowhere when no row does.
pub proof fn law_the_next_row_of_a_name_is_found(
    rows: Seq<entries::RowView>,
    from: int,
    typed: Seq<char>,
    step: int,
)
    requires
        0 <= from,
        1 <= step <= rows.len() + 1,
    ensures
        match next_typed(rows, from, typed, step) {
            Some(at) => exists|d: int|
                {
                    &&& step <= d <= rows.len()
                    &&& at == #[trigger] row_after(rows, from, d)
                    &&& starts(rows[at], typed)
                    &&& forall|k: int|
                        step <= k < d ==> !starts(rows[#[trigger] row_after(rows, from, k)], typed)
                },
            None => forall|k: int|
                step <= k <= rows.len() ==> !starts(
                    rows[#[trigger] row_after(rows, from, k)],
                    typed,
                ),
        },
    decreases rows.len() - step + 1,
{
    if step <= rows.len() {
        let here = row_after(rows, from, step);
        if !starts(rows[here], typed) {
            law_the_next_row_of_a_name_is_found(rows, from, typed, step + 1);
            if let Some(at) = next_typed(rows, from, typed, step) {
                let d = choose|d: int|
                    {
                        &&& step + 1 <= d <= rows.len()
                        &&& at == #[trigger] row_after(rows, from, d)
                        &&& starts(rows[at], typed)
                        &&& forall|k: int|
                            step + 1 <= k < d ==> !starts(
                                rows[#[trigger] row_after(rows, from, k)],
                                typed,
                            )
                    };
                assert(at == row_after(rows, from, d));
                assert forall|k: int| step <= k < d implies !starts(
                    rows[#[trigger] row_after(rows, from, k)],
                    typed,
                ) by {
                    if k == step {
                        assert(row_after(rows, from, k) == here);
                    }
                }
            }
        } else {
            assert(next_typed(rows, from, typed, step) == Some(here));
        }
    }
}

/// The row so many after another, round the end.
pub open spec fn row_after(rows: Seq<entries::RowView>, from: int, by: int) -> int {
    (from + by) % (rows.len() as int)
}

/// Letters typed less than 800 ms apart are one name; after a pause a new one starts.
pub proof fn law_a_pause_starts_a_new_name(sidebar: Sidebar, c: char, now: u64)
    ensures
        sidebar.typed.1 matches Some(at) ==> sidebar.typing(c, now) == if now - at < 800 {
            sidebar.typed.0@ + seq![c]
        } else {
            seq![c]
        },
        sidebar.typed.1 is None ==> sidebar.typing(c, now) == seq![c],
{
    assert(sidebar.typed.0@.push(c) =~= sidebar.typed.0@ + seq![c]);
}

proof fn lemma_refolded_one(
    sidebar: Sidebar,
    dir: Seq<char>,
    open: bool,
    narrowed: Seq<entries::RowView>,
    next: Sidebar,
    act: Act,
    other: Seq<char>,
)
    requires
        sidebar.refolded(Sidebar::fold_one(dir, open), narrowed, next, act),
        sidebar.folds() is Some,
    ensures
        next.tab == sidebar.tab,
        next.opens(dir) == open,
        !path::equal(dir, other) ==> next.opens(other) == sidebar.opens(other),
{
    entries::law_setting_a_fold_sets_that_one(sidebar.folds()->0, dir, open, other);
    match sidebar.tab {
        TabKind::Files => {
            let (folded, asked) = choose|folded: FilesTab, asked: Seq<Seq<char>>|
                {
                    &&& folded.folds@ == Sidebar::fold_one(dir, open)(sidebar.files.folds@)
                    &&& folded == (FilesTab { folds: folded.folds, ..sidebar.files })
                    &&& #[trigger] folded.rebuilt(narrowed, next.files, asked)
                    &&& act matches Act::Read(read) && text::views(read@) == asked
                    &&& next == (Sidebar { files: next.files, ..sidebar })
                };
            assert(next.files.folds == folded.folds);
        },
        TabKind::Changes => {
            let folded = choose|folded: ChangesTab|
                {
                    &&& folded.folds@ == Sidebar::fold_one(dir, open)(sidebar.changes.folds@)
                    &&& folded == (ChangesTab { folds: folded.folds, ..sidebar.changes })
                    &&& #[trigger] folded.rebuilt(next.changes)
                    &&& act is Nothing
                    &&& next == (Sidebar { changes: next.changes, ..sidebar })
                };
            assert(next.changes.folds == folded.folds);
        },
        TabKind::Commits => {},
    }
}

/// Toggling opens the directory under the cursor when it is closed and closes it when it is
/// open, and no other; opening leaves an open one as it is.
pub proof fn law_toggling_turns_the_directory_under_the_cursor(
    sidebar: Sidebar,
    narrowed: Seq<entries::RowView>,
    next: Sidebar,
    act: Act,
    other: Seq<char>,
)
    requires
        sidebar.folds() is Some,
        sidebar.dir_under() is Some,
    ensures
        ({
            let dir = sidebar.rows()[sidebar.list().cursor as int].path()->0;
            &&& sidebar.toggled(narrowed, next, act) ==> next.opens(dir) == !sidebar.opens(dir) && (
            !path::equal(dir, other) ==> next.opens(other) == sidebar.opens(other))
            &&& sidebar.unfolded(narrowed, next, act) ==> next.opens(dir) && (!path::equal(
                dir,
                other,
            ) ==> next.opens(other) == sidebar.opens(other))
            &&& sidebar.unfolded(narrowed, next, act) && sidebar.opens(dir) ==> next == sidebar
        }),
{
    let dir = sidebar.dir_under()->0;
    if sidebar.toggled(narrowed, next, act) {
        lemma_refolded_one(sidebar, dir, !sidebar.opens(dir), narrowed, next, act, other);
    }
    if sidebar.unfolded(narrowed, next, act) && !sidebar.opens(dir) {
        lemma_refolded_one(sidebar, dir, true, narrowed, next, act, other);
    }
}

/// Stepping back from a row closes an open directory; from any other row that is in one the
/// cursor goes to that one's row, the nearest above that is less deep, and nothing is folded.
pub proof fn law_stepping_back_closes_or_goes_up(
    sidebar: Sidebar,
    narrowed: Seq<entries::RowView>,
    next: Sidebar,
    act: Act,
)
    requires
        sidebar.collapsed_or_up(narrowed, next, act),
        sidebar.folds() is Some,
        sidebar.list().len == sidebar.rows().len(),
        sidebar.list().cursor < sidebar.rows().len(),
    ensures
        ({
            let rows = sidebar.rows();
            let cursor = sidebar.list().cursor as int;
            let row = rows[cursor];
            let on_open = row.dir() matches Some(dir) && sidebar.opens(dir);
            &&& on_open ==> !next.opens(row.dir()->0)
            &&& !on_open ==> next.rows() == rows && next.folds() == sidebar.folds() && act is Nothing
            &&& !on_open && row.depth() == 0 ==> next == sidebar
            &&& !on_open && row.depth() > 0 && (exists|i: int|
                0 <= i < cursor && (#[trigger] rows[i]).depth() < row.depth()) ==> {
                let at = next.list().cursor as int;
                &&& at < cursor
                &&& rows[at].depth() < row.depth()
                &&& forall|i: int|
                    at < i < cursor ==> (#[trigger] rows[i]).depth() >= row.depth()
            }
        }),
{
    let rows = sidebar.rows();
    let cursor = sidebar.list().cursor as int;
    let row = rows[cursor];
    let on_open = row.dir() matches Some(dir) && sidebar.opens(dir);
    if on_open {
        lemma_refolded_one(sidebar, row.dir()->0, false, narrowed, next, act, Seq::empty());
    } else {
        file_tree::law_the_row_above_is_the_nearest(rows, cursor, row.depth());
        if let Some(parent) = file_tree::parent_row(rows, cursor, row.depth()) {
            if row.depth() != 0 {
                lemma_moved(sidebar, sidebar.placed(parent), next);
            }
        }
    }
}

/// A press of the left button on the line of a row puts the cursor on that row: the one so many
/// below the first on screen as the line is below the strip. The sidebar has the focus. A file
/// pressed on is opened.
pub proof fn law_a_press_lands_on_its_row(
    sidebar: Sidebar,
    event: MouseEvent,
    now: u64,
    narrowed: Seq<entries::RowView>,
    next: Sidebar,
    act: Act,
    moved: bool,
    line: int,
)
    requires
        sidebar.clicked(event, now, narrowed, next, act, moved),
        sidebar.list().len == sidebar.rows().len(),
        0 <= line,
        event.row == sidebar.area.y + 1 + line,
        sidebar.list().scroll + line < sidebar.rows().len(),
        sidebar.rows()[sidebar.list().scroll + line].dir() is None,
    ensures
        next.focused,
        next.tab == sidebar.tab,
        next.list().cursor == sidebar.list().scroll + line,
        moved == (sidebar.list().cursor != sidebar.list().scroll + line),
        sidebar.tab == TabKind::Files && sidebar.rows()[sidebar.list().scroll + line].path()
            is Some ==> (act matches Act::OpenFile(file) && file@
            == sidebar.rows()[sidebar.list().scroll + line].path()->0),
        sidebar.tab == TabKind::Commits ==> act == Act::OpenCommits(
            if sidebar.last_click matches Some(last) && last.0 == sidebar.list().scroll + line && now
                - last.1 < 500 {
                Activation::Enter
            } else {
                Activation::Click
            },
        ),
{
    let at = Sidebar { focused: true, ..sidebar };
    let index = sidebar.list().scroll + line;
    let double = sidebar.doubles(index, now);
    let pressed = Sidebar {
        last_click: if double {
            None
        } else {
            Some((index as usize, now))
        },
        ..at
    };
    assert(pressed.rows() == sidebar.rows() && pressed.list() == sidebar.list());
    let on = choose|on: Sidebar|
        {
            &&& pressed.moved(pressed.placed(index), on)
            &&& #[trigger] on.opened_row(activation(double), narrowed, next, act)
        };
    lemma_moved(pressed, pressed.placed(index), on);
    assert(on.focused);
    assert(on.dir_under() is None);
}

/// A press past the last row, or on the strip beside the labels, does nothing but take the
/// focus; on a label it switches to that tab.
pub proof fn law_a_press_beside_the_rows_does_nothing(
    sidebar: Sidebar,
    event: MouseEvent,
    now: u64,
    narrowed: Seq<entries::RowView>,
    next: Sidebar,
    act: Act,
    moved: bool,
)
    requires
        sidebar.clicked(event, now, narrowed, next, act, moved),
    ensures
        event.row > sidebar.area.y && sidebar.list().scroll + (event.row - sidebar.area.y) - 1
            >= sidebar.list().len ==> act is Nothing && !moved && next == (Sidebar {
            focused: true,
            ..sidebar
        }),
        ({
            let (files, changes, commits) = sidebar.tab_columns;
            let column = event.column;
            &&& event.row == sidebar.area.y && !(files.0 <= column < files.1) && !(changes.0
                <= column < changes.1) && !(commits.0 <= column < commits.1) ==> act is Nothing
                && next == (Sidebar { focused: true, ..sidebar })
            &&& event.row == sidebar.area.y && files.0 <= column < files.1 ==> next.tab
                == TabKind::Files
            &&& event.row == sidebar.area.y && !(files.0 <= column < files.1) && changes.0 <= column
                < changes.1 ==> next.tab == TabKind::Changes
            &&& event.row == sidebar.area.y && !(files.0 <= column < files.1) && !(changes.0
                <= column < changes.1) && commits.0 <= column < commits.1 ==> next.tab
                == TabKind::Commits
        }),
{
}

/// The two columns of the history lie side by side and cover the area; the mouse is in the one
/// it points at.
pub proof fn law_the_columns_share_the_area(sidebar: Sidebar, event: MouseEvent)
    requires
        sidebar.area.x + sidebar.area.width <= 0xffff,
        sidebar.area.y + sidebar.area.height <= 0xffff,
    ensures
        ({
            let left = sidebar.left_half();
            let right = sidebar.right_half();
            &&& left.x == sidebar.area.x
            &&& left.x + left.width == right.x
            &&& right.x + right.width == sidebar.area.x + sidebar.area.width
            &&& left.width <= right.width <= left.width + 1
            &&& left.y == sidebar.area.y && right.y == sidebar.area.y
            &&& left.height == sidebar.area.height && right.height == sidebar.area.height
            &&& sidebar.split() && event.row > sidebar.area.y && sidebar.area.covers(
                event.row,
                event.column,
            ) ==> sidebar.pointed(event).commits.on_files == right.covers(event.row, event.column)
        }),
{
}

/// Only the row under the cursor is marked, as focused only where the keys are; each row is on
/// a line of its own, in order, below the strip.
pub proof fn law_only_the_row_under_the_cursor_is_marked(
    sidebar: Sidebar,
    row: entries::RowView,
    list: List,
    focused: bool,
    area: Rect,
    document: Option<Seq<char>>,
    line: int,
)
    requires
        0 <= line,
        area.y + 1 + line < 0xffff,
        area.width > 0,
    ensures
        ({
            let paint = sidebar.row_paint(row, list, focused, area, document, line);
            &&& paint.line.x == area.x && paint.line.y == area.y + 1 + line
            &&& paint.line.width == area.width - 1 && paint.line.height == 1
            &&& list.scroll + line != list.cursor ==> paint.selected is None
            &&& list.scroll + line == list.cursor && sidebar.focused ==> paint.selected == Some(
                if focused {
                    Mark::Focused
                } else {
                    Mark::Dimmed
                },
            )
            &&& list.scroll + line == list.cursor && !sidebar.focused ==> paint.selected
                == if sidebar.split() {
                Some(Mark::Dimmed)
            } else {
                None
            }
            &&& paint.current == (document is Some && row.path() is Some && path::equal(
                row.path()->0,
                document->0,
            ))
        }),
{
}

/// The rows drawn are those from the first on screen on, as many as there are and as fit.
pub proof fn law_as_many_rows_are_drawn_as_fit(rows: int, list: List)
    requires
        0 <= list.scroll <= rows,
    ensures
        drawn(rows, list) <= list.page,
        list.scroll + drawn(rows, list) <= rows,
        drawn(rows, list) < list.page ==> list.scroll + drawn(rows, list) == rows,
{
}

/// The separator goes where it is dragged to, as long as that leaves both sides their room.
pub proof fn law_the_separator_follows_the_mouse(
    sidebar: Sidebar,
    column: u16,
    editor_width: u16,
)
    requires
        sidebar.area.width + editor_width < 0xffff,
        sidebar.area.x <= column,
        12 <= column - sidebar.area.x + 1,
        column - sidebar.area.x + 1 + 20 <= sidebar.area.width + editor_width,
    ensures
        ({
            let width = sidebar.dragged(column, editor_width);
            &&& !sidebar.split() ==> sidebar.area.x + width == column + 1
            &&& sidebar.split() ==> sidebar.area.x + 2 * width <= column + 1 <= sidebar.area.x + 2
                * width + 1
        }),
{
}

/// The menu of a press of the right button is of the row it lands on, which has the cursor.
pub proof fn law_the_menu_is_of_the_row_pressed_on(
    sidebar: Sidebar,
    event: MouseEvent,
    next: Sidebar,
    act: Act,
    moved: bool,
    line: int,
)
    requires
        sidebar.offered(event, next, act, moved),
        sidebar.list().len == sidebar.rows().len(),
        0 <= line,
        event.row == sidebar.area.y + 1 + line,
        sidebar.list().scroll + line < sidebar.rows().len(),
    ensures
        moved,
        next.list().cursor == sidebar.list().scroll + line,
        ({
            let pressed = sidebar.rows()[sidebar.list().scroll + line];
            act matches Act::Menu { row, column, target } && row == event.row && column
                == event.column && text::optional(target.path) == pressed.path() && target.is_dir
                == (pressed.dir() is Some) && target.root@ == sidebar.root@
        }),
{
    let at = Sidebar { focused: true, ..sidebar };
    assert(at.rows() == sidebar.rows() && at.list() == sidebar.list());
    lemma_moved(at, at.placed(sidebar.list().scroll + line), next);
    assert(next.root == sidebar.root);
}

/// A letter typed walks the cursor to a row that starts with what was typed, if there is one;
/// else it stays.
pub proof fn law_typing_walks_to_a_name(sidebar: Sidebar, c: char, now: u64, next: Sidebar, i: int)
    requires
        sidebar.jumped(c, now, next),
        sidebar.list().len == sidebar.rows().len(),
        sidebar.list().cursor < sidebar.rows().len(),
    ensures
        next.rows() == sidebar.rows(),
        next.typed.0@ == sidebar.typing(c, now),
        0 <= i < sidebar.rows().len() && starts(sidebar.rows()[i], sidebar.typing(c, now))
            ==> starts(next.rows()[next.list().cursor as int], sidebar.typing(c, now)),
        (forall|j: int|
            0 <= j < sidebar.rows().len() ==> !starts(
                #[trigger] sidebar.rows()[j],
                sidebar.typing(c, now),
            )) ==> next.list() == sidebar.list(),
{
    let rows = sidebar.rows();
    let n = rows.len() as int;
    let cursor = sidebar.list().cursor as int;
    let typed = sidebar.typing(c, now);
    let found = next_typed(rows, cursor, typed, 1);
    let noted = choose|noted: Sidebar|
        {
            &&& noted.typed.0@ == sidebar.typing(c, now)
            &&& noted.typed.1 == Some(now)
            &&& noted == (Sidebar { typed: noted.typed, ..sidebar })
            &&& #[trigger] noted.walked_to(
                next_typed(sidebar.rows(), sidebar.list().cursor as int, sidebar.typing(c, now), 1),
                next,
            )
        };
    assert(noted.rows() == rows && noted.list() == sidebar.list());
    law_the_next_row_of_a_name_is_found(rows, cursor, typed, 1);
    match found {
        Some(at) => {
            let d = choose|d: int|
                {
                    &&& 1 <= d <= rows.len()
                    &&& at == #[trigger] row_after(rows, cursor, d)
                    &&& starts(rows[at], typed)
                    &&& forall|k: int|
                        1 <= k < d ==> !starts(rows[#[trigger] row_after(rows, cursor, k)], typed)
                };
            vstd::arithmetic::div_mod::lemma_mod_bound(cursor + d, n);
            lemma_moved(noted, noted.placed(at), next);
            assert(rows[at] == sidebar.rows()[at]);
        },
        None => {
            if 0 <= i < n && starts(rows[i], typed) {
                let k = if i > cursor {
                    i - cursor
                } else {
                    i - cursor + n
                };
                assert((cursor + k) % n == i) by {
                    if i > cursor {
                        vstd::arithmetic::div_mod::lemma_small_mod(i as nat, n as nat);
                    } else {
                        vstd::arithmetic::div_mod::lemma_mod_add_multiples_vanish(i, n);
                        vstd::arithmetic::div_mod::lemma_small_mod(i as nat, n as nat);
                    }
                }
                assert(row_after(rows, cursor, k) == i);
            }
        },
    }
}

/// The sidebar is moved onto a file once: not again while the same one is edited.
pub proof fn law_a_file_is_followed_once(
    sidebar: Sidebar,
    document: Option<Seq<char>>,
    narrowed: Seq<entries::RowView>,
    next: Sidebar,
    act: Act,
    again: Sidebar,
    then: Act,
)
    requires
        sidebar.followed(document, narrowed, next, act),
        next.followed(document, narrowed, again, then),
    ensures
        again == next,
        then is Nothing,
        document is None ==> next == sidebar && act is Nothing,
        sidebar.tab == TabKind::Changes && sidebar.elsewhere(document) ==> sidebar.changes.moved_onto(
            document->0,
            next.changes,
        ),
{
}

/// About to be drawn, the list of the tab on screen has room for all lines but the strip's, one
/// at least, and its cursor is on screen.
pub proof fn law_the_rows_fit_below_the_strip(sidebar: Sidebar, area: Rect, next: Sidebar)
    requires
        sidebar.readied(area, next),
        sidebar.list().cursor < sidebar.list().len,
    ensures
        next.area == area,
        next.tab == sidebar.tab,
        next.list().len == sidebar.list().len,
        next.list().page == if area.height < 2 {
            1
        } else {
            area.height - 1
        },
        next.list().cursor == sidebar.list().cursor,
        next.list().scroll <= next.list().cursor < next.list().scroll + next.list().page,
{
}

/// Another tab is put on screen by asking for it; asked for again, only the history steps back.
pub proof fn law_switching_puts_the_tab_on_screen(
    sidebar: Sidebar,
    kind: TabKind,
    narrowed: Seq<entries::RowView>,
    next: Sidebar,
    act: Act,
)
    requires
        sidebar.switched(kind, narrowed, next, act),
    ensures
        next.tab == kind,
        sidebar.tab != kind ==> next.built && next.revealed is None,
        sidebar.tab == kind ==> next == sidebar,
        sidebar.tab == kind && kind == TabKind::Commits ==> act == (Act::StepBack { leave: false }),
        sidebar.tab == kind && kind != TabKind::Commits ==> act is Nothing,
{
}

/// Creating, renaming and deleting are not for the history; in the other tabs they are asked of
/// the row under the cursor. Escape gives the keys back to the editor.
pub proof fn law_the_disk_is_edited_from_its_tabs(
    sidebar: Sidebar,
    key: KeyEvent,
    now: u64,
    narrowed: Seq<entries::RowView>,
    next: Sidebar,
    act: Act,
)
    requires
        sidebar.keyed(key, now, narrowed, next, act),
        sidebar.list().cursor < sidebar.rows().len(),
    ensures
        ({
            let row = sidebar.rows()[sidebar.list().cursor as int];
            let held = key.modifiers;
            let ctrl = held.control && !held.shift && !held.alt && !held.command;
            let on_disk = sidebar.tab != TabKind::Commits;
            &&& !on_disk ==> !(act is PromptNew) && !(act is PromptRename) && !(act is PromptDelete)
            &&& on_disk && key.code == KeyCode::F(2) ==> (act matches Act::PromptRename(target)
                && text::optional(target.path) == row.path() && target.root@ == sidebar.root@)
            &&& on_disk && key.code == KeyCode::Delete ==> (act matches Act::PromptDelete(target)
                && text::optional(target.path) == row.path() && target.is_dir == (row.dir() is Some))
            &&& on_disk && ctrl && key.code == KeyCode::Char('n') ==> (act matches Act::PromptNew(
                target,
            ) && text::optional(target.path) == row.path() && target.is_dir == (row.dir() is Some))
            &&& on_disk && key.code == KeyCode::Esc ==> !next.focused && next.tab == sidebar.tab
            &&& !on_disk && key.code == KeyCode::Esc ==> act == (Act::StepBack { leave: true })
        }),
{
}

/// A key held with Control, Alt or Command that is not the sidebar's own is left to the editor;
/// a letter alone never is.
pub proof fn law_shortcuts_are_the_editors(
    sidebar: Sidebar,
    c: char,
    held: screen::Modifiers,
    now: u64,
    narrowed: Seq<entries::RowView>,
    next: Sidebar,
    act: Act,
)
    requires
        sidebar.keyed(KeyEvent { code: KeyCode::Char(c), modifiers: held }, now, narrowed, next, act),
    ensures
        (held.control || held.alt || held.command) && c != 'd' && c != 'u' && c != 'n' ==> act
            is Ignored && next == sidebar,
        !held.control && !held.alt && !held.command ==> act is Nothing && sidebar.jumped(
            c,
            now,
            next,
        ),
{
}

} // verus!
