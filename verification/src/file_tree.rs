//! The file tree: a column with the files on disk, what git sees changed, and the history, down
//! to the files of a commit, whose diffs are shown as the cursor walks over them.
//!
//! The tree reads neither the disk nor git itself. What it lays out of the disk it is handed,
//! and it says which open directories it was not; what git is to be asked it says, and takes
//! the answer when it comes.

use vstd::prelude::*;
use vstd::string::*;

use crate::age::{self, format_age};
use crate::changes::{self, path_under, unable_to_open};
use crate::commands::{self, blame_said};
use crate::diff_view::{self, DiffTarget};
use crate::entries::{
    self, lay_entry, list_changed, list_disk, CommitRow, EntryPaint, Folds, Listing,
    Row, RowPaint,
};
use crate::files::{self, trim_slashes};
use crate::git::{
    self, file_log, log, pathspec, told, Answer, Blame, BlameRequest, Change, ChangedFile, Commit,
    Step,
};
use crate::list::{self, List};
use crate::message::{self, say, say_errors, Message};
use crate::number::{self, to_decimal};
use crate::path::{self, file_name, join, parent, same, strip_prefix};
use crate::screen::{
    self, larger, rest, smaller, sum, KeyCode, KeyEvent, Mark, MouseButton, MouseEvent,
    MouseEventKind, Rect, Scope, Style,
};
use crate::text::{self, chars_of, copy_optional, holds, part, push_word, string_of};

verus! {

/// How often the Changes and Commits tabs ask git again while they are on screen, in
/// milliseconds.
pub const CHANGES_REFRESH: u64 = 2000;

/// How many commits one `git log` reads; the cursor nearing the end reads the next page.
pub const COMMITS_PAGE: usize = 200;

/// The narrowest the separator can be dragged to.
pub const MIN_WIDTH: u16 = 12;

/// The columns the tree always leaves to the editor, however wide it is asked to be.
pub const EDITOR_ROOM: u16 = 20;

#[derive(Clone, Copy, PartialEq, Eq, Structural, Debug)]
pub enum Tab {
    Files,
    Changes,
    Commits,
}

/// Who last changed a line, and in which commit; no commit when the change is not committed.
pub struct Blamed {
    pub path: String,
    pub line: usize,
    pub author: String,
    pub commit: Option<Commit>,
}

pub struct OpenCommit {
    pub commit: Commit,
    /// Where the tree's root sits inside the repository, as git spells it: `""` or `"a/b/"`.
    pub prefix: String,
    pub files: Vec<ChangedFile>,
    /// Its directories start open, like the Changes tab's.
    pub folds: Folds,
    /// Where the history list stood, to put it back on the way out.
    pub list_cursor: usize,
    pub list_scroll: usize,
}

pub struct FileTree {
    pub root: String,
    pub expanded: Folds,
    pub rows: Vec<Row>,
    pub list: List,
    pub open: bool,
    pub focused: bool,
    /// The document the tree last revealed, so a buffer switch is noticed at render time.
    pub revealed: Option<String>,
    pub area: Rect,
    pub tab: Tab,
    /// The Changes tab opens every directory, so what it remembers is the ones closed.
    pub collapsed: Folds,
    /// What the last `git status` answered: the changed paths, or why it could not say.
    pub changes: Option<Answer<Vec<ChangedFile>>>,
    /// Whether a `git status` is running.
    pub pending: bool,
    pub queried_at: Option<u64>,
    /// The history the Commits tab lists, newest first, as far as it has been read.
    pub commits: Option<Answer<Vec<Commit>>>,
    /// Whether the last page of history came back short, so there is nothing older to read.
    pub commits_complete: bool,
    /// Whether a `git log` is running.
    pub commits_pending: bool,
    pub commits_queried_at: Option<u64>,
    /// The file whose history the Commits tab lists in place of the whole repository's.
    pub history_of: Option<String>,
    /// The commit whose files the Commits tab lists in place of the history.
    pub opened: Option<OpenCommit>,
    /// The line blamed last, so blaming it again opens its commit.
    pub blamed: Option<Blamed>,
    /// The scratch buffer the diffs are shown in, reused for as long as it lives.
    pub diff_doc: Option<u64>,
    /// What the diff buffer was last asked to show, so it is asked again only when that moves.
    pub previewed: Option<DiffTarget>,
    /// Whether a `git show` is running.
    pub preview_pending: bool,
    /// Where each tab's label was drawn on the header line, for a click to land on.
    pub tab_columns: ((u16, u16), (u16, u16), (u16, u16)),
    /// The width the separator was dragged to, kept between sessions over the configured one.
    pub width: Option<u16>,
    /// Whether the separator is being dragged, so the mouse is the tree's wherever it goes.
    pub resizing: bool,
    /// Why the remembered width could not be read, said on the first render: at startup the
    /// editor's own messages would cover it.
    pub width_error: Option<String>,
    /// The open directories the last layout was not handed.
    pub missing: Vec<String>,
    /// What is to be said in the status line.
    pub said: Vec<Message>,
}

/// What is to be done next: nothing, the keys go over to the editor, a file is opened, a commit
/// is asked for its files, a name is asked for, a deletion confirmed, or the width kept.
pub enum Turn {
    Stay,
    Leave,
    Open(String),
    Enter(Commit),
    New { line: String },
    Rename { source: String, line: String },
    Delete { target: String, is_dir: bool, question: String },
    Keep(u16),
}

// ---- The rows ----

/// The row of a commit of the history.
pub open spec fn history_row(commit: git::CommitView, index: int) -> entries::RowView {
    entries::RowView::Commit(
        entries::CommitRowView {
            index,
            short: commit.short,
            subject: commit.subject,
            time: commit.time,
            head: false,
        },
    )
}

/// The row of the opened commit, over its files.
pub open spec fn head_row(commit: git::CommitView) -> entries::RowView {
    entries::RowView::Commit(
        entries::CommitRowView {
            index: 0,
            short: commit.short,
            subject: commit.subject,
            time: commit.time,
            head: true,
        },
    )
}

/// The rows of a history.
pub open spec fn history_rows(commits: Seq<git::CommitView>) -> Seq<entries::RowView> {
    commits.map(|index: int, commit: git::CommitView| history_row(commit, index))
}

/// The last row before `n` that is less deep; none when there is none.
pub open spec fn parent_row(rows: Seq<entries::RowView>, n: int, depth: int) -> Option<int>
    decreases n,
{
    if n <= 0 {
        None
    } else if rows[n - 1].depth() < depth {
        Some(n - 1)
    } else {
        parent_row(rows, n - 1, depth)
    }
}

/// The directories among some rows.
pub open spec fn dirs_of(rows: Seq<entries::RowView>) -> Seq<Seq<char>>
    decreases rows.len(),
{
    if rows.len() == 0 {
        Seq::empty()
    } else {
        let before = dirs_of(rows.drop_last());
        match rows.last().dir() {
            Some(dir) => before.push(dir),
            None => before,
        }
    }
}

/// The directories among some rows.
pub fn row_dirs(rows: &Vec<Row>) -> (dirs: Vec<String>)
    ensures
        text::views(dirs@) == dirs_of(entries::row_views(rows@)),
{
    let ghost all = entries::row_views(rows@);
    let mut dirs: Vec<String> = Vec::new();
    assert(text::views(dirs@) =~= Seq::empty());
    for i in 0..rows.len()
        invariant
            all == entries::row_views(rows@),
            text::views(dirs@) == dirs_of(all.take(i as int)),
    {
        assert(all[i as int] == rows@[i as int]@);
        assert(all.take(i + 1).drop_last() =~= all.take(i as int));
        if let Some(dir) = rows[i].dir() {
            push_word(&mut dirs, dir);
        }
    }
    assert(all.take(all.len() as int) =~= all);
    dirs
}

/// The first commit of that hash; the number of commits when there is none.
pub open spec fn first_hash(commits: Seq<git::CommitView>, hash: Seq<char>) -> int
    decreases commits.len(),
{
    if commits.len() == 0 || commits[0].hash == hash {
        0
    } else {
        1 + first_hash(commits.skip(1), hash)
    }
}

fn find_hash(commits: &Vec<Commit>, hash: &str) -> (found: Option<usize>)
    ensures
        match found {
            Some(index) => index < commits.len() && index == first_hash(
                git::commit_views(commits@),
                hash@,
            ),
            None => first_hash(git::commit_views(commits@), hash@) == commits.len(),
        },
{
    let ghost all = git::commit_views(commits@);
    let mut i: usize = 0;
    assert(all.skip(0) =~= all);
    while i < commits.len()
        invariant
            i <= commits.len(),
            all == git::commit_views(commits@),
            first_hash(all, hash@) == i + first_hash(all.skip(i as int), hash@),
        decreases commits.len() - i,
    {
        assert(all.skip(i as int)[0] == commits@[i as int]@);
        assert(all.skip(i as int).skip(1) =~= all.skip(i + 1));
        if text::same(commits[i].hash.as_str(), hash) {
            return Some(i);
        }
        i += 1;
    }
    None
}

/// Whether two answers of `git status` name the same paths changed the same ways.
pub open spec fn one_status(
    a: Result<Seq<git::ChangedFileView>, Seq<char>>,
    b: Result<Seq<git::ChangedFileView>, Seq<char>>,
) -> bool {
    match (a, b) {
        (Ok(a), Ok(b)) => {
            &&& a.len() == b.len()
            &&& forall|i: int|
                0 <= i < a.len() ==> path::equal((#[trigger] a[i]).path, b[i].path)
                    && a[i].change == b[i].change
        },
        (Err(a), Err(b)) => a == b,
        _ => false,
    }
}

fn same_paths(a: &Vec<ChangedFile>, b: &Vec<ChangedFile>) -> (yes: bool)
    ensures
        yes == one_status(
            Ok::<Seq<git::ChangedFileView>, Seq<char>>(git::file_views(a@)),
            Ok::<Seq<git::ChangedFileView>, Seq<char>>(git::file_views(b@)),
        ),
{
    let ghost x = git::file_views(a@);
    let ghost y = git::file_views(b@);
    if a.len() != b.len() {
        return false;
    }
    for i in 0..a.len()
        invariant
            a.len() == b.len(),
            x == git::file_views(a@),
            y == git::file_views(b@),
            forall|j: int|
                0 <= j < i ==> path::equal((#[trigger] x[j]).path, y[j].path) && x[j].change
                    == y[j].change,
    {
        assert(x[i as int] == a@[i as int]@ && y[i as int] == b@[i as int]@);
        if !(same(a[i].path.as_str(), b[i].path.as_str()) && a[i].change == b[i].change) {
            assert(!(path::equal(x[i as int].path, y[i as int].path) && x[i as int].change
                == y[i as int].change));
            return false;
        }
    }
    true
}

fn same_status(a: &Answer<Vec<ChangedFile>>, b: &Answer<Vec<ChangedFile>>) -> (yes: bool)
    ensures
        yes == one_status(git::files_answer(*a), git::files_answer(*b)),
{
    match (a, b) {
        (Ok(first), Ok(second)) => same_paths(first, second),
        (Err(first), Err(second)) => text::same(first.as_str(), second.as_str()),
        _ => false,
    }
}

/// Whether something last done at `at` was so long ago that it is to be done again; what was
/// never done is.
pub open spec fn is_stale(at: Option<u64>, now: u64) -> bool {
    match at {
        Some(at) => now - at >= CHANGES_REFRESH,
        None => true,
    }
}

fn stale(at: Option<u64>, now: u64) -> (yes: bool)
    ensures
        yes == is_stale(at, now),
{
    match at {
        Some(at) => now >= at && now - at >= CHANGES_REFRESH,
        None => true,
    }
}

/// Whether a row of the tree goes by a path; the row of a commit goes by the empty one.
pub open spec fn is_on(row: entries::RowView, path: Seq<char>) -> bool {
    match row {
        entries::RowView::Entry(entry) => path::equal(entry.path, path),
        entries::RowView::Commit(_) => path.len() == 0,
    }
}

/// The first row that goes by a path; the number of rows when there is none.
pub open spec fn first_on(rows: Seq<entries::RowView>, path: Seq<char>) -> int
    decreases rows.len(),
{
    if rows.len() == 0 || is_on(rows[0], path) {
        0
    } else {
        1 + first_on(rows.skip(1), path)
    }
}

/// The first row that goes by a path.
pub fn find_on(rows: &Vec<Row>, path: &str) -> (found: Option<usize>)
    ensures
        match found {
            Some(index) => index < rows.len() && index == first_on(
                entries::row_views(rows@),
                path@,
            ),
            None => first_on(entries::row_views(rows@), path@) == rows.len(),
        },
{
    let ghost all = entries::row_views(rows@);
    let nameless = chars_of(path).len() == 0;
    let mut i: usize = 0;
    assert(all.skip(0) =~= all);
    while i < rows.len()
        invariant
            i <= rows.len(),
            all == entries::row_views(rows@),
            nameless == (path@.len() == 0),
            first_on(all, path@) == i + first_on(all.skip(i as int), path@),
        decreases rows.len() - i,
    {
        assert(all.skip(i as int)[0] == rows@[i as int]@);
        assert(all.skip(i as int).skip(1) =~= all.skip(i + 1));
        let on = match &rows[i] {
            Row::Entry(entry) => same(entry.path.as_str(), path),
            Row::Commit(_) => nameless,
        };
        if on {
            return Some(i);
        }
        i += 1;
    }
    None
}

/// What came of something asked for in the background: nothing yet, nothing ever, or an answer.
pub enum Arrival<T> {
    Waiting,
    Stopped,
    Came(T),
}

impl FileTree {
    /// The rows of the tree over what the disk holds.
    pub open spec fn laid(self, disk: Seq<entries::ListingView>) -> entries::Laid {
        match self.tab {
            Tab::Files => entries::dir_laid(disk, self.root@, 0, self.expanded@, -1),
            Tab::Changes => entries::Laid { rows: self.changes_rows(), ..entries::laid_none() },
            Tab::Commits => entries::Laid { rows: self.commits_rows(), ..entries::laid_none() },
        }
    }

    /// The rows of the Changes tab: only what `git status` names, and the directories that
    /// hold it.
    pub open spec fn changes_rows(self) -> Seq<entries::RowView> {
        match self.changes {
            Some(Ok(files)) => entries::change_rows(
                entries::change_tree(self.root@, git::file_views(files@)),
                self.root@,
                0,
                self.collapsed@,
            ),
            _ => Seq::empty(),
        }
    }

    /// The rows of the Commits tab: the history, or, inside a commit, the commit itself and
    /// the files it touched.
    pub open spec fn commits_rows(self) -> Seq<entries::RowView> {
        match self.opened {
            Some(opened) => seq![head_row(opened.commit@)] + entries::change_rows(
                entries::change_tree(self.root@, git::file_views(opened.files@)),
                self.root@,
                0,
                opened.folds@,
            ),
            None => match self.commits {
                Some(Ok(commits)) => history_rows(git::commit_views(commits@)),
                _ => Seq::empty(),
            },
        }
    }

    /// The rows as they are.
    pub open spec fn shown(self) -> Seq<entries::RowView> {
        entries::row_views(self.rows@)
    }

    /// Where the cursor goes over new rows: onto the path, when it is among them.
    pub open spec fn onto(self, rows: Seq<entries::RowView>, path: Option<Seq<char>>) -> int {
        match path {
            Some(path) if first_on(rows, path) < rows.len() => first_on(rows, path),
            _ => self.list.cursor as int,
        }
    }

    /// Whether `next` is this tree laid out again, the cursor back on the path it was on.
    pub open spec fn rebuilt(self, disk: Seq<entries::ListingView>, next: FileTree) -> bool {
        let laid = self.laid(disk);
        let cursor = self.onto(laid.rows, changes::cursor_path(self.shown(), self.list));
        &&& next.shown() == laid.rows
        &&& text::views(next.missing@) == laid.missing
        &&& message::said(next.said@) == message::said(self.said@) + message::errors(laid.errors)
        &&& next.list.stands(
            laid.rows.len() as int,
            self.list.page as int,
            list::settled(
                laid.rows.len() as int,
                self.list.page as int,
                cursor,
                self.list.scroll as int,
            ),
        )
        &&& next == (FileTree {
            rows: next.rows,
            missing: next.missing,
            said: next.said,
            list: next.list,
            ..self
        })
    }

    /// Whether a directory of the tab is open.
    pub open spec fn opens(self, path: Seq<char>) -> bool {
        match self.tab {
            Tab::Files => self.expanded@.opens(path),
            Tab::Changes => self.collapsed@.opens(path),
            Tab::Commits => self.opened matches Some(opened) && opened.folds@.opens(path),
        }
    }

    /// Whether `next` is this tree with the directories of the tab at some paths opened, or
    /// closed.
    pub open spec fn folded(self, paths: Set<Seq<Seq<char>>>, open: bool, next: FileTree) -> bool {
        &&& if self.tab == Tab::Files {
            next.expanded@ == self.expanded@.with(paths, open)
        } else {
            next.expanded == self.expanded
        }
        &&& if self.tab == Tab::Changes {
            next.collapsed@ == self.collapsed@.with(paths, open)
        } else {
            next.collapsed == self.collapsed
        }
        &&& match self.opened {
            Some(opened) if self.tab == Tab::Commits => {
                &&& next.opened matches Some(now) && now.folds@ == opened.folds@.with(paths, open)
                    && now == (OpenCommit { folds: now.folds, ..opened })
            },
            _ => next.opened == self.opened,
        }
        &&& next == (FileTree {
            expanded: next.expanded,
            collapsed: next.collapsed,
            opened: next.opened,
            ..self
        })
    }

    /// Whether `next` is this tree with one directory opened, or closed, and laid out again.
    pub open spec fn refolded(
        self,
        path: Seq<char>,
        open: bool,
        disk: Seq<entries::ListingView>,
        next: FileTree,
    ) -> bool {
        exists|between: FileTree|
            self.folded(set![path::components(path)], open, between) && #[trigger] between.rebuilt(
                disk,
                next,
            )
    }

    /// The row under the cursor.
    pub open spec fn under(self) -> Option<entries::RowView> {
        if self.list.cursor < self.rows.len() {
            Some(self.shown()[self.list.cursor as int])
        } else {
            None
        }
    }

    /// The directory under the cursor.
    pub open spec fn dir_under(self) -> Option<Seq<char>> {
        match self.under() {
            Some(row) => row.dir(),
            None => None,
        }
    }

    /// Whether `next` is this tree with the directory under the cursor folded or unfolded.
    pub open spec fn toggled(self, disk: Seq<entries::ListingView>, next: FileTree) -> bool {
        match self.dir_under() {
            Some(dir) => self.refolded(dir, !self.opens(dir), disk, next),
            None => next == self,
        }
    }

    /// Whether `next` is this tree with the list at another place.
    pub open spec fn moved(self, at: (int, int), next: FileTree) -> bool {
        &&& next.list.stands(self.list.len as int, self.list.page as int, at)
        &&& next == (FileTree { list: next.list, ..self })
    }

    /// Where a cursor at that row puts the list.
    pub open spec fn placed(self, cursor: int) -> (int, int) {
        list::settled(
            self.list.len as int,
            self.list.page as int,
            cursor,
            self.list.scroll as int,
        )
    }

    /// Where the list stands with the cursor on a path, mid-screen; mid-screen where it is when
    /// the path is not among the rows.
    pub open spec fn centered_on(self, path: Seq<char>) -> (int, int) {
        let cursor = self.onto(self.shown(), Some(path));
        list::settled(
            self.list.len as int,
            self.list.page as int,
            cursor,
            screen::less_by(cursor, self.list.page as int / 2),
        )
    }

    pub fn new(root: String, open: bool, width: Result<Option<u16>, String>) -> (tree: Self)
        ensures
            tree.root@ == root@,
            !tree.expanded@.open_by_default,
            tree.expanded@.toggled == Set::<Seq<Seq<char>>>::empty(),
            tree.collapsed@.open_by_default,
            tree.collapsed@.toggled == Set::<Seq<Seq<char>>>::empty(),
            tree.rows@.len() == 0,
            tree.list.stands(0, 1, (0, 0)),
            tree.open == open,
            !tree.focused,
            tree.revealed is None,
            tree.area == (Rect { x: 0, y: 0, width: 0, height: 0 }),
            tree.tab == Tab::Files,
            tree.tab_columns == ((0u16, 0u16), (0u16, 0u16), (0u16, 0u16)),
            tree.changes is None,
            tree.commits is None,
            tree.history_of is None,
            tree.opened is None,
            tree.blamed is None,
            tree.diff_doc is None,
            tree.previewed is None,
            tree.queried_at is None,
            tree.commits_queried_at is None,
            !tree.pending && !tree.commits_pending && !tree.preview_pending,
            !tree.commits_complete,
            !tree.resizing,
            tree.missing@.len() == 0,
            tree.said@.len() == 0,
            match width {
                Ok(width) => tree.width == width && tree.width_error is None,
                Err(err) => tree.width is None && text::optional(tree.width_error) == Some(
                    "Could not read the file tree's width: "@ + err@,
                ),
            },
    {
        let (width, width_error) = match width {
            Ok(width) => (width, None),
            Err(err) => (
                None,
                Some(told("Could not read the file tree's width: ", err.as_str())),
            ),
        };
        FileTree {
            root,
            expanded: Folds::closed(),
            rows: Vec::new(),
            list: List { cursor: 0, scroll: 0, page: 1, len: 0 },
            open,
            focused: false,
            revealed: None,
            area: Rect::none(),
            tab: Tab::Files,
            collapsed: Folds::opened(),
            changes: None,
            pending: false,
            queried_at: None,
            commits: None,
            commits_complete: false,
            commits_pending: false,
            commits_queried_at: None,
            history_of: None,
            opened: None,
            blamed: None,
            diff_doc: None,
            previewed: None,
            preview_pending: false,
            tab_columns: ((0, 0), (0, 0), (0, 0)),
            width,
            resizing: false,
            width_error,
            missing: Vec::new(),
            said: Vec::new(),
        }
    }

    /// The tree's width: the one the separator was dragged to, else the configured one.
    pub fn width(&self, configured: u16) -> (width: u16)
        ensures
            width == (match self.width {
                Some(width) => width,
                None => configured,
            }),
    {
        match self.width {
            Some(width) => width,
            None => configured,
        }
    }

    pub fn resizing(&self) -> (yes: bool)
        ensures
            yes == self.resizing,
    {
        self.resizing
    }

    pub fn toggle(&mut self)
        ensures
            *final(self) == (FileTree {
                open: !old(self).open,
                focused: old(self).focused && !old(self).open,
                ..*old(self)
            }),
    {
        self.open = !self.open;
        if !self.open {
            self.focused = false;
        }
    }

    /// Lays the rows of a commit out.
    fn commit_rows(&self, rows: &mut Vec<Row>)
        requires
            old(rows)@.len() == 0,
        ensures
            entries::row_views(final(rows)@) == self.commits_rows(),
    {
        if let Some(opened) = &self.opened {
            let head = Row::Commit(
                CommitRow {
                    index: 0,
                    short: opened.commit.short.clone(),
                    subject: opened.commit.subject.clone(),
                    time: opened.commit.time,
                    head: true,
                },
            );
            rows.push(head);
            assert(entries::row_views(rows@) =~= seq![head_row(opened.commit@)]);
            list_changed(self.root.as_str(), &opened.files, &opened.folds, rows);
            return ;
        }
        if let Some(Ok(commits)) = &self.commits {
            let ghost all = history_rows(git::commit_views(commits@));
            assert(entries::row_views(rows@) =~= all.take(0));
            for i in 0..commits.len()
                invariant
                    all == history_rows(git::commit_views(commits@)),
                    entries::row_views(rows@) == all.take(i as int),
            {
                let commit = &commits[i];
                let ghost held = rows@;
                let row = Row::Commit(
                    CommitRow {
                        index: i,
                        short: commit.short.clone(),
                        subject: commit.subject.clone(),
                        time: commit.time,
                        head: false,
                    },
                );
                rows.push(row);
                proof {
                    assert(git::commit_views(commits@)[i as int] == commit@);
                    assert(all[i as int] == row@);
                    assert(entries::row_views(rows@) =~= entries::row_views(held).push(row@));
                    assert(entries::row_views(rows@) =~= all.take(i + 1));
                }
            }
            assert(all.take(all.len() as int) =~= all);
        }
        assert(entries::row_views(rows@) =~= self.commits_rows());
    }

    /// Lays the tree out over what the disk holds, the cursor back on the path it was on.
    pub fn rebuild(&mut self, disk: &Vec<Listing>)
        ensures
            old(self).rebuilt(entries::listing_views(disk@), *final(self)),
    {
        let ghost start = *self;
        let ghost laid = start.laid(entries::listing_views(disk@));
        // A commit row has no path to be found by again; its index is what stays put.
        let selected = path_under(&self.rows, &self.list);
        let mut rows: Vec<Row> = Vec::new();
        let mut missing: Vec<String> = Vec::new();
        let mut errors: Vec<String> = Vec::new();
        match self.tab {
            Tab::Files => list_disk(
                self.root.as_str(),
                0,
                disk,
                &self.expanded,
                &mut rows,
                &mut missing,
                &mut errors,
            ),
            Tab::Changes => {
                if let Some(Ok(files)) = &self.changes {
                    list_changed(self.root.as_str(), files, &self.collapsed, &mut rows);
                }
            },
            Tab::Commits => self.commit_rows(&mut rows),
        }
        assert(entries::row_views(rows@) =~= laid.rows);
        assert(text::views(missing@) =~= laid.missing);
        assert(text::views(errors@) =~= laid.errors);
        self.rows = rows;
        self.missing = missing;
        say_errors(&mut self.said, errors);
        self.list.len = self.rows.len();
        if let Some(path) = &selected {
            if let Some(index) = find_on(&self.rows, path.as_str()) {
                self.list.cursor = index;
            }
        }
        self.list.clamp();
    }

    pub fn is_expanded(&self, path: &str) -> (yes: bool)
        ensures
            yes == self.opens(path@),
    {
        match self.tab {
            Tab::Files => self.expanded.is_open(path),
            Tab::Changes => self.collapsed.is_open(path),
            Tab::Commits => match &self.opened {
                Some(opened) => opened.folds.is_open(path),
                None => false,
            },
        }
    }

    pub fn set_expanded(&mut self, path: String, expanded: bool)
        ensures
            old(self).folded(set![path::components(path@)], expanded, *final(self)),
    {
        match self.tab {
            Tab::Files => self.expanded.set(path, expanded),
            Tab::Changes => self.collapsed.set(path, expanded),
            Tab::Commits => match self.opened.take() {
                Some(opened) => {
                    let mut opened = opened;
                    opened.folds.set(path, expanded);
                    self.opened = Some(opened);
                },
                None => {},
            },
        }
    }

    /// Sets one directory and lays the tree out again.
    fn refold(&mut self, path: String, open: bool, disk: &Vec<Listing>)
        ensures
            old(self).refolded(path@, open, entries::listing_views(disk@), *final(self)),
    {
        let ghost start = *self;
        self.set_expanded(path, open);
        let ghost between = *self;
        self.rebuild(disk);
        assert(start.folded(set![path::components(path@)], open, between));
        assert(between.rebuilt(entries::listing_views(disk@), *self));
    }

    /// The directory under the cursor.
    fn cursor_on_dir(&self) -> (dir: Option<String>)
        ensures
            text::optional(dir) == self.dir_under(),
    {
        if self.list.cursor >= self.rows.len() {
            return None;
        }
        let row = &self.rows[self.list.cursor];
        assert(self.shown()[self.list.cursor as int] == row@);
        match row.dir() {
            Some(dir) => Some(dir.to_owned()),
            None => None,
        }
    }

    pub fn toggle_dir(&mut self, disk: &Vec<Listing>)
        ensures
            old(self).toggled(entries::listing_views(disk@), *final(self)),
    {
        if let Some(dir) = self.cursor_on_dir() {
            let open = self.is_expanded(dir.as_str());
            self.refold(dir, !open, disk);
        }
    }

    /// Whether `next` is this tree with the directory under the cursor open.
    pub open spec fn unfolded(self, disk: Seq<entries::ListingView>, next: FileTree) -> bool {
        match self.dir_under() {
            Some(dir) if !self.opens(dir) => self.refolded(dir, true, disk, next),
            _ => next == self,
        }
    }

    pub fn expand_dir(&mut self, disk: &Vec<Listing>)
        ensures
            old(self).unfolded(entries::listing_views(disk@), *final(self)),
    {
        if let Some(dir) = self.cursor_on_dir() {
            if !self.is_expanded(dir.as_str()) {
                self.refold(dir, true, disk);
            }
        }
    }

    /// Whether `next` is this tree with every directory on screen closed.
    pub open spec fn closed(self, next: FileTree) -> bool {
        let dirs = entries::spelled(dirs_of(self.shown()));
        &&& if self.tab == Tab::Files {
            next.expanded@ == self.expanded@.all_closed(dirs)
        } else {
            next.expanded == self.expanded
        }
        &&& if self.tab == Tab::Changes {
            next.collapsed@ == self.collapsed@.all_closed(dirs)
        } else {
            next.collapsed == self.collapsed
        }
        &&& match self.opened {
            Some(opened) if self.tab == Tab::Commits => {
                &&& next.opened matches Some(now) && now.folds@ == opened.folds@.all_closed(dirs)
                    && now == (OpenCommit { folds: now.folds, ..opened })
            },
            _ => next.opened == self.opened,
        }
        &&& next == (FileTree {
            expanded: next.expanded,
            collapsed: next.collapsed,
            opened: next.opened,
            ..self
        })
    }

    /// Whether `next` is this tree with every directory closed, laid out again.
    pub open spec fn all_folded(self, disk: Seq<entries::ListingView>, next: FileTree) -> bool {
        exists|between: FileTree| self.closed(between) && #[trigger] between.rebuilt(disk, next)
    }

    pub fn collapse_all(&mut self, disk: &Vec<Listing>)
        ensures
            old(self).all_folded(entries::listing_views(disk@), *final(self)),
    {
        let ghost start = *self;
        let dirs = row_dirs(&self.rows);
        match self.tab {
            Tab::Files => self.expanded.close_all(&dirs),
            Tab::Changes => self.collapsed.close_all(&dirs),
            Tab::Commits => match self.opened.take() {
                Some(opened) => {
                    let mut opened = opened;
                    opened.folds.close_all(&dirs);
                    self.opened = Some(opened);
                },
                None => {},
            },
        }
        let ghost between = *self;
        self.rebuild(disk);
        assert(start.closed(between));
        assert(between.rebuilt(entries::listing_views(disk@), *self));
    }

    /// Whether `next` is this tree with the directory under the cursor closed, or, on a file or
    /// a closed directory, with the cursor on the row that holds it.
    pub open spec fn collapsed_or_up(
        self,
        disk: Seq<entries::ListingView>,
        next: FileTree,
    ) -> bool {
        match self.under() {
            None => next == self,
            Some(row) => match row.dir() {
                Some(dir) if self.opens(dir) => self.refolded(dir, false, disk, next),
                _ => match parent_row(
                    self.shown(),
                    self.list.cursor as int,
                    row.depth(),
                ) {
                    Some(parent) if row.depth() != 0 => self.moved(self.placed(parent), next),
                    _ => next == self,
                },
            },
        }
    }

    /// Closes the directory under the cursor; on a file or a closed directory, jumps to
    /// the parent instead, so repeated presses walk up the tree.
    pub fn collapse_or_parent(&mut self, disk: &Vec<Listing>)
        ensures
            old(self).collapsed_or_up(entries::listing_views(disk@), *final(self)),
    {
        if self.list.cursor >= self.rows.len() {
            return ;
        }
        if let Some(dir) = self.cursor_on_dir() {
            if self.is_expanded(dir.as_str()) {
                self.refold(dir, false, disk);
                return ;
            }
        }
        assert(self.shown()[self.list.cursor as int] == self.rows@[self.list.cursor as int]@);
        let depth = self.rows[self.list.cursor].depth();
        if depth == 0 {
            return ;
        }
        let ghost rows = self.shown();
        let mut n = self.list.cursor;
        while n > 0
            invariant
                n <= self.list.cursor < self.rows.len(),
                rows == self.shown(),
                *self == *old(self),
                parent_row(rows, self.list.cursor as int, depth as int) == parent_row(
                    rows,
                    n as int,
                    depth as int,
                ),
                depth == rows[self.list.cursor as int].depth(),
                depth != 0,
                self.under() == Some(rows[self.list.cursor as int]),
                self.dir_under() matches Some(dir) ==> !self.opens(dir),
            decreases n,
        {
            assert(rows[n - 1] == self.rows@[n - 1]@);
            if self.rows[n - 1].depth() < depth {
                self.list.select(n - 1);
                return ;
            }
            n -= 1;
        }
    }

    // ---- The Commits tab ----

    /// This tree with another history to list: what was read of the last is dropped, along with
    /// any read still under way.
    pub open spec fn listing(self, history: Option<String>) -> FileTree {
        FileTree {
            history_of: history,
            commits: None,
            commits_complete: false,
            commits_pending: false,
            commits_queried_at: None,
            list: List { cursor: 0, scroll: 0, ..self.list },
            ..self
        }
    }

    /// Sets whose history the Commits tab lists: a file's, or the whole repository's with
    /// none. What was read of the other is dropped, along with any read still under way.
    pub fn set_history(&mut self, history: Option<String>)
        ensures
            *final(self) == old(self).listing(history),
    {
        self.history_of = history;
        self.commits = None;
        self.commits_complete = false;
        self.commits_pending = false;
        self.commits_queried_at = None;
        self.list.cursor = 0;
        self.list.scroll = 0;
    }

    pub fn leave_history(&mut self, disk: &Vec<Listing>)
        ensures
            old(self).listing(None).rebuilt(entries::listing_views(disk@), *final(self)),
    {
        self.set_history(None);
        self.rebuild(disk);
    }

    /// Whether `next` is this tree showing the history of one file; the reason why not is said
    /// when the file lies outside.
    pub open spec fn historied(
        self,
        path: String,
        disk: Seq<entries::ListingView>,
        next: FileTree,
    ) -> bool {
        if !path::below(path@, self.root@) {
            &&& message::said(next.said@) == message::said(self.said@).push(
                (path@ + " is outside the workspace"@, true),
            )
            &&& next == (FileTree { said: next.said, ..self })
        } else {
            (FileTree {
                opened: None,
                previewed: None,
                preview_pending: false,
                tab: Tab::Commits,
                revealed: None,
                open: true,
                focused: true,
                ..self
            }).listing(Some(path)).rebuilt(disk, next)
        }
    }

    /// Shows the history of one file in the Commits tab, focused, in place of the whole one.
    pub fn show_history(&mut self, path: String, disk: &Vec<Listing>)
        ensures
            old(self).historied(path, entries::listing_views(disk@), *final(self)),
    {
        if !path::starts_with(path.as_str(), self.root.as_str()) {
            say(&mut self.said, told(path.as_str(), " is outside the workspace"), true);
            return ;
        }
        self.opened = None;
        self.previewed = None;
        self.preview_pending = false;
        self.set_history(Some(path));
        self.tab = Tab::Commits;
        self.revealed = None;
        self.open = true;
        self.focused = true;
        self.rebuild(disk);
    }

    /// Where the file a commit was reached by lies, when it lies below the root.
    pub open spec fn reached(
        self,
        file: Option<Seq<char>>,
        prefix: Seq<char>,
    ) -> Option<Seq<char>> {
        match file {
            Some(file) if text::starts_with(file, prefix) => Some(
                path::joined(self.root@, file.skip(prefix.len() as int)),
            ),
            _ => None,
        }
    }

    /// Whether `next` is this tree with a commit to list the files of, the place in the history
    /// kept when that was where it was opened from.
    pub open spec fn entered(
        self,
        commit: git::CommitView,
        prefix: Seq<char>,
        files: Seq<git::ChangedFileView>,
        next: FileTree,
    ) -> bool {
        let from_list = self.tab == Tab::Commits && self.opened is None;
        &&& next.opened matches Some(opened) && {
            &&& opened.commit@ == commit
            &&& opened.prefix@ == prefix
            &&& git::file_views(opened.files@) == files
            &&& opened.folds@.open_by_default
            &&& opened.folds@.toggled == Set::<Seq<Seq<char>>>::empty()
            &&& opened.list_cursor == if from_list {
                self.list.cursor
            } else {
                0
            }
            &&& opened.list_scroll == if from_list {
                self.list.scroll
            } else {
                0
            }
        }
        &&& next == (FileTree {
            opened: next.opened,
            previewed: None,
            preview_pending: false,
            tab: Tab::Commits,
            revealed: if self.tab == Tab::Commits {
                self.revealed
            } else {
                None
            },
            list: List { cursor: 0, scroll: 0, ..self.list },
            ..self
        })
    }

    /// Whether `next` is this tree inside a commit, the cursor on the file it was reached by
    /// when it carries one; the reason why not is said when its files could not be had.
    pub open spec fn committed(
        self,
        commit: git::CommitView,
        answer: Answer<(String, Vec<ChangedFile>)>,
        disk: Seq<entries::ListingView>,
        next: FileTree,
    ) -> bool {
        match answer {
            Err(err) => {
                &&& message::said(next.said@) == message::said(self.said@).push((err@, true))
                &&& next == (FileTree { said: next.said, ..self })
            },
            Ok(found) => exists|inside: FileTree, laid: FileTree|
                {
                    &&& self.entered(commit, found.0@, git::file_views(found.1@), inside)
                    &&& #[trigger] inside.rebuilt(disk, laid)
                    &&& match self.reached(commit.file, found.0@) {
                        Some(target) => laid.moved(laid.centered_on(target), next),
                        None => next == laid,
                    }
                },
        }
    }

    /// Moves the cursor onto a path, when it is among the rows.
    pub fn select(&mut self, path: &str)
        ensures
            final(self).list.cursor == old(self).onto(old(self).shown(), Some(path@)),
            *final(self) == (FileTree {
                list: List { cursor: final(self).list.cursor, ..old(self).list },
                ..*old(self)
            }),
    {
        if let Some(index) = find_on(&self.rows, path) {
            self.list.cursor = index;
        }
    }

    /// Moves the cursor onto a path and puts it mid-screen.
    fn select_centered(&mut self, path: &str)
        ensures
            old(self).moved(old(self).centered_on(path@), *final(self)),
    {
        self.select(path);
        self.list.center();
    }

    /// Lists the files of `commit` in the Commits tab, the cursor on the file the commit was
    /// reached by when it carries one. From anywhere but the history list, the list is left
    /// on the commit's own place in it.
    pub fn open_commit(
        &mut self,
        commit: Commit,
        answer: Answer<(String, Vec<ChangedFile>)>,
        disk: &Vec<Listing>,
    )
        ensures
            old(self).committed(commit@, answer, entries::listing_views(disk@), *final(self)),
    {
        let ghost start = *self;
        let (prefix, files) = match answer {
            Ok(found) => found,
            Err(err) => {
                say(&mut self.said, err, true);
                return ;
            },
        };
        let target = match &commit.file {
            Some(file) => {
                let chars = chars_of(file.as_str());
                let lead = chars_of(prefix.as_str());
                if holds(&chars, &lead, 0) {
                    let inside = string_of(&part(&chars, lead.len(), chars.len()));
                    assert(inside@ =~= file@.skip(prefix@.len() as int));
                    Some(join(self.root.as_str(), inside.as_str()))
                } else {
                    None
                }
            },
            None => None,
        };
        let from_list = self.tab == Tab::Commits && self.opened.is_none();
        let (list_cursor, list_scroll) = if from_list {
            (self.list.cursor, self.list.scroll)
        } else {
            (0, 0)
        };
        self.previewed = None;
        self.preview_pending = false;
        if self.tab != Tab::Commits {
            self.tab = Tab::Commits;
            self.revealed = None;
        }
        self.opened = Some(
            OpenCommit {
                commit,
                prefix,
                files,
                folds: Folds::opened(),
                list_cursor,
                list_scroll,
            },
        );
        self.list.cursor = 0;
        self.list.scroll = 0;
        let ghost inside = *self;
        self.rebuild(disk);
        let ghost laid = *self;
        if let Some(target) = &target {
            self.select_centered(target.as_str());
        }
        assert(start.entered(commit@, prefix@, git::file_views(files@), inside));
        assert(inside.rebuilt(entries::listing_views(disk@), laid));
    }

    /// This tree out of the commit it lists the files of, on its place in the history: the
    /// history may have been read again meanwhile, so the commit is found by its hash.
    pub open spec fn left(self) -> FileTree {
        match self.opened {
            None => self,
            Some(opened) => {
                let cursor = match self.commits {
                    Some(Ok(commits)) if first_hash(
                        git::commit_views(commits@),
                        opened.commit.hash@,
                    ) < commits.len() => first_hash(
                        git::commit_views(commits@),
                        opened.commit.hash@,
                    ) as usize,
                    _ => opened.list_cursor,
                };
                FileTree {
                    opened: None,
                    previewed: None,
                    preview_pending: false,
                    list: List { cursor, scroll: opened.list_scroll, ..self.list },
                    ..self
                }
            },
        }
    }

    /// Whether `next` is this tree out of the commit, laid out again.
    pub open spec fn commit_left(self, disk: Seq<entries::ListingView>, next: FileTree) -> bool {
        match self.opened {
            None => next == self,
            Some(_) => self.left().rebuilt(disk, next),
        }
    }

    pub fn leave_commit(&mut self, disk: &Vec<Listing>)
        ensures
            old(self).commit_left(entries::listing_views(disk@), *final(self)),
    {
        let opened = match self.opened.take() {
            Some(opened) => opened,
            None => return ,
        };
        self.previewed = None;
        self.preview_pending = false;
        let mut cursor = opened.list_cursor;
        if let Some(Ok(commits)) = &self.commits {
            if let Some(index) = find_hash(commits, opened.commit.hash.as_str()) {
                cursor = index;
            }
        }
        self.list.cursor = cursor;
        self.list.scroll = opened.list_scroll;
        assert(*self == old(self).left());
        self.rebuild(disk);
    }

    /// Whether `next` is this tree on another tab, or, on the same one, a step back: out of a
    /// commit, then out of a file's history into the whole one.
    pub open spec fn switched(
        self,
        tab: Tab,
        disk: Seq<entries::ListingView>,
        next: FileTree,
    ) -> bool {
        if self.tab == tab {
            if tab == Tab::Commits && self.opened is Some {
                self.commit_left(disk, next)
            } else if tab == Tab::Commits && self.history_of is Some {
                self.listing(None).rebuilt(disk, next)
            } else {
                next == self
            }
        } else {
            (FileTree { tab, revealed: None, ..self }).rebuilt(disk, next)
        }
    }

    pub fn switch_tab(&mut self, tab: Tab, disk: &Vec<Listing>)
        ensures
            old(self).switched(tab, entries::listing_views(disk@), *final(self)),
    {
        if self.tab == tab {
            // Asking for the Commits tab again steps back: out of a commit, then out of a
            // file's history into the whole one.
            if tab == Tab::Commits && self.opened.is_some() {
                self.leave_commit(disk);
            } else if tab == Tab::Commits && self.history_of.is_some() {
                self.leave_history(disk);
            }
            return ;
        }
        self.tab = tab;
        self.revealed = None;
        self.rebuild(disk);
    }

    // ---- What git is asked, and what it answers ----

    /// Whether `next` is this tree after what a `git status` that finished answered was taken.
    pub open spec fn took_changes(
        self,
        arrival: Arrival<Answer<Vec<ChangedFile>>>,
        next: FileTree,
        moved: bool,
    ) -> bool {
        match arrival {
            Arrival::Came(answer) if self.pending => {
                &&& moved == (match self.changes {
                    Some(held) => !one_status(git::files_answer(held), git::files_answer(answer)),
                    None => true,
                })
                &&& next == (FileTree { changes: Some(answer), pending: false, ..self })
            },
            Arrival::Stopped if self.pending => {
                &&& moved
                &&& next.changes matches Some(Err(why)) && why@
                    == "git status stopped without answering"@
                &&& next == (FileTree { changes: next.changes, pending: false, ..self })
            },
            _ => !moved && next == self,
        }
    }

    /// This tree asking for another `git status` when the last is old enough.
    pub open spec fn asking_changes(self, now: u64) -> FileTree {
        if !self.pending && is_stale(self.queried_at, now) {
            FileTree { pending: true, queried_at: Some(now), ..self }
        } else {
            self
        }
    }

    /// Takes the answer of a `git status` that finished, and tells whether the next one is to
    /// be started, which it is when the last is older than the refresh interval. Tells first
    /// whether the changes moved.
    pub fn poll_changes(
        &mut self,
        arrival: Arrival<Answer<Vec<ChangedFile>>>,
        now: u64,
    ) -> (polled: (bool, bool))
        ensures
            exists|taken: FileTree|
                {
                    &&& old(self).took_changes(arrival, taken, polled.0)
                    &&& polled.1 == (!taken.pending && is_stale(taken.queried_at, now))
                    &&& *final(self) == #[trigger] taken.asking_changes(now)
                },
    {
        let ghost start = *self;
        let mut moved = false;
        if self.pending {
            match arrival {
                Arrival::Came(answer) => {
                    moved =
                    match &self.changes {
                        Some(held) => !same_status(held, &answer),
                        None => true,
                    };
                    self.changes = Some(answer);
                    self.pending = false;
                },
                Arrival::Stopped => {
                    self.changes = Some(Err("git status stopped without answering".to_owned()));
                    self.pending = false;
                    moved = true;
                },
                Arrival::Waiting => {},
            }
        }
        let ghost taken = *self;
        assert(start.took_changes(arrival, taken, moved));
        let ask = !self.pending && stale(self.queried_at, now);
        if ask {
            self.pending = true;
            self.queried_at = Some(now);
        }
        assert(*self == taken.asking_changes(now));
        (moved, ask)
    }

    /// The hash of the newest commit of a history.
    pub open spec fn newest(commits: Seq<git::CommitView>) -> Option<Seq<char>> {
        if commits.len() == 0 {
            None
        } else {
            Some(commits[0].hash)
        }
    }

    /// Where the cursor goes when the history is replaced: onto its commit when that one is
    /// still there.
    pub open spec fn kept_on(self, commits: Seq<git::CommitView>) -> int {
        match (self.under(), self.commits) {
            (Some(entries::RowView::Commit(row)), Some(Ok(held))) => {
                if !row.head && row.index < held.len() && first_hash(
                    commits,
                    held@[row.index].hash@,
                ) < commits.len() {
                    first_hash(commits, held@[row.index].hash@)
                } else {
                    self.list.cursor as int
                }
            },
            _ => self.list.cursor as int,
        }
    }

    /// Whether `next` is this tree with a page of history folded into the list: the top page
    /// replaces it when the history moved under it, a later one extends it, and a page of a
    /// list that was read again meanwhile is dropped.
    pub open spec fn took_commits(
        self,
        skip: usize,
        answer: Answer<Vec<Commit>>,
        next: FileTree,
        moved: bool,
    ) -> bool {
        match answer {
            Err(err) => moved && next == (FileTree { commits: Some(Err(err)), ..self }),
            Ok(commits) => {
                let complete = self.history_of is Some || commits.len() < COMMITS_PAGE;
                let views = git::commit_views(commits@);
                match self.commits {
                    Some(Ok(held)) if skip > 0 && skip == held.len() => {
                        &&& moved
                        &&& next.commits matches Some(Ok(all)) && git::commit_views(all@)
                            == git::commit_views(held@) + views
                        &&& next == (FileTree {
                            commits: next.commits,
                            commits_complete: complete,
                            ..self
                        })
                    },
                    _ if skip > 0 => !moved && next == self,
                    Some(Ok(held)) if FileTree::newest(git::commit_views(held@))
                        == FileTree::newest(views) => !moved && next == self,
                    _ => {
                        &&& moved
                        &&& next.list.cursor == self.kept_on(views)
                        &&& next == (FileTree {
                            commits: Some(Ok(commits)),
                            commits_complete: complete,
                            list: List { cursor: next.list.cursor, ..self.list },
                            ..self
                        })
                    },
                }
            },
        }
    }

    /// The commit under the cursor, by its hash.
    fn selected_hash(&self) -> (hash: Option<String>)
        ensures
            text::optional(hash) == (match (self.under(), self.commits) {
                (Some(entries::RowView::Commit(row)), Some(Ok(held))) => if !row.head && row.index
                    < held.len() {
                    Some(held@[row.index].hash@)
                } else {
                    None
                },
                _ => None,
            }),
    {
        if self.list.cursor >= self.rows.len() {
            return None;
        }
        assert(self.shown()[self.list.cursor as int] == self.rows@[self.list.cursor as int]@);
        match &self.rows[self.list.cursor] {
            Row::Commit(row) => match &self.commits {
                Some(Ok(held)) => if !row.head && row.index < held.len() {
                    Some(held[row.index].hash.clone())
                } else {
                    None
                },
                _ => None,
            },
            Row::Entry(_) => None,
        }
    }

    /// Folds a page of history into the list. The top page replaces the list when the history
    /// moved under it (a commit, a rebase, another branch), keeping the cursor on its commit
    /// when that one is still there; a later page extends it. Returns whether the list moved.
    pub fn take_commits(&mut self, skip: usize, answer: Answer<Vec<Commit>>) -> (moved: bool)
        ensures
            old(self).took_commits(skip, answer, *final(self), moved),
    {
        let commits = match answer {
            Ok(commits) => commits,
            Err(err) => {
                self.commits = Some(Err(err));
                return true;
            },
        };
        let ghost views = git::commit_views(commits@);
        let complete = self.history_of.is_some() || commits.len() < COMMITS_PAGE;
        if skip > 0 {
            // A page of a list that was read again from the top meanwhile is dropped.
            let fits = match &self.commits {
                Some(Ok(held)) => skip == held.len(),
                _ => false,
            };
            if !fits {
                return false;
            }
            if let Some(Ok(held)) = self.commits.take() {
                let mut all = held;
                let mut more = commits;
                let ghost before = all@;
                all.append(&mut more);
                assert(git::commit_views(all@) =~= git::commit_views(before) + views);
                self.commits = Some(Ok(all));
                self.commits_complete = complete;
            }
            return true;
        }
        if let Some(Ok(held)) = &self.commits {
            assert(git::commit_views(held@).len() == held.len());
            assert(views.len() == commits.len());
            let same_top = if held.len() == 0 || commits.len() == 0 {
                held.len() == commits.len()
            } else {
                assert(git::commit_views(held@)[0] == held@[0]@ && views[0] == commits@[0]@);
                text::same(held[0].hash.as_str(), commits[0].hash.as_str())
            };
            if same_top {
                return false;
            }
        }
        let selected = self.selected_hash();
        let mut cursor = self.list.cursor;
        if let Some(hash) = &selected {
            if let Some(index) = find_hash(&commits, hash.as_str()) {
                cursor = index;
            }
        }
        self.list.cursor = cursor;
        self.commits = Some(Ok(commits));
        self.commits_complete = complete;
        true
    }

    /// Whether `next` is this tree after what a `git log` that finished answered was taken.
    pub open spec fn took_page(
        self,
        arrival: Arrival<(usize, Answer<Vec<Commit>>)>,
        next: FileTree,
        moved: bool,
    ) -> bool {
        match arrival {
            Arrival::Came(page) if self.commits_pending => (FileTree {
                commits_pending: false,
                ..self
            }).took_commits(page.0, page.1, next, moved),
            Arrival::Stopped if self.commits_pending => {
                &&& moved
                &&& next.commits matches Some(Err(why)) && why@
                    == "git log stopped without answering"@
                &&& next == (FileTree {
                    commits: next.commits,
                    commits_pending: false,
                    ..self
                })
            },
            _ => !moved && next == self,
        }
    }

    /// Where in the history the next read starts: after what is read when the cursor nears the
    /// end of it, at the top when the last look is old enough. A file's history is read whole,
    /// too much to read again every few seconds.
    pub open spec fn next_read(self, now: u64) -> Option<int> {
        let near_end = match self.commits {
            Some(Ok(commits)) => self.opened is None && !self.commits_complete && self.list.cursor
                + self.list.page >= commits.len(),
            _ => false,
        };
        let stale = match self.commits_queried_at {
            None => true,
            Some(at) => self.history_of is None && is_stale(Some(at), now),
        };
        if self.commits_pending {
            None
        } else if near_end {
            Some(self.commits->0->Ok_0.len() as int)
        } else if stale {
            Some(0)
        } else {
            None
        }
    }

    /// Whether the read of the history that starts there is a look at the top.
    pub open spec fn from_top(self) -> bool {
        match self.commits {
            Some(Ok(commits)) => !(self.opened is None && !self.commits_complete
                && self.list.cursor + self.list.page >= commits.len()),
            _ => true,
        }
    }

    /// This tree asking for the next read of the history, if there is one.
    pub open spec fn asking_commits(self, now: u64) -> FileTree {
        match self.next_read(now) {
            None => self,
            Some(_) => FileTree {
                commits_pending: true,
                commits_queried_at: if self.from_top() {
                    Some(now)
                } else {
                    self.commits_queried_at
                },
                ..self
            },
        }
    }

    /// Whether that is what `git log` is asked: where it starts, and the file below the root
    /// it is the history of.
    pub open spec fn asks_log(self, now: u64, ask: Option<HistoryAsk>) -> bool {
        match self.next_read(now) {
            None => ask is None,
            Some(skip) => ask matches Some(ask) && ask.skip == skip && text::optional(
                ask.history,
            ) == match self.history_of {
                Some(path) => path::stripped(path@, self.root@),
                None => None,
            },
        }
    }

    /// Takes the page of history a `git log` answered, then asks for the next page when the
    /// cursor nears the end of what is read, or for the top again when the last look is older
    /// than the refresh interval. Tells first whether the history moved.
    pub fn poll_commits(
        &mut self,
        arrival: Arrival<(usize, Answer<Vec<Commit>>)>,
        now: u64,
    ) -> (polled: (bool, Option<HistoryAsk>))
        ensures
            exists|taken: FileTree|
                {
                    &&& old(self).took_page(arrival, taken, polled.0)
                    &&& taken.asks_log(now, polled.1)
                    &&& *final(self) == #[trigger] taken.asking_commits(now)
                },
    {
        let ghost start = *self;
        let mut moved = false;
        if self.commits_pending {
            match arrival {
                Arrival::Came(page) => {
                    self.commits_pending = false;
                    moved = self.take_commits(page.0, page.1);
                },
                Arrival::Stopped => {
                    self.commits = Some(Err("git log stopped without answering".to_owned()));
                    self.commits_pending = false;
                    moved = true;
                },
                Arrival::Waiting => {},
            }
        }
        let ghost taken = *self;
        assert(start.took_page(arrival, taken, moved));
        if self.commits_pending {
            assert(*self == taken.asking_commits(now));
            return (moved, None);
        }
        let next_page = match &self.commits {
            Some(Ok(commits)) => if self.opened.is_none() && !self.commits_complete && (
            self.list.page >= commits.len() || self.list.cursor >= commits.len()
                - self.list.page) {
                Some(commits.len())
            } else {
                None
            },
            _ => None,
        };
        // A file's history is read whole, too much to read again every two seconds: R asks.
        let old_look = match self.commits_queried_at {
            None => true,
            Some(at) => self.history_of.is_none() && stale(Some(at), now),
        };
        let skip = match next_page {
            Some(skip) => skip,
            None => {
                if !old_look {
                    assert(*self == taken.asking_commits(now));
                    return (moved, None);
                }
                self.commits_queried_at = Some(now);
                0
            },
        };
        let history = match &self.history_of {
            Some(path) => strip_prefix(path.as_str(), self.root.as_str()),
            None => None,
        };
        self.commits_pending = true;
        assert(*self == taken.asking_commits(now));
        (moved, Some(HistoryAsk { skip, history }))
    }

    /// The source of the first of some files that is at a path.
    pub open spec fn source_of(files: Seq<git::ChangedFileView>, path: Seq<char>) -> Option<
        Seq<char>,
    >
        decreases files.len(),
    {
        if files.len() == 0 {
            None
        } else if path::equal(files[0].path, path) {
            files[0].from
        } else {
            FileTree::source_of(files.skip(1), path)
        }
    }

    /// The pathspec of a path below the root.
    pub open spec fn top(self, prefix: Seq<char>, path: Seq<char>) -> Seq<char> {
        ":(top,literal)"@ + (prefix + entries::listed_name(path, self.root@))
    }

    /// The diff for the row under the cursor inside an opened commit: the whole commit on its
    /// own row, a directory's files on the directory, one file on the file, with its source.
    pub open spec fn diff_of(self) -> Option<diff_view::DiffTargetView> {
        match (self.opened, self.under()) {
            (Some(opened), Some(row)) if self.tab == Tab::Commits => {
                let hash = opened.commit.hash@;
                let short = opened.commit.short@;
                match row {
                    entries::RowView::Commit(row) => if row.head {
                        Some(
                            diff_view::DiffTargetView {
                                hash,
                                pathspecs: if opened.prefix@.len() == 0 {
                                    Seq::empty()
                                } else {
                                    seq![":(top,literal)"@ + opened.prefix@]
                                },
                                name: short,
                            },
                        )
                    } else {
                        None
                    },
                    entries::RowView::Entry(entry) => {
                        let spec_text = self.top(opened.prefix@, entry.path);
                        if entry.is_dir {
                            Some(
                                diff_view::DiffTargetView {
                                    hash,
                                    pathspecs: seq![spec_text],
                                    name: short + " "@ + entry.name + "/"@,
                                },
                            )
                        } else {
                            Some(
                                diff_view::DiffTargetView {
                                    hash,
                                    pathspecs: match FileTree::source_of(
                                        git::file_views(opened.files@),
                                        entry.path,
                                    ) {
                                        Some(from) => seq![
                                            spec_text,
                                            ":(top,literal)"@ + from,
                                        ],
                                        None => seq![spec_text],
                                    },
                                    name: short + " "@ + entry.name,
                                },
                            )
                        }
                    },
                }
            },
            _ => None,
        }
    }

    /// The diff for the row under the cursor inside an opened commit: the whole commit on its
    /// own row, a directory's files on the directory, one file on the file.
    pub fn diff_target(&self) -> (target: Option<DiffTarget>)
        ensures
            diff_view::target_view(target) == self.diff_of(),
    {
        if self.tab != Tab::Commits {
            return None;
        }
        let opened = match &self.opened {
            Some(opened) => opened,
            None => return None,
        };
        if self.list.cursor >= self.rows.len() {
            return None;
        }
        assert(self.shown()[self.list.cursor as int] == self.rows@[self.list.cursor as int]@);
        let mut pathspecs: Vec<String> = Vec::new();
        let mut name = opened.commit.short.clone();
        match &self.rows[self.list.cursor] {
            Row::Commit(row) => {
                if !row.head {
                    return None;
                }
                assert(text::views(pathspecs@) =~= Seq::empty());
                if chars_of(opened.prefix.as_str()).len() > 0 {
                    push_word(&mut pathspecs, pathspec(opened.prefix.as_str()).as_str());
                    assert(text::views(pathspecs@) =~= seq![":(top,literal)"@ + opened.prefix@]);
                }
            },
            Row::Entry(entry) => {
                let inside = self.relative(entry.path.as_str());
                let top = pathspec(told(opened.prefix.as_str(), inside.as_str()).as_str());
                push_word(&mut pathspecs, top.as_str());
                assert(text::views(pathspecs@) =~= seq![top@]);
                name.append(" ");
                name.append(entry.name.as_str());
                if entry.is_dir {
                    name.append("/");
                } else if let Some(from) = find_source(&opened.files, entry.path.as_str()) {
                    let source = pathspec(from.as_str());
                    push_word(&mut pathspecs, source.as_str());
                    assert(text::views(pathspecs@) =~= seq![top@, source@]);
                }
            },
        }
        Some(DiffTarget { hash: opened.commit.hash.clone(), pathspecs, name })
    }

    /// Whether `next` is this tree after what a `git show` that finished answered was taken,
    /// and `show` what is then shown: the patch, when it is still the one wanted.
    pub open spec fn took_patch(
        self,
        arrival: Arrival<(DiffTarget, Answer<String>)>,
        next: FileTree,
        show: Option<(String, String)>,
    ) -> bool {
        match arrival {
            Arrival::Came(came) if self.preview_pending => {
                let wanted = diff_view::target_view(self.previewed) == Some(came.0@);
                match came.1 {
                    Ok(patch) => {
                        &&& next == (FileTree { preview_pending: false, ..self })
                        &&& if wanted {
                            show matches Some(shown) && shown.0@ == came.0.name@ && shown.1
                                == patch
                        } else {
                            show is None
                        }
                    },
                    Err(err) => {
                        &&& show is None
                        &&& message::said(next.said@) == if wanted {
                            message::said(self.said@).push((err@, true))
                        } else {
                            message::said(self.said@)
                        }
                        &&& next == (FileTree {
                            said: next.said,
                            preview_pending: false,
                            ..self
                        })
                    },
                }
            },
            Arrival::Stopped if self.preview_pending => {
                &&& show is None
                &&& message::said(next.said@) == message::said(self.said@).push(
                    ("git show stopped without answering"@, true),
                )
                &&& next == (FileTree { said: next.said, preview_pending: false, ..self })
            },
            _ => show is None && next == self,
        }
    }

    /// Whether `next` is this tree asking for the diff under the cursor, if it is not the one
    /// last asked for.
    pub open spec fn asked_patch(self, next: FileTree, ask: Option<DiffTarget>) -> bool {
        match self.diff_of() {
            Some(target) if diff_view::target_view(self.previewed) != Some(target) => {
                &&& diff_view::target_view(ask) == Some(target)
                &&& diff_view::target_view(next.previewed) == Some(target)
                &&& next == (FileTree {
                    previewed: next.previewed,
                    preview_pending: true,
                    ..self
                })
            },
            _ => ask is None && next == self,
        }
    }

    /// Whether `next` is this tree with the last patch taken and the next one asked for.
    pub open spec fn previews(
        self,
        arrival: Arrival<(DiffTarget, Answer<String>)>,
        next: FileTree,
        show: Option<(String, String)>,
        ask: Option<DiffTarget>,
    ) -> bool {
        exists|taken: FileTree|
            self.took_patch(arrival, taken, show) && #[trigger] taken.asked_patch(next, ask)
    }

    /// Keeps the diff buffer on what the cursor stands on inside an opened commit: tells what
    /// the `git show` that finished has to show, and asks for another when the cursor has
    /// moved.
    pub fn poll_preview(&mut self, arrival: Arrival<(DiffTarget, Answer<String>)>) -> (polled: (
        Option<(String, String)>,
        Option<DiffTarget>,
    ))
        ensures
            old(self).previews(arrival, *final(self), polled.0, polled.1),
    {
        let ghost start = *self;
        let mut show: Option<(String, String)> = None;
        if self.preview_pending {
            match arrival {
                Arrival::Came(came) => {
                    let (target, answer) = came;
                    self.preview_pending = false;
                    let wanted = match &self.previewed {
                        Some(previewed) => previewed.same(&target),
                        None => false,
                    };
                    match answer {
                        Ok(patch) => {
                            if wanted {
                                show = Some((target.name.clone(), patch));
                            }
                        },
                        Err(err) => {
                            if wanted {
                                say(&mut self.said, err, true);
                            }
                        },
                    }
                },
                Arrival::Stopped => {
                    self.preview_pending = false;
                    say(&mut self.said, "git show stopped without answering".to_owned(), true);
                },
                Arrival::Waiting => {},
            }
        }
        let ghost taken = *self;
        assert(start.took_patch(arrival, taken, show));
        let mut ask: Option<DiffTarget> = None;
        if let Some(target) = self.diff_target() {
            let held = match &self.previewed {
                Some(previewed) => previewed.same(&target),
                None => false,
            };
            if !held {
                // A newer request replaces the one in flight, whose answer then has nowhere to
                // land.
                ask = Some(target.clone());
                self.previewed = Some(target);
                self.preview_pending = true;
            }
        }
        assert(taken.asked_patch(*self, ask));
        assert(start.previews(arrival, *self, show, ask));
        (show, ask)
    }

    /// The buffer a diff is shown in: the one it was shown in last while that one is open, none
    /// when a new one is to be made.
    pub fn diff_buffer(&self, open: &Vec<u64>) -> (doc: Option<u64>)
        ensures
            doc == (match self.diff_doc {
                Some(doc) if open@.contains(doc) => Some(doc),
                _ => None,
            }),
    {
        if let Some(id) = self.diff_doc {
            for i in 0..open.len()
                invariant
                    self.diff_doc == Some(id),
                    forall|j: int| 0 <= j < i ==> open@[j] != id,
            {
                if open[i] == id {
                    assert(open@[i as int] == id);
                    return Some(id);
                }
            }
        }
        None
    }

    /// The buffer a diff was put in.
    pub fn shown_in(&mut self, doc: u64)
        ensures
            *final(self) == (FileTree { diff_doc: Some(doc), ..*old(self) }),
    {
        self.diff_doc = Some(doc);
    }

    // ---- Blame ----

    /// Whether that line is the one blamed last.
    pub open spec fn blamed_last(self, path: Seq<char>, line: usize) -> bool {
        self.blamed matches Some(last) && path::equal(last.path@, path) && last.line == line
    }

    /// Says who last changed the requested line. Blaming the line blamed last opens its commit
    /// instead, focused: it is then to be entered. Tells otherwise that git is to be asked.
    pub fn blame(&mut self, request: &BlameRequest) -> (turn: BlameTurn)
        ensures
            if !old(self).blamed_last(request.path@, request.line) {
                turn is Ask && *final(self) == *old(self)
            } else {
                match old(self).blamed->0.commit {
                    None => {
                        &&& turn is Done
                        &&& message::said(final(self).said@) == message::said(
                            old(self).said@,
                        ).push(("Not committed yet"@, false))
                        &&& *final(self) == (FileTree { said: final(self).said, ..*old(self) })
                    },
                    Some(commit) => {
                        &&& turn matches BlameTurn::Enter(entered) && entered@ == commit@
                        &&& *final(self) == (FileTree { open: true, focused: true, ..*old(self) })
                    },
                }
            },
    {
        let mut again = false;
        let mut commit: Option<Commit> = None;
        if let Some(last) = &self.blamed {
            if same(last.path.as_str(), request.path.as_str()) && last.line == request.line {
                again = true;
                commit =
                match &last.commit {
                    Some(commit) => Some(commit.clone()),
                    None => None,
                };
            }
        }
        if !again {
            return BlameTurn::Ask;
        }
        match commit {
            None => {
                say(&mut self.said, "Not committed yet".to_owned(), false);
                BlameTurn::Done
            },
            Some(commit) => {
                self.open = true;
                self.focused = true;
                BlameTurn::Enter(commit)
            },
        }
    }

    /// Takes git's answer to a blame: it is said, and the line remembered.
    pub fn blame_landed(&mut self, request: BlameRequest, answer: Answer<Blame>, now: i64)
        ensures
            match answer {
                Err(err) => {
                    &&& message::said(final(self).said@) == message::said(old(self).said@).push(
                        (err@, true),
                    )
                    &&& *final(self) == (FileTree { said: final(self).said, ..*old(self) })
                },
                Ok(blame) => {
                    &&& message::said(final(self).said@) == message::said(old(self).said@).push(
                        (commands::blame_status(blame@, now as int), false),
                    )
                    &&& final(self).blamed matches Some(last) && last.path@ == request.path@
                        && last.line == request.line && last.author@ == blame.author@
                        && last.commit == blame.commit
                    &&& *final(self) == (FileTree {
                        said: final(self).said,
                        blamed: final(self).blamed,
                        ..*old(self)
                    })
                },
            },
    {
        match answer {
            Err(err) => say(&mut self.said, err, true),
            Ok(blame) => {
                let status = blame_said(&blame, now);
                say(&mut self.said, status, false);
                self.blamed = Some(
                    Blamed {
                        path: request.path,
                        line: request.line,
                        author: blame.author,
                        commit: blame.commit,
                    },
                );
            },
        }
    }

    // ---- Following the file being edited ----

    /// Whether `next` is this tree moved onto the file being edited: on the disk the way to it
    /// is opened, among the changes it is found, and in the history the cursor stays on the
    /// commit it was on.
    pub open spec fn followed(
        self,
        document: Option<Seq<char>>,
        disk: Seq<entries::ListingView>,
        next: FileTree,
    ) -> bool {
        match document {
            None => next == self,
            Some(path) => {
                &&& text::optional(next.revealed) == Some(path)
                &&& (FileTree { revealed: next.revealed, ..self }).goes_to(path, disk, next)
            },
        }
    }

    /// Whether `next` is this tree moved onto a path.
    pub open spec fn goes_to(
        self,
        path: Seq<char>,
        disk: Seq<entries::ListingView>,
        next: FileTree,
    ) -> bool {
        if !path::below(path, self.root@) || self.tab == Tab::Commits {
            next == self
        } else if self.tab == Tab::Changes {
            self.moved(self.centered_on(path), next)
        } else {
            exists|open: FileTree, laid: FileTree|
                {
                    &&& self.way_open(path, open)
                    &&& #[trigger] open.rebuilt(disk, laid)
                    &&& laid.moved(laid.centered_on(path), next)
                }
        }
    }

    /// Whether `next` is this tree with every directory on disk above a path open.
    pub open spec fn way_open(self, path: Seq<char>, next: FileTree) -> bool {
        &&& next.expanded@ == self.expanded@.with(
            entries::spelled(path::ancestors(self.root@, path)),
            true,
        )
        &&& next == (FileTree { expanded: next.expanded, ..self })
    }

    /// Expands the ancestors of the focused document and moves the cursor onto it.
    pub fn reveal_current(&mut self, document: &Option<String>, disk: &Vec<Listing>)
        ensures
            old(self).followed(
                text::optional(*document),
                entries::listing_views(disk@),
                *final(self),
            ),
    {
        let ghost start = *self;
        let path = match document {
            Some(path) => path,
            None => return ,
        };
        self.revealed = Some(path.clone());
        let ghost noted = *self;
        // The history is not the disk: the cursor there stays on the commit it was on.
        if !path::starts_with(path.as_str(), self.root.as_str()) || self.tab == Tab::Commits {
            return ;
        }
        if self.tab == Tab::Changes {
            self.select_centered(path.as_str());
            return ;
        }
        self.expanded.open_ancestors(self.root.as_str(), path.as_str());
        let ghost open = *self;
        self.rebuild(disk);
        let ghost laid = *self;
        self.select_centered(path.as_str());
        assert(noted.way_open(path@, open));
        assert(open.rebuilt(entries::listing_views(disk@), laid));
        assert(noted.goes_to(path@, entries::listing_views(disk@), *self));
    }

    /// Whether `next` is this tree laid out again and moved onto the file being edited.
    pub open spec fn refreshed(
        self,
        document: Option<Seq<char>>,
        disk: Seq<entries::ListingView>,
        next: FileTree,
    ) -> bool {
        exists|laid: FileTree| #[trigger]
            self.rebuilt(disk, laid) && laid.followed(document, disk, next)
    }

    pub fn focus(&mut self, document: &Option<String>, disk: &Vec<Listing>)
        ensures
            (FileTree { open: true, focused: true, ..*old(self) }).refreshed(
                text::optional(*document),
                entries::listing_views(disk@),
                *final(self),
            ),
    {
        self.open = true;
        self.focused = true;
        let ghost start = *self;
        self.rebuild(disk);
        let ghost laid = *self;
        self.reveal_current(document, disk);
        assert(start.rebuilt(entries::listing_views(disk@), laid));
    }

    /// Whether `next` is this tree after a change on disk, the way to it open and the cursor on
    /// it; a path that is gone leaves the cursor where it was.
    pub open spec fn reloaded(
        self,
        path: Seq<char>,
        disk: Seq<entries::ListingView>,
        next: FileTree,
    ) -> bool {
        exists|open: FileTree, laid: FileTree|
            {
                &&& (FileTree { queried_at: None, ..self }).way_open(path, open)
                &&& #[trigger] open.rebuilt(disk, laid)
                &&& next.list.cursor == laid.onto(laid.shown(), Some(path))
                &&& next == (FileTree {
                    list: List { cursor: next.list.cursor, ..laid.list },
                    ..laid
                })
            }
    }

    /// Reloads the tree after a change on disk and puts the cursor on `path`, expanding down
    /// to it; a path that is gone leaves the cursor where it was.
    pub fn refresh(&mut self, path: &str, disk: &Vec<Listing>)
        ensures
            old(self).reloaded(path@, entries::listing_views(disk@), *final(self)),
    {
        let ghost start = *self;
        self.queried_at = None;
        self.expanded.open_ancestors(self.root.as_str(), path);
        let ghost open = *self;
        assert((FileTree { queried_at: None, ..start }).way_open(path@, open));
        self.rebuild(disk);
        let ghost laid = *self;
        assert(open.rebuilt(entries::listing_views(disk@), laid));
        self.select(path);
    }

    pub fn relative(&self, path: &str) -> (text: String)
        ensures
            text@ == entries::listed_name(path@, self.root@),
    {
        match strip_prefix(path, self.root.as_str()) {
            Some(relative) => relative,
            None => path.to_owned(),
        }
    }
}

/// A read of the history: where it starts, and the file it is the history of, below the root.
pub struct HistoryAsk {
    pub skip: usize,
    pub history: Option<String>,
}

/// Reads what was asked of the history, newest first: a page of the commits down from the one
/// in front, or the whole history of one file, followed across renames.
pub fn query_commits(asked: &HistoryAsk, answers: &Vec<Answer<Vec<u8>>>) -> (step: Step<Vec<Commit>>)
    ensures
        git::log_step(
            match asked.history {
                Some(path) => git::followed_args(path@),
                None => git::page_args(asked.skip as nat),
            },
            answers@,
            step,
        ),
{
    match &asked.history {
        Some(path) => file_log(path.as_str(), answers),
        None => log(asked.skip, answers),
    }
}

/// The patch of a commit narrowed to the target's paths, under the commit's own header.
pub fn query_diff(target: &DiffTarget, answers: &Vec<Answer<Vec<u8>>>) -> (step: Step<String>)
    ensures
        match step {
            Step::Run(args) => answers.len() == 0 && text::views(args@) == git::show_args(
                target.hash@,
                text::views(target.pathspecs@),
            ),
            Step::Done(Ok(patch)) => {
                &&& answers.len() > 0
                &&& answers[0] matches Ok(stdout) && patch@ == text::lossy(stdout@)
            },
            Step::Done(Err(why)) => {
                &&& answers.len() > 0
                &&& answers[0] matches Err(err) && why@ == err@
            },
        },
{
    git::show(target.hash.as_str(), &target.pathspecs, answers)
}

/// What blaming a line comes to: it was answered, a commit is to be entered, or git is asked.
pub enum BlameTurn {
    Done,
    Enter(Commit),
    Ask,
}

/// The source of the first of some files that is at a path.
fn find_source(files: &Vec<ChangedFile>, path: &str) -> (from: Option<String>)
    ensures
        text::optional(from) == FileTree::source_of(git::file_views(files@), path@),
{
    let ghost all = git::file_views(files@);
    let mut i: usize = 0;
    assert(all.skip(0) =~= all);
    while i < files.len()
        invariant
            i <= files.len(),
            all == git::file_views(files@),
            FileTree::source_of(all, path@) == FileTree::source_of(all.skip(i as int), path@),
        decreases files.len() - i,
    {
        assert(all.skip(i as int)[0] == files@[i as int]@);
        assert(all.skip(i as int).skip(1) =~= all.skip(i + 1));
        if same(files[i].path.as_str(), path) {
            return copy_optional(&files[i].from);
        }
        i += 1;
    }
    None
}

// ---- Keys ----

/// What a key asks of the tree.
#[derive(Clone, Copy, PartialEq, Eq, Structural, Debug)]
pub enum Press {
    Back,
    Close,
    Down,
    Up,
    HalfDown,
    HalfUp,
    PageDown,
    PageUp,
    First,
    Last,
    Enter,
    Right,
    Left,
    CollapseAll,
    Reload,
    NextTab,
    New,
    Rename,
    Delete,
    Nothing,
}

/// What a key asks of the tree. Creating, renaming and deleting act on the disk, which the
/// history is not.
pub open spec fn pressed(key: KeyEvent, tab: Tab) -> Press {
    let plain = key.modifiers.plain();
    let control = key.modifiers.only_control();
    match key.code {
        KeyCode::Esc => Press::Back,
        KeyCode::Down => Press::Down,
        KeyCode::Up => Press::Up,
        KeyCode::PageDown => Press::PageDown,
        KeyCode::PageUp => Press::PageUp,
        KeyCode::Home => Press::First,
        KeyCode::End => Press::Last,
        KeyCode::Enter => Press::Enter,
        KeyCode::Right => Press::Right,
        KeyCode::Left => Press::Left,
        KeyCode::Tab => Press::NextTab,
        KeyCode::Char(c) => if plain {
            if c == 'q' {
                Press::Close
            } else if c == 'j' {
                Press::Down
            } else if c == 'k' {
                Press::Up
            } else if c == 'l' {
                Press::Right
            } else if c == 'h' {
                Press::Left
            } else if c == 'H' {
                Press::CollapseAll
            } else if c == 'R' {
                Press::Reload
            } else if c == 'a' && tab != Tab::Commits {
                Press::New
            } else if c == 'r' && tab != Tab::Commits {
                Press::Rename
            } else if c == 'd' && tab != Tab::Commits {
                Press::Delete
            } else {
                Press::Nothing
            }
        } else if control && c == 'd' {
            Press::HalfDown
        } else if control && c == 'u' {
            Press::HalfUp
        } else {
            Press::Nothing
        },
        _ => Press::Nothing,
    }
}

/// What a key asks of the tree.
pub fn press_of(key: KeyEvent, tab: Tab) -> (press: Press)
    ensures
        press == pressed(key, tab),
{
    match key.code {
        KeyCode::Esc => Press::Back,
        KeyCode::Down => Press::Down,
        KeyCode::Up => Press::Up,
        KeyCode::PageDown => Press::PageDown,
        KeyCode::PageUp => Press::PageUp,
        KeyCode::Home => Press::First,
        KeyCode::End => Press::Last,
        KeyCode::Enter => Press::Enter,
        KeyCode::Right => Press::Right,
        KeyCode::Left => Press::Left,
        KeyCode::Tab => Press::NextTab,
        KeyCode::Char(c) => if key.modifiers.is_plain() {
            match c {
                'q' => Press::Close,
                'j' => Press::Down,
                'k' => Press::Up,
                'l' => Press::Right,
                'h' => Press::Left,
                'H' => Press::CollapseAll,
                'R' => Press::Reload,
                _ => if tab == Tab::Commits {
                    Press::Nothing
                } else {
                    match c {
                        'a' => Press::New,
                        'r' => Press::Rename,
                        'd' => Press::Delete,
                        _ => Press::Nothing,
                    }
                },
            }
        } else if key.modifiers.is_control() && c == 'd' {
            Press::HalfDown
        } else if key.modifiers.is_control() && c == 'u' {
            Press::HalfUp
        } else {
            Press::Nothing
        },
        _ => Press::Nothing,
    }
}

/// The tab after another, round the end.
pub open spec fn tab_after(tab: Tab) -> Tab {
    match tab {
        Tab::Files => Tab::Changes,
        Tab::Changes => Tab::Commits,
        Tab::Commits => Tab::Files,
    }
}

impl FileTree {
    /// Whether `next` is this tree with the row under the cursor opened, and `turn` what is to
    /// be done: a directory is toggled, a commit is to be entered, a deleted file is said to
    /// be, any other file is to be opened. Inside a commit the diff already follows the
    /// cursor, so opening a row is going over to read it.
    pub open spec fn opened_row(
        self,
        disk: Seq<entries::ListingView>,
        next: FileTree,
        turn: Turn,
    ) -> bool {
        match self.under() {
            None => turn is Stay && next == self,
            Some(entries::RowView::Commit(row)) => if row.head {
                turn is Leave && next == (FileTree { previewed: None, ..self })
            } else {
                match self.commits {
                    Some(Ok(commits)) if row.index < commits.len() => {
                        &&& turn matches Turn::Enter(commit) && commit@ == commits@[row.index]@
                        &&& next == self
                    },
                    _ => turn is Stay && next == self,
                }
            },
            Some(entries::RowView::Entry(entry)) => if entry.is_dir {
                turn is Stay && self.toggled(disk, next)
            } else if self.tab == Tab::Commits {
                turn is Leave && next == (FileTree { previewed: None, ..self })
            } else if entry.change == Some(Change::Deleted) {
                &&& turn is Stay
                &&& message::said(next.said@) == message::said(self.said@).push(
                    (entries::listed_name(entry.path, self.root@) + " is deleted"@, false),
                )
                &&& next == (FileTree { said: next.said, ..self })
            } else {
                turn matches Turn::Open(path) && path@ == entry.path && next == self
            },
        }
    }

    /// Opens the file under the cursor in the focused view; a directory is toggled instead, and
    /// a commit is entered. Inside a commit the diff already follows the cursor, so opening a
    /// row is going over to read it.
    pub fn open_row(&mut self, disk: &Vec<Listing>) -> (turn: Turn)
        ensures
            old(self).opened_row(entries::listing_views(disk@), *final(self), turn),
    {
        if self.list.cursor >= self.rows.len() {
            return Turn::Stay;
        }
        assert(self.shown()[self.list.cursor as int] == self.rows@[self.list.cursor as int]@);
        let (path, is_dir, deleted) = match &self.rows[self.list.cursor] {
            Row::Commit(row) => {
                if row.head {
                    // Asked again, in case the diff buffer was left for another one meanwhile.
                    self.previewed = None;
                    return Turn::Leave;
                }
                return match &self.commits {
                    Some(Ok(commits)) => if row.index < commits.len() {
                        Turn::Enter(commits[row.index].clone())
                    } else {
                        Turn::Stay
                    },
                    _ => Turn::Stay,
                };
            },
            Row::Entry(entry) => (
                entry.path.clone(),
                entry.is_dir,
                match entry.change {
                    Some(change) => change == Change::Deleted,
                    None => false,
                },
            ),
        };
        if is_dir {
            self.toggle_dir(disk);
            return Turn::Stay;
        }
        if self.tab == Tab::Commits {
            self.previewed = None;
            return Turn::Leave;
        }
        if deleted {
            let relative = self.relative(path.as_str());
            say(&mut self.said, told(relative.as_str(), " is deleted"), false);
            return Turn::Stay;
        }
        Turn::Open(path)
    }

    /// The editor opened a file, or could not: when it did, it is the one the tree is on, and
    /// the keys go over to it.
    pub fn file_opened(&mut self, path: String, error: Option<String>)
        ensures
            match error {
                Some(err) => {
                    &&& message::said(final(self).said@) == message::said(old(self).said@).push(
                        ("unable to open \""@ + path@ + "\": "@ + err@, true),
                    )
                    &&& *final(self) == (FileTree { said: final(self).said, ..*old(self) })
                },
                None => *final(self) == (FileTree {
                    revealed: Some(path),
                    focused: false,
                    ..*old(self)
                }),
            },
    {
        match error {
            Some(err) => {
                let message = unable_to_open(path.as_str(), err.as_str());
                say(&mut self.said, message, true);
            },
            None => {
                self.revealed = Some(path);
                self.focused = false;
            },
        }
    }

    /// This tree, the keys gone over to the editor when that is the turn.
    pub open spec fn unless_left(self, turn: Turn) -> FileTree {
        FileTree { focused: self.focused && !(turn is Leave), ..self }
    }

    /// Whether `next` is this tree with the row under the cursor opened and, where that is the
    /// turn, the keys gone over to the editor.
    pub open spec fn entered_row(
        self,
        disk: Seq<entries::ListingView>,
        next: FileTree,
        turn: Turn,
    ) -> bool {
        exists|row: FileTree| #[trigger]
            self.opened_row(disk, row, turn) && next == row.unless_left(turn)
    }

    fn enter_row(&mut self, disk: &Vec<Listing>) -> (turn: Turn)
        ensures
            old(self).entered_row(entries::listing_views(disk@), *final(self), turn),
    {
        let ghost start = *self;
        let turn = self.open_row(disk);
        let ghost row = *self;
        if let Turn::Leave = turn {
            self.focused = false;
        }
        assert(start.opened_row(entries::listing_views(disk@), row, turn));
        assert(*self == row.unless_left(turn));
        turn
    }

    /// The directory a new entry goes in: the one under the cursor, else the cursor's parent.
    pub open spec fn cursor_holder(self) -> Seq<char> {
        match self.under() {
            None => self.root@,
            Some(row) => match row {
                entries::RowView::Commit(_) => self.root@,
                entries::RowView::Entry(entry) => if entry.is_dir {
                    entry.path
                } else {
                    match path::up(entry.path) {
                        Some(dir) => dir,
                        None => self.root@,
                    }
                },
            },
        }
    }

    /// The directory a new entry goes in: the one under the cursor, else the cursor's parent.
    pub fn cursor_dir(&self) -> (dir: String)
        ensures
            dir@ == self.cursor_holder(),
    {
        if self.list.cursor >= self.rows.len() {
            return self.root.clone();
        }
        assert(self.shown()[self.list.cursor as int] == self.rows@[self.list.cursor as int]@);
        match &self.rows[self.list.cursor] {
            Row::Commit(_) => self.root.clone(),
            Row::Entry(entry) => if entry.is_dir {
                entry.path.clone()
            } else {
                match parent(entry.path.as_str()) {
                    Some(dir) => dir,
                    None => self.root.clone(),
                }
            },
        }
    }

    /// What a new entry's name starts as: its directory below the root, and a `/`.
    pub open spec fn new_line(self) -> Seq<char> {
        let line = entries::listed_name(self.cursor_holder(), self.root@);
        if line.len() == 0 {
            line
        } else {
            line.push('/')
        }
    }

    /// Asks for the name of something new, next to the cursor.
    pub fn prompt_new(&self) -> (turn: Turn)
        ensures
            turn matches Turn::New { line } && line@ == self.new_line(),
    {
        let dir = self.cursor_dir();
        let mut line = self.relative(dir.as_str());
        if chars_of(line.as_str()).len() > 0 {
            line.push('/');
        }
        Turn::New { line }
    }

    /// Asks for another name for the entry under the cursor.
    pub fn prompt_rename(&self) -> (turn: Turn)
        ensures
            match changes::cursor_path(self.shown(), self.list) {
                Some(path) => turn matches Turn::Rename { source, line } && source@ == path
                    && line@ == entries::listed_name(path, self.root@),
                None => turn is Stay,
            },
    {
        match path_under(&self.rows, &self.list) {
            Some(source) => {
                let line = self.relative(source.as_str());
                Turn::Rename { source, line }
            },
            None => Turn::Stay,
        }
    }

    /// Asks whether the entry under the cursor is to be deleted.
    pub fn prompt_delete(&self) -> (turn: Turn)
        ensures
            match changes::cursor_path(self.shown(), self.list) {
                Some(path) => turn matches Turn::Delete { target, is_dir, question } && target@
                    == path && is_dir == (self.dir_under() is Some) && question@ == "delete "@
                    + entries::listed_name(path, self.root@) + "? (y/N): "@,
                None => turn is Stay,
            },
    {
        match path_under(&self.rows, &self.list) {
            Some(target) => {
                let is_dir = self.cursor_on_dir().is_some();
                let mut question = told("delete ", self.relative(target.as_str()).as_str());
                question.append("? (y/N): ");
                Turn::Delete { target, is_dir, question }
            },
            None => Turn::Stay,
        }
    }

    /// Whether `next` is this tree after a key, and `turn` what is to be done.
    pub open spec fn acted(
        self,
        press: Press,
        disk: Seq<entries::ListingView>,
        next: FileTree,
        turn: Turn,
    ) -> bool {
        let half = screen::most(self.list.page as int / 2, 1);
        let cursor = self.list.cursor as int;
        let page = self.list.page as int;
        match press {
            Press::Back => {
                &&& turn is Stay
                &&& if self.tab == Tab::Commits && self.opened is Some {
                    self.commit_left(disk, next)
                } else if self.tab == Tab::Commits && self.history_of is Some {
                    self.listing(None).rebuilt(disk, next)
                } else {
                    next == (FileTree { focused: false, ..self })
                }
            },
            Press::Close => turn is Stay && next == (FileTree {
                open: false,
                focused: false,
                ..self
            }),
            Press::Down => turn is Stay && self.moved(self.placed(cursor + 1), next),
            Press::Up => turn is Stay && self.moved(
                self.placed(screen::most(cursor - 1, 0)),
                next,
            ),
            Press::HalfDown => turn is Stay && self.moved(self.placed(cursor + half), next),
            Press::HalfUp => turn is Stay && self.moved(
                self.placed(screen::most(cursor - half, 0)),
                next,
            ),
            Press::PageDown => turn is Stay && self.moved(self.placed(cursor + page), next),
            Press::PageUp => turn is Stay && self.moved(
                self.placed(screen::less_by(cursor, page)),
                next,
            ),
            Press::First => turn is Stay && self.moved(self.placed(0), next),
            Press::Last => turn is Stay && self.moved(
                self.placed(screen::less_by(self.list.len as int, 1)),
                next,
            ),
            Press::Enter => self.entered_row(disk, next, turn),
            Press::Right => if self.dir_under() is Some {
                turn is Stay && self.unfolded(disk, next)
            } else {
                self.entered_row(disk, next, turn)
            },
            Press::Left => turn is Stay && self.collapsed_or_up(disk, next),
            Press::CollapseAll => turn is Stay && self.all_folded(disk, next),
            Press::Reload => turn is Stay && (FileTree {
                queried_at: None,
                commits_queried_at: None,
                ..self
            }).rebuilt(disk, next),
            Press::NextTab => turn is Stay && self.switched(tab_after(self.tab), disk, next),
            Press::New => next == self && (turn matches Turn::New { line } && line@
                == self.new_line()),
            Press::Rename => next == self && match changes::cursor_path(self.shown(), self.list) {
                Some(path) => turn matches Turn::Rename { source, line } && source@ == path
                    && line@ == entries::listed_name(path, self.root@),
                None => turn is Stay,
            },
            Press::Delete => next == self && match changes::cursor_path(self.shown(), self.list) {
                Some(path) => turn matches Turn::Delete { target, is_dir, question } && target@
                    == path && is_dir == (self.dir_under() is Some) && question@ == "delete "@
                    + entries::listed_name(path, self.root@) + "? (y/N): "@,
                None => turn is Stay,
            },
            Press::Nothing => turn is Stay && next == self,
        }
    }

    /// What a key comes to.
    pub fn handle_key(&mut self, key: KeyEvent, disk: &Vec<Listing>) -> (turn: Turn)
        ensures
            old(self).acted(
                pressed(key, old(self).tab),
                entries::listing_views(disk@),
                *final(self),
                turn,
            ),
    {
        let half_page = self.list.half_page();
        match press_of(key, self.tab) {
            Press::Back => {
                if self.tab == Tab::Commits && self.opened.is_some() {
                    self.leave_commit(disk);
                } else if self.tab == Tab::Commits && self.history_of.is_some() {
                    self.leave_history(disk);
                } else {
                    self.focused = false;
                }
            },
            Press::Close => {
                self.open = false;
                self.focused = false;
            },
            Press::Down => self.list.move_by(1),
            Press::Up => self.list.move_by(-1),
            Press::HalfDown => self.list.move_by(half_page),
            Press::HalfUp => self.list.move_by(-half_page),
            Press::PageDown => self.list.turn_page(true),
            Press::PageUp => self.list.turn_page(false),
            Press::First => self.list.home(),
            Press::Last => self.list.end(),
            Press::Enter => return self.enter_row(disk),
            Press::Right => {
                if self.cursor_on_dir().is_some() {
                    self.expand_dir(disk);
                } else {
                    return self.enter_row(disk);
                }
            },
            Press::Left => self.collapse_or_parent(disk),
            Press::CollapseAll => self.collapse_all(disk),
            Press::Reload => {
                self.queried_at = None;
                self.commits_queried_at = None;
                self.rebuild(disk);
            },
            Press::NextTab => {
                let tab = match self.tab {
                    Tab::Files => Tab::Changes,
                    Tab::Changes => Tab::Commits,
                    Tab::Commits => Tab::Files,
                };
                self.switch_tab(tab, disk);
            },
            Press::New => return self.prompt_new(),
            Press::Rename => return self.prompt_rename(),
            Press::Delete => return self.prompt_delete(),
            Press::Nothing => {},
        }
        Turn::Stay
    }

    pub fn contains(&self, row: u16, column: u16) -> (yes: bool)
        ensures
            yes == (self.open && self.area.covers(row, column)),
    {
        self.open && self.area.contains(row, column)
    }

    /// The tab whose label a column of the header line is on.
    pub open spec fn tab_at(self, column: u16) -> Option<Tab> {
        let (files, changes, commits) = self.tab_columns;
        if files.0 <= column < files.1 {
            Some(Tab::Files)
        } else if changes.0 <= column < changes.1 {
            Some(Tab::Changes)
        } else if commits.0 <= column < commits.1 {
            Some(Tab::Commits)
        } else {
            None
        }
    }

    /// The width a separator dragged to a column gives the tree: it lands where the mouse is,
    /// within what is left to the editor.
    pub open spec fn dragged(self, column: u16, editor_width: u16) -> int {
        let total = screen::capped(self.area.width + editor_width);
        let widest = screen::most(screen::less_by(total, EDITOR_ROOM as int), MIN_WIDTH as int);
        let wanted = screen::capped(screen::less_by(column as int, self.area.x as int) + 1);
        screen::least(screen::most(wanted, MIN_WIDTH as int), widest)
    }

    /// Whether `next` is this tree after a press of the left button on it.
    pub open spec fn clicked(
        self,
        event: MouseEvent,
        disk: Seq<entries::ListingView>,
        next: FileTree,
        turn: Turn,
    ) -> bool {
        let at = FileTree { focused: true, ..self };
        let line = screen::less_by(event.row as int, self.area.y as int);
        let index = self.list.scroll + line - 1;
        if line == 0 {
            &&& turn is Stay
            &&& match self.tab_at(event.column) {
                Some(tab) => at.switched(tab, disk, next),
                None => next == at,
            }
        } else if index >= self.rows.len() {
            turn is Stay && next == at
        } else {
            let on = FileTree { list: List { cursor: index as usize, ..self.list }, ..at };
            if self.tab == Tab::Commits && self.opened is Some && self.shown()[index].dir() is None {
                turn is Stay && on.moved(on.placed(index), next)
            } else {
                exists|row: FileTree| #[trigger]
                    on.entered_row(disk, row, turn) && row.moved(
                        row.placed(row.list.cursor as int),
                        next,
                    )
            }
        }
    }

    /// Whether `next` is this tree after what the mouse did, and `turn` what is to be done.
    pub open spec fn moused(
        self,
        event: MouseEvent,
        editor_width: u16,
        scroll_lines: isize,
        disk: Seq<entries::ListingView>,
        next: FileTree,
        turn: Turn,
    ) -> bool {
        match event.kind {
            MouseEventKind::Down(MouseButton::Left) => if event.column == screen::less_by(
                self.area.end(),
                1,
            ) {
                turn is Stay && next == (FileTree { resizing: true, ..self })
            } else {
                self.clicked(event, disk, next, turn)
            },
            MouseEventKind::Drag(MouseButton::Left) if self.resizing => {
                &&& turn is Stay
                &&& next == (FileTree {
                    width: Some(self.dragged(event.column, editor_width) as u16),
                    ..self
                })
            },
            MouseEventKind::Up(MouseButton::Left) if self.resizing => {
                &&& next == (FileTree { resizing: false, ..self })
                &&& match self.width {
                    Some(width) => turn == Turn::Keep(width),
                    None => turn is Stay,
                }
            },
            MouseEventKind::ScrollDown => turn is Stay && self.moved(
                self.list.scrolled(scroll_lines as int),
                next,
            ),
            MouseEventKind::ScrollUp => turn is Stay && self.moved(
                self.list.scrolled(-scroll_lines),
                next,
            ),
            _ => turn is Stay && next == self,
        }
    }

    fn click(&mut self, event: &MouseEvent, disk: &Vec<Listing>) -> (turn: Turn)
        ensures
            old(self).clicked(*event, entries::listing_views(disk@), *final(self), turn),
    {
        self.focused = true;
        // The first line holds the tabs, not a row.
        let line = rest(event.row, self.area.y) as usize;
        if line == 0 {
            let (files, changes, commits) = self.tab_columns;
            let column = event.column;
            if column >= files.0 && column < files.1 {
                self.switch_tab(Tab::Files, disk);
            } else if column >= changes.0 && column < changes.1 {
                self.switch_tab(Tab::Changes, disk);
            } else if column >= commits.0 && column < commits.1 {
                self.switch_tab(Tab::Commits, disk);
            }
            return Turn::Stay;
        }
        if self.rows.len() < line || self.list.scroll > self.rows.len() - line {
            return Turn::Stay;
        }
        let index = self.list.scroll + (line - 1);
        self.list.cursor = index;
        assert(self.shown()[index as int] == self.rows@[index as int]@);
        // Inside a commit a click on a file only moves the diff there, leaving the keys
        // with the tree to go on reading down the list.
        let selects_only = self.tab == Tab::Commits && self.opened.is_some()
            && self.rows[index].dir().is_none();
        if selects_only {
            self.list.clamp();
            return Turn::Stay;
        }
        let ghost on = *self;
        let turn = self.enter_row(disk);
        let ghost row = *self;
        self.list.clamp();
        assert(on.entered_row(entries::listing_views(disk@), row, turn));
        turn
    }

    /// What the mouse comes to.
    pub fn handle_mouse(
        &mut self,
        event: &MouseEvent,
        editor_width: u16,
        scroll_lines: isize,
        disk: &Vec<Listing>,
    ) -> (turn: Turn)
        requires
            scroll_lines > isize::MIN,
        ensures
            old(self).moused(
                *event,
                editor_width,
                scroll_lines,
                entries::listing_views(disk@),
                *final(self),
                turn,
            ),
    {
        match event.kind {
            MouseEventKind::Down(MouseButton::Left) => {
                let separator = rest(self.area.right(), 1);
                if event.column == separator {
                    self.resizing = true;
                } else {
                    return self.click(event, disk);
                }
            },
            MouseEventKind::Drag(MouseButton::Left) => {
                if self.resizing {
                    // The separator is the tree's last column, so it lands where the mouse is.
                    let total = sum(self.area.width, editor_width);
                    let widest = larger(rest(total, EDITOR_ROOM), MIN_WIDTH);
                    let wanted = sum(rest(event.column, self.area.x), 1);
                    self.width = Some(smaller(larger(wanted, MIN_WIDTH), widest));
                }
            },
            MouseEventKind::Up(MouseButton::Left) => {
                if self.resizing {
                    self.resizing = false;
                    if let Some(width) = self.width {
                        return Turn::Keep(width);
                    }
                }
            },
            MouseEventKind::ScrollDown => self.list.scroll_by(scroll_lines),
            MouseEventKind::ScrollUp => self.list.scroll_by(-scroll_lines),
            _ => {},
        }
        Turn::Stay
    }
}

// ---- What is typed in the prompts ----

/// What a name typed for something new comes to: nothing when it is blank, else a directory when
/// it ends in `/`, or a file.
pub fn to_create(root: &str, input: &str) -> (made: Option<(String, bool)>)
    ensures
        match made {
            None => text::trim(input@).len() == 0,
            Some(made) => {
                &&& text::trim(input@).len() > 0
                &&& made.0@ == path::joined(root@, text::trim(input@))
                &&& made.1 == text::ends_with(text::trim_end(input@), seq!['/'])
            },
        },
{
    let chars = chars_of(input);
    let name = text::trimmed(&chars);
    if name.len() == 0 {
        return None;
    }
    let ended = text::trimmed_end(&chars);
    let is_dir = ended.len() > 0 && ended[ended.len() - 1] == '/';
    proof {
        let end = ended@;
        if end.len() > 0 {
            assert(end.subrange(end.len() - 1, end.len() as int) =~= seq![end.last()]);
            assert(seq![end.last()][0] == end.last());
            assert(seq!['/'][0] == '/');
        }
    }
    Some((join(root, string_of(&name).as_str()), is_dir))
}

/// What another name typed for `source` comes to: nothing when it is blank or the one there is.
pub fn to_rename(root: &str, source: &str, input: &str) -> (target: Option<String>)
    ensures
        ({
            let to = path::joined(root@, files::without_slashes(text::trim(input@)));
            match target {
                None => text::trim(input@).len() == 0 || path::equal(to, source@),
                Some(target) => text::trim(input@).len() > 0 && target@ == to && !path::equal(
                    to,
                    source@,
                ),
            }
        }),
{
    let name = text::trimmed(&chars_of(input));
    if name.len() == 0 {
        return None;
    }
    let target = join(root, string_of(&trim_slashes(&name)).as_str());
    if same(target.as_str(), source) {
        None
    } else {
        Some(target)
    }
}

/// Whether what was typed confirms a deletion.
pub fn confirms(input: &str) -> (yes: bool)
    ensures
        yes == (text::trim(input@) == seq!['y'] || text::trim(input@) == seq!['Y']),
{
    let answer = text::trimmed(&chars_of(input));
    let yes = answer.len() == 1 && (answer[0] == 'y' || answer[0] == 'Y');
    proof {
        assert(seq!['y'][0] == 'y' && seq!['Y'][0] == 'Y');
        if yes {
            assert(answer@ =~= seq![answer@[0]]);
        }
    }
    yes
}

// ---- Rendering ----

/// What came in since the last render.
pub struct Arrivals {
    pub changes: Arrival<Answer<Vec<ChangedFile>>>,
    pub commits: Arrival<(usize, Answer<Vec<Commit>>)>,
    pub preview: Arrival<(DiffTarget, Answer<String>)>,
}

/// What a render asks for and shows: a `git status`, a `git log`, a patch to put in the diff
/// buffer under a name, and a `git show`.
pub struct Wanted {
    pub status: bool,
    pub log: Option<HistoryAsk>,
    pub show: Option<(String, String)>,
    pub patch: Option<DiffTarget>,
}

/// What is drawn on the line of a row.
pub enum LinePaint {
    Entry(EntryPaint),
    Commit(CommitPaint),
}

/// Where a commit is drawn, and how its parts look.
pub struct CommitPaint {
    pub x: u16,
    pub y: u16,
    pub width: u16,
    pub short: String,
    pub subject: String,
    pub time: i64,
    pub hash_style: Style,
    pub subject_style: Style,
}

/// What is drawn below the header line: a message, or the rows that fit, each with whether it
/// is the selected one.
pub enum Body {
    Nothing,
    Message { x: u16, y: u16, width: u16, message: Message },
    Rows(Vec<(bool, LinePaint)>),
}

/// Where the parts of a commit's line stand once its hash was drawn: the subject from a column
/// on, cut to a width, and the age, where there is room for it.
#[derive(Clone, Copy, PartialEq, Eq, Structural, Debug)]
pub struct CommitColumns {
    pub subject_x: u16,
    pub subject_width: u16,
    pub age_x: Option<u16>,
}

/// Where the parts of a commit's line stand, its hash ending before `after_hash` and its age
/// that long.
pub open spec fn commit_columns(
    x: u16,
    width: u16,
    after_hash: u16,
    age: int,
) -> CommitColumns {
    let used = after_hash - x + 1;
    CommitColumns {
        subject_x: screen::capped(after_hash + 1) as u16,
        subject_width: screen::less_by(width as int, used + age + 1) as u16,
        age_x: if width >= used + age {
            Some(screen::capped(x + (width - age)) as u16)
        } else {
            None
        },
    }
}

/// Lays a commit out on one line: its short hash, its subject, and its age at the right edge.
pub fn draw_commit(paint: &CommitPaint, after_hash: u16, now: i64) -> (drawn: (
    CommitColumns,
    String,
))
    requires
        after_hash >= paint.x,
    ensures
        drawn.1@ == age::age(now - paint.time),
        drawn.0 == commit_columns(paint.x, paint.width, after_hash, drawn.1@.len() as int),
{
    let age = format_age(paint.time, now);
    let length = text::length(age.as_str()) as u128;
    let used = (after_hash - paint.x) as u128 + 1;
    let width = paint.width as u128;
    let subject_width: u16 = if width < used + length + 1 {
        0
    } else {
        (width - (used + length + 1)) as u16
    };
    let age_x = if width >= used + length {
        Some(sum(paint.x, (width - length) as u16))
    } else {
        None
    };
    (CommitColumns { subject_x: sum(after_hash, 1), subject_width, age_x }, age)
}

impl FileTree {
    /// Whether `next` is this tree about to be drawn on an area: what went wrong at the start
    /// is said, and the rows that fit are known.
    pub open spec fn readied(self, area: Rect, next: FileTree) -> bool {
        &&& message::said(next.said@) == (match self.width_error {
            Some(err) => message::said(self.said@).push((err@, true)),
            None => message::said(self.said@),
        })
        &&& next == (FileTree {
            said: next.said,
            width_error: None,
            area,
            list: List {
                page: screen::most(screen::less_by(area.height as int, 1), 1) as usize,
                ..self.list
            },
            ..self
        })
    }

    /// Whether `next` is this tree with what came in of the tab on screen taken, and laid out
    /// again where it moved. The Changes tab opened empty, so the current file could not be
    /// marked until its first answer.
    pub open spec fn caught_up(
        self,
        changes: Arrival<Answer<Vec<ChangedFile>>>,
        commits: Arrival<(usize, Answer<Vec<Commit>>)>,
        now: u64,
        disk: Seq<entries::ListingView>,
        next: FileTree,
        status: bool,
        log: Option<HistoryAsk>,
    ) -> bool {
        match self.tab {
            Tab::Files => next == self && !status && log is None,
            Tab::Changes => {
                &&& log is None
                &&& exists|moved: bool, taken: FileTree|
                    {
                        &&& #[trigger] self.took_changes(changes, taken, moved)
                        &&& status == (!taken.pending && is_stale(taken.queried_at, now))
                        &&& if moved {
                            (FileTree {
                                revealed: if self.changes is None {
                                    None
                                } else {
                                    self.revealed
                                },
                                ..taken.asking_changes(now)
                            }).rebuilt(disk, next)
                        } else {
                            next == taken.asking_changes(now)
                        }
                    }
            },
            Tab::Commits => {
                &&& !status
                &&& exists|moved: bool, taken: FileTree|
                    {
                        &&& #[trigger] self.took_page(commits, taken, moved)
                        &&& taken.asks_log(now, log)
                        &&& if moved {
                            taken.asking_commits(now).rebuilt(disk, next)
                        } else {
                            next == taken.asking_commits(now)
                        }
                    }
            },
        }
    }

    /// Whether the file being edited is another than the tree was last moved onto.
    pub open spec fn elsewhere(self, document: Option<Seq<char>>) -> bool {
        match (document, self.revealed) {
            (Some(path), Some(revealed)) => !path::equal(path, revealed@),
            (Some(_), None) => true,
            (None, _) => false,
        }
    }

    /// Whether `next` is this tree moved onto the file being edited when that is another one,
    /// else laid out when it has no rows, and its list kept within them.
    pub open spec fn turned_to(
        self,
        document: Option<Seq<char>>,
        disk: Seq<entries::ListingView>,
        next: FileTree,
    ) -> bool {
        exists|laid: FileTree|
            {
                &&& if self.elsewhere(document) {
                    self.followed(document, disk, laid)
                } else if self.rows.len() == 0 {
                    self.rebuilt(disk, laid)
                } else {
                    laid == self
                }
                &&& #[trigger] laid.moved(laid.placed(laid.list.cursor as int), next)
            }
    }

    /// Whether `next` is this tree as it is drawn, and `wanted` what is asked for and shown.
    pub open spec fn rendered(
        self,
        area: Rect,
        document: Option<Seq<char>>,
        arrivals: Arrivals,
        now: u64,
        disk: Seq<entries::ListingView>,
        next: FileTree,
        wanted: Wanted,
    ) -> bool {
        exists|ready: FileTree, caught: FileTree, turned: FileTree|
            {
                &&& self.readied(area, ready)
                &&& #[trigger] ready.caught_up(
                    arrivals.changes,
                    arrivals.commits,
                    now,
                    disk,
                    caught,
                    wanted.status,
                    wanted.log,
                )
                &&& #[trigger] caught.turned_to(document, disk, turned)
                &&& turned.previews(arrivals.preview, next, wanted.show, wanted.patch)
            }
    }

    /// Takes what came in of the tab on screen.
    fn catch_up(
        &mut self,
        changes: Arrival<Answer<Vec<ChangedFile>>>,
        commits: Arrival<(usize, Answer<Vec<Commit>>)>,
        now: u64,
        disk: &Vec<Listing>,
    ) -> (asked: (bool, Option<HistoryAsk>))
        ensures
            old(self).caught_up(
                changes,
                commits,
                now,
                entries::listing_views(disk@),
                *final(self),
                asked.0,
                asked.1,
            ),
    {
        let ghost start = *self;
        match self.tab {
            Tab::Files => (false, None),
            Tab::Changes => {
                let first_answer = self.changes.is_none();
                let (moved, ask) = self.poll_changes(changes, now);
                let ghost polled = *self;
                proof {
                    let taken = choose|taken: FileTree|
                        {
                            &&& start.took_changes(changes, taken, moved)
                            &&& ask == (!taken.pending && is_stale(taken.queried_at, now))
                            &&& polled == #[trigger] taken.asking_changes(now)
                        };
                    assert(start.took_changes(changes, taken, moved));
                    assert(polled == taken.asking_changes(now));
                    assert(taken.revealed == start.revealed);
                }
                if moved {
                    if first_answer {
                        self.revealed = None;
                    }
                    self.rebuild(disk);
                }
                (ask, None)
            },
            Tab::Commits => {
                let (moved, ask) = self.poll_commits(commits, now);
                let ghost polled = *self;
                proof {
                    let taken = choose|taken: FileTree|
                        {
                            &&& start.took_page(commits, taken, moved)
                            &&& taken.asks_log(now, ask)
                            &&& polled == #[trigger] taken.asking_commits(now)
                        };
                    assert(start.took_page(commits, taken, moved));
                    assert(polled == taken.asking_commits(now));
                }
                if moved {
                    self.rebuild(disk);
                }
                (false, ask)
            },
        }
    }

    /// Moves onto the file being edited when that is another one, else lays the tree out when
    /// it has no rows.
    fn turn_to(&mut self, document: &Option<String>, disk: &Vec<Listing>)
        ensures
            old(self).turned_to(
                text::optional(*document),
                entries::listing_views(disk@),
                *final(self),
            ),
    {
        let elsewhere = match document {
            Some(path) => match &self.revealed {
                Some(revealed) => !same(path.as_str(), revealed.as_str()),
                None => true,
            },
            None => false,
        };
        if elsewhere {
            self.reveal_current(document, disk);
        } else if self.rows.len() == 0 {
            self.rebuild(disk);
        }
        let ghost laid = *self;
        self.list.clamp();
        assert(laid.moved(laid.placed(laid.list.cursor as int), *self));
    }

    /// Brings the tree up to date for being drawn on an area, and tells what is asked for and
    /// shown.
    pub fn render(
        &mut self,
        area: Rect,
        document: &Option<String>,
        arrivals: Arrivals,
        now: u64,
        disk: &Vec<Listing>,
    ) -> (wanted: Wanted)
        ensures
            old(self).rendered(
                area,
                text::optional(*document),
                arrivals,
                now,
                entries::listing_views(disk@),
                *final(self),
                wanted,
            ),
    {
        let ghost start = *self;
        if let Some(err) = self.width_error.take() {
            say(&mut self.said, err, true);
        }
        self.area = area;
        self.list.page = larger(rest(area.height, 1), 1) as usize;
        let ghost ready = *self;
        let Arrivals { changes, commits, preview } = arrivals;
        let (status, log) = self.catch_up(changes, commits, now, disk);
        let ghost caught = *self;
        self.turn_to(document, disk);
        let ghost turned = *self;
        let (show, patch) = self.poll_preview(preview);
        let wanted = Wanted { status, log, show, patch };
        proof {
            let held = entries::listing_views(disk@);
            assert(start.readied(area, ready));
            let path = text::optional(*document);
            assert(ready.caught_up(
                arrivals.changes,
                arrivals.commits,
                now,
                held,
                caught,
                wanted.status,
                wanted.log,
            ));
            assert(caught.turned_to(path, held, turned));
            assert(turned.previews(arrivals.preview, *self, wanted.show, wanted.patch));
            assert(start.rendered(area, path, arrivals, now, held, *self, wanted));
        }
        wanted
    }

    /// Where the line between the tree and the editor is drawn: its last column.
    pub fn separator(&self) -> (line: Rect)
        ensures
            line.x == screen::less_by(self.area.end(), 1),
            line.y == self.area.y,
            line.width == 1,
            line.height == self.area.floor() - self.area.y,
    {
        Rect {
            x: rest(self.area.right(), 1),
            y: self.area.y,
            width: 1,
            height: rest(self.area.bottom(), self.area.y),
        }
    }

    /// What the tabs read as: how many files changed, and whose history is listed.
    pub fn labels(&self) -> (labels: (String, String, String))
        ensures
            labels.0@ == "Files"@,
            labels.1@ == (match self.changes {
                Some(Ok(files)) if files.len() > 0 => "Changes "@ + number::decimal(
                    files.len() as nat,
                ),
                _ => "Changes"@,
            }),
            labels.2@ == (match self.history_of {
                Some(path) => match path::name_of(path@) {
                    Some(name) => "History "@ + name,
                    None => "Commits"@,
                },
                None => "Commits"@,
            }),
    {
        let changes = match &self.changes {
            Some(Ok(files)) => if files.len() > 0 {
                told("Changes ", to_decimal(files.len() as u64).as_str())
            } else {
                "Changes".to_owned()
            },
            _ => "Changes".to_owned(),
        };
        let commits = match &self.history_of {
            Some(path) => match file_name(path.as_str()) {
                Some(name) => told("History ", name.as_str()),
                None => "Commits".to_owned(),
            },
            None => "Commits".to_owned(),
        };
        ("Files".to_owned(), changes, commits)
    }

    /// Where the labels of the tabs stand, given the columns the ones drawn so far ended
    /// before: the column of the next and the room left for it, two columns after the last.
    pub fn label_room(&self, last_end: Option<u16>) -> (place: (u16, u16))
        ensures
            place.0 == (match last_end {
                None => screen::capped(self.area.x + 1),
                Some(end) => screen::capped(end + 2),
            }),
            place.1 == screen::less_by(screen::less_by(self.area.end(), 1), place.0 as int),
    {
        let x = match last_end {
            None => sum(self.area.x, 1),
            Some(end) => sum(end, 2),
        };
        (x, rest(rest(self.area.right(), 1), x))
    }

    /// How the label of a tab looks: the one on screen stands out.
    pub fn label_style(&self, tab: Tab) -> (style: Style)
        ensures
            style == if tab == self.tab {
                (Style { scope: Scope::Directory, bold: true, over: None })
            } else {
                (Style { scope: Scope::Inactive, bold: false, over: None })
            },
    {
        if tab == self.tab {
            Style { scope: Scope::Directory, bold: true, over: None }
        } else {
            Style { scope: Scope::Inactive, bold: false, over: None }
        }
    }

    /// Remembers where the labels were drawn.
    pub fn labels_drawn(&mut self, columns: ((u16, u16), (u16, u16), (u16, u16)))
        ensures
            *final(self) == (FileTree { tab_columns: columns, ..*old(self) }),
    {
        self.tab_columns = columns;
    }

    /// What is said in place of rows.
    pub open spec fn empty_text(self) -> Option<(Seq<char>, bool)> {
        match self.tab {
            Tab::Files => None,
            Tab::Changes => Some(
                match self.changes {
                    None => ("reading git status…"@, false),
                    Some(Ok(_)) => ("no changes"@, false),
                    Some(Err(err)) => (err@, true),
                },
            ),
            Tab::Commits => Some(
                match self.commits {
                    None => ("reading git log…"@, false),
                    Some(Ok(_)) => ("no commits"@, false),
                    Some(Err(err)) => (err@, true),
                },
            ),
        }
    }

    fn empty_message(&self) -> (message: Option<Message>)
        ensures
            match message {
                Some(message) => self.empty_text() == Some((message.text@, message.is_error)),
                None => self.empty_text() is None,
            },
    {
        let (answered, reading, nothing) = match self.tab {
            Tab::Files => return None,
            Tab::Changes => (
                match &self.changes {
                    None => None,
                    Some(Ok(_)) => Some(None),
                    Some(Err(err)) => Some(Some(err.clone())),
                },
                "reading git status…",
                "no changes",
            ),
            Tab::Commits => (
                match &self.commits {
                    None => None,
                    Some(Ok(_)) => Some(None),
                    Some(Err(err)) => Some(Some(err.clone())),
                },
                "reading git log…",
                "no commits",
            ),
        };
        Some(
            match answered {
                None => Message { text: reading.to_owned(), is_error: false },
                Some(None) => Message { text: nothing.to_owned(), is_error: false },
                Some(Some(err)) => Message { text: err, is_error: true },
            },
        )
    }

    /// How many rows are drawn.
    pub open spec fn drawn(self) -> int {
        screen::least(
            screen::less_by(self.rows.len() as int, self.list.scroll as int),
            self.list.page as int,
        )
    }

    /// Whether a row is the selected one.
    pub open spec fn selects(self, index: int) -> bool {
        index == self.list.cursor && self.focused
    }

    /// Whether that is what is drawn for the row on a line of the screen.
    pub open spec fn line_drawn(
        self,
        document: Option<Seq<char>>,
        line: int,
        drawn: (bool, LinePaint),
    ) -> bool {
        let index = self.list.scroll + line;
        let y = screen::capped(self.area.y + 1 + line) as u16;
        let content = screen::less_by(self.area.width as int, 1);
        let over = if self.selects(index) {
            Some(Mark::Focused)
        } else {
            None
        };
        &&& drawn.0 == self.selects(index)
        &&& match self.shown()[index] {
            entries::RowView::Commit(row) => drawn.1 matches LinePaint::Commit(paint) && {
                &&& paint.x == screen::capped(self.area.x + 1)
                &&& paint.y == y
                &&& paint.width == screen::less_by(content, 1)
                &&& paint.short@ == row.short
                &&& paint.subject@ == row.subject
                &&& paint.time == row.time
                &&& paint.hash_style == (Style {
                    scope: if self.selects(index) {
                        Scope::Text
                    } else {
                        Scope::Inactive
                    },
                    bold: row.head,
                    over,
                })
                &&& paint.subject_style == (Style { scope: Scope::Text, bold: row.head, over })
            },
            entries::RowView::Entry(entry) => drawn.1 matches LinePaint::Entry(paint)
                && entries::entry_laid(
                paint,
                RowPaint {
                    line: Rect { x: self.area.x, y, width: content as u16, height: 1 },
                    selected: over,
                    current: document matches Some(path) && path::equal(path, entry.path),
                },
                entry,
                self.opens(entry.path),
                screen::most(screen::less_by(self.area.end(), 3), self.area.x as int),
            ),
        }
    }

    /// Lays one row out on its line.
    fn draw_line(&self, document: &Option<String>, line: usize) -> (drawn: (bool, LinePaint))
        requires
            self.list.scroll + line < self.rows.len(),
        ensures
            self.line_drawn(text::optional(*document), line as int, drawn),
    {
        let index = self.list.scroll + line;
        assert(self.shown()[index as int] == self.rows@[index as int]@);
        let y: u16 = if self.area.y as u128 + 1 + (line as u128) < 0xffff {
            (self.area.y as u128 + 1 + line as u128) as u16
        } else {
            0xffff
        };
        let content = rest(self.area.width, 1);
        let selected = index == self.list.cursor && self.focused;
        let over = if selected {
            Some(Mark::Focused)
        } else {
            None
        };
        match &self.rows[index] {
            Row::Commit(row) => {
                // The selection's background can be the dimmed colour itself, so a selected
                // row draws its hash and age in the text's colour.
                let scope = if selected {
                    Scope::Text
                } else {
                    Scope::Inactive
                };
                (
                    selected,
                    LinePaint::Commit(
                        CommitPaint {
                            x: sum(self.area.x, 1),
                            y,
                            width: rest(content, 1),
                            short: row.short.clone(),
                            subject: row.subject.clone(),
                            time: row.time,
                            hash_style: Style { scope, bold: row.head, over },
                            subject_style: Style { scope: Scope::Text, bold: row.head, over },
                        },
                    ),
                )
            },
            Row::Entry(entry) => {
                let current = match document {
                    Some(path) => same(path.as_str(), entry.path.as_str()),
                    None => false,
                };
                let paint = RowPaint {
                    line: Rect { x: self.area.x, y, width: content, height: 1 },
                    selected: over,
                    current,
                };
                let open = self.is_expanded(entry.path.as_str());
                let letter_x = larger(rest(self.area.right(), 3), self.area.x);
                (selected, LinePaint::Entry(lay_entry(&paint, entry, open, letter_x)))
            },
        }
    }

    /// Lays out what is drawn below the header line.
    pub fn body(&self, document: &Option<String>) -> (body: Body)
        ensures
            if self.rows.len() == 0 {
                match self.empty_text() {
                    None => body is Nothing,
                    Some(text) => body matches Body::Message { x, y, width, message } && {
                        &&& x == screen::capped(self.area.x + 1)
                        &&& y == screen::capped(self.area.y + 1)
                        &&& width == screen::less_by(
                            screen::less_by(self.area.width as int, 1),
                            1,
                        )
                        &&& (message.text@, message.is_error) == text
                    },
                }
            } else {
                body matches Body::Rows(lines) && {
                    &&& lines@.len() == self.drawn()
                    &&& forall|line: int|
                        0 <= line < lines@.len() ==> self.line_drawn(
                            text::optional(*document),
                            line,
                            #[trigger] lines@[line],
                        )
                }
            },
    {
        if self.rows.len() == 0 {
            return match self.empty_message() {
                None => Body::Nothing,
                Some(message) => Body::Message {
                    x: sum(self.area.x, 1),
                    y: sum(self.area.y, 1),
                    width: rest(rest(self.area.width, 1), 1),
                    message,
                },
            };
        }
        let mut lines: Vec<(bool, LinePaint)> = Vec::new();
        while lines.len() < self.list.page && self.list.scroll < self.rows.len() && lines.len()
            < self.rows.len() - self.list.scroll
            invariant
                lines@.len() <= self.drawn(),
                forall|line: int|
                    0 <= line < lines@.len() ==> self.line_drawn(
                        text::optional(*document),
                        line,
                        #[trigger] lines@[line],
                    ),
            decreases self.list.page - lines.len(),
        {
            let line = self.draw_line(document, lines.len());
            lines.push(line);
        }
        Body::Rows(lines)
    }
}

// ---- What holds of the tree ----

/// Leaving a commit that was opened from the history, while that has not moved, puts the list
/// back where it stood.
pub proof fn law_leaving_a_commit_comes_back(
    tree: FileTree,
    inside: FileTree,
    prefix: Seq<char>,
    files: Seq<git::ChangedFileView>,
    commits: Vec<Commit>,
)
    requires
        tree.tab == Tab::Commits,
        tree.opened is None,
        tree.commits == Some(Ok::<Vec<Commit>, String>(commits)),
        tree.list.cursor < commits.len(),
        first_hash(git::commit_views(commits@), commits@[tree.list.cursor as int].hash@)
            == tree.list.cursor,
        tree.entered(commits@[tree.list.cursor as int]@, prefix, files, inside),
    ensures
        inside.left().list.cursor == tree.list.cursor,
        inside.left().list.scroll == tree.list.scroll,
        inside.left().opened is None,
        inside.left().commits == tree.commits,
{
}

/// However the separator is dragged, the tree keeps its least width, and leaves the editor its
/// room where there is that much.
pub proof fn law_dragging_leaves_room(tree: FileTree, column: u16, editor_width: u16)
    ensures
        MIN_WIDTH <= tree.dragged(column, editor_width),
        tree.area.width + editor_width >= MIN_WIDTH + EDITOR_ROOM ==> tree.dragged(
            column,
            editor_width,
        ) + EDITOR_ROOM <= tree.area.width + editor_width,
{
}

/// A page of history that does not start where the list ends is dropped: the list holds
/// consecutive commits.
pub proof fn law_a_stray_page_changes_nothing(
    tree: FileTree,
    skip: usize,
    commits: Vec<Commit>,
    held: Vec<Commit>,
    next: FileTree,
    moved: bool,
)
    requires
        tree.commits == Some(Ok::<Vec<Commit>, String>(held)),
        skip > 0,
        skip != held.len(),
        tree.took_commits(skip, Ok(commits), next, moved),
    ensures
        next == tree,
        !moved,
{
}

/// Inside an opened commit the diff is of the row under the cursor: the whole commit below the
/// root on its own row, the files of a directory on the directory, and one file, with where it
/// came from, on the file. Anywhere else there is none.
pub proof fn law_the_diff_is_of_the_row_under_the_cursor(tree: FileTree, opened: OpenCommit)
    requires
        tree.root@.len() > 0,
        tree.opened == Some(opened),
    ensures
        tree.tab != Tab::Commits ==> tree.diff_of() is None,
        tree.list.cursor >= tree.rows.len() ==> tree.diff_of() is None,
        tree.tab == Tab::Commits && tree.list.cursor < tree.rows.len() ==> {
            let top = seq![':', '(', 't', 'o', 'p', ',', 'l', 'i', 't', 'e', 'r', 'a', 'l', ')'];
            match tree.shown()[tree.list.cursor as int] {
                entries::RowView::Commit(row) => if row.head {
                    &&& tree.diff_of() matches Some(target)
                    &&& target.hash == opened.commit.hash@
                    &&& target.name == opened.commit.short@
                    &&& target.pathspecs.len() == if opened.prefix@.len() == 0 {
                        0nat
                    } else {
                        1nat
                    }
                    &&& opened.prefix@.len() > 0 ==> target.pathspecs[0] == top + opened.prefix@
                } else {
                    tree.diff_of() is None
                },
                entries::RowView::Entry(entry) => {
                    &&& tree.diff_of() matches Some(target)
                    &&& target.hash == opened.commit.hash@
                    &&& target.name.len() >= opened.commit.short@.len() + 1 + entry.name.len()
                    &&& target.name.subrange(
                        0,
                        (opened.commit.short@.len() + 1 + entry.name.len()) as int,
                    ) == opened.commit.short@ + seq![' '] + entry.name
                    &&& target.name.len() == opened.commit.short@.len() + entry.name.len() + if entry.is_dir {
                        2int
                    } else {
                        1
                    }
                    &&& entry.is_dir ==> target.name.last() == '/'
                    &&& 1 <= target.pathspecs.len() <= 2
                    &&& path::below(entry.path, tree.root@) ==> exists|inside: Seq<char>|
                        {
                            &&& target.pathspecs[0] == #[trigger] (top + opened.prefix@ + inside)
                            &&& !path::absolute(inside)
                            &&& path::equal(path::joined(tree.root@, inside), entry.path)
                        }
                    &&& entry.is_dir ==> target.pathspecs.len() == 1
                    &&& target.pathspecs.len() == 2 ==> exists|i: int|
                        {
                            let file = git::file_views(opened.files@)[i];
                            &&& 0 <= i < opened.files@.len()
                            &&& path::equal(#[trigger] git::file_views(opened.files@)[i].path, entry.path)
                            &&& file.from matches Some(from) && target.pathspecs[1] == top + from
                        }
                    &&& forall|i: int|
                        0 <= i < opened.files@.len() && !entry.is_dir && path::equal(
                            #[trigger] git::file_views(opened.files@)[i].path,
                            entry.path,
                        ) && target.pathspecs.len() == 1 ==> exists|j: int|
                            {
                                &&& 0 <= j <= i
                                &&& path::equal(
                                    git::file_views(opened.files@)[j].path,
                                    entry.path,
                                )
                                &&& (#[trigger] git::file_views(opened.files@)[j]).from is None
                            }
                },
            }
        },
{
    let top = seq![':', '(', 't', 'o', 'p', ',', 'l', 'i', 't', 'e', 'r', 'a', 'l', ')'];
    reveal_strlit(":(top,literal)");
    reveal_strlit(" ");
    reveal_strlit("/");
    assert(":(top,literal)"@ =~= top);
    assert(" "@ =~= seq![' ']);
    if tree.tab == Tab::Commits && tree.list.cursor < tree.rows.len() {
        match tree.shown()[tree.list.cursor as int] {
            entries::RowView::Commit(row) => {},
            entries::RowView::Entry(entry) => {
                let target = tree.diff_of()->0;
                let short = opened.commit.short@;
                let files = git::file_views(opened.files@);
                assert(target.name.subrange(0, (short.len() + 1 + entry.name.len()) as int) =~= short + seq![
                    ' ',
                ] + entry.name);
                if path::below(entry.path, tree.root@) {
                    path::law_stripped_joins_back(entry.path, tree.root@);
                    let inside = path::stripped(entry.path, tree.root@)->0;
                    assert(target.pathspecs[0] =~= top + opened.prefix@ + inside);
                }
                lemma_source_of(files, entry.path);
                if target.pathspecs.len() == 2 {
                    let i = choose|i: int|
                        0 <= i < files.len() && path::equal(#[trigger] files[i].path, entry.path)
                            && files[i].from == FileTree::source_of(files, entry.path);
                    assert(path::equal(files[i].path, entry.path));
                }
            },
        }
    }
}

/// Where a file came from is told by the first that has its path.
proof fn lemma_source_of(files: Seq<git::ChangedFileView>, path: Seq<char>)
    ensures
        FileTree::source_of(files, path) is Some ==> exists|i: int|
            0 <= i < files.len() && path::equal(#[trigger] files[i].path, path) && files[i].from
                == FileTree::source_of(files, path),
        FileTree::source_of(files, path) is None ==> forall|i: int|
            0 <= i < files.len() && path::equal(#[trigger] files[i].path, path) ==> exists|j: int|
                0 <= j <= i && path::equal(files[j].path, path) && (
                #[trigger] files[j]).from is None,
    decreases files.len(),
{
    if files.len() > 0 {
        if path::equal(files[0].path, path) {
            assert(files[0].from == FileTree::source_of(files, path));
        } else {
            let rest = files.skip(1);
            lemma_source_of(rest, path);
            if FileTree::source_of(files, path) is Some {
                let i = choose|i: int|
                    0 <= i < rest.len() && path::equal(#[trigger] rest[i].path, path)
                        && rest[i].from == FileTree::source_of(rest, path);
                assert(files[i + 1] == rest[i]);
                assert(path::equal(files[i + 1].path, path));
            } else {
                assert forall|i: int|
                    0 <= i < files.len() && path::equal(
                        #[trigger] files[i].path,
                        path,
                    ) implies exists|j: int|
                    0 <= j <= i && path::equal(files[j].path, path) && (
                    #[trigger] files[j]).from is None by {
                    assert(rest[i - 1] == files[i]);
                    assert(path::equal(rest[i - 1].path, path));
                    let j = choose|j: int|
                        0 <= j <= i - 1 && path::equal(rest[j].path, path) && (
                        #[trigger] rest[j]).from is None;
                    assert(files[j + 1] == rest[j]);
                    assert(files[j + 1].from is None);
                }
            }
        }
    }
}

// ---- Rows ----

/// The row above is the nearest one before that is less deep: each row between is as deep or
/// deeper.
pub proof fn law_the_row_above_is_the_nearest(rows: Seq<entries::RowView>, n: int, depth: int)
    requires
        0 <= n <= rows.len(),
    ensures
        match parent_row(rows, n, depth) {
            Some(at) => 0 <= at < n && rows[at].depth() < depth && forall|i: int|
                at < i < n ==> (#[trigger] rows[i]).depth() >= depth,
            None => forall|i: int| 0 <= i < n ==> (#[trigger] rows[i]).depth() >= depth,
        },
    decreases n,
{
    if n > 0 && rows[n - 1].depth() >= depth {
        law_the_row_above_is_the_nearest(rows, n - 1, depth);
    }
}

/// The directories among some rows are those rows' that are of directories, and no other.
pub proof fn law_the_directories_are_those_of_the_rows(rows: Seq<entries::RowView>)
    ensures
        forall|i: int|
            0 <= i < rows.len() && (#[trigger] rows[i]).dir() is Some ==> dirs_of(rows).contains(
                rows[i].dir()->0,
            ),
        forall|k: int|
            0 <= k < dirs_of(rows).len() ==> is_dir_of(rows, #[trigger] dirs_of(rows)[k]),
    decreases rows.len(),
{
    if rows.len() > 0 {
        let less = rows.drop_last();
        let before = dirs_of(less);
        let all = dirs_of(rows);
        law_the_directories_are_those_of_the_rows(less);
        assert forall|i: int|
            0 <= i < rows.len() && (#[trigger] rows[i]).dir() is Some implies all.contains(
            rows[i].dir()->0,
        ) by {
            if i < less.len() {
                assert(less[i] == rows[i]);
                let k = choose|k: int| 0 <= k < before.len() && before[k] == rows[i].dir()->0;
                assert(all[k] == before[k]);
            } else {
                assert(all[all.len() - 1] == rows[i].dir()->0);
            }
        }
        assert forall|k: int| 0 <= k < all.len() implies is_dir_of(rows, #[trigger] all[k]) by {
            if k < before.len() {
                assert(all[k] == before[k]);
                let i = choose|i: int|
                    0 <= i < less.len() && (#[trigger] less[i]).dir() == Some(before[k]);
                assert(rows[i] == less[i]);
            } else {
                assert(rows[rows.len() - 1].dir() == Some(all[k]));
            }
        }
    }
}

/// Whether one of some rows is that directory's.
pub open spec fn is_dir_of(rows: Seq<entries::RowView>, dir: Seq<char>) -> bool {
    exists|i: int| 0 <= i < rows.len() && (#[trigger] rows[i]).dir() == Some(dir)
}

// ---- What the keys and the mouse do ----

/// Where the cursor goes by so many rows: no further than the first and the last.
pub open spec fn stepped(cursor: int, by: int, len: int) -> int {
    if cursor + by < 0 {
        0
    } else if cursor + by >= len {
        len - 1
    } else {
        cursor + by
    }
}

/// The keys that move the cursor move it by a row, a screen or half a screen, or to an end, no
/// further than there are rows; nothing else changes.
pub proof fn law_keys_move_the_cursor(
    tree: FileTree,
    key: KeyEvent,
    disk: Seq<entries::ListingView>,
    next: FileTree,
    turn: Turn,
)
    requires
        tree.acted(pressed(key, tree.tab), disk, next, turn),
        tree.list.cursor < tree.list.len,
    ensures
        ({
            let cursor = tree.list.cursor as int;
            let page = tree.list.page as int;
            let len = tree.list.len as int;
            let half = if page < 2 {
                1
            } else {
                page / 2
            };
            let held = key.modifiers;
            let alone = !held.control && !held.shift && !held.alt && !held.command;
            let ctrl = held.control && !held.shift && !held.alt && !held.command;
            let by: Option<int> = match key.code {
                KeyCode::Down => Some(1),
                KeyCode::Char('j') if alone => Some(1),
                KeyCode::Up => Some(-1),
                KeyCode::Char('k') if alone => Some(-1),
                KeyCode::PageDown => Some(page),
                KeyCode::PageUp => Some(-page),
                KeyCode::Home => Some(-len),
                KeyCode::End => Some(len),
                KeyCode::Char('d') if ctrl => Some(half),
                KeyCode::Char('u') if ctrl => Some(-half),
                _ => None,
            };
            by matches Some(by) ==> {
                &&& turn is Stay
                &&& next.list.cursor == stepped(cursor, by, len)
                &&& next == (FileTree { list: next.list, ..tree })
            }
        }),
{
}

/// The letters stand for the keys beside them, and those that act on the disk do nothing in the
/// history, which is not the disk.
pub proof fn law_letters_stand_for_keys(key: KeyEvent, tab: Tab)
    requires
        !key.modifiers.control && !key.modifiers.shift && !key.modifiers.alt
            && !key.modifiers.command,
    ensures
        key.code == KeyCode::Char('l') || key.code == KeyCode::Right ==> pressed(key, tab)
            == Press::Right,
        key.code == KeyCode::Char('h') || key.code == KeyCode::Left ==> pressed(key, tab)
            == Press::Left,
        key.code == KeyCode::Char('H') ==> pressed(key, tab) == Press::CollapseAll,
        key.code == KeyCode::Char('R') ==> pressed(key, tab) == Press::Reload,
        key.code == KeyCode::Char('q') ==> pressed(key, tab) == Press::Close,
        key.code == KeyCode::Esc ==> pressed(key, tab) == Press::Back,
        key.code == KeyCode::Enter ==> pressed(key, tab) == Press::Enter,
        key.code == KeyCode::Tab ==> pressed(key, tab) == Press::NextTab,
        key.code == KeyCode::Char('a') ==> pressed(key, tab) == if tab == Tab::Commits {
            Press::Nothing
        } else {
            Press::New
        },
        key.code == KeyCode::Char('r') ==> pressed(key, tab) == if tab == Tab::Commits {
            Press::Nothing
        } else {
            Press::Rename
        },
        key.code == KeyCode::Char('d') ==> pressed(key, tab) == if tab == Tab::Commits {
            Press::Nothing
        } else {
            Press::Delete
        },
{
}

/// Three tabs on is the same tab, and none is passed over.
pub proof fn law_three_tabs_come_round(tab: Tab)
    ensures
        tab_after(tab_after(tab_after(tab))) == tab,
        tab_after(tab) != tab,
        tab_after(tab_after(tab)) != tab,
        tab_after(Tab::Files) == Tab::Changes,
{
}

proof fn lemma_refolded_one(
    tree: FileTree,
    dir: Seq<char>,
    open: bool,
    disk: Seq<entries::ListingView>,
    next: FileTree,
    other: Seq<char>,
)
    requires
        tree.refolded(dir, open, disk, next),
        tree.tab == Tab::Commits ==> tree.opened is Some,
    ensures
        next.tab == tree.tab,
        next.opens(dir) == open,
        !path::equal(dir, other) ==> next.opens(other) == tree.opens(other),
{
    let between = choose|between: FileTree|
        tree.folded(set![path::components(dir)], open, between) && #[trigger] between.rebuilt(
            disk,
            next,
        );
    match tree.tab {
        Tab::Files => entries::law_setting_a_fold_sets_that_one(tree.expanded@, dir, open, other),
        Tab::Changes => entries::law_setting_a_fold_sets_that_one(
            tree.collapsed@,
            dir,
            open,
            other,
        ),
        Tab::Commits => entries::law_setting_a_fold_sets_that_one(
            tree.opened->0.folds@,
            dir,
            open,
            other,
        ),
    }
}

/// Toggling opens the directory under the cursor when it is closed and closes it when it is
/// open, and no other; opening leaves an open one as it is.
pub proof fn law_toggling_turns_the_directory_under_the_cursor(
    tree: FileTree,
    disk: Seq<entries::ListingView>,
    next: FileTree,
    other: Seq<char>,
)
    requires
        tree.dir_under() is Some,
        tree.tab == Tab::Commits ==> tree.opened is Some,
    ensures
        ({
            let dir = tree.shown()[tree.list.cursor as int].path()->0;
            &&& tree.toggled(disk, next) ==> next.opens(dir) == !tree.opens(dir) && (!path::equal(
                dir,
                other,
            ) ==> next.opens(other) == tree.opens(other))
            &&& tree.unfolded(disk, next) ==> next.opens(dir) && (!path::equal(dir, other)
                ==> next.opens(other) == tree.opens(other))
            &&& tree.unfolded(disk, next) && tree.opens(dir) ==> next == tree
        }),
{
    let dir = tree.dir_under()->0;
    if tree.toggled(disk, next) {
        lemma_refolded_one(tree, dir, !tree.opens(dir), disk, next, other);
    }
    if tree.unfolded(disk, next) && !tree.opens(dir) {
        lemma_refolded_one(tree, dir, true, disk, next, other);
    }
}

/// Closing every directory closes each one that has a row.
pub proof fn law_closing_all_closes_each_row(
    tree: FileTree,
    disk: Seq<entries::ListingView>,
    next: FileTree,
    i: int,
)
    requires
        tree.all_folded(disk, next),
        tree.tab == Tab::Commits ==> tree.opened is Some,
        0 <= i < tree.shown().len(),
        tree.shown()[i].dir() is Some,
    ensures
        next.tab == tree.tab,
        !next.opens(tree.shown()[i].path()->0),
{
    let between = choose|between: FileTree|
        tree.closed(between) && #[trigger] between.rebuilt(disk, next);
    let dirs = dirs_of(tree.shown());
    law_the_directories_are_those_of_the_rows(tree.shown());
    let dir = tree.shown()[i].dir()->0;
    let k = choose|k: int| 0 <= k < dirs.len() && dirs[k] == dir;
    match tree.tab {
        Tab::Files => entries::law_closing_all_closes_each(tree.expanded@, dirs, k),
        Tab::Changes => entries::law_closing_all_closes_each(tree.collapsed@, dirs, k),
        Tab::Commits => entries::law_closing_all_closes_each(tree.opened->0.folds@, dirs, k),
    }
}

/// Stepping back from a row closes an open directory; from any other row that is in one the
/// cursor goes to that one's row, the nearest above that is less deep, and nothing is folded.
pub proof fn law_stepping_back_closes_or_goes_up(
    tree: FileTree,
    disk: Seq<entries::ListingView>,
    next: FileTree,
)
    requires
        tree.collapsed_or_up(disk, next),
        tree.tab == Tab::Commits ==> tree.opened is Some,
        tree.list.len == tree.rows.len(),
        tree.list.cursor < tree.rows.len(),
    ensures
        ({
            let rows = tree.shown();
            let cursor = tree.list.cursor as int;
            let row = rows[cursor];
            let on_open = row.dir() matches Some(dir) && tree.opens(dir);
            &&& on_open ==> !next.opens(row.dir()->0)
            &&& !on_open ==> next == (FileTree { list: next.list, ..tree })
            &&& !on_open && row.depth() == 0 ==> next == tree
            &&& !on_open && row.depth() > 0 && (exists|i: int|
                0 <= i < cursor && (#[trigger] rows[i]).depth() < row.depth()) ==> {
                let at = next.list.cursor as int;
                &&& at < cursor
                &&& rows[at].depth() < row.depth()
                &&& forall|i: int|
                    at < i < cursor ==> (#[trigger] rows[i]).depth() >= row.depth()
            }
        }),
{
    let rows = tree.shown();
    let cursor = tree.list.cursor as int;
    let row = rows[cursor];
    let on_open = row.dir() matches Some(dir) && tree.opens(dir);
    if on_open {
        lemma_refolded_one(tree, row.dir()->0, false, disk, next, Seq::empty());
    } else {
        law_the_row_above_is_the_nearest(rows, cursor, row.depth());
    }
}

/// The first row that goes by a path does, and none before it.
pub proof fn law_the_first_row_of_a_path_is_found(rows: Seq<entries::RowView>, path: Seq<char>)
    ensures
        ({
            let at = first_on(rows, path);
            &&& 0 <= at <= rows.len()
            &&& at < rows.len() ==> is_on(rows[at], path)
            &&& forall|i: int| 0 <= i < at ==> !is_on(#[trigger] rows[i], path)
        }),
    decreases rows.len(),
{
    if rows.len() > 0 && !is_on(rows[0], path) {
        let rest = rows.skip(1);
        law_the_first_row_of_a_path_is_found(rest, path);
        let at = first_on(rows, path);
        if at < rows.len() {
            assert(rest[at - 1] == rows[at]);
        }
        assert forall|i: int| 0 <= i < at implies !is_on(#[trigger] rows[i], path) by {
            if i > 0 {
                assert(rest[i - 1] == rows[i]);
            }
        }
    }
}

/// However the rows are laid out again, the cursor is on the path it was on when that has a row
/// still.
pub proof fn law_the_cursor_stays_on_its_path(
    tree: FileTree,
    disk: Seq<entries::ListingView>,
    next: FileTree,
    path: Seq<char>,
    i: int,
)
    requires
        tree.rebuilt(disk, next),
        tree.list.cursor < tree.rows.len(),
        tree.shown()[tree.list.cursor as int].path() == Some(path),
        path.len() > 0,
        0 <= i < next.shown().len(),
        next.shown()[i].path() is Some,
        path::equal(next.shown()[i].path()->0, path),
    ensures
        next.list.cursor < next.rows.len(),
        next.shown()[next.list.cursor as int].path() is Some,
        path::equal(next.shown()[next.list.cursor as int].path()->0, path),
{
    let rows = next.shown();
    law_the_first_row_of_a_path_is_found(rows, path);
    assert(is_on(rows[i], path));
    let at = first_on(rows, path);
    assert(at <= i);
    assert(is_on(rows[at], path));
}

/// A commit is found by its hash exactly when it is in the history, the first of that hash.
pub proof fn law_a_commit_is_found_by_its_hash(commits: Seq<git::CommitView>, hash: Seq<char>)
    ensures
        ({
            let at = first_hash(commits, hash);
            &&& 0 <= at <= commits.len()
            &&& at < commits.len() ==> commits[at].hash == hash
            &&& forall|i: int| 0 <= i < at ==> (#[trigger] commits[i]).hash != hash
        }),
    decreases commits.len(),
{
    if commits.len() > 0 && commits[0].hash != hash {
        let rest = commits.skip(1);
        law_a_commit_is_found_by_its_hash(rest, hash);
        let at = first_hash(commits, hash);
        if at < commits.len() {
            assert(rest[at - 1] == commits[at]);
        }
        assert forall|i: int| 0 <= i < at implies (#[trigger] commits[i]).hash != hash by {
            if i > 0 {
                assert(rest[i - 1] == commits[i]);
            }
        }
    }
}

/// When the history is replaced the cursor stays on its commit, wherever that one is now.
pub proof fn law_the_cursor_stays_on_its_commit(
    tree: FileTree,
    held: Vec<Commit>,
    commits: Seq<git::CommitView>,
    i: int,
)
    requires
        tree.commits == Some(Ok::<Vec<Commit>, String>(held)),
        tree.shown() == history_rows(git::commit_views(held@)),
        tree.list.cursor < held.len(),
        0 <= i < commits.len(),
        commits[i].hash == held@[tree.list.cursor as int].hash@,
    ensures
        0 <= tree.kept_on(commits) < commits.len(),
        commits[tree.kept_on(commits)].hash == held@[tree.list.cursor as int].hash@,
{
    let cursor = tree.list.cursor as int;
    let hash = held@[cursor].hash@;
    law_a_commit_is_found_by_its_hash(commits, hash);
    assert(first_hash(commits, hash) <= i);
    assert(tree.shown().len() == held.len());
    assert(tree.shown()[cursor] == history_row(git::commit_views(held@)[cursor], cursor));
}

/// A page that starts where the list ends is put after it, and every commit stays in its place;
/// the top page replaces the list when another commit is the newest, and else changes nothing.
pub proof fn law_pages_follow_on_one_another(
    tree: FileTree,
    skip: usize,
    commits: Vec<Commit>,
    held: Vec<Commit>,
    next: FileTree,
    moved: bool,
    i: int,
)
    requires
        tree.commits == Some(Ok::<Vec<Commit>, String>(held)),
        tree.took_commits(skip, Ok(commits), next, moved),
    ensures
        skip > 0 && skip == held.len() ==> moved && (next.commits matches Some(Ok(all)) && {
            &&& all@.len() == held@.len() + commits@.len()
            &&& 0 <= i < held@.len() ==> all@[i]@ == held@[i]@
            &&& 0 <= i < commits@.len() ==> all@[held@.len() + i]@ == commits@[i]@
        }),
        skip == 0 && held.len() > 0 && commits.len() > 0 && held@[0].hash@ == commits@[0].hash@
            ==> next == tree && !moved,
        skip == 0 && held.len() > 0 && commits.len() > 0 && held@[0].hash@ != commits@[0].hash@
            ==> moved && next.commits == Some(Ok::<Vec<Commit>, String>(commits)),
        skip == 0 && held.len() == 0 && commits.len() > 0 ==> moved && next.commits == Some(
            Ok::<Vec<Commit>, String>(commits),
        ),
        skip == 0 && held.len() > 0 && commits.len() == 0 ==> moved && next.commits == Some(
            Ok::<Vec<Commit>, String>(commits),
        ),
        moved ==> next.commits_complete == (tree.history_of is Some || commits.len() < 200),
{
    let a = git::commit_views(held@);
    let b = git::commit_views(commits@);
    if held.len() > 0 {
        assert(a[0] == held@[0]@);
    }
    if commits.len() > 0 {
        assert(b[0] == commits@[0]@);
    }
    if skip > 0 && skip == held.len() {
        let all = next.commits->0->Ok_0;
        let views = git::commit_views(all@);
        assert(views == a + b);
        assert(views.len() == all@.len() && a.len() == held@.len() && b.len() == commits@.len());
        if 0 <= i < held@.len() {
            assert(views[i] == all@[i]@);
            assert(a[i] == held@[i]@);
        }
        if 0 <= i < commits@.len() {
            assert(views[held@.len() + i] == all@[held@.len() + i]@);
            assert(b[i] == commits@[i]@);
        }
    }
}

/// The history is read on from where it ends once the cursor is within a screen of the end and
/// there is more; else from the top once two seconds have gone by, a file's own only once. It
/// is not read twice at a time.
pub proof fn law_when_the_history_is_read(tree: FileTree, held: Vec<Commit>, now: u64)
    requires
        tree.commits == Some(Ok::<Vec<Commit>, String>(held)),
    ensures
        ({
            let ends = tree.opened is None && !tree.commits_complete && tree.list.cursor
                + tree.list.page >= held.len();
            &&& tree.commits_pending ==> tree.next_read(now) is None
            &&& !tree.commits_pending && ends ==> tree.next_read(now) == Some(held.len() as int)
            &&& !tree.commits_pending && !ends && tree.commits_queried_at is None
                ==> tree.next_read(now) == Some(0int)
            &&& !tree.commits_pending && !ends && tree.commits_queried_at is Some ==> tree.next_read(
                now,
            ) == if tree.history_of is None && now - tree.commits_queried_at->0 >= 2000 {
                Some(0int)
            } else {
                None::<int>
            }
        }),
{
}

/// What changed is asked for again two seconds after it was asked for last, and not while an
/// answer is waited for; an answer is held until the next one.
pub proof fn law_changes_are_asked_for_every_two_seconds(tree: FileTree, now: u64)
    ensures
        tree.asking_changes(now).pending == (tree.pending || tree.queried_at is None || now
            - tree.queried_at->0 >= 2000),
        tree.pending ==> tree.asking_changes(now) == tree,
        !tree.pending && tree.asking_changes(now).pending ==> tree.asking_changes(now).queried_at
            == Some(now),
        tree.asking_changes(now).changes == tree.changes,
{
}

/// Entering a row of the history enters the commit it is of.
pub proof fn law_a_row_of_the_history_is_its_commit(
    tree: FileTree,
    held: Vec<Commit>,
    disk: Seq<entries::ListingView>,
    next: FileTree,
    turn: Turn,
)
    requires
        tree.commits == Some(Ok::<Vec<Commit>, String>(held)),
        tree.shown() == history_rows(git::commit_views(held@)),
        tree.list.cursor < held.len(),
        tree.opened_row(disk, next, turn),
    ensures
        turn matches Turn::Enter(commit) && commit@ == held@[tree.list.cursor as int]@,
        next == tree,
        ({
            let row = tree.shown()[tree.list.cursor as int];
            let commit = held@[tree.list.cursor as int]@;
            row matches entries::RowView::Commit(row) && row.short == commit.short && row.subject
                == commit.subject && row.time == commit.time && !row.head
        }),
{
    let cursor = tree.list.cursor as int;
    assert(tree.shown().len() == held.len());
    assert(tree.shown()[cursor] == history_row(git::commit_views(held@)[cursor], cursor));
    assert(git::commit_views(held@)[cursor] == held@[cursor]@);
}

/// A file that is opened is the one under the cursor; a deleted one is not opened.
pub proof fn law_the_file_under_the_cursor_is_opened(
    tree: FileTree,
    disk: Seq<entries::ListingView>,
    next: FileTree,
    turn: Turn,
)
    requires
        tree.opened_row(disk, next, turn),
        tree.tab != Tab::Commits,
        tree.list.cursor < tree.rows.len(),
        tree.shown()[tree.list.cursor as int] is Entry,
        tree.shown()[tree.list.cursor as int].dir() is None,
    ensures
        ({
            let entry = tree.shown()[tree.list.cursor as int]->Entry_0;
            &&& entry.change != Some(Change::Deleted) ==> (turn matches Turn::Open(path) && path@
                == entry.path) && next == tree
            &&& entry.change == Some(Change::Deleted) ==> turn is Stay && next.said@.len()
                == tree.said@.len() + 1
        }),
{
    assert(message::said(next.said@).len() == next.said@.len());
    assert(message::said(tree.said@).len() == tree.said@.len());
}

/// Where a file is that git tells of from the top of its repository: what is left of it after
/// the way to the root, below the root; nowhere when it lies outside.
pub proof fn law_a_file_told_from_the_top_is_below_the_root(
    tree: FileTree,
    prefix: Seq<char>,
    rest: Seq<char>,
    other: Seq<char>,
)
    ensures
        tree.reached(Some(prefix + rest), prefix) == Some(path::joined(tree.root@, rest)),
        tree.reached(None, prefix) is None,
        (other.len() < prefix.len() || exists|i: int|
            0 <= i < prefix.len() && other[i] != prefix[i]) ==> tree.reached(Some(other), prefix)
            is None,
{
    let file = prefix + rest;
    assert(file.subrange(0, prefix.len() as int) =~= prefix);
    assert(file.skip(prefix.len() as int) =~= rest);
    if other.len() >= prefix.len() && exists|i: int|
        0 <= i < prefix.len() && other[i] != prefix[i] {
        let i = choose|i: int| 0 <= i < prefix.len() && other[i] != prefix[i];
        assert(other.subrange(0, prefix.len() as int)[i] == other[i]);
    }
}

/// A patch is shown only when it is of what is wanted still.
pub proof fn law_a_patch_no_longer_wanted_is_not_shown(
    tree: FileTree,
    target: DiffTarget,
    patch: String,
    next: FileTree,
    show: Option<(String, String)>,
)
    requires
        tree.took_patch(Arrival::Came((target, Ok(patch))), next, show),
        tree.preview_pending,
    ensures
        !next.preview_pending,
        show is Some <==> (tree.previewed matches Some(wanted) && wanted@ == target@),
        show matches Some(shown) ==> shown.0@ == target.name@ && shown.1 == patch,
        next.said == tree.said,
{
}

/// The diff under the cursor is asked for once: not again while it is the one asked for last.
pub proof fn law_a_diff_is_asked_for_once(
    tree: FileTree,
    first: FileTree,
    second: FileTree,
    ask: Option<DiffTarget>,
    again: Option<DiffTarget>,
)
    requires
        tree.asked_patch(first, ask),
        first.asked_patch(second, again),
    ensures
        again is None,
        second == first,
        tree.diff_of() is None ==> ask is None && first == tree,
{
    assert(first.diff_of() == tree.diff_of());
}

/// Another tab is put on screen by asking for it, what the tree was moved onto forgotten; asked
/// for again, the history steps out of a commit, then out of a file's history.
pub proof fn law_switching_puts_the_tab_on_screen(
    tree: FileTree,
    tab: Tab,
    disk: Seq<entries::ListingView>,
    next: FileTree,
)
    requires
        tree.switched(tab, disk, next),
    ensures
        next.tab == tab,
        tree.tab != tab ==> next.revealed is None && next.opened == tree.opened && next.history_of
            == tree.history_of,
        tree.tab == tab && tab != Tab::Commits ==> next == tree,
        tree.tab == tab && tab == Tab::Commits && tree.opened is Some ==> next.opened is None
            && next.history_of == tree.history_of,
        tree.tab == tab && tab == Tab::Commits && tree.opened is None ==> next.history_of is None,
{
}

/// The separator goes where it is dragged to, as long as that leaves both sides their room.
pub proof fn law_the_separator_follows_the_mouse(tree: FileTree, column: u16, editor_width: u16)
    requires
        tree.area.width + editor_width < 0xffff,
        tree.area.x <= column,
        12 <= column - tree.area.x + 1,
        column - tree.area.x + 1 + 20 <= tree.area.width + editor_width,
    ensures
        tree.area.x + tree.dragged(column, editor_width) == column + 1,
{
}

/// A press past the last row, or on the strip beside the labels, does nothing but take the
/// focus; on a label it switches to that tab.
pub proof fn law_a_press_beside_the_rows_does_nothing(
    tree: FileTree,
    event: MouseEvent,
    disk: Seq<entries::ListingView>,
    next: FileTree,
    turn: Turn,
)
    requires
        tree.clicked(event, disk, next, turn),
    ensures
        event.row > tree.area.y && tree.list.scroll + (event.row - tree.area.y) - 1
            >= tree.rows.len() ==> turn is Stay && next == (FileTree { focused: true, ..tree }),
        ({
            let (files, changes, commits) = tree.tab_columns;
            let column = event.column;
            let on_files = files.0 <= column < files.1;
            let on_changes = changes.0 <= column < changes.1;
            let on_commits = commits.0 <= column < commits.1;
            &&& event.row == tree.area.y && !on_files && !on_changes && !on_commits ==> turn is Stay
                && next == (FileTree { focused: true, ..tree })
            &&& event.row == tree.area.y && on_files ==> next.tab == Tab::Files
            &&& event.row == tree.area.y && !on_files && on_changes ==> next.tab == Tab::Changes
            &&& event.row == tree.area.y && !on_files && !on_changes && on_commits ==> next.tab
                == Tab::Commits
        }),
{
}

/// A press of the left button on the line of a row puts the cursor on that row: the one so many
/// below the first on screen as the line is below the strip. Inside a commit that is all; a
/// file on disk is opened, a commit of the history is entered.
pub proof fn law_a_press_lands_on_its_row(
    tree: FileTree,
    event: MouseEvent,
    disk: Seq<entries::ListingView>,
    next: FileTree,
    turn: Turn,
    line: int,
)
    requires
        tree.clicked(event, disk, next, turn),
        tree.list.len == tree.rows.len(),
        0 <= line,
        event.row == tree.area.y + 1 + line,
        tree.list.scroll + line < tree.rows.len(),
        tree.shown()[tree.list.scroll + line].dir() is None,
    ensures
        next.list.cursor == tree.list.scroll + line,
        next.shown() == tree.shown(),
        next.tab == tree.tab,
        tree.tab == Tab::Commits && tree.opened is Some ==> turn is Stay && next.focused,
        ({
            let row = tree.shown()[tree.list.scroll + line];
            tree.tab != Tab::Commits && row is Entry && row->Entry_0.change != Some(
                Change::Deleted,
            ) ==> (turn matches Turn::Open(path) && path@ == row->Entry_0.path)
        }),
{
    let at = FileTree { focused: true, ..tree };
    let index = tree.list.scroll + line;
    let on = FileTree { list: List { cursor: index as usize, ..tree.list }, ..at };
    if !(tree.tab == Tab::Commits && tree.opened is Some) {
        let row = choose|row: FileTree| #[trigger]
            on.entered_row(disk, row, turn) && row.moved(row.placed(row.list.cursor as int), next);
        let opened = choose|opened: FileTree| #[trigger]
            on.opened_row(disk, opened, turn) && row == opened.unless_left(turn);
        assert(on.shown()[index] == tree.shown()[index]);
        assert(opened.rows == on.rows && opened.list == on.list);
    }
}

/// A commit's line: the subject starts one column after the hash and ends at least one before
/// the age, which is up against the right edge; without room for the age there is none.
pub proof fn law_a_commits_line_does_not_run_together(
    x: u16,
    width: u16,
    after_hash: u16,
    age: int,
)
    requires
        x <= after_hash,
        x + width <= 0xfffe,
        after_hash <= 0xfffe,
        0 <= age,
    ensures
        ({
            let columns = commit_columns(x, width, after_hash, age);
            &&& columns.subject_x == after_hash + 1
            &&& columns.age_x matches Some(at) ==> at + age == x + width && columns.subject_x <= at
            &&& columns.age_x is None <==> after_hash - x + 1 + age > width
            &&& columns.subject_width > 0 ==> (columns.age_x matches Some(at) && columns.subject_x
                + columns.subject_width + 1 == at)
        }),
{
}

/// Something new goes in the directory under the cursor, or in the one its file is in.
pub proof fn law_something_new_goes_where_the_cursor_is(tree: FileTree)
    requires
        tree.list.cursor < tree.rows.len(),
        tree.shown()[tree.list.cursor as int] is Entry,
    ensures
        ({
            let entry = tree.shown()[tree.list.cursor as int]->Entry_0;
            &&& entry.is_dir ==> tree.cursor_holder() == entry.path
            &&& !entry.is_dir && path::components(entry.path).len() > 1 ==> path::components(
                tree.cursor_holder(),
            ) == path::components(entry.path).drop_last()
        }),
{
    let entry = tree.shown()[tree.list.cursor as int]->Entry_0;
    path::law_the_path_above_lacks_the_last_part(entry.path);
}

// ---- Where the tree goes ----

/// The tree is moved onto a file once: not again while the same one is edited.
pub proof fn law_a_file_is_followed_once(
    tree: FileTree,
    document: Option<Seq<char>>,
    disk: Seq<entries::ListingView>,
    next: FileTree,
)
    requires
        tree.followed(document, disk, next),
    ensures
        !next.elsewhere(document),
        document is None ==> next == tree,
{
    if let Some(path) = document {
        assert(next.revealed is Some);
        assert(path::equal(path, next.revealed->0@));
    }
}

proof fn lemma_centered(tree: FileTree, path: Seq<char>, next: FileTree, i: int)
    requires
        tree.moved(tree.centered_on(path), next),
        tree.list.len == tree.rows.len(),
        path.len() > 0,
        0 <= i < tree.rows.len(),
        tree.shown()[i].path() is Some,
        path::equal(tree.shown()[i].path()->0, path),
    ensures
        next.shown() == tree.shown(),
        next.list.cursor < next.rows.len(),
        next.shown()[next.list.cursor as int].path() is Some,
        path::equal(next.shown()[next.list.cursor as int].path()->0, path),
{
    law_the_first_row_of_a_path_is_found(tree.shown(), path);
    assert(is_on(tree.shown()[i], path));
    let at = first_on(tree.shown(), path);
    assert(at <= i);
    assert(is_on(tree.shown()[at], path));
    assert(next.list.cursor == at);
}

/// Moved onto a file on disk, the tree has every directory on the way to it open, none closed
/// that was open, and the cursor on its row once it has one.
pub proof fn law_the_way_to_a_file_is_opened(
    tree: FileTree,
    path: Seq<char>,
    disk: Seq<entries::ListingView>,
    next: FileTree,
    i: int,
    other: Seq<char>,
    row: int,
)
    requires
        tree.goes_to(path, disk, next),
        tree.tab == Tab::Files,
        path::below(path, tree.root@),
        path.len() > 0,
    ensures
        0 <= i < path::ancestors(tree.root@, path).len() ==> next.opens(
            path::ancestors(tree.root@, path)[i],
        ),
        tree.opens(other) ==> next.opens(other),
        0 <= row < next.shown().len() && next.shown()[row].path() is Some && path::equal(
            next.shown()[row].path()->0,
            path,
        ) ==> next.list.cursor < next.rows.len() && next.shown()[next.list.cursor as int].path()
            is Some && path::equal(next.shown()[next.list.cursor as int].path()->0, path),
{
    let (open, laid) = choose|open: FileTree, laid: FileTree|
        {
            &&& tree.way_open(path, open)
            &&& #[trigger] open.rebuilt(disk, laid)
            &&& laid.moved(laid.centered_on(path), next)
        };
    if 0 <= i < path::ancestors(tree.root@, path).len() {
        entries::law_opening_the_way_opens_each(tree.expanded@, tree.root@, path, i);
    }
    assert(laid.shown() == next.shown());
    if 0 <= row < next.shown().len() && next.shown()[row].path() is Some && path::equal(
        next.shown()[row].path()->0,
        path,
    ) {
        lemma_centered(laid, path, next, row);
    }
}

/// A path outside the root moves nothing, and neither does any in the history.
pub proof fn law_what_is_outside_moves_nothing(
    tree: FileTree,
    path: Seq<char>,
    disk: Seq<entries::ListingView>,
    next: FileTree,
)
    requires
        tree.goes_to(path, disk, next),
        tree.tab == Tab::Commits || !path::below(path, tree.root@),
    ensures
        next == tree,
{
}

/// After a change on disk the way to it is open, and the changes are asked for anew.
pub proof fn law_a_change_on_disk_is_shown(
    tree: FileTree,
    path: Seq<char>,
    disk: Seq<entries::ListingView>,
    next: FileTree,
    i: int,
    row: int,
)
    requires
        tree.reloaded(path, disk, next),
        path.len() > 0,
    ensures
        next.queried_at is None,
        next.tab == tree.tab,
        0 <= i < path::ancestors(tree.root@, path).len() ==> next.expanded@.opens(
            path::ancestors(tree.root@, path)[i],
        ),
        0 <= row < next.shown().len() && next.shown()[row].path() is Some && path::equal(
            next.shown()[row].path()->0,
            path,
        ) ==> next.list.cursor < next.rows.len() && next.shown()[next.list.cursor as int].path()
            is Some && path::equal(next.shown()[next.list.cursor as int].path()->0, path),
{
    let (open, laid) = choose|open: FileTree, laid: FileTree|
        {
            &&& (FileTree { queried_at: None, ..tree }).way_open(path, open)
            &&& #[trigger] open.rebuilt(disk, laid)
            &&& next.list.cursor == laid.onto(laid.shown(), Some(path))
            &&& next == (FileTree {
                list: List { cursor: next.list.cursor, ..laid.list },
                ..laid
            })
        };
    if 0 <= i < path::ancestors(tree.root@, path).len() {
        entries::law_opening_the_way_opens_each(tree.expanded@, tree.root@, path, i);
    }
    law_the_first_row_of_a_path_is_found(next.shown(), path);
    if 0 <= row < next.shown().len() && next.shown()[row].path() is Some && path::equal(
        next.shown()[row].path()->0,
        path,
    ) {
        assert(is_on(next.shown()[row], path));
        let at = first_on(next.shown(), path);
        assert(at <= row);
        assert(is_on(next.shown()[at], path));
    }
}

/// The history of a file is listed from its start, in place of what was listed, the tab on
/// screen and focused; a file outside the root is refused, and nothing else changes.
pub proof fn law_the_history_of_a_file_is_shown(
    tree: FileTree,
    path: String,
    disk: Seq<entries::ListingView>,
    next: FileTree,
)
    requires
        tree.historied(path, disk, next),
    ensures
        path::below(path@, tree.root@) ==> next.tab == Tab::Commits && next.open && next.focused
            && next.opened is None && next.history_of == Some(path) && next.commits is None
            && next.commits_queried_at is None && !next.commits_pending && next.rows.len() == 0,
        !path::below(path@, tree.root@) ==> next == (FileTree { said: next.said, ..tree })
            && next.said@.len() == tree.said@.len() + 1,
{
    assert(message::said(next.said@).len() == next.said@.len());
    assert(message::said(tree.said@).len() == tree.said@.len());
    assert(next.shown().len() == next.rows.len());
}

/// A commit that was entered is the one whose files are listed, under its own row; one whose
/// files could not be had is not entered.
pub proof fn law_an_entered_commit_lists_its_files(
    tree: FileTree,
    commit: git::CommitView,
    answer: Answer<(String, Vec<ChangedFile>)>,
    disk: Seq<entries::ListingView>,
    next: FileTree,
)
    requires
        tree.committed(commit, answer, disk, next),
    ensures
        answer is Err ==> next == (FileTree { said: next.said, ..tree }) && next.said@.len()
            == tree.said@.len() + 1,
        answer matches Ok(found) ==> {
            &&& next.tab == Tab::Commits
            &&& next.opened matches Some(opened) && opened.commit@ == commit && opened.prefix@
                == found.0@ && git::file_views(opened.files@) == git::file_views(found.1@)
            &&& next.shown().len() > 0
            &&& next.shown()[0] matches entries::RowView::Commit(row) && row.head && row.short
                == commit.short && row.subject == commit.subject
        },
{
    assert(message::said(next.said@).len() == next.said@.len());
    assert(message::said(tree.said@).len() == tree.said@.len());
    if let Ok(found) = answer {
        let (inside, laid) = choose|inside: FileTree, laid: FileTree|
            {
                &&& tree.entered(commit, found.0@, git::file_views(found.1@), inside)
                &&& #[trigger] inside.rebuilt(disk, laid)
                &&& match tree.reached(commit.file, found.0@) {
                    Some(target) => laid.moved(laid.centered_on(target), next),
                    None => next == laid,
                }
            };
        assert(laid.shown()[0] == head_row(commit));
        assert(next.shown() == laid.shown());
    }
}

/// Escape steps out of a commit, then out of a file's history, and only then gives the keys back
/// to the editor; `q` closes the tree.
pub proof fn law_escape_steps_out(
    tree: FileTree,
    disk: Seq<entries::ListingView>,
    next: FileTree,
    turn: Turn,
)
    ensures
        tree.acted(Press::Back, disk, next, turn) ==> {
            &&& tree.tab == Tab::Commits && tree.opened is Some ==> next.opened is None
                && next.focused == tree.focused && next.history_of == tree.history_of
            &&& tree.tab == Tab::Commits && tree.opened is None && tree.history_of is Some
                ==> next.history_of is None && next.focused == tree.focused
            &&& tree.tab != Tab::Commits || (tree.opened is None && tree.history_of is None)
                ==> next == (FileTree { focused: false, ..tree })
        },
        tree.acted(Press::Close, disk, next, turn) ==> !next.open && !next.focused,
{
}

/// About to be drawn, the list has room for all lines but the strip's, one at least.
pub proof fn law_the_rows_fit_below_the_strip(tree: FileTree, area: Rect, next: FileTree)
    requires
        tree.readied(area, next),
    ensures
        next.area == area,
        next.rows == tree.rows,
        next.list.cursor == tree.list.cursor,
        next.list.page == if area.height < 2 {
            1
        } else {
            area.height - 1
        },
        next.width_error is None,
        next.said@.len() == tree.said@.len() + if tree.width_error is Some {
            1int
        } else {
            0
        },
{
    assert(message::said(next.said@).len() == next.said@.len());
    assert(message::said(tree.said@).len() == tree.said@.len());
}

/// Only the row under the cursor is marked, and only with the focus; each row is on a line of
/// its own, in order, below the strip, a change in the last column but two.
pub proof fn law_only_the_row_under_the_cursor_is_marked(
    tree: FileTree,
    document: Option<Seq<char>>,
    line: int,
    drawn: (bool, LinePaint),
)
    requires
        tree.line_drawn(document, line, drawn),
        0 <= line,
        tree.area.y + 1 + line < 0xffff,
        tree.area.x + tree.area.width <= 0xffff,
        3 <= tree.area.width,
    ensures
        drawn.0 == (tree.focused && tree.list.scroll + line == tree.list.cursor),
        drawn.1 matches LinePaint::Commit(paint) ==> paint.y == tree.area.y + 1 + line && paint.x
            == tree.area.x + 1 && paint.width == tree.area.width - 2,
        drawn.1 matches LinePaint::Entry(paint) ==> paint.y == tree.area.y + 1 + line && (
        paint.letter matches Some(letter) ==> letter.x == tree.area.x + tree.area.width - 3),
        tree.shown()[tree.list.scroll + line] is Entry <==> drawn.1 is Entry,
{
}

} // verus!
