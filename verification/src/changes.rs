//! The Changes tab: what `git status` names, asked again every few seconds while the tab is
//! on screen.

use vstd::prelude::*;
use vstd::string::*;

use crate::entries::{self, list_changed, reselect, Folds, Row};
use crate::git::{self, told, Answer, Change, ChangedFile};
use crate::list::{self, List};
use crate::message::Message;
use crate::number::{self, to_decimal};
use crate::path::{self, strip_prefix};
use crate::screen;
use crate::text;

verus! {

pub struct ChangesTab {
    pub root: String,
    pub folds: Folds,
    pub rows: Vec<Row>,
    pub list: List,
    /// What the last `git status` answered, or why it could not.
    pub answer: Option<Answer<Vec<ChangedFile>>>,
    pub asking: bool,
    /// Whether the next ask is already on its way, so coming on screen does not start a
    /// second chain of them.
    pub armed: bool,
}

/// Whether two changed files are one: the same path, however it is spelled, changed the same
/// way from the same place.
pub open spec fn one_file(a: git::ChangedFileView, b: git::ChangedFileView) -> bool {
    path::equal(a.path, b.path) && a.change == b.change && a.from == b.from
}

/// Whether two answers of `git status` are one.
pub open spec fn one_answer(
    a: Result<Seq<git::ChangedFileView>, Seq<char>>,
    b: Result<Seq<git::ChangedFileView>, Seq<char>>,
) -> bool {
    match (a, b) {
        (Ok(a), Ok(b)) => {
            &&& a.len() == b.len()
            &&& forall|i: int| 0 <= i < a.len() ==> one_file(#[trigger] a[i], b[i])
        },
        (Err(a), Err(b)) => a == b,
        _ => false,
    }
}

/// Whether two lists of changed files are one.
fn same_files(a: &Vec<ChangedFile>, b: &Vec<ChangedFile>) -> (yes: bool)
    ensures
        yes == one_answer(
            Ok::<Seq<git::ChangedFileView>, Seq<char>>(git::file_views(a@)),
            Ok::<Seq<git::ChangedFileView>, Seq<char>>(git::file_views(b@)),
        ),
{
    let ghost x = git::file_views(a@);
    let ghost y = git::file_views(b@);
    if a.len() != b.len() {
        return false;
    }
    for i in 0..a.len()
        invariant
            a.len() == b.len(),
            x == git::file_views(a@),
            y == git::file_views(b@),
            forall|j: int| 0 <= j < i ==> one_file(#[trigger] x[j], y[j]),
    {
        assert(x[i as int] == a@[i as int]@ && y[i as int] == b@[i as int]@);
        if !(path::same(a[i].path.as_str(), b[i].path.as_str()) && a[i].change == b[i].change
            && text::same_optional(&a[i].from, &b[i].from)) {
            assert(!one_file(x[i as int], y[i as int]));
            return false;
        }
    }
    true
}

/// Whether two answers of `git status` are one.
pub fn same_answer(a: &Answer<Vec<ChangedFile>>, b: &Answer<Vec<ChangedFile>>) -> (yes: bool)
    ensures
        yes == one_answer(git::files_answer(*a), git::files_answer(*b)),
{
    match (a, b) {
        (Ok(first), Ok(second)) => same_files(first, second),
        (Err(first), Err(second)) => text::same(first.as_str(), second.as_str()),
        _ => false,
    }
}

/// The path of the row under the cursor, when it has one.
pub open spec fn cursor_path(rows: Seq<entries::RowView>, list: List) -> Option<Seq<char>> {
    if list.cursor < rows.len() {
        rows[list.cursor as int].path()
    } else {
        None
    }
}

/// The path of the row under the cursor, when it has one.
pub fn path_under(rows: &Vec<Row>, list: &List) -> (path: Option<String>)
    ensures
        text::optional(path) == cursor_path(entries::row_views(rows@), *list),
{
    if list.cursor < rows.len() {
        assert(entries::row_views(rows@)[list.cursor as int] == rows@[list.cursor as int]@);
        match rows[list.cursor].path() {
            Some(path) => Some(path.to_owned()),
            None => None,
        }
    } else {
        None
    }
}

/// What opening the row under the cursor comes to: nothing, a word on why not, or a file for
/// the editor to open.
pub enum Opening {
    Nothing,
    Say(String),
    Open(String),
}

/// What the editor could not open, and why.
pub fn unable_to_open(path: &str, err: &str) -> (message: String)
    ensures
        message@ == "unable to open \""@ + path@ + "\": "@ + err@,
{
    let mut message = told("unable to open \"", path);
    message.append("\": ");
    message.append(err);
    message
}

impl ChangesTab {
    /// The rows the last answer comes to.
    pub open spec fn laid(self) -> Seq<entries::RowView> {
        match self.answer {
            Some(Ok(files)) => entries::change_rows(
                entries::change_tree(self.root@, git::file_views(files@)),
                self.root@,
                0,
                self.folds@,
            ),
            _ => Seq::empty(),
        }
    }

    /// Whether `next` is this tab with its rows laid out again, the cursor back on the path it
    /// was on.
    pub open spec fn rebuilt(self, next: ChangesTab) -> bool {
        &&& entries::row_views(next.rows@) == self.laid()
        &&& next.list.stands(
            next.rows.len() as int,
            self.list.page as int,
            entries::reselected(
                self.list,
                self.laid(),
                cursor_path(entries::row_views(self.rows@), self.list),
            ),
        )
        &&& next == (ChangesTab { rows: next.rows, list: next.list, ..self })
    }

    /// Where the list stands with the cursor on a path, mid-screen.
    pub open spec fn revealed(self, path: Seq<char>) -> (int, int) {
        let len = self.rows.len() as int;
        let page = self.list.page as int;
        let at = entries::reselected(self.list, entries::row_views(self.rows@), Some(path));
        list::settled(
            len,
            page,
            at.0,
            screen::less_by(at.0, page / 2),
        )
    }

    /// Whether `next` is this tab moved onto a path.
    pub open spec fn moved_onto(self, path: Seq<char>, next: ChangesTab) -> bool {
        &&& next.list.stands(self.rows.len() as int, self.list.page as int, self.revealed(path))
        &&& next == (ChangesTab { list: next.list, ..self })
    }

    /// Whether `next` is this tab after an answer: as it is when the answer is the one it had,
    /// else laid out again and moved onto the file being edited.
    pub open spec fn settled(
        self,
        moved: bool,
        document: Option<Seq<char>>,
        next: ChangesTab,
    ) -> bool {
        if !moved {
            next == self
        } else {
            match document {
                None => self.rebuilt(next),
                Some(path) => exists|between: ChangesTab| #[trigger]
                    self.rebuilt(between) && between.moved_onto(path, next),
            }
        }
    }

    /// Whether this is the tab of a project git was not asked about yet.
    pub open spec fn fresh(self, root: Seq<char>) -> bool {
        &&& self.root@ == root
        &&& self.folds@.open_by_default
        &&& self.folds@.toggled == Set::<Seq<Seq<char>>>::empty()
        &&& self.rows@.len() == 0
        &&& self.list.stands(0, 0, (0, 0))
        &&& self.answer is None
        &&& !self.asking
        &&& !self.armed
    }

    pub fn new(root: String) -> (tab: Self)
        ensures
            tab.fresh(root@),
    {
        ChangesTab {
            root,
            folds: Folds::opened(),
            rows: Vec::new(),
            list: List::new(),
            answer: None,
            asking: false,
            armed: false,
        }
    }

    /// Whether git status is to be asked now: it is, unless it already is.
    pub fn ask(&mut self) -> (start: bool)
        ensures
            start == !old(self).asking,
            *final(self) == (ChangesTab { asking: true, ..*old(self) }),
    {
        if self.asking {
            return false;
        }
        self.asking = true;
        true
    }

    /// Takes what git status answered. A new answer lays the rows out again and moves onto the
    /// file being edited. Tells whether the next ask is to be waited for.
    pub fn landed(
        &mut self,
        shown: bool,
        answer: Answer<Vec<ChangedFile>>,
        document: &Option<String>,
    ) -> (wait: bool)
        ensures
            wait == (shown && !old(self).armed),
            final(self).answer == Some(answer),
            ({
                let start = ChangesTab {
                    answer: Some(answer),
                    asking: false,
                    armed: old(self).armed || shown,
                    ..*old(self)
                };
                let moved = match old(self).answer {
                    Some(held) => !one_answer(git::files_answer(held), git::files_answer(answer)),
                    None => true,
                };
                start.settled(moved, text::optional(*document), *final(self))
            }),
    {
        self.asking = false;
        let moved = match &self.answer {
            Some(held) => !same_answer(held, &answer),
            None => true,
        };
        self.answer = Some(answer);
        let wait = shown && !self.armed;
        if shown {
            self.armed = true;
        }
        let ghost start = *self;
        if moved {
            self.rebuild();
            let ghost between = *self;
            if let Some(path) = document {
                // The file being edited could not be marked before the first answer.
                self.move_onto(path.as_str());
                assert(start.rebuilt(between) && between.moved_onto(path@, *self));
            }
        }
        wait
    }

    /// The wait for the next ask is over: it is asked when the tab is still on screen.
    pub fn waited(&mut self, showing: bool) -> (start: bool)
        ensures
            start == (showing && !old(self).asking),
            *final(self) == (ChangesTab {
                armed: false,
                asking: old(self).asking || showing,
                ..*old(self)
            }),
    {
        self.armed = false;
        if showing {
            self.ask()
        } else {
            false
        }
    }

    /// How many files changed.
    pub open spec fn counted(self) -> int {
        match self.answer {
            Some(Ok(files)) => files.len() as int,
            _ => 0,
        }
    }

    pub fn count(&self) -> (count: usize)
        ensures
            count == self.counted(),
    {
        match &self.answer {
            Some(Ok(files)) => files.len(),
            _ => 0,
        }
    }

    pub fn label(&self) -> (label: String)
        ensures
            label@ == (if self.counted() == 0 {
                "Changes"@
            } else {
                "Changes "@ + number::decimal(self.counted() as nat)
            }),
    {
        let count = self.count();
        if count == 0 {
            "Changes".to_owned()
        } else {
            told("Changes ", to_decimal(count as u64).as_str())
        }
    }

    /// What is said in place of rows.
    pub fn empty_message(&self) -> (message: Message)
        ensures
            (message.text@, message.is_error) == (match self.answer {
                None => ("reading git status…"@, false),
                Some(Ok(_)) => ("no changes"@, false),
                Some(Err(err)) => (err@, true),
            }),
    {
        match &self.answer {
            None => Message { text: "reading git status…".to_owned(), is_error: false },
            Some(Ok(_)) => Message { text: "no changes".to_owned(), is_error: false },
            Some(Err(err)) => Message { text: err.clone(), is_error: true },
        }
    }

    /// Lays the rows out again, the cursor back on the path it was on.
    pub fn rebuild(&mut self)
        ensures
            old(self).rebuilt(*final(self)),
    {
        let ghost start = *self;
        let selected = path_under(&self.rows, &self.list);
        let mut rows: Vec<Row> = Vec::new();
        if let Some(Ok(files)) = &self.answer {
            list_changed(self.root.as_str(), files, &self.folds, &mut rows);
        }
        assert(entries::row_views(rows@) =~= start.laid());
        self.rows = rows;
        reselect(&self.rows, &mut self.list, &selected);
    }

    /// The tab came on screen: whether git status is to be asked now.
    pub fn shown(&mut self) -> (start: bool)
        ensures
            start == (!old(self).armed && !old(self).asking),
            *final(self) == (ChangesTab {
                asking: old(self).asking || !old(self).armed,
                ..*old(self)
            }),
    {
        if !self.armed {
            self.ask()
        } else {
            false
        }
    }

    /// Whether git status is to be asked now, because it was asked for.
    pub fn refresh(&mut self) -> (start: bool)
        ensures
            start == !old(self).asking,
            *final(self) == (ChangesTab { asking: true, ..*old(self) }),
    {
        self.ask()
    }

    /// Opens the file under the cursor; one that was deleted cannot be.
    pub fn open(&self) -> (opening: Opening)
        ensures
            ({
                let rows = entries::row_views(self.rows@);
                let on = self.list.cursor < rows.len() && rows[self.list.cursor as int] is Entry;
                match opening {
                    Opening::Nothing => !on,
                    Opening::Say(why) => {
                        &&& on
                        &&& rows[self.list.cursor as int]->Entry_0.change == Some(Change::Deleted)
                        &&& why@ == entries::listed_name(
                            rows[self.list.cursor as int]->Entry_0.path,
                            self.root@,
                        ) + " is deleted"@
                    },
                    Opening::Open(path) => {
                        &&& on
                        &&& rows[self.list.cursor as int]->Entry_0.change != Some(Change::Deleted)
                        &&& path@ == rows[self.list.cursor as int]->Entry_0.path
                    },
                }
            }),
    {
        if self.list.cursor >= self.rows.len() {
            return Opening::Nothing;
        }
        let row = &self.rows[self.list.cursor];
        assert(entries::row_views(self.rows@)[self.list.cursor as int] == row@);
        let entry = match row.entry() {
            Some(entry) => entry,
            None => return Opening::Nothing,
        };
        let deleted = match entry.change {
            Some(change) => change == Change::Deleted,
            None => false,
        };
        if deleted {
            let relative = match strip_prefix(entry.path.as_str(), self.root.as_str()) {
                Some(relative) => relative,
                None => entry.path.clone(),
            };
            return Opening::Say(told(relative.as_str(), " is deleted"));
        }
        Opening::Open(entry.path.clone())
    }

    /// Moves onto a path, mid-screen, when it is among the rows.
    pub fn move_onto(&mut self, path: &str)
        ensures
            old(self).moved_onto(path@, *final(self)),
    {
        reselect(&self.rows, &mut self.list, &Some(path.to_owned()));
        self.list.center();
    }
}

/// Moved onto a path that has a row, the cursor is on that row; without one it stays where it
/// is.
pub proof fn law_the_cursor_goes_onto_the_path(
    tab: ChangesTab,
    path: Seq<char>,
    next: ChangesTab,
    i: int,
)
    requires
        tab.moved_onto(path, next),
        tab.list.cursor < tab.rows.len(),
    ensures
        next.rows == tab.rows,
        ({
            let rows = entries::row_views(tab.rows@);
            &&& 0 <= i < rows.len() && rows[i].path() is Some && path::equal(
                rows[i].path()->0,
                path,
            ) ==> next.list.cursor < rows.len() && rows[next.list.cursor as int].path() is Some
                && path::equal(rows[next.list.cursor as int].path()->0, path)
            &&& (forall|j: int|
                0 <= j < rows.len() ==> !((#[trigger] rows[j]).path() is Some && path::equal(
                    rows[j].path()->0,
                    path,
                ))) ==> next.list.cursor == tab.list.cursor
        }),
{
    let rows = entries::row_views(tab.rows@);
    entries::law_the_cursor_finds_its_path(rows, path, tab.list);
    let at = entries::first_at(rows, path);
    if 0 <= i < rows.len() && rows[i].path() is Some && path::equal(rows[i].path()->0, path) {
        assert(at <= i);
    }
    assert(next.list.cursor == tab.revealed(path).0);
}

/// An answer that names the same files changed the same way leaves the rows and the cursor as
/// they are; any other lays the rows out from what it names.
pub proof fn law_only_a_new_answer_moves_the_rows(
    tab: ChangesTab,
    moved: bool,
    document: Option<Seq<char>>,
    next: ChangesTab,
)
    requires
        tab.settled(moved, document, next),
    ensures
        !moved ==> next == tab,
        moved ==> entries::row_views(next.rows@) == tab.laid(),
        next.answer == tab.answer,
        next.folds == tab.folds,
{
    if moved && document is Some {
        let between = choose|between: ChangesTab| #[trigger]
            tab.rebuilt(between) && between.moved_onto(document->0, next);
        assert(between.rows == next.rows);
    }
}

/// Two answers are one exactly when they name the same files in the same order, each changed
/// the same way from the same place.
pub proof fn law_one_other_file_is_another_answer(
    a: Seq<git::ChangedFileView>,
    b: Seq<git::ChangedFileView>,
    i: int,
)
    ensures
        one_answer(Ok(a), Ok(a)),
        a.len() != b.len() ==> !one_answer(Ok(a), Ok(b)),
        0 <= i < a.len() && i < b.len() && a[i].change != b[i].change ==> !one_answer(Ok(a), Ok(b)),
        0 <= i < a.len() && i < b.len() && a[i].from != b[i].from ==> !one_answer(Ok(a), Ok(b)),
        0 <= i < a.len() && i < b.len() && path::components(a[i].path) != path::components(
            b[i].path,
        ) ==> !one_answer(Ok(a), Ok(b)),
{
    if 0 <= i < a.len() && i < b.len() {
        assert(one_answer(Ok(a), Ok(b)) && a.len() == b.len() ==> one_file(a[i], b[i]));
    }
}

} // verus!
