//! The rows a tab lists, and what the tabs that list files on disk or in git share: which
//! directories are open, how a directory or a set of changed paths becomes rows, and how
//! a row of a file or a directory is laid out on its line.

use vstd::prelude::*;
use vstd::string::*;

use crate::git::{self, Change, ChangedFile, told};
use crate::list::{self, List};
use crate::order::{self, find};
use crate::path::{self, ancestors_of, components_of, join, same, strip_prefix};
use crate::screen::{self, larger, rest, Mark, Rect, Scope, Style};
use crate::text;

verus! {

/// One line of a tab.
pub enum Row {
    /// A file or a directory, on disk or as a commit touched it.
    Entry(Entry),
    /// A commit, in the history or standing above its own files.
    Commit(CommitRow),
}

pub struct Entry {
    pub path: String,
    pub name: String,
    pub is_dir: bool,
    pub depth: usize,
    pub change: Option<Change>,
}

pub struct CommitRow {
    /// Its place in the tab's history, for the tab to find the commit by.
    pub index: usize,
    pub short: String,
    pub subject: String,
    pub time: i64,
    /// The opened commit's own row, over its files, which alone names its hash.
    pub head: bool,
}

/// What a row holds.
pub enum RowView {
    Entry(EntryView),
    Commit(CommitRowView),
}

pub struct EntryView {
    pub path: Seq<char>,
    pub name: Seq<char>,
    pub is_dir: bool,
    pub depth: int,
    pub change: Option<Change>,
}

pub struct CommitRowView {
    pub index: int,
    pub short: Seq<char>,
    pub subject: Seq<char>,
    pub time: int,
    pub head: bool,
}

impl View for Entry {
    type V = EntryView;

    open spec fn view(&self) -> EntryView {
        EntryView {
            path: self.path@,
            name: self.name@,
            is_dir: self.is_dir,
            depth: self.depth as int,
            change: self.change,
        }
    }
}

impl View for CommitRow {
    type V = CommitRowView;

    open spec fn view(&self) -> CommitRowView {
        CommitRowView {
            index: self.index as int,
            short: self.short@,
            subject: self.subject@,
            time: self.time as int,
            head: self.head,
        }
    }
}

impl View for Row {
    type V = RowView;

    open spec fn view(&self) -> RowView {
        match self {
            Row::Entry(entry) => RowView::Entry(entry@),
            Row::Commit(commit) => RowView::Commit(commit@),
        }
    }
}

/// What several rows hold.
pub open spec fn row_views(rows: Seq<Row>) -> Seq<RowView> {
    rows.map_values(|row: Row| row@)
}

impl RowView {
    /// The path of a file's or a directory's row.
    pub open spec fn path(self) -> Option<Seq<char>> {
        match self {
            RowView::Entry(entry) => Some(entry.path),
            RowView::Commit(_) => None,
        }
    }

    /// The path of a directory's row.
    pub open spec fn dir(self) -> Option<Seq<char>> {
        match self {
            RowView::Entry(entry) if entry.is_dir => Some(entry.path),
            _ => None,
        }
    }

    /// How deep a row stands.
    pub open spec fn depth(self) -> int {
        match self {
            RowView::Entry(entry) => entry.depth,
            RowView::Commit(_) => 0,
        }
    }

    /// Whether a row is that path's.
    pub open spec fn is_at(self, path: Seq<char>) -> bool {
        match self {
            RowView::Entry(entry) => path::equal(entry.path, path),
            RowView::Commit(_) => false,
        }
    }
}

impl Row {
    pub fn entry(&self) -> (entry: Option<&Entry>)
        ensures
            match entry {
                Some(entry) => self@ == RowView::Entry(entry@) && *self == Row::Entry(*entry),
                None => self@ is Commit,
            },
    {
        match self {
            Row::Entry(entry) => Some(entry),
            Row::Commit(_) => None,
        }
    }

    pub fn path(&self) -> (path: Option<&str>)
        ensures
            match path {
                Some(path) => self@.path() == Some(path@),
                None => self@.path() is None,
            },
    {
        match self {
            Row::Entry(entry) => Some(entry.path.as_str()),
            Row::Commit(_) => None,
        }
    }

    /// The path of a directory row; a file's or a commit's is none.
    pub fn dir(&self) -> (path: Option<&str>)
        ensures
            match path {
                Some(path) => self@.dir() == Some(path@),
                None => self@.dir() is None,
            },
    {
        match self {
            Row::Entry(entry) => if entry.is_dir {
                Some(entry.path.as_str())
            } else {
                None
            },
            Row::Commit(_) => None,
        }
    }

    pub fn depth(&self) -> (depth: usize)
        ensures
            depth == self@.depth(),
    {
        match self {
            Row::Entry(entry) => entry.depth,
            Row::Commit(_) => 0,
        }
    }
}

// ---- Folds ----

/// Which directories of a tab are open. A tree on disk opens closed and remembers what was
/// opened; one of changes opens open and remembers what was closed.
pub struct Folds {
    open_by_default: bool,
    toggled: Vec<String>,
}

/// What folds hold: how a directory starts, and the paths of those that are otherwise.
pub struct FoldsView {
    pub open_by_default: bool,
    pub toggled: Set<Seq<Seq<char>>>,
}

/// The paths some texts spell.
pub open spec fn spelled(paths: Seq<Seq<char>>) -> Set<Seq<Seq<char>>> {
    Set::new(
        |path: Seq<Seq<char>>|
            exists|i: int| 0 <= i < paths.len() && path::components(#[trigger] paths[i]) == path,
    )
}

impl View for Folds {
    type V = FoldsView;

    closed spec fn view(&self) -> FoldsView {
        FoldsView {
            open_by_default: self.open_by_default,
            toggled: spelled(text::views(self.toggled@)),
        }
    }
}

impl FoldsView {
    /// Whether a directory is open.
    pub open spec fn opens(self, path: Seq<char>) -> bool {
        self.open_by_default != self.toggled.contains(path::components(path))
    }

    /// The folds with the directories at some paths opened, or closed.
    pub open spec fn with(self, paths: Set<Seq<Seq<char>>>, open: bool) -> FoldsView {
        FoldsView {
            toggled: if open == self.open_by_default {
                self.toggled.difference(paths)
            } else {
                self.toggled.union(paths)
            },
            ..self
        }
    }

    /// The folds with every directory closed, those at some paths known.
    pub open spec fn all_closed(self, dirs: Set<Seq<Seq<char>>>) -> FoldsView {
        FoldsView {
            toggled: if self.open_by_default {
                self.toggled.union(dirs)
            } else {
                Set::empty()
            },
            ..self
        }
    }
}

impl Folds {
    pub fn closed() -> (folds: Self)
        ensures
            folds@.open_by_default == false,
            folds@.toggled == Set::<Seq<Seq<char>>>::empty(),
    {
        let folds = Folds { open_by_default: false, toggled: Vec::new() };
        assert(folds@.toggled =~= Set::empty());
        folds
    }

    pub fn opened() -> (folds: Self)
        ensures
            folds@.open_by_default == true,
            folds@.toggled == Set::<Seq<Seq<char>>>::empty(),
    {
        let folds = Folds { open_by_default: true, toggled: Vec::new() };
        assert(folds@.toggled =~= Set::empty());
        folds
    }

    /// Whether a directory is remembered.
    fn remembers(&self, path: &str) -> (yes: bool)
        ensures
            yes == self@.toggled.contains(path::components(path@)),
    {
        let ghost paths = text::views(self.toggled@);
        for i in 0..self.toggled.len()
            invariant
                paths == text::views(self.toggled@),
                forall|j: int| 0 <= j < i ==> path::components(#[trigger] paths[j])
                    != path::components(path@),
        {
            assert(paths[i as int] == self.toggled@[i as int]@);
            if same(self.toggled[i].as_str(), path) {
                assert(spelled(paths).contains(path::components(path@)));
                return true;
            }
        }
        assert(!spelled(paths).contains(path::components(path@)));
        false
    }

    pub fn is_open(&self, path: &str) -> (open: bool)
        ensures
            open == self@.opens(path@),
    {
        self.open_by_default != self.remembers(path)
    }

    /// Forgets a path.
    fn forget(&mut self, path: &str)
        ensures
            final(self)@ == (FoldsView {
                toggled: old(self)@.toggled.remove(path::components(path@)),
                ..old(self)@
            }),
    {
        let mut kept: Vec<String> = Vec::new();
        let ghost paths = text::views(self.toggled@);
        let ghost gone = path::components(path@);
        for i in 0..self.toggled.len()
            invariant
                paths == text::views(self.toggled@),
                gone == path::components(path@),
                spelled(text::views(kept@)) =~= spelled(paths.take(i as int)).remove(gone),
        {
            let ghost before = kept@;
            let ghost seen = spelled(paths.take(i as int));
            let ghost here = path::components(paths[i as int]);
            assert(paths[i as int] == self.toggled@[i as int]@);
            proof {
                lemma_spelled_push(paths.take(i as int), paths[i as int]);
                assert(paths.take(i + 1) =~= paths.take(i as int).push(paths[i as int]));
            }
            if !same(self.toggled[i].as_str(), path) {
                let one = self.toggled[i].clone();
                kept.push(one);
                proof {
                    assert(text::views(kept@) =~= text::views(before).push(one@));
                    lemma_spelled_push(text::views(before), one@);
                    assert(seen.insert(here).remove(gone) =~= seen.remove(gone).insert(here));
                }
            } else {
                assert(seen.insert(here).remove(gone) =~= seen.remove(gone));
            }
        }
        assert(paths.take(paths.len() as int) =~= paths);
        self.toggled = kept;
    }

    pub fn set(&mut self, path: String, open: bool)
        ensures
            final(self)@ == old(self)@.with(set![path::components(path@)], open),
    {
        let ghost held = text::views(self.toggled@);
        let ghost one = set![path::components(path@)];
        let ghost start = self@;
        if open == self.open_by_default {
            self.forget(path.as_str());
            assert(self@.toggled =~= start.toggled.difference(one));
        } else {
            let known = self.remembers(path.as_str());
            proof {
                lemma_spelled_push(held, path@);
                assert(spelled(held).insert(path::components(path@)) =~= spelled(held).union(one));
                if known {
                    assert(spelled(held).insert(path::components(path@)) =~= spelled(held));
                }
            }
            if !known {
                self.toggled.push(path);
                assert(text::views(self.toggled@) =~= held.push(path@));
            }
        }
    }

    pub fn close_all(&mut self, dirs: &Vec<String>)
        ensures
            final(self)@ == old(self)@.all_closed(spelled(text::views(dirs@))),
    {
        if !self.open_by_default {
            self.toggled = Vec::new();
            assert(self@.toggled =~= Set::empty());
            return;
        }
        let ghost start = self@;
        let ghost all = text::views(dirs@);
        assert(spelled(all.take(0)) =~= Set::empty());
        assert(start.toggled.union(spelled(all.take(0))) =~= start.toggled);
        for i in 0..dirs.len()
            invariant
                all == text::views(dirs@),
                start.open_by_default,
                self@.open_by_default == start.open_by_default,
                self@.toggled == start.toggled.union(spelled(all.take(i as int))),
        {
            assert(all[i as int] == dirs@[i as int]@);
            let ghost seen = spelled(all.take(i as int));
            let ghost here = path::components(all[i as int]);
            self.set(dirs[i].clone(), false);
            proof {
                lemma_spelled_push(all.take(i as int), all[i as int]);
                assert(all.take(i + 1) =~= all.take(i as int).push(all[i as int]));
                assert(start.toggled.union(seen).union(set![here]) =~= start.toggled.union(
                    seen.insert(here),
                ));
            }
        }
        assert(all.take(all.len() as int) =~= all);
    }

    /// Opens every directory between `root` and `path`, so `path` can be seen.
    pub fn open_ancestors(&mut self, root: &str, path: &str)
        ensures
            final(self)@ == old(self)@.with(spelled(path::ancestors(root@, path@)), true),
    {
        let dirs = ancestors_of(root, path);
        let ghost start = self@;
        let ghost all = text::views(dirs@);
        proof {
            assert(spelled(all.take(0)) =~= Set::empty());
            assert(start.toggled.union(Set::empty()) =~= start.toggled);
            assert(start.toggled.difference(Set::empty()) =~= start.toggled);
        }
        for i in 0..dirs.len()
            invariant
                all == text::views(dirs@),
                self@ == start.with(spelled(all.take(i as int)), true),
        {
            assert(all[i as int] == dirs@[i as int]@);
            let ghost seen = spelled(all.take(i as int));
            let ghost here = path::components(all[i as int]);
            self.set(dirs[i].clone(), true);
            proof {
                lemma_spelled_push(all.take(i as int), all[i as int]);
                assert(all.take(i + 1) =~= all.take(i as int).push(all[i as int]));
                assert(start.toggled.union(seen).union(set![here]) =~= start.toggled.union(
                    seen.insert(here),
                ));
                assert(start.toggled.difference(seen).difference(set![here])
                    =~= start.toggled.difference(seen.insert(here)));
            }
        }
        assert(all.take(all.len() as int) =~= all);
    }

    /// The same folds again.
    pub fn copy(&self) -> (folds: Self)
        ensures
            folds@ == self@,
    {
        let mut toggled: Vec<String> = Vec::new();
        let ghost paths = text::views(self.toggled@);
        for i in 0..self.toggled.len()
            invariant
                paths == text::views(self.toggled@),
                text::views(toggled@) == paths.take(i as int),
        {
            text::push_word(&mut toggled, self.toggled[i].as_str());
            assert(paths[i as int] == self.toggled@[i as int]@);
            assert(text::views(toggled@) =~= paths.take(i + 1));
        }
        assert(paths.take(paths.len() as int) =~= paths);
        Folds { open_by_default: self.open_by_default, toggled }
    }
}

proof fn lemma_spelled_push(paths: Seq<Seq<char>>, path: Seq<char>)
    ensures
        spelled(paths.push(path)) == spelled(paths).insert(path::components(path)),
{
    let more = paths.push(path);
    assert forall|p: Seq<Seq<char>>|
        spelled(more).contains(p) == spelled(paths).insert(path::components(path)).contains(p) by {
        if spelled(paths).contains(p) {
            let i = choose|i: int|
                0 <= i < paths.len() && path::components(#[trigger] paths[i]) == p;
            assert(more[i] == paths[i]);
        }
        if spelled(more).contains(p) {
            let i = choose|i: int| 0 <= i < more.len() && path::components(#[trigger] more[i]) == p;
            if i < paths.len() {
                assert(more[i] == paths[i]);
            }
        }
        assert(more[paths.len() as int] == path);
    }
    assert(spelled(more) =~= spelled(paths).insert(path::components(path)));
}

/// Setting a directory open or closed makes it so, and leaves every other as it was.
pub proof fn law_setting_a_fold_sets_that_one(
    folds: FoldsView,
    path: Seq<char>,
    open: bool,
    other: Seq<char>,
)
    ensures
        folds.with(set![path::components(path)], open).opens(path) == open,
        !path::equal(path, other) ==> folds.with(set![path::components(path)], open).opens(other)
            == folds.opens(other),
{
}

/// After every directory listed was closed, none of them is open.
pub proof fn law_closing_all_closes_each(folds: FoldsView, dirs: Seq<Seq<char>>, i: int)
    requires
        0 <= i < dirs.len(),
    ensures
        !folds.all_closed(spelled(dirs)).opens(dirs[i]),
{
    assert(spelled(dirs).contains(path::components(dirs[i])));
}

/// After the way to a path was opened, every directory on it is open.
pub proof fn law_opening_the_way_opens_each(
    folds: FoldsView,
    root: Seq<char>,
    path: Seq<char>,
    i: int,
)
    requires
        0 <= i < path::ancestors(root, path).len(),
    ensures
        folds.with(spelled(path::ancestors(root, path)), true).opens(
            path::ancestors(root, path)[i],
        ),
{
    assert(spelled(path::ancestors(root, path)).contains(
        path::components(path::ancestors(root, path)[i]),
    ));
}

// ---- The disk ----

/// What one directory on disk holds, in the order it is listed: each path in it, and whether
/// that is a directory; nothing, and why, when it could not be read.
pub struct Listing {
    pub dir: String,
    pub entries: Vec<(String, bool)>,
    pub error: Option<String>,
}

/// What a listing holds.
pub struct ListingView {
    pub dir: Seq<char>,
    pub entries: Seq<(Seq<char>, bool)>,
    pub error: Option<Seq<char>>,
}

impl View for Listing {
    type V = ListingView;

    open spec fn view(&self) -> ListingView {
        ListingView {
            dir: self.dir@,
            entries: self.entries@.map_values(|entry: (String, bool)| (entry.0@, entry.1)),
            error: text::optional(self.error),
        }
    }
}

/// What several listings hold.
pub open spec fn listing_views(disk: Seq<Listing>) -> Seq<ListingView> {
    disk.map_values(|listing: Listing| listing@)
}

/// The first listing of a directory; the number of them when there is none.
pub open spec fn listing_of(disk: Seq<ListingView>, dir: Seq<char>) -> int
    decreases disk.len(),
{
    if disk.len() == 0 || path::equal(disk[0].dir, dir) {
        0
    } else {
        1 + listing_of(disk.skip(1), dir)
    }
}

/// The first listing of a directory.
pub fn find_listing(disk: &Vec<Listing>, dir: &str) -> (found: Option<usize>)
    ensures
        match found {
            Some(index) => index < disk.len() && index == listing_of(listing_views(disk@), dir@),
            None => listing_of(listing_views(disk@), dir@) == disk.len(),
        },
{
    let ghost all = listing_views(disk@);
    let mut i: usize = 0;
    assert(all.skip(0) =~= all);
    while i < disk.len()
        invariant
            i <= disk.len(),
            all == listing_views(disk@),
            listing_of(all, dir@) == i + listing_of(all.skip(i as int), dir@),
        decreases disk.len() - i,
    {
        assert(all.skip(i as int)[0] == disk@[i as int]@);
        assert(all.skip(i as int).skip(1) =~= all.skip(i + 1));
        if same(disk[i].dir.as_str(), dir) {
            return Some(i);
        }
        i += 1;
    }
    None
}

/// The listing that is found is that directory's, and stands among them.
pub proof fn lemma_listing_of(disk: Seq<ListingView>, dir: Seq<char>)
    ensures
        0 <= listing_of(disk, dir) <= disk.len(),
        listing_of(disk, dir) < disk.len() ==> path::equal(disk[listing_of(disk, dir)].dir, dir),
    decreases disk.len(),
{
    if disk.len() > 0 && !path::equal(disk[0].dir, dir) {
        lemma_listing_of(disk.skip(1), dir);
    }
}

/// How many parts the path of a directory has.
pub open spec fn parts_of(listing: ListingView) -> int {
    path::components(listing.dir).len() as int
}

/// As many parts as the path of any directory listed has.
pub open spec fn deepest(disk: Seq<ListingView>) -> int
    decreases disk.len(),
{
    if disk.len() == 0 {
        0
    } else {
        screen::most(parts_of(disk.last()), deepest(disk.drop_last()))
    }
}

pub proof fn lemma_deepest(disk: Seq<ListingView>, at: int)
    requires
        0 <= at < disk.len(),
    ensures
        parts_of(disk[at]) <= deepest(disk),
    decreases disk.len(),
{
    if at < disk.len() - 1 {
        lemma_deepest(disk.drop_last(), at);
        assert(disk.drop_last()[at] == disk[at]);
    }
}

/// The next depth, as far as depths can be counted.
pub open spec fn deeper(depth: int) -> int {
    if depth < usize::MAX {
        depth + 1
    } else {
        depth
    }
}

/// What listing the disk comes to: the rows, the directories that are open and were not read,
/// and what the unreadable ones said.
pub struct Laid {
    pub rows: Seq<RowView>,
    pub missing: Seq<Seq<char>>,
    pub errors: Seq<Seq<char>>,
}

/// One after the other.
pub open spec fn laid_after(a: Laid, b: Laid) -> Laid {
    Laid { rows: a.rows + b.rows, missing: a.missing + b.missing, errors: a.errors + b.errors }
}

pub open spec fn laid_none() -> Laid {
    Laid { rows: Seq::empty(), missing: Seq::empty(), errors: Seq::empty() }
}

/// Whether a path ends in `..`.
pub open spec fn is_up(path: Seq<char>) -> bool {
    let parts = path::components(path);
    parts.len() > 0 && parts.last() == seq!['.', '.']
}

/// The name a path goes by in the directory that lists it.
pub open spec fn listed_name(path: Seq<char>, dir: Seq<char>) -> Seq<char> {
    match path::stripped(path, dir) {
        Some(name) => name,
        None => path,
    }
}

/// What a directory comes to: nothing but itself missing when it was not read; what it said
/// when it could not be; else what it holds.
pub open spec fn dir_laid(
    disk: Seq<ListingView>,
    dir: Seq<char>,
    depth: int,
    folds: FoldsView,
    above: int,
) -> Laid
    decreases deepest(disk) - above, 0int, 0int,
    via dir_laid_decreases
{
    let at = listing_of(disk, dir);
    if at >= disk.len() {
        Laid { missing: seq![dir], ..laid_none() }
    } else if parts_of(disk[at]) <= above {
        laid_none()
    } else {
        match disk[at].error {
            Some(why) => Laid { errors: seq![dir + ": "@ + why], ..laid_none() },
            None => entries_laid(disk, at, dir, disk[at].entries.len() as int, depth, folds),
        }
    }
}

#[via_fn]
proof fn dir_laid_decreases(
    disk: Seq<ListingView>,
    dir: Seq<char>,
    depth: int,
    folds: FoldsView,
    above: int,
) {
    lemma_listing_of(disk, dir);
    let at = listing_of(disk, dir);
    if at < disk.len() {
        lemma_deepest(disk, at);
    }
}

/// What the first `n` entries of a directory come to.
pub open spec fn entries_laid(
    disk: Seq<ListingView>,
    at: int,
    dir: Seq<char>,
    n: int,
    depth: int,
    folds: FoldsView,
) -> Laid
    decreases deepest(disk) - parts_of(disk[at]), 1int, n,
{
    if n <= 0 {
        laid_none()
    } else {
        let before = entries_laid(disk, at, dir, n - 1, depth, folds);
        let (path, is_dir) = disk[at].entries[n - 1];
        if is_up(path) {
            before
        } else {
            let row = RowView::Entry(
                EntryView { path, name: listed_name(path, dir), is_dir, depth, change: None },
            );
            let one = laid_after(before, Laid { rows: seq![row], ..laid_none() });
            if is_dir && folds.opens(path) {
                laid_after(
                    one,
                    dir_laid(disk, path, deeper(depth), folds, parts_of(disk[at])),
                )
            } else {
                one
            }
        }
    }
}

/// Whether a path ends in `..`.
fn goes_up(path: &str) -> (yes: bool)
    ensures
        yes == is_up(path@),
{
    let parts = components_of(path);
    let ghost all = path::components(path@);
    assert(text::views(parts@).len() == parts.len());
    if parts.len() == 0 {
        return false;
    }
    let last = &parts[parts.len() - 1];
    assert(all[parts.len() - 1] == last@) by {
        assert(text::views(parts@)[parts.len() - 1] == last@);
    }
    let chars = text::chars_of(last.as_str());
    let yes = chars.len() == 2 && chars[0] == '.' && chars[1] == '.';
    proof {
        if yes {
            assert(chars@ =~= seq!['.', '.']);
        } else if chars@ == seq!['.', '.'] {
            assert(chars@[0] == '.' && chars@[1] == '.');
        }
    }
    yes
}

/// Lists a directory, unless its path has no more parts than `above`.
fn lay_dir(
    disk: &Vec<Listing>,
    dir: &str,
    depth: usize,
    folds: &Folds,
    above: i128,
    rows: &mut Vec<Row>,
    missing: &mut Vec<String>,
    errors: &mut Vec<String>,
)
    requires
        above <= usize::MAX,
        above >= -1,
        above <= deepest(listing_views(disk@)),
    ensures
        ({
            let laid = dir_laid(
                listing_views(disk@),
                dir@,
                depth as int,
                folds@,
                above as int,
            );
            &&& row_views(final(rows)@) == row_views(old(rows)@) + laid.rows
            &&& text::views(final(missing)@) == text::views(old(missing)@) + laid.missing
            &&& text::views(final(errors)@) == text::views(old(errors)@) + laid.errors
        }),
    decreases deepest(listing_views(disk@)) - above,
{
    let ghost all = listing_views(disk@);
    let ghost rows_before = row_views(rows@);
    let ghost missing_before = text::views(missing@);
    let ghost errors_before = text::views(errors@);
    let ghost no_rows = Seq::<RowView>::empty();
    let ghost no_texts = Seq::<Seq<char>>::empty();
    proof {
        assert(rows_before + no_rows =~= rows_before);
        assert(missing_before + no_texts =~= missing_before);
        assert(errors_before + no_texts =~= errors_before);
        lemma_listing_of(all, dir@);
    }
    let at = match find_listing(disk, dir) {
        Some(at) => at,
        None => {
            text::push_word(missing, dir);
            assert(text::views(missing@) =~= missing_before + seq![dir@]);
            return ;
        },
    };
    let listing = &disk[at];
    assert(all[at as int] == listing@);
    proof {
        lemma_deepest(all, at as int);
    }
    let parts = components_of(listing.dir.as_str());
    assert(text::views(parts@).len() == parts.len());
    let here = parts.len();
    assert(here == parts_of(all[at as int]));
    if here as i128 <= above {
        return ;
    }
    if let Some(why) = &listing.error {
        let mut message = told(dir, ": ");
        message.append(why.as_str());
        text::push_word(errors, message.as_str());
        assert(message@ == dir@ + ": "@ + why@);
        assert(text::views(errors@) =~= errors_before + seq![message@]);
        return ;
    }
    let mut i: usize = 0;
    while i < listing.entries.len()
        invariant
            i <= listing.entries.len(),
            all == listing_views(disk@),
            0 <= at < disk.len(),
            all[at as int] == listing@,
            here == parts_of(all[at as int]),
            above < here <= usize::MAX,
            here <= deepest(all),
            row_views(rows@) == rows_before + entries_laid(
                all,
                at as int,
                dir@,
                i as int,
                depth as int,
                folds@,
            ).rows,
            text::views(missing@) == missing_before + entries_laid(
                all,
                at as int,
                dir@,
                i as int,
                depth as int,
                folds@,
            ).missing,
            text::views(errors@) == errors_before + entries_laid(
                all,
                at as int,
                dir@,
                i as int,
                depth as int,
                folds@,
            ).errors,
        decreases listing.entries.len() - i,
    {
        let ghost before = entries_laid(all, at as int, dir@, i as int, depth as int, folds@);
        let entry = &listing.entries[i];
        let child = entry.0.as_str();
        let is_dir = entry.1;
        assert(all[at as int].entries[i as int] == (child@, is_dir));
        i += 1;
        if goes_up(child) {
            continue ;
        }
        let name = match strip_prefix(child, dir) {
            Some(name) => name,
            None => child.to_owned(),
        };
        assert(name@ == listed_name(child@, dir@));
        let open = is_dir && folds.is_open(child);
        let ghost rows_held = rows@;
        let row = Row::Entry(
            Entry { path: child.to_owned(), name, is_dir, depth, change: None },
        );
        rows.push(row);
        let ghost one = laid_after(before, Laid { rows: seq![row@], ..laid_none() });
        proof {
            assert(row_views(rows@) =~= row_views(rows_held).push(row@));
            assert(row_views(rows@) =~= rows_before + one.rows);
            assert(before.missing + Seq::empty() =~= before.missing);
            assert(before.errors + Seq::empty() =~= before.errors);
        }
        if open {
            let next: usize = if depth < usize::MAX {
                depth + 1
            } else {
                depth
            };
            lay_dir(disk, child, next, folds, here as i128, rows, missing, errors);
            proof {
                let inner = dir_laid(all, child@, deeper(depth as int), folds@, here as int);
                assert(rows_before + one.rows + inner.rows =~= rows_before + (one.rows
                    + inner.rows));
                assert(missing_before + one.missing + inner.missing =~= missing_before + (
                one.missing + inner.missing));
                assert(errors_before + one.errors + inner.errors =~= errors_before + (one.errors
                    + inner.errors));
            }
        }
    }
}

/// Lists a directory as the disk was read, recursing into the open ones; a directory that
/// could not be read is said and left empty, and one that is open but was not read yet is
/// asked for.
pub fn list_disk(
    dir: &str,
    depth: usize,
    disk: &Vec<Listing>,
    folds: &Folds,
    rows: &mut Vec<Row>,
    missing: &mut Vec<String>,
    errors: &mut Vec<String>,
)
    ensures
        ({
            let laid = dir_laid(listing_views(disk@), dir@, depth as int, folds@, -1);
            &&& row_views(final(rows)@) == row_views(old(rows)@) + laid.rows
            &&& text::views(final(missing)@) == text::views(old(missing)@) + laid.missing
            &&& text::views(final(errors)@) == text::views(old(errors)@) + laid.errors
        }),
{
    proof {
        lemma_deepest_counts(listing_views(disk@));
    }
    lay_dir(disk, dir, depth, folds, -1, rows, missing, errors);
}

proof fn lemma_deepest_counts(disk: Seq<ListingView>)
    ensures
        deepest(disk) >= 0,
    decreases disk.len(),
{
    if disk.len() > 0 {
        lemma_deepest_counts(disk.drop_last());
    }
}

// ---- What changed ----

/// Changed files under the directories that hold them, each list by name.
pub struct ChangeDir {
    pub dirs: Vec<(String, ChangeDir)>,
    pub files: Vec<(String, Change)>,
}

/// What a directory of changes holds.
pub struct DirView {
    pub dirs: Seq<(Seq<char>, DirView)>,
    pub files: Seq<(Seq<char>, Change)>,
}

/// What a directory of changes holds.
pub open spec fn dir_view(dir: ChangeDir) -> DirView
    decreases dir,
{
    DirView {
        dirs: Seq::new(
            dir.dirs@.len(),
            |i: int|
                if 0 <= i < dir.dirs@.len() {
                    (dir.dirs@[i].0@, dir_view(dir.dirs@[i].1))
                } else {
                    arbitrary()
                },
        ),
        files: dir.files@.map_values(|file: (String, Change)| (file.0@, file.1)),
    }
}

pub open spec fn no_changes() -> DirView {
    DirView { dirs: Seq::empty(), files: Seq::empty() }
}

/// The directory with a file changed at the end of some parts, every part but the last a
/// directory on the way.
pub open spec fn grown(dir: DirView, parts: Seq<Seq<char>>, change: Change) -> DirView
    decreases parts.len(),
{
    if parts.len() == 0 {
        dir
    } else if parts.len() == 1 {
        DirView { files: order::put(dir.files, parts[0], change), ..dir }
    } else {
        let child = match order::get(dir.dirs, parts[0]) {
            Some(child) => child,
            None => no_changes(),
        };
        DirView {
            dirs: order::put(dir.dirs, parts[0], grown(child, parts.skip(1), change)),
            ..dir
        }
    }
}

/// The parts of a path below `root`; none when it is the root or lies outside.
pub open spec fn parts_below(root: Seq<char>, path: Seq<char>) -> Seq<Seq<char>> {
    match path::stripped(path, root) {
        Some(relative) => path::components(relative),
        None => Seq::empty(),
    }
}

/// Changed files under the directories that hold them, below `root`: of two changes to one
/// file the last is kept, and a path outside the root is left out.
pub open spec fn change_tree(root: Seq<char>, files: Seq<git::ChangedFileView>) -> DirView
    decreases files.len(),
{
    if files.len() == 0 {
        no_changes()
    } else {
        grown(
            change_tree(root, files.drop_last()),
            parts_below(root, files.last().path),
            files.last().change,
        )
    }
}

/// The row of a directory.
pub open spec fn dir_row(name: Seq<char>, path: Seq<char>, depth: int) -> RowView {
    RowView::Entry(EntryView { path, name, is_dir: true, depth, change: None })
}

/// The rows of the files of a directory.
pub open spec fn file_rows(files: Seq<(Seq<char>, Change)>, path: Seq<char>, depth: int) -> Seq<
    RowView,
> {
    files.map_values(
        |file: (Seq<char>, Change)|
            RowView::Entry(
                EntryView {
                    path: path::joined(path, file.0),
                    name: file.0,
                    is_dir: false,
                    depth,
                    change: Some(file.1),
                },
            ),
    )
}

/// The rows of a directory's directories and then of its files.
pub open spec fn change_rows(dir: DirView, path: Seq<char>, depth: int, folds: FoldsView) -> Seq<
    RowView,
>
    decreases dir, 0int,
{
    dirs_rows(dir.dirs, dir.dirs.len() as int, path, depth, folds) + file_rows(
        dir.files,
        path,
        depth,
    )
}

/// The rows of the first `n` directories of a list.
pub open spec fn dirs_rows(
    dirs: Seq<(Seq<char>, DirView)>,
    n: int,
    path: Seq<char>,
    depth: int,
    folds: FoldsView,
) -> Seq<RowView>
    decreases dirs, n,
{
    if n <= 0 || n > dirs.len() {
        Seq::empty()
    } else {
        dirs_rows(dirs, n - 1, path, depth, folds) + child_rows(
            dirs[n - 1].0,
            dirs[n - 1].1,
            path::joined(path, dirs[n - 1].0),
            depth,
            folds,
        )
    }
}

/// The rows of one directory: a chain of directories with nothing else in them is one row.
pub open spec fn child_rows(
    name: Seq<char>,
    dir: DirView,
    path: Seq<char>,
    depth: int,
    folds: FoldsView,
) -> Seq<RowView>
    decreases dir, 1int,
{
    if dir.files.len() == 0 && dir.dirs.len() == 1 {
        let (next, inner) = dir.dirs[0];
        child_rows(name + "/"@ + next, dir.dirs[0].1, path::joined(path, next), depth, folds)
    } else {
        seq![dir_row(name, path, depth)] + if folds.opens(path) {
            change_rows(dir, path, deeper(depth), folds)
        } else {
            Seq::empty()
        }
    }
}

proof fn lemma_dir_names(dir: ChangeDir)
    ensures
        order::keys_of(dir.dirs@) == order::names(dir_view(dir).dirs),
        order::keys_of(dir.files@) == order::names(dir_view(dir).files),
{
    assert(order::keys_of(dir.dirs@) =~= order::names(dir_view(dir).dirs));
    assert(order::keys_of(dir.files@) =~= order::names(dir_view(dir).files));
}

/// Adds a changed file at the end of `parts` from `from` on.
fn grow(dir: ChangeDir, parts: &Vec<String>, from: usize, change: Change) -> (more: ChangeDir)
    requires
        from < parts.len(),
    ensures
        dir_view(more) == grown(dir_view(dir), text::views(parts@).skip(from as int), change),
    decreases parts.len() - from,
{
    let ghost before = dir_view(dir);
    let ghost rest = text::views(parts@).skip(from as int);
    proof {
        lemma_dir_names(dir);
    }
    let name = parts[from].clone();
    assert(rest[0] == name@);
    let mut dirs = dir.dirs;
    let mut files = dir.files;
    let ghost old_dirs = dirs@;
    let ghost old_files = files@;
    if from + 1 == parts.len() {
        let (at, there) = find(&files, name.as_str());
        if there {
            files.remove(at);
        }
        files.insert(at, (name, change));
        let more = ChangeDir { dirs, files };
        proof {
            assert(dir_view(more).files =~= order::put(before.files, name@, change));
            assert(dir_view(more).dirs =~= before.dirs);
        }
        return more;
    }
    let (at, there) = find(&dirs, name.as_str());
    let child = if there {
        let (_, child) = dirs.remove(at);
        child
    } else {
        ChangeDir { dirs: Vec::new(), files: Vec::new() }
    };
    proof {
        if there {
            assert(child == old_dirs[at as int].1);
            assert(before.dirs[at as int].1 == dir_view(child));
        } else {
            assert(dir_view(child).dirs =~= Seq::empty());
            assert(dir_view(child).files =~= Seq::empty());
        }
        assert(rest.skip(1) =~= text::views(parts@).skip(from + 1));
    }
    let child = grow(child, parts, from + 1, change);
    dirs.insert(at, (name, child));
    let more = ChangeDir { dirs, files };
    proof {
        assert(dir_view(more).dirs =~= order::put(before.dirs, name@, dir_view(child)));
        assert(dir_view(more).files =~= before.files);
    }
    more
}

/// The files under the directories that hold them, below `root`.
fn build(root: &str, files: &Vec<ChangedFile>) -> (top: ChangeDir)
    ensures
        dir_view(top) == change_tree(root@, git::file_views(files@)),
{
    let mut top = ChangeDir { dirs: Vec::new(), files: Vec::new() };
    let ghost all = git::file_views(files@);
    proof {
        assert(dir_view(top).dirs =~= Seq::empty());
        assert(dir_view(top).files =~= Seq::empty());
    }
    for i in 0..files.len()
        invariant
            all == git::file_views(files@),
            dir_view(top) == change_tree(root@, all.take(i as int)),
    {
        let file = &files[i];
        proof {
            assert(all[i as int] == file@);
            assert(all.take(i + 1).drop_last() =~= all.take(i as int));
            assert(all.take(i + 1).last() == file@);
        }
        if let Some(relative) = strip_prefix(file.path.as_str(), root) {
            let parts = components_of(relative.as_str());
            assert(text::views(parts@).len() == parts.len());
            assert(text::views(parts@).skip(0) =~= text::views(parts@));
            if parts.len() > 0 {
                top = grow(top, &parts, 0, file.change);
            }
        }
    }
    assert(all.take(all.len() as int) =~= all);
    top
}

fn list_change_dir(
    dir: &ChangeDir,
    path: &str,
    depth: usize,
    folds: &Folds,
    rows: &mut Vec<Row>,
)
    ensures
        row_views(final(rows)@) == row_views(old(rows)@) + change_rows(
            dir_view(*dir),
            path@,
            depth as int,
            folds@,
        ),
    decreases *dir, 0int,
{
    let ghost seen = dir_view(*dir);
    let ghost before = row_views(rows@);
    assert(before + dirs_rows(seen.dirs, 0, path@, depth as int, folds@) =~= before);
    for i in 0..dir.dirs.len()
        invariant
            seen == dir_view(*dir),
            row_views(rows@) == before + dirs_rows(
                seen.dirs,
                i as int,
                path@,
                depth as int,
                folds@,
            ),
    {
        let ghost held = dirs_rows(seen.dirs, i as int, path@, depth as int, folds@);
        let name = dir.dirs[i].0.clone();
        let child_path = join(path, name.as_str());
        let child = &dir.dirs[i].1;
        assert(seen.dirs[i as int] == (name@, dir_view(*child)));
        assert(decreases_to!(*dir => *child)) by {
            assert(decreases_to!(*dir => dir.dirs));
            assert(decreases_to!(dir.dirs => dir.dirs@));
            assert(decreases_to!(dir.dirs@ => dir.dirs@[i as int]));
            assert(decreases_to!(dir.dirs@[i as int] => dir.dirs@[i as int].1));
        }
        list_child(name, child, child_path, depth, folds, rows);
        proof {
            let inner = child_rows(
                name@,
                dir_view(*child),
                path::joined(path@, name@),
                depth as int,
                folds@,
            );
            assert(before + held + inner =~= before + (held + inner));
        }
    }
    let ghost dirs_done = row_views(rows@);
    let ghost files_rows = file_rows(seen.files, path@, depth as int);
    for i in 0..dir.files.len()
        invariant
            seen == dir_view(*dir),
            files_rows == file_rows(seen.files, path@, depth as int),
            row_views(rows@) == dirs_done + files_rows.take(i as int),
    {
        let file = &dir.files[i];
        let ghost held = rows@;
        assert(seen.files[i as int] == (file.0@, file.1));
        let row = Row::Entry(
            Entry {
                path: join(path, file.0.as_str()),
                name: file.0.clone(),
                is_dir: false,
                depth,
                change: Some(file.1),
            },
        );
        rows.push(row);
        proof {
            assert(row_views(rows@) =~= row_views(held).push(row@));
            assert(files_rows[i as int] == row@);
            assert(dirs_done + files_rows.take(i + 1) =~= (dirs_done + files_rows.take(
                i as int,
            )).push(row@));
        }
    }
    proof {
        assert(files_rows.take(files_rows.len() as int) =~= files_rows);
        let dirs = dirs_rows(seen.dirs, seen.dirs.len() as int, path@, depth as int, folds@);
        assert(before + dirs + files_rows =~= before + (dirs + files_rows));
    }
}

fn list_child(
    name: String,
    child: &ChangeDir,
    path: String,
    depth: usize,
    folds: &Folds,
    rows: &mut Vec<Row>,
)
    ensures
        row_views(final(rows)@) == row_views(old(rows)@) + child_rows(
            name@,
            dir_view(*child),
            path@,
            depth as int,
            folds@,
        ),
    decreases *child, 1int,
{
    let ghost seen = dir_view(*child);
    let ghost before = row_views(rows@);
    if child.files.len() == 0 && child.dirs.len() == 1 {
        let next = child.dirs[0].0.as_str();
        let inner = &child.dirs[0].1;
        let inner_path = join(path.as_str(), next);
        let mut longer = told(name.as_str(), "/");
        longer.append(next);
        assert(seen.dirs[0] == (next@, dir_view(*inner)));
        assert(decreases_to!(*child => *inner)) by {
            assert(decreases_to!(*child => child.dirs));
            assert(decreases_to!(child.dirs => child.dirs@));
            assert(decreases_to!(child.dirs@ => child.dirs@[0]));
            assert(decreases_to!(child.dirs@[0] => child.dirs@[0].1));
        }
        list_child(longer, inner, inner_path, depth, folds, rows);
        return ;
    }
    let open = folds.is_open(path.as_str());
    let ghost held = rows@;
    let child_path = path.clone();
    let row = Row::Entry(Entry { path, name, is_dir: true, depth, change: None });
    rows.push(row);
    proof {
        assert(row@ == dir_row(name@, path@, depth as int));
        assert(row_views(rows@) =~= row_views(held).push(row@));
        assert(before.push(row@) =~= before + (seq![row@] + Seq::<RowView>::empty()));
    }
    if open {
        let next: usize = if depth < usize::MAX {
            depth + 1
        } else {
            depth
        };
        list_change_dir(child, child_path.as_str(), next, folds, rows);
        proof {
            let inside = change_rows(seen, child_path@, deeper(depth as int), folds@);
            assert(before.push(row@) + inside =~= before + (seq![row@] + inside));
        }
    }
}

/// Lists changed files under the directories that hold them, below `root`: a chain of
/// directories with nothing else in them is one row, and a path outside the root is left
/// out.
pub fn list_changed(root: &str, files: &Vec<ChangedFile>, folds: &Folds, rows: &mut Vec<Row>)
    ensures
        row_views(final(rows)@) == row_views(old(rows)@) + change_rows(
            change_tree(root@, git::file_views(files@)),
            root@,
            0,
            folds@,
        ),
{
    let top = build(root, files);
    list_change_dir(&top, root, 0, folds, rows);
}

// ---- What the tree of changes keeps ----

/// Whether every list of a tree is by name, none twice.
pub open spec fn tidy(dir: DirView) -> bool
    decreases dir,
{
    &&& order::sorted(order::names(dir.dirs))
    &&& order::sorted(order::names(dir.files))
    &&& forall|i: int| 0 <= i < dir.dirs.len() ==> tidy((#[trigger] dir.dirs[i]).1)
}

/// The change a tree holds at the end of some parts.
pub open spec fn held(dir: DirView, parts: Seq<Seq<char>>) -> Option<Change>
    decreases parts.len(),
{
    if parts.len() == 0 {
        None
    } else if parts.len() == 1 {
        order::get(dir.files, parts[0])
    } else {
        match order::get(dir.dirs, parts[0]) {
            Some(child) => held(child, parts.skip(1)),
            None => None,
        }
    }
}

proof fn lemma_nothing_held(parts: Seq<Seq<char>>)
    ensures
        held(no_changes(), parts) is None,
        tidy(no_changes()),
{
    let none = no_changes();
    if parts.len() > 0 {
        order::lemma_place(order::names(none.files), parts[0]);
        order::lemma_place(order::names(none.dirs), parts[0]);
    }
}

/// A change put into a tree is the one it then holds for that file, whatever it held before;
/// what it holds for every other file stays, and so does the order of its lists.
pub proof fn law_a_change_is_kept(dir: DirView, parts: Seq<Seq<char>>, change: Change)
    requires
        tidy(dir),
        parts.len() > 0,
    ensures
        tidy(grown(dir, parts, change)),
        held(grown(dir, parts, change), parts) == Some(change),
        forall|other: Seq<Seq<char>>|
            other != parts ==> #[trigger] held(grown(dir, parts, change), other) == held(
                dir,
                other,
            ),
    decreases parts.len(),
{
    let more = grown(dir, parts, change);
    if parts.len() == 1 {
        order::lemma_put(dir.files, parts[0], change);
        assert forall|other: Seq<Seq<char>>| other != parts implies #[trigger] held(more, other)
            == held(dir, other) by {
            if other.len() == 1 && other[0] == parts[0] {
                assert(other =~= parts);
            }
        }
    } else {
        let child = match order::get(dir.dirs, parts[0]) {
            Some(child) => child,
            None => no_changes(),
        };
        let keys = order::names(dir.dirs);
        let at = order::place(keys, parts[0]);
        order::lemma_place(keys, parts[0]);
        lemma_nothing_held(parts);
        assert(tidy(child)) by {
            if order::stands(keys, parts[0]) {
                assert(child == dir.dirs[at].1);
            }
        }
        let after = grown(child, parts.skip(1), change);
        law_a_change_is_kept(child, parts.skip(1), change);
        order::lemma_put(dir.dirs, parts[0], after);
        assert forall|i: int| 0 <= i < more.dirs.len() implies tidy(
            (#[trigger] more.dirs[i]).1,
        ) by {
            if order::stands(keys, parts[0]) {
                if i != at {
                    assert(more.dirs[i] == dir.dirs[i]);
                }
            } else if i < at {
                assert(more.dirs[i] == dir.dirs[i]);
            } else if i > at {
                assert(more.dirs[i] == dir.dirs[i - 1]);
            }
        }
        assert forall|other: Seq<Seq<char>>| other != parts implies #[trigger] held(more, other)
            == held(dir, other) by {
            if other.len() > 1 && other[0] == parts[0] {
                lemma_nothing_held(other.skip(1));
                if other.skip(1) == parts.skip(1) {
                    assert(other =~= seq![other[0]] + other.skip(1));
                    assert(parts =~= seq![parts[0]] + parts.skip(1));
                }
                assert(held(more, other) == held(after, other.skip(1)));
            }
        }
    }
}

/// The change of the last of several files that is at the end of some parts below `root`.
pub open spec fn last_change(
    root: Seq<char>,
    files: Seq<git::ChangedFileView>,
    parts: Seq<Seq<char>>,
) -> Option<Change>
    decreases files.len(),
{
    if files.len() == 0 {
        None
    } else if parts_below(root, files.last().path) == parts {
        Some(files.last().change)
    } else {
        last_change(root, files.drop_last(), parts)
    }
}

/// The tree of changed files holds each of them below the root, under the last change told of
/// it, and nothing else, every list by name.
pub proof fn law_the_tree_holds_what_changed(
    root: Seq<char>,
    files: Seq<git::ChangedFileView>,
    parts: Seq<Seq<char>>,
)
    requires
        parts.len() > 0,
    ensures
        tidy(change_tree(root, files)),
        held(change_tree(root, files), parts) == last_change(root, files, parts),
    decreases files.len(),
{
    if files.len() == 0 {
        lemma_nothing_held(parts);
    } else {
        law_the_tree_holds_what_changed(root, files.drop_last(), parts);
        let last = parts_below(root, files.last().path);
        if last.len() > 0 {
            law_a_change_is_kept(
                change_tree(root, files.drop_last()),
                last,
                files.last().change,
            );
        }
    }
}

/// A path with parts added to it, one after the other.
pub open spec fn path_at(path: Seq<char>, parts: Seq<Seq<char>>) -> Seq<char>
    decreases parts.len(),
{
    if parts.len() == 0 {
        path
    } else {
        path_at(path::joined(path, parts[0]), parts.skip(1))
    }
}

/// Whether a row is a changed file's.
pub open spec fn tells(row: RowView, path: Seq<char>, change: Change) -> bool {
    row matches RowView::Entry(entry) && entry.path == path && !entry.is_dir && entry.change
        == Some(change)
}

/// Whether one of some rows is a changed file's.
pub open spec fn shows(rows: Seq<RowView>, path: Seq<char>, change: Change) -> bool {
    exists|i: int| 0 <= i < rows.len() && tells(#[trigger] rows[i], path, change)
}

proof fn lemma_shows_within(
    before: Seq<RowView>,
    rows: Seq<RowView>,
    after: Seq<RowView>,
    path: Seq<char>,
    change: Change,
)
    requires
        shows(rows, path, change),
    ensures
        shows(before + rows + after, path, change),
{
    let i = choose|i: int| 0 <= i < rows.len() && tells(#[trigger] rows[i], path, change);
    assert((before + rows + after)[before.len() + i] == rows[i]);
}

proof fn lemma_dirs_show(
    dirs: Seq<(Seq<char>, DirView)>,
    n: int,
    i: int,
    path: Seq<char>,
    depth: int,
    folds: FoldsView,
    file: Seq<char>,
    change: Change,
)
    requires
        0 <= i < n <= dirs.len(),
        shows(
            child_rows(dirs[i].0, dirs[i].1, path::joined(path, dirs[i].0), depth, folds),
            file,
            change,
        ),
    ensures
        shows(dirs_rows(dirs, n, path, depth, folds), file, change),
    decreases n,
{
    let before = dirs_rows(dirs, n - 1, path, depth, folds);
    let last = child_rows(
        dirs[n - 1].0,
        dirs[n - 1].1,
        path::joined(path, dirs[n - 1].0),
        depth,
        folds,
    );
    if i == n - 1 {
        lemma_shows_within(before, last, Seq::empty(), file, change);
        assert(before + last + Seq::<RowView>::empty() =~= before + last);
    } else {
        lemma_dirs_show(dirs, n - 1, i, path, depth, folds, file, change);
        lemma_shows_within(Seq::empty(), before, last, file, change);
        assert(Seq::<RowView>::empty() + before + last =~= before + last);
    }
}

/// Each changed file of a tree has a row as long as the directories on the way to it are open,
/// whatever else is closed.
pub proof fn law_an_open_tree_shows_each_file(
    dir: DirView,
    parts: Seq<Seq<char>>,
    path: Seq<char>,
    depth: int,
    folds: FoldsView,
)
    requires
        forall|n: int| 0 < n < parts.len() ==> folds.opens(#[trigger] path_at(path, parts.take(n))),
        held(dir, parts) is Some,
    ensures
        shows(change_rows(dir, path, depth, folds), path_at(path, parts), held(dir, parts)->0),
    decreases parts.len(), 0int,
{
    let change = held(dir, parts)->0;
    let dirs = dirs_rows(dir.dirs, dir.dirs.len() as int, path, depth, folds);
    let files = file_rows(dir.files, path, depth);
    let file = path_at(path, parts);
    if parts.len() == 1 {
        let i = order::place(order::names(dir.files), parts[0]);
        order::lemma_place(order::names(dir.files), parts[0]);
        assert(order::names(dir.files)[i] == parts[0]);
        assert(path_at(path::joined(path, parts[0]), parts.skip(1)) == path::joined(
            path,
            parts[0],
        ));
        assert(tells(files[i], file, change));
        lemma_shows_within(dirs, files, Seq::empty(), file, change);
        assert(dirs + files + Seq::<RowView>::empty() =~= dirs + files);
    } else {
        let i = order::place(order::names(dir.dirs), parts[0]);
        order::lemma_place(order::names(dir.dirs), parts[0]);
        assert(order::names(dir.dirs)[i] == parts[0]);
        lemma_open_way(parts, path, folds);
        lemma_child_shows(
            dir.dirs[i].0,
            dir.dirs[i].1,
            parts.skip(1),
            path::joined(path, parts[0]),
            depth,
            folds,
        );
        lemma_dirs_show(dir.dirs, dir.dirs.len() as int, i, path, depth, folds, file, change);
        lemma_shows_within(Seq::empty(), dirs, files, file, change);
        assert(Seq::<RowView>::empty() + dirs + files =~= dirs + files);
    }
}

proof fn lemma_child_shows(
    name: Seq<char>,
    dir: DirView,
    parts: Seq<Seq<char>>,
    path: Seq<char>,
    depth: int,
    folds: FoldsView,
)
    requires
        forall|n: int| 0 <= n < parts.len() ==> folds.opens(#[trigger] path_at(path, parts.take(n))),
        held(dir, parts) is Some,
    ensures
        shows(child_rows(name, dir, path, depth, folds), path_at(path, parts), held(dir, parts)->0),
    decreases parts.len(), 1int,
{
    if dir.files.len() == 0 && dir.dirs.len() == 1 {
        order::lemma_place(order::names(dir.files), parts[0]);
        order::lemma_place(order::names(dir.dirs), parts[0]);
        let (next, _) = dir.dirs[0];
        assert(order::names(dir.dirs)[0] == next);
        assert(next == parts[0]);
        lemma_open_way(parts, path, folds);
        lemma_child_shows(
            name + "/"@ + next,
            dir.dirs[0].1,
            parts.skip(1),
            path::joined(path, next),
            depth,
            folds,
        );
    } else {
        law_an_open_tree_shows_each_file(dir, parts, path, deeper(depth), folds);
        let rows = change_rows(dir, path, deeper(depth), folds);
        let head = seq![dir_row(name, path, depth)];
        assert(folds.opens(path_at(path, parts.take(0))));
        lemma_shows_within(head, rows, Seq::empty(), path_at(path, parts), held(dir, parts)->0);
        assert(head + rows + Seq::<RowView>::empty() =~= head + rows);
    }
}

/// What is open on the way from a directory is open on the way from the next.
proof fn lemma_open_way(parts: Seq<Seq<char>>, path: Seq<char>, folds: FoldsView)
    requires
        parts.len() > 0,
        forall|n: int| 0 < n < parts.len() ==> folds.opens(#[trigger] path_at(path, parts.take(n))),
    ensures
        forall|n: int|
            0 <= n < parts.skip(1).len() ==> folds.opens(
                #[trigger] path_at(path::joined(path, parts[0]), parts.skip(1).take(n)),
            ),
{
    assert forall|n: int| 0 <= n < parts.skip(1).len() implies folds.opens(
        #[trigger] path_at(path::joined(path, parts[0]), parts.skip(1).take(n)),
    ) by {
        let longer = parts.take(n + 1);
        assert(longer.skip(1) =~= parts.skip(1).take(n));
        assert(longer[0] == parts[0]);
        assert(folds.opens(path_at(path, longer)));
    }
}

/// Whether a row is a directory's or that of a file a tree holds.
pub open spec fn comes_from(dir: DirView, path: Seq<char>, row: RowView) -> bool {
    row matches RowView::Entry(entry) && (!entry.is_dir ==> exists|parts: Seq<Seq<char>>|
        #[trigger] held(dir, parts) is Some && held(dir, parts) == entry.change && path_at(
            path,
            parts,
        ) == entry.path)
}

proof fn lemma_comes_from_child(dir: DirView, i: int, path: Seq<char>, row: RowView)
    requires
        tidy(dir),
        0 <= i < dir.dirs.len(),
        comes_from(dir.dirs[i].1, path::joined(path, dir.dirs[i].0), row),
    ensures
        comes_from(dir, path, row),
{
    let entry = row->Entry_0;
    if !entry.is_dir {
        let (name, child) = dir.dirs[i];
        let inner = choose|parts: Seq<Seq<char>>|
            #[trigger] held(child, parts) is Some && held(child, parts) == entry.change && path_at(
                path::joined(path, name),
                parts,
            ) == entry.path;
        let parts = seq![name] + inner;
        assert(order::names(dir.dirs)[i] == name);
        order::lemma_place_of_member(order::names(dir.dirs), i);
        assert(parts.skip(1) =~= inner);
        assert(inner.len() > 0);
        assert(held(dir, parts) == held(child, inner));
        assert(path_at(path, parts) == entry.path);
    }
}

/// Every file row of a tree is that of a file it holds, at its path and with its change.
pub proof fn law_rows_are_of_held_files(
    dir: DirView,
    path: Seq<char>,
    depth: int,
    folds: FoldsView,
    i: int,
)
    requires
        tidy(dir),
        0 <= i < change_rows(dir, path, depth, folds).len(),
    ensures
        comes_from(dir, path, change_rows(dir, path, depth, folds)[i]),
    decreases dir, 0int,
{
    let n = dir.dirs.len() as int;
    let dirs = dirs_rows(dir.dirs, n, path, depth, folds);
    let files = file_rows(dir.files, path, depth);
    if i < dirs.len() {
        lemma_dirs_come_from(dir, n, path, depth, folds, i);
    } else {
        let j = i - dirs.len();
        let (name, change) = dir.files[j];
        let parts = seq![name];
        assert(order::names(dir.files)[j] == name);
        order::lemma_place_of_member(order::names(dir.files), j);
        assert(held(dir, parts) == Some(change));
        assert(parts.skip(1) =~= Seq::empty());
        assert(path_at(path::joined(path, name), parts.skip(1)) == path::joined(path, name));
        assert(path_at(path, parts) == path::joined(path, name));
        assert(change_rows(dir, path, depth, folds)[i] == files[j]);
    }
}

proof fn lemma_dirs_come_from(
    dir: DirView,
    n: int,
    path: Seq<char>,
    depth: int,
    folds: FoldsView,
    i: int,
)
    requires
        tidy(dir),
        0 <= n <= dir.dirs.len(),
        0 <= i < dirs_rows(dir.dirs, n, path, depth, folds).len(),
    ensures
        comes_from(dir, path, dirs_rows(dir.dirs, n, path, depth, folds)[i]),
    decreases dir.dirs, n,
{
    if n > 0 {
        let before = dirs_rows(dir.dirs, n - 1, path, depth, folds);
        if i < before.len() {
            lemma_dirs_come_from(dir, n - 1, path, depth, folds, i);
        } else {
            let (name, child) = dir.dirs[n - 1];
            lemma_child_comes_from(
                name,
                dir.dirs[n - 1].1,
                path::joined(path, name),
                depth,
                folds,
                i - before.len(),
            );
            lemma_comes_from_child(
                dir,
                n - 1,
                path,
                dirs_rows(dir.dirs, n, path, depth, folds)[i],
            );
        }
    }
}

proof fn lemma_child_comes_from(
    name: Seq<char>,
    dir: DirView,
    path: Seq<char>,
    depth: int,
    folds: FoldsView,
    i: int,
)
    requires
        tidy(dir),
        0 <= i < child_rows(name, dir, path, depth, folds).len(),
    ensures
        comes_from(dir, path, child_rows(name, dir, path, depth, folds)[i]),
    decreases dir, 1int,
{
    if dir.files.len() == 0 && dir.dirs.len() == 1 {
        let (next, _) = dir.dirs[0];
        lemma_child_comes_from(
            name + "/"@ + next,
            dir.dirs[0].1,
            path::joined(path, next),
            depth,
            folds,
            i,
        );
        lemma_comes_from_child(dir, 0, path, child_rows(name, dir, path, depth, folds)[i]);
    } else if i > 0 {
        law_rows_are_of_held_files(dir, path, deeper(depth), folds, i - 1);
    }
}

// ---- Putting the cursor back ----

/// The first row of a path; the number of rows when there is none.
pub open spec fn first_at(rows: Seq<RowView>, path: Seq<char>) -> int
    decreases rows.len(),
{
    if rows.len() == 0 || rows[0].is_at(path) {
        0
    } else {
        1 + first_at(rows.skip(1), path)
    }
}

/// The first row of a path.
pub fn find_row(rows: &Vec<Row>, path: &str) -> (found: Option<usize>)
    ensures
        match found {
            Some(index) => index < rows.len() && index == first_at(row_views(rows@), path@),
            None => first_at(row_views(rows@), path@) == rows.len(),
        },
{
    let ghost all = row_views(rows@);
    let mut i: usize = 0;
    assert(all.skip(0) =~= all);
    while i < rows.len()
        invariant
            i <= rows.len(),
            all == row_views(rows@),
            first_at(all, path@) == i + first_at(all.skip(i as int), path@),
        decreases rows.len() - i,
    {
        assert(all.skip(i as int)[0] == rows@[i as int]@);
        assert(all.skip(i as int).skip(1) =~= all.skip(i + 1));
        if let Some(here) = rows[i].path() {
            if same(here, path) {
                return Some(i);
            }
        }
        i += 1;
    }
    None
}

/// Where a list stands with the cursor back on a path after the rows were laid out again.
pub open spec fn reselected(
    list: List,
    rows: Seq<RowView>,
    path: Option<Seq<char>>,
) -> (int, int) {
    let len = rows.len() as int;
    let page = list.page as int;
    let at = list::settled(len, page, list.cursor as int, list.scroll as int);
    match path {
        Some(path) if first_at(rows, path) < len => list::settled(
            len,
            page,
            first_at(rows, path),
            at.1,
        ),
        _ => at,
    }
}

/// Puts the cursor back on `path` after the rows were laid out again.
pub fn reselect(rows: &Vec<Row>, list: &mut List, path: &Option<String>)
    ensures
        final(list).stands(
            rows.len() as int,
            old(list).page as int,
            reselected(*old(list), row_views(rows@), text::optional(*path)),
        ),
{
    list.set_len(rows.len());
    if let Some(path) = path {
        if let Some(index) = find_row(rows, path.as_str()) {
            list.select(index);
        }
    }
}

// ---- Drawing ----

/// Where a row is drawn and how: the line it takes, what it is marked with when it is the
/// selected one, and whether it is the file being edited.
#[derive(Clone, Copy)]
pub struct RowPaint {
    pub line: Rect,
    pub selected: Option<Mark>,
    pub current: bool,
}

/// What a change looks like.
pub open spec fn change_scope(change: Change) -> Scope {
    match change {
        Change::Added => Scope::Added,
        Change::Deleted => Scope::Deleted,
        Change::Modified => Scope::Changed,
        Change::Renamed => Scope::Changed,
    }
}

pub fn change_style(change: Change) -> (scope: Scope)
    ensures
        scope == change_scope(change),
{
    match change {
        Change::Added => Scope::Added,
        Change::Deleted => Scope::Deleted,
        Change::Modified => Scope::Changed,
        Change::Renamed => Scope::Changed,
    }
}

/// A changed file's letter: its column, and how it looks.
#[derive(Clone, Copy)]
pub struct LetterPaint {
    pub x: u16,
    pub change: Change,
    pub style: Style,
}

/// What is drawn for a file or a directory: a text cut to a width from a column on, and a
/// changed file's letter.
pub struct EntryPaint {
    pub x: u16,
    pub y: u16,
    pub label: String,
    pub width: u16,
    pub style: Style,
    pub letter: Option<LetterPaint>,
}

/// What a row's name stands behind.
pub open spec fn marker(is_dir: bool, open: bool) -> Seq<char> {
    if !is_dir {
        "  "@
    } else if open {
        "▾ "@
    } else {
        "▸ "@
    }
}

/// The columns before a row's marker.
pub open spec fn indent(depth: int) -> int {
    1 + depth * 2
}

/// What an entry looks like, apart from its marks.
pub open spec fn entry_scope(entry: EntryView) -> Scope {
    if entry.is_dir {
        Scope::Directory
    } else {
        match entry.change {
            Some(change) => change_scope(change),
            None => Scope::Text,
        }
    }
}

/// Whether that is what is drawn for an entry, its letter in column `letter_x`.
pub open spec fn entry_laid(
    drawn: EntryPaint,
    paint: RowPaint,
    entry: EntryView,
    open: bool,
    letter_x: int,
) -> bool {
    let letter_room: int = if entry.change is Some {
        3
    } else {
        0
    };
    &&& drawn.x == screen::capped(paint.line.x + indent(entry.depth))
    &&& drawn.y == paint.line.y
    &&& drawn.label@ == marker(entry.is_dir, open) + entry.name
    &&& drawn.width == screen::less_by(paint.line.width as int, indent(entry.depth) + letter_room)
    &&& drawn.style == (Style {
        scope: entry_scope(entry),
        bold: paint.current,
        over: paint.selected,
    })
    &&& match entry.change {
        None => drawn.letter is None,
        Some(change) => drawn.letter == Some(
            LetterPaint {
                x: letter_x as u16,
                change,
                style: Style { scope: change_scope(change), bold: false, over: paint.selected },
            },
        ),
    }
}

/// The column of a letter: the last but one of the line, clear of the name.
pub open spec fn letter_column(line: Rect) -> int {
    screen::most(screen::less_by(line.end(), 2), line.x as int)
}

/// Lays a file or a directory out on its line, a letter in column `letter_x`.
pub fn lay_entry(paint: &RowPaint, entry: &Entry, open: bool, letter_x: u16) -> (drawn: EntryPaint)
    ensures
        entry_laid(drawn, *paint, entry@, open, letter_x as int),
{
    let scope = if entry.is_dir {
        Scope::Directory
    } else {
        match entry.change {
            Some(change) => change_style(change),
            None => Scope::Text,
        }
    };
    let style = Style { scope, bold: paint.current, over: paint.selected };
    let marker = if !entry.is_dir {
        "  "
    } else if open {
        "▾ "
    } else {
        "▸ "
    };
    let indent: u128 = 1 + entry.depth as u128 * 2;
    let room: u128 = if entry.change.is_some() {
        3
    } else {
        0
    };
    let x: u16 = if paint.line.x as u128 + indent < 0xffff {
        (paint.line.x as u128 + indent) as u16
    } else {
        0xffff
    };
    let width: u16 = if (paint.line.width as u128) < indent + room {
        0
    } else {
        (paint.line.width as u128 - (indent + room)) as u16
    };
    let letter = match entry.change {
        None => None,
        Some(change) => Some(
            LetterPaint {
                x: letter_x,
                change,
                style: Style { scope: change_style(change), bold: false, over: paint.selected },
            },
        ),
    };
    EntryPaint {
        x,
        y: paint.line.y,
        label: told(marker, entry.name.as_str()),
        width,
        style,
        letter,
    }
}

/// Lays a file or a directory out on its line: its fold marker and name, indented by depth,
/// and a changed file's letter in the last columns, clear of the name.
pub fn draw_entry(paint: &RowPaint, entry: &Entry, open: bool) -> (drawn: EntryPaint)
    ensures
        entry_laid(drawn, *paint, entry@, open, letter_column(paint.line)),
{
    let letter_x = larger(rest(paint.line.right(), 2), paint.line.x);
    lay_entry(paint, entry, open, letter_x)
}

// ---- What a tree of the disk shows ----

/// What the rows right below a row `e` deep are: each path and whether it is a directory, in
/// order, up to the first row that is as deep as that one or less.
pub open spec fn children(rows: Seq<RowView>, e: int) -> Seq<(Seq<char>, bool)>
    decreases rows.len(),
{
    if rows.len() == 0 || rows[0].depth() <= e {
        Seq::empty()
    } else {
        let rest = children(rows.skip(1), e);
        match rows[0] {
            RowView::Entry(entry) if entry.depth == e + 1 => seq![(entry.path, entry.is_dir)] + rest,
            _ => rest,
        }
    }
}

/// What a directory holds, the way up left out.
pub open spec fn contents(entries: Seq<(Seq<char>, bool)>) -> Seq<(Seq<char>, bool)>
    decreases entries.len(),
{
    if entries.len() == 0 {
        Seq::empty()
    } else {
        let before = contents(entries.drop_last());
        let parts = path::components(entries.last().0);
        if parts.len() > 0 && parts.last() == seq!['.', '.'] {
            before
        } else {
            before.push(entries.last())
        }
    }
}

/// Whether a directory was read, and could be.
pub open spec fn was_read(disk: Seq<ListingView>, dir: Seq<char>) -> bool {
    &&& listing_of(disk, dir) < disk.len()
    &&& disk[listing_of(disk, dir)].error is None
}

/// What the row of an entry has right below it: what the directory holds when it is open and
/// was read, nothing otherwise.
pub open spec fn should_hold(disk: Seq<ListingView>, folds: FoldsView, entry: EntryView) -> Seq<
    (Seq<char>, bool),
> {
    if entry.is_dir && folds.opens(entry.path) && was_read(disk, entry.path) {
        contents(disk[listing_of(disk, entry.path)].entries)
    } else {
        Seq::empty()
    }
}

/// Whether every row of some has right below it what its entry should.
pub open spec fn holds_each(rows: Seq<RowView>, disk: Seq<ListingView>, folds: FoldsView) -> bool {
    forall|r: int|
        0 <= r < rows.len() ==> holds_below(#[trigger] rows[r], rows.skip(r + 1), disk, folds)
}

/// Whether a row has right below it what its entry should.
pub open spec fn holds_below(
    row: RowView,
    rest: Seq<RowView>,
    disk: Seq<ListingView>,
    folds: FoldsView,
) -> bool {
    match row {
        RowView::Entry(entry) => children(rest, entry.depth) == should_hold(disk, folds, entry)
            && entry.change is None,
        RowView::Commit(_) => false,
    }
}

/// Whether what each directory on a disk holds lies below it, the way up aside.
pub open spec fn nested(disk: Seq<ListingView>) -> bool {
    forall|at: int, k: int|
        0 <= at < disk.len() && 0 <= k < disk[at].entries.len() && !is_up(
            (#[trigger] disk[at].entries[k]).0,
        ) ==> path::components(disk[at].entries[k].0).len() > path::components(disk[at].dir).len()
}

spec fn all_from(rows: Seq<RowView>, d: int) -> bool {
    forall|r: int| 0 <= r < rows.len() ==> (#[trigger] rows[r]).depth() >= d
}

proof fn lemma_children_stop(a: Seq<RowView>, b: Seq<RowView>, e: int)
    requires
        b.len() > 0 ==> b[0].depth() <= e,
    ensures
        children(a + b, e) == children(a, e),
    decreases a.len(),
{
    if a.len() == 0 {
        assert(a + b =~= b);
    } else {
        assert((a + b)[0] == a[0]);
        assert((a + b).skip(1) =~= a.skip(1) + b);
        lemma_children_stop(a.skip(1), b, e);
    }
}

proof fn lemma_children_concat(a: Seq<RowView>, b: Seq<RowView>, e: int)
    requires
        all_from(a, e + 1),
    ensures
        children(a + b, e) == children(a, e) + children(b, e),
    decreases a.len(),
{
    if a.len() == 0 {
        assert(a + b =~= b);
        assert(children(a, e) + children(b, e) =~= children(b, e));
    } else {
        assert((a + b)[0] == a[0]);
        assert((a + b).skip(1) =~= a.skip(1) + b);
        assert forall|r: int| 0 <= r < a.skip(1).len() implies (#[trigger] a.skip(1)[r]).depth() >= e
            + 1 by {
            assert(a.skip(1)[r] == a[r + 1]);
        }
        lemma_children_concat(a.skip(1), b, e);
        assert(a[0].depth() >= e + 1);
        assert(children(a + b, e) =~= children(a, e) + children(b, e));
    }
}

proof fn lemma_children_none(a: Seq<RowView>, e: int)
    requires
        all_from(a, e + 2),
    ensures
        children(a, e) == Seq::<(Seq<char>, bool)>::empty(),
    decreases a.len(),
{
    if a.len() > 0 {
        assert forall|r: int| 0 <= r < a.skip(1).len() implies (#[trigger] a.skip(1)[r]).depth() >= e
            + 2 by {
            assert(a.skip(1)[r] == a[r + 1]);
        }
        assert(a[0].depth() >= e + 2);
        lemma_children_none(a.skip(1), e);
    }
}

proof fn lemma_holds_concat(
    a: Seq<RowView>,
    b: Seq<RowView>,
    d: int,
    disk: Seq<ListingView>,
    folds: FoldsView,
)
    requires
        holds_each(a, disk, folds),
        holds_each(b, disk, folds),
        all_from(a, d),
        b.len() > 0 ==> b[0].depth() <= d,
    ensures
        holds_each(a + b, disk, folds),
{
    let all = a + b;
    assert forall|r: int| 0 <= r < all.len() implies holds_below(
        #[trigger] all[r],
        all.skip(r + 1),
        disk,
        folds,
    ) by {
        if r < a.len() {
            assert(all[r] == a[r]);
            assert(a[r].depth() >= d);
            assert(all.skip(r + 1) =~= a.skip(r + 1) + b);
            lemma_children_stop(a.skip(r + 1), b, a[r].depth());
        } else {
            assert(all[r] == b[r - a.len()]);
            assert(all.skip(r + 1) =~= b.skip(r - a.len() + 1));
        }
    }
}

proof fn lemma_dir_laid_holds(
    disk: Seq<ListingView>,
    dir: Seq<char>,
    depth: int,
    folds: FoldsView,
    above: int,
)
    requires
        nested(disk),
        -1 <= above < path::components(dir).len(),
        0 <= depth,
        depth + deepest(disk) - above < usize::MAX,
    ensures
        all_from(dir_laid(disk, dir, depth, folds, above).rows, depth),
        holds_each(dir_laid(disk, dir, depth, folds, above).rows, disk, folds),
        children(dir_laid(disk, dir, depth, folds, above).rows, depth - 1) == if was_read(disk, dir) {
            contents(disk[listing_of(disk, dir)].entries)
        } else {
            Seq::<(Seq<char>, bool)>::empty()
        },
    decreases deepest(disk) - above, 0int, 0int,
{
    lemma_listing_of(disk, dir);
    lemma_deepest_counts(disk);
    let at = listing_of(disk, dir);
    if at < disk.len() {
        lemma_deepest(disk, at);
        if disk[at].error is None {
            let n = disk[at].entries.len() as int;
            lemma_entries_laid_holds(disk, at, dir, n, depth, folds);
            assert(disk[at].entries.take(n) =~= disk[at].entries);
        }
    }
}

proof fn lemma_entries_laid_holds(
    disk: Seq<ListingView>,
    at: int,
    dir: Seq<char>,
    n: int,
    depth: int,
    folds: FoldsView,
)
    requires
        nested(disk),
        0 <= at < disk.len(),
        0 <= n <= disk[at].entries.len(),
        0 <= depth,
        depth + deepest(disk) - parts_of(disk[at]) < usize::MAX - 1,
    ensures
        all_from(entries_laid(disk, at, dir, n, depth, folds).rows, depth),
        holds_each(entries_laid(disk, at, dir, n, depth, folds).rows, disk, folds),
        children(entries_laid(disk, at, dir, n, depth, folds).rows, depth - 1) == contents(
            disk[at].entries.take(n),
        ),
    decreases deepest(disk) - parts_of(disk[at]), 1int, n,
{
    lemma_deepest(disk, at);
    let entries = disk[at].entries;
    if n > 0 {
        let before = entries_laid(disk, at, dir, n - 1, depth, folds);
        lemma_entries_laid_holds(disk, at, dir, n - 1, depth, folds);
        assert(entries.take(n).drop_last() =~= entries.take(n - 1));
        assert(entries.take(n).last() == entries[n - 1]);
        let (path, is_dir) = entries[n - 1];
        if !is_up(path) {
            let entry = EntryView {
                path,
                name: listed_name(path, dir),
                is_dir,
                depth,
                change: None,
            };
            let row = RowView::Entry(entry);
            let open = is_dir && folds.opens(path);
            assert(path::components(path).len() > path::components(disk[at].dir).len());
            let inner = if open {
                dir_laid(disk, path, deeper(depth), folds, parts_of(disk[at])).rows
            } else {
                Seq::empty()
            };
            if open {
                assert(deeper(depth) == depth + 1);
                lemma_dir_laid_holds(disk, path, depth + 1, folds, parts_of(disk[at]));
            }
            let block = seq![row] + inner;
            assert(all_from(inner, depth + 1));
            assert(children(inner, depth) == should_hold(disk, folds, entry));
            assert(holds_each(block, disk, folds)) by {
                assert forall|r: int| 0 <= r < block.len() implies holds_below(
                    #[trigger] block[r],
                    block.skip(r + 1),
                    disk,
                    folds,
                ) by {
                    if r == 0 {
                        assert(block.skip(1) =~= inner);
                    } else {
                        assert(block[r] == inner[r - 1]);
                        assert(block.skip(r + 1) =~= inner.skip(r));
                    }
                }
            }
            lemma_holds_concat(before.rows, block, depth, disk, folds);
            lemma_children_concat(before.rows, block, depth - 1);
            assert(block.skip(1) =~= inner);
            lemma_children_none(inner, depth - 1);
            assert(children(block, depth - 1) =~= seq![(path, is_dir)]);
            let laid = entries_laid(disk, at, dir, n, depth, folds);
            assert(laid.rows =~= before.rows + block);
            assert forall|r: int| 0 <= r < laid.rows.len() implies (
            #[trigger] laid.rows[r]).depth() >= depth by {
                if r < before.rows.len() {
                    assert(laid.rows[r] == before.rows[r]);
                } else if r > before.rows.len() {
                    assert(laid.rows[r] == inner[r - before.rows.len() - 1]);
                }
            }
            assert(contents(entries.take(n)) =~= contents(entries.take(n - 1)).push((path, is_dir)));
        }
    }
}

/// A tree of the disk shows what the directory it is of holds, in the order it was read, the way
/// up left out; and right below the row of every directory that is open and was read, however
/// deep, what that holds. A closed directory, one that was not or could not be read, and a file
/// have nothing below them.
pub proof fn law_a_tree_shows_what_is_open(
    disk: Seq<ListingView>,
    dir: Seq<char>,
    depth: int,
    folds: FoldsView,
)
    requires
        nested(disk),
        0 <= depth,
        depth + deepest(disk) + 1 < usize::MAX,
    ensures
        children(dir_laid(disk, dir, depth, folds, -1).rows, depth - 1) == if was_read(disk, dir) {
            contents(disk[listing_of(disk, dir)].entries)
        } else {
            Seq::<(Seq<char>, bool)>::empty()
        },
        holds_each(dir_laid(disk, dir, depth, folds, -1).rows, disk, folds),
{
    lemma_dir_laid_holds(disk, dir, depth, folds, -1);
}

/// Whether what some rows are of that was not read, or could not be, is told: the one as missing,
/// the other with what it said.
pub open spec fn tells_each(laid: Laid, disk: Seq<ListingView>, folds: FoldsView) -> bool {
    forall|r: int| 0 <= r < laid.rows.len() ==> told_of(laid, #[trigger] laid.rows[r], disk, folds)
}

/// Whether what a row is of is told when it was not read, or could not be.
pub open spec fn told_of(
    laid: Laid,
    row: RowView,
    disk: Seq<ListingView>,
    folds: FoldsView,
) -> bool {
    match row {
        RowView::Entry(entry) if entry.is_dir && folds.opens(entry.path) => {
            let at = listing_of(disk, entry.path);
            &&& at >= disk.len() ==> laid.missing.contains(entry.path)
            &&& at < disk.len() ==> (disk[at].error matches Some(why) ==> laid.errors.contains(
                entry.path + seq![':', ' '] + why,
            ))
        },
        _ => true,
    }
}

proof fn lemma_tells_concat(a: Laid, b: Laid, disk: Seq<ListingView>, folds: FoldsView)
    requires
        tells_each(a, disk, folds),
        tells_each(b, disk, folds),
    ensures
        tells_each(laid_after(a, b), disk, folds),
{
    let all = laid_after(a, b);
    assert forall|r: int| 0 <= r < all.rows.len() implies told_of(
        all,
        #[trigger] all.rows[r],
        disk,
        folds,
    ) by {
        lemma_contains_concat(a.missing, b.missing);
        lemma_contains_concat(a.errors, b.errors);
        if r < a.rows.len() {
            assert(all.rows[r] == a.rows[r]);
        } else {
            assert(all.rows[r] == b.rows[r - a.rows.len()]);
        }
    }
}

proof fn lemma_contains_concat(a: Seq<Seq<char>>, b: Seq<Seq<char>>)
    ensures
        forall|t: Seq<char>| #[trigger] a.contains(t) ==> (a + b).contains(t),
        forall|t: Seq<char>| #[trigger] b.contains(t) ==> (a + b).contains(t),
{
    assert forall|t: Seq<char>| #[trigger] a.contains(t) implies (a + b).contains(t) by {
        let i = choose|i: int| 0 <= i < a.len() && a[i] == t;
        assert((a + b)[i] == t);
    }
    assert forall|t: Seq<char>| #[trigger] b.contains(t) implies (a + b).contains(t) by {
        let i = choose|i: int| 0 <= i < b.len() && b[i] == t;
        assert((a + b)[a.len() + i] == t);
    }
}

proof fn lemma_dir_laid_tells(
    disk: Seq<ListingView>,
    dir: Seq<char>,
    depth: int,
    folds: FoldsView,
    above: int,
)
    requires
        nested(disk),
        -1 <= above < path::components(dir).len(),
    ensures
        tells_each(dir_laid(disk, dir, depth, folds, above), disk, folds),
        listing_of(disk, dir) >= disk.len() ==> dir_laid(
            disk,
            dir,
            depth,
            folds,
            above,
        ).missing == seq![dir],
        listing_of(disk, dir) < disk.len() ==> (disk[listing_of(disk, dir)].error matches Some(why)
            ==> dir_laid(disk, dir, depth, folds, above).errors == seq![dir + seq![':', ' '] + why]),
    decreases deepest(disk) - above, 0int, 0int,
{
    lemma_listing_of(disk, dir);
    reveal_strlit(": ");
    assert(": "@ =~= seq![':', ' ']);
    let at = listing_of(disk, dir);
    if at < disk.len() {
        lemma_deepest(disk, at);
        if disk[at].error is None {
            lemma_entries_laid_tells(disk, at, dir, disk[at].entries.len() as int, depth, folds);
        }
    }
}

proof fn lemma_entries_laid_tells(
    disk: Seq<ListingView>,
    at: int,
    dir: Seq<char>,
    n: int,
    depth: int,
    folds: FoldsView,
)
    requires
        nested(disk),
        0 <= at < disk.len(),
        0 <= n <= disk[at].entries.len(),
    ensures
        tells_each(entries_laid(disk, at, dir, n, depth, folds), disk, folds),
    decreases deepest(disk) - parts_of(disk[at]), 1int, n,
{
    lemma_deepest(disk, at);
    if n > 0 {
        let before = entries_laid(disk, at, dir, n - 1, depth, folds);
        lemma_entries_laid_tells(disk, at, dir, n - 1, depth, folds);
        let (path, is_dir) = disk[at].entries[n - 1];
        if !is_up(path) {
            let entry = EntryView {
                path,
                name: listed_name(path, dir),
                is_dir,
                depth,
                change: None,
            };
            let row = RowView::Entry(entry);
            let alone = Laid { rows: seq![row], ..laid_none() };
            assert(path::components(path).len() > path::components(disk[at].dir).len());
            if is_dir && folds.opens(path) {
                let inner = dir_laid(disk, path, deeper(depth), folds, parts_of(disk[at]));
                lemma_dir_laid_tells(disk, path, deeper(depth), folds, parts_of(disk[at]));
                let block = laid_after(alone, inner);
                assert(tells_each(block, disk, folds)) by {
                    assert(block.missing =~= inner.missing);
                    assert(block.errors =~= inner.errors);
                    assert forall|r: int| 0 <= r < block.rows.len() implies told_of(
                        block,
                        #[trigger] block.rows[r],
                        disk,
                        folds,
                    ) by {
                        if r == 0 {
                            lemma_listing_of(disk, path);
                            assert(seq![path][0] == path);
                            if listing_of(disk, path) < disk.len() {
                                if let Some(why) = disk[listing_of(disk, path)].error {
                                    let line = path + seq![':', ' '] + why;
                                    assert(seq![line][0] == line);
                                }
                            }
                        } else {
                            assert(block.rows[r] == inner.rows[r - 1]);
                        }
                    }
                }
                lemma_tells_concat(before, block, disk, folds);
                let laid = entries_laid(disk, at, dir, n, depth, folds);
                let all = laid_after(before, block);
                assert(laid.rows =~= all.rows);
                assert(laid.missing =~= all.missing);
                assert(laid.errors =~= all.errors);
            } else {
                assert(tells_each(alone, disk, folds)) by {
                    assert(alone.rows[0] == row);
                }
                lemma_tells_concat(before, alone, disk, folds);
            }
        }
    }
}

/// Every directory that is open and was not read is asked for, and what every one that could not
/// be read said is told, the directory the tree is of with them.
pub proof fn law_what_was_not_read_is_told(
    disk: Seq<ListingView>,
    dir: Seq<char>,
    depth: int,
    folds: FoldsView,
)
    requires
        nested(disk),
    ensures
        tells_each(dir_laid(disk, dir, depth, folds, -1), disk, folds),
        listing_of(disk, dir) >= disk.len() ==> dir_laid(
            disk,
            dir,
            depth,
            folds,
            -1,
        ).missing.contains(dir),
        listing_of(disk, dir) < disk.len() ==> (disk[listing_of(disk, dir)].error matches Some(why)
            ==> dir_laid(disk, dir, depth, folds, -1).errors.contains(
            dir + seq![':', ' '] + why,
        )),
{
    lemma_dir_laid_tells(disk, dir, depth, folds, -1);
    let laid = dir_laid(disk, dir, depth, folds, -1);
    if listing_of(disk, dir) >= disk.len() {
        assert(laid.missing[0] == dir);
    } else if let Some(why) = disk[listing_of(disk, dir)].error {
        lemma_listing_of(disk, dir);
        assert(laid.errors[0] == dir + seq![':', ' '] + why);
    }
}

/// A listing is found exactly when there is one of that directory, however it is spelled; the
/// first of several is the one.
pub proof fn law_the_first_listing_is_found(disk: Seq<ListingView>, dir: Seq<char>, i: int)
    requires
        0 <= i < disk.len(),
        path::components(disk[i].dir) == path::components(dir),
    ensures
        0 <= listing_of(disk, dir) <= i,
        path::components(disk[listing_of(disk, dir)].dir) == path::components(dir),
    decreases disk.len(),
{
    if !path::equal(disk[0].dir, dir) {
        assert(disk.skip(1)[i - 1] == disk[i]);
        law_the_first_listing_is_found(disk.skip(1), dir, i - 1);
    }
}

// ---- How the tree of changes is laid out ----

/// Whether a row fits in with those around it: below a file or a closed directory nothing lies,
/// below an open one what is one deeper, and no directory comes after a file beside it.
pub open spec fn row_fits(rows: Seq<RowView>, i: int, depth: int, folds: FoldsView) -> bool {
    rows[i] matches RowView::Entry(entry) && {
        &&& entry.depth >= depth
        &&& entry.is_dir == (entry.change is None)
        &&& i + 1 < rows.len() ==> (rows[i + 1] matches RowView::Entry(next) && {
            &&& next.depth <= if entry.is_dir && folds.opens(entry.path) {
                deeper(entry.depth)
            } else {
                entry.depth
            }
            &&& !entry.is_dir && next.is_dir ==> next.depth < entry.depth || entry.depth
                >= usize::MAX
        })
    }
}

/// Whether every row fits in with those around it.
pub open spec fn all_fit(rows: Seq<RowView>, depth: int, folds: FoldsView) -> bool {
    forall|i: int| 0 <= i < rows.len() ==> #[trigger] row_fits(rows, i, depth, folds)
}

/// Whether a directory can follow the rows, that deep.
spec fn dir_may_follow(rows: Seq<RowView>, depth: int) -> bool {
    rows.len() > 0 ==> (rows.last() matches RowView::Entry(entry) && (entry.is_dir || entry.depth
        > depth || depth >= usize::MAX))
}

/// Rows that fit in, after others that do, as deep as they start.
proof fn lemma_fit_concat(a: Seq<RowView>, b: Seq<RowView>, depth: int, folds: FoldsView)
    requires
        all_fit(a, depth, folds),
        all_fit(b, depth, folds),
        b.len() > 0 ==> (b[0] matches RowView::Entry(first) && first.depth == depth && (first.is_dir
            ==> dir_may_follow(a, depth))),
    ensures
        all_fit(a + b, depth, folds),
{
    let all = a + b;
    assert forall|i: int| 0 <= i < all.len() implies #[trigger] row_fits(all, i, depth, folds) by {
        if i < a.len() {
            assert(row_fits(a, i, depth, folds));
            assert(all[i] == a[i]);
            if i + 1 < a.len() {
                assert(all[i + 1] == a[i + 1]);
            } else if i + 1 < all.len() {
                assert(all[i + 1] == b[0]);
                assert(a.last() == a[i]);
            }
        } else {
            let j = i - a.len();
            assert(row_fits(b, j, depth, folds));
            assert(all[i] == b[j]);
            if i + 1 < all.len() {
                assert(all[i + 1] == b[j + 1]);
            }
        }
    }
}

/// The rows of a tree of changes fit in with one another: directories come before the files
/// beside them, what is below an open directory is one deeper, and below a closed one nothing
/// is shown.
pub proof fn law_the_tree_of_changes_is_laid_out(
    dir: DirView,
    path: Seq<char>,
    depth: int,
    folds: FoldsView,
)
    ensures
        all_fit(change_rows(dir, path, depth, folds), depth, folds),
        change_rows(dir, path, depth, folds).len() > 0 ==> change_rows(
            dir,
            path,
            depth,
            folds,
        )[0] is Entry && change_rows(dir, path, depth, folds)[0].depth() == depth,
    decreases dir, 0int,
{
    let n = dir.dirs.len() as int;
    let dirs = dirs_rows(dir.dirs, n, path, depth, folds);
    let files = file_rows(dir.files, path, depth);
    lemma_dirs_fit(dir, n, path, depth, folds);
    assert forall|i: int| 0 <= i < files.len() implies #[trigger] row_fits(
        files,
        i,
        depth,
        folds,
    ) by {
        if i + 1 < files.len() {
            assert(files[i + 1] is Entry);
        }
    }
    lemma_fit_concat(dirs, files, depth, folds);
}

proof fn lemma_dirs_fit(dir: DirView, n: int, path: Seq<char>, depth: int, folds: FoldsView)
    requires
        0 <= n <= dir.dirs.len(),
    ensures
        ({
            let rows = dirs_rows(dir.dirs, n, path, depth, folds);
            &&& all_fit(rows, depth, folds)
            &&& dir_may_follow(rows, depth)
            &&& rows.len() > 0 ==> (rows[0] matches RowView::Entry(first) && first.depth == depth
                && first.is_dir)
        }),
    decreases dir, 0int, n,
{
    if n > 0 {
        let (name, child) = dir.dirs[n - 1];
        lemma_dirs_fit(dir, n - 1, path, depth, folds);
        lemma_child_fits(dir, n - 1, name, child, path::joined(path, name), depth, folds);
        let before = dirs_rows(dir.dirs, n - 1, path, depth, folds);
        let rows = child_rows(name, child, path::joined(path, name), depth, folds);
        lemma_fit_concat(before, rows, depth, folds);
        assert((before + rows).last() == rows.last());
    }
}

proof fn lemma_child_fits(
    above: DirView,
    i: int,
    name: Seq<char>,
    dir: DirView,
    path: Seq<char>,
    depth: int,
    folds: FoldsView,
)
    requires
        0 <= i < above.dirs.len(),
        above.dirs[i].1 == dir,
    ensures
        ({
            let rows = child_rows(name, dir, path, depth, folds);
            &&& all_fit(rows, depth, folds)
            &&& dir_may_follow(rows, depth)
            &&& rows.len() > 0
            &&& rows[0] matches RowView::Entry(first) && first.depth == depth && first.is_dir
        }),
    decreases dir, 1int,
{
    let rows = child_rows(name, dir, path, depth, folds);
    if dir.files.len() == 0 && dir.dirs.len() == 1 {
        let (next, inner) = dir.dirs[0];
        lemma_child_fits(
            dir,
            0,
            name + "/"@ + next,
            inner,
            path::joined(path, next),
            depth,
            folds,
        );
    } else {
        let head = seq![dir_row(name, path, depth)];
        let below = change_rows(dir, path, deeper(depth), folds);
        law_the_tree_of_changes_is_laid_out(dir, path, deeper(depth), folds);
        if folds.opens(path) {
            assert(rows == head + below);
            assert forall|i: int| 0 <= i < rows.len() implies #[trigger] row_fits(
                rows,
                i,
                depth,
                folds,
            ) by {
                if i == 0 {
                    if rows.len() > 1 {
                        assert(rows[1] == below[0]);
                    }
                } else {
                    assert(row_fits(below, i - 1, deeper(depth), folds));
                    assert(rows[i] == below[i - 1]);
                    if i + 1 < rows.len() {
                        assert(rows[i + 1] == below[i]);
                    }
                }
            }
            if below.len() > 0 {
                assert(row_fits(below, below.len() - 1, deeper(depth), folds));
                assert(rows.last() == below[below.len() - 1]);
            }
        } else {
            assert(rows =~= head);
            assert(row_fits(rows, 0, depth, folds));
        }
    }
}

/// Whether the names of a tree are names: not empty, and without a `/` in them.
pub open spec fn plainly_named(dir: DirView) -> bool
    decreases dir,
{
    &&& forall|i: int| 0 <= i < dir.files.len() ==> is_plain_name((#[trigger] dir.files[i]).0)
    &&& forall|i: int|
        0 <= i < dir.dirs.len() ==> is_plain_name((#[trigger] dir.dirs[i]).0) && plainly_named(
            dir.dirs[i].1,
        )
}

/// Whether a name is not empty and has no `/` in it.
pub open spec fn is_plain_name(name: Seq<char>) -> bool {
    name.len() > 0 && forall|i: int| 0 <= i < name.len() ==> name[i] != '/'
}

/// Whether a row is named as it is spelled below the directory it is in: one of the rows
/// before it, or the top.
pub open spec fn is_named(rows: Seq<RowView>, i: int, path: Seq<char>, depth: int) -> bool {
    rows[i] matches RowView::Entry(entry) && ((entry.depth == depth && entry.path
        == path::joined(path, entry.name)) || exists|j: int|
        0 <= j < i && #[trigger] holds_row(rows[j], entry))
}

/// Whether a row is that of the directory an entry is in.
pub open spec fn holds_row(row: RowView, entry: EntryView) -> bool {
    row matches RowView::Entry(dir) && dir.is_dir && entry.path == path::joined(dir.path, entry.name)
        && entry.depth == deeper(dir.depth)
}

/// Whether every row is named as it is spelled below the directory it is in.
pub open spec fn all_named(rows: Seq<RowView>, path: Seq<char>, depth: int) -> bool {
    forall|i: int| 0 <= i < rows.len() ==> #[trigger] is_named(rows, i, path, depth)
}

proof fn lemma_named_concat(a: Seq<RowView>, b: Seq<RowView>, path: Seq<char>, depth: int)
    requires
        all_named(a, path, depth),
        all_named(b, path, depth),
    ensures
        all_named(a + b, path, depth),
{
    let all = a + b;
    assert forall|i: int| 0 <= i < all.len() implies #[trigger] is_named(all, i, path, depth) by {
        if i < a.len() {
            assert(is_named(a, i, path, depth));
            assert(all[i] == a[i]);
            let entry = a[i]->Entry_0;
            if !(entry.depth == depth && entry.path == path::joined(path, entry.name)) {
                let j = choose|j: int| 0 <= j < i && #[trigger] holds_row(a[j], entry);
                assert(holds_row(all[j], entry));
            }
        } else {
            let k = i - a.len();
            assert(is_named(b, k, path, depth));
            assert(all[i] == b[k]);
            let entry = b[k]->Entry_0;
            if !(entry.depth == depth && entry.path == path::joined(path, entry.name)) {
                let j = choose|j: int| 0 <= j < k && #[trigger] holds_row(b[j], entry);
                assert(all[a.len() + j] == b[j]);
                assert(holds_row(all[a.len() + j], entry));
            }
        }
    }
}

/// Each row of a tree of changes is named as it is spelled below the directory whose row it is
/// under, a chain of directories with nothing else in them by all of its names.
pub proof fn law_each_row_is_named_below_its_directory(
    dir: DirView,
    path: Seq<char>,
    depth: int,
    folds: FoldsView,
)
    requires
        plainly_named(dir),
    ensures
        all_named(change_rows(dir, path, depth, folds), path, depth),
    decreases dir, 0int,
{
    let n = dir.dirs.len() as int;
    let dirs = dirs_rows(dir.dirs, n, path, depth, folds);
    let files = file_rows(dir.files, path, depth);
    lemma_dirs_named(dir, n, path, depth, folds);
    assert forall|i: int| 0 <= i < files.len() implies #[trigger] is_named(files, i, path, depth) by {
        assert(files[i] is Entry);
    }
    lemma_named_concat(dirs, files, path, depth);
}

proof fn lemma_dirs_named(dir: DirView, n: int, path: Seq<char>, depth: int, folds: FoldsView)
    requires
        plainly_named(dir),
        0 <= n <= dir.dirs.len(),
    ensures
        all_named(dirs_rows(dir.dirs, n, path, depth, folds), path, depth),
    decreases dir, 0int, n,
{
    if n > 0 {
        let (name, child) = dir.dirs[n - 1];
        let before = dirs_rows(dir.dirs, n - 1, path, depth, folds);
        let rows = child_rows(name, child, path::joined(path, name), depth, folds);
        lemma_dirs_named(dir, n - 1, path, depth, folds);
        assert(is_plain_name(name) && plainly_named(child));
        lemma_child_named(dir, n - 1, name, child, path, path::joined(path, name), depth, folds);
        lemma_named_concat(before, rows, path, depth);
    }
}

proof fn lemma_child_named(
    above: DirView,
    i: int,
    name: Seq<char>,
    dir: DirView,
    top: Seq<char>,
    path: Seq<char>,
    depth: int,
    folds: FoldsView,
)
    requires
        0 <= i < above.dirs.len(),
        above.dirs[i].1 == dir,
        plainly_named(dir),
        name.len() > 0,
        name[0] != '/',
        name.last() != '/',
        path == path::joined(top, name),
    ensures
        all_named(child_rows(name, dir, path, depth, folds), top, depth),
    decreases dir, 1int,
{
    let rows = child_rows(name, dir, path, depth, folds);
    if dir.files.len() == 0 && dir.dirs.len() == 1 {
        let (next, inner) = dir.dirs[0];
        assert(is_plain_name(dir.dirs[0].0) && plainly_named(dir.dirs[0].1));
        assert(next[0] != '/' && next[next.len() - 1] != '/');
        reveal_strlit("/");
        let longer = name + "/"@ + next;
        assert(path.last() == name.last());
        assert(path::joined(path, next) =~= path::joined(top, longer));
        assert(longer.last() == next.last());
        lemma_child_named(dir, 0, longer, inner, top, path::joined(path, next), depth, folds);
    } else {
        let head = seq![dir_row(name, path, depth)];
        let below = change_rows(dir, path, deeper(depth), folds);
        law_each_row_is_named_below_its_directory(dir, path, deeper(depth), folds);
        law_the_tree_of_changes_is_laid_out(dir, path, deeper(depth), folds);
        if folds.opens(path) {
            assert(rows == head + below);
            assert forall|k: int| 0 <= k < rows.len() implies #[trigger] is_named(rows, k, top, depth) by {
                if k > 0 {
                    assert(is_named(below, k - 1, path, deeper(depth)));
                    assert(rows[k] == below[k - 1]);
                    let entry = below[k - 1]->Entry_0;
                    if entry.depth == deeper(depth) && entry.path == path::joined(
                        path,
                        entry.name,
                    ) {
                        assert(holds_row(rows[0], entry));
                    } else {
                        let j = choose|j: int|
                            0 <= j < k - 1 && #[trigger] holds_row(below[j], entry);
                        assert(rows[j + 1] == below[j]);
                        assert(holds_row(rows[j + 1], entry));
                    }
                }
            }
        } else {
            assert(rows =~= head);
            assert(is_named(rows, 0, top, depth));
        }
    }
}

/// The files of a directory come in the order of their names, each with its own change.
pub proof fn law_files_come_by_name(dir: DirView, path: Seq<char>, depth: int, i: int, j: int)
    requires
        tidy(dir),
        0 <= i < j < dir.files.len(),
    ensures
        ({
            let rows = file_rows(dir.files, path, depth);
            &&& rows.len() == dir.files.len()
            &&& rows[i] matches RowView::Entry(a) && rows[j] matches RowView::Entry(b)
                && order::less(a.name, b.name) && a.path == path::joined(path, a.name) && a.change
                == Some(dir.files[i].1)
        }),
{
    assert(order::names(dir.files)[i] == dir.files[i].0);
    assert(order::names(dir.files)[j] == dir.files[j].0);
}

/// The cursor goes back onto the first row of its path, and stays on its line when there is
/// none.
pub proof fn law_the_cursor_finds_its_path(rows: Seq<RowView>, path: Seq<char>, list: List)
    ensures
        ({
            let at = first_at(rows, path);
            &&& 0 <= at <= rows.len()
            &&& at < rows.len() ==> rows[at].path() is Some && path::equal(
                rows[at].path()->0,
                path,
            )
            &&& forall|i: int|
                0 <= i < at ==> ((#[trigger] rows[i]).path() is Some ==> !path::equal(
                    rows[i].path()->0,
                    path,
                ))
            &&& at < rows.len() ==> reselected(list, rows, Some(path)).0 == at
            &&& at == rows.len() ==> reselected(list, rows, Some(path)) == reselected(
                list,
                rows,
                None,
            )
            &&& list.cursor < rows.len() ==> reselected(list, rows, None).0 == list.cursor
        }),
    decreases rows.len(),
{
    if rows.len() > 0 && !rows[0].is_at(path) {
        let rest = rows.skip(1);
        law_the_cursor_finds_its_path(rest, path, list);
        let at = first_at(rows, path);
        assert forall|i: int| 0 <= i < at && (#[trigger] rows[i]).path() is Some implies !path::equal(
            rows[i].path()->0,
            path,
        ) by {
            if i > 0 {
                assert(rest[i - 1] == rows[i]);
            }
        }
        if at < rows.len() {
            assert(rest[at - 1] == rows[at]);
        }
    }
}

/// A row starts two columns further right for each directory it is in; a change is in the last
/// column but one, which the name is kept clear of.
pub proof fn law_a_row_is_drawn_within_its_line(
    drawn: EntryPaint,
    paint: RowPaint,
    entry: EntryView,
    open: bool,
)
    requires
        entry_laid(drawn, paint, entry, open, letter_column(paint.line)),
        entry.depth >= 0,
        paint.line.x + paint.line.width <= 0xffff,
        1 + entry.depth * 2 + 3 <= paint.line.width,
    ensures
        drawn.x == paint.line.x + 1 + entry.depth * 2,
        drawn.y == paint.line.y,
        entry.change is None ==> drawn.x + drawn.width == paint.line.x + paint.line.width,
        entry.change is None ==> drawn.letter is None,
        entry.change matches Some(change) ==> drawn.x + drawn.width + 3 == paint.line.x
            + paint.line.width && (drawn.letter matches Some(letter) && letter.change == change
            && letter.x == paint.line.x + paint.line.width - 2),
        drawn.label@.len() == entry.name.len() + 2,
        drawn.label@.skip(2) == entry.name,
        drawn.label@[0] == if !entry.is_dir {
            ' '
        } else if open {
            '▾'
        } else {
            '▸'
        },
{
    reveal_strlit("  ");
    reveal_strlit("▾ ");
    reveal_strlit("▸ ");
    assert(drawn.label@.skip(2) =~= entry.name);
}
/// The listing found of a directory is one of it, and none before it is.
pub proof fn law_the_listing_found_is_the_first(disk: Seq<ListingView>, dir: Seq<char>)
    ensures
        ({
            let at = listing_of(disk, dir);
            &&& 0 <= at <= disk.len()
            &&& at < disk.len() ==> path::equal(disk[at].dir, dir)
            &&& forall|i: int| 0 <= i < at ==> !path::equal((#[trigger] disk[i]).dir, dir)
        }),
    decreases disk.len(),
{
    if disk.len() > 0 && !path::equal(disk[0].dir, dir) {
        let rest = disk.skip(1);
        law_the_listing_found_is_the_first(rest, dir);
        let at = listing_of(disk, dir);
        if at < disk.len() {
            assert(rest[at - 1] == disk[at]);
        }
        assert forall|i: int| 0 <= i < at implies !path::equal((#[trigger] disk[i]).dir, dir) by {
            if i > 0 {
                assert(rest[i - 1] == disk[i]);
            }
        }
    }
}

// ---- What the rows of a tree of the disk are called ----

/// Whether an entry goes by the name that takes one from a directory to it.
pub open spec fn goes_by(entry: EntryView, dir: Seq<char>) -> bool {
    !path::absolute(entry.name) && path::equal(path::joined(dir, entry.name), entry.path)
}

/// Whether a row is that of a directory right above an entry, which is called as it is from
/// there.
pub open spec fn lists_row(row: RowView, entry: EntryView) -> bool {
    row matches RowView::Entry(dir) && dir.is_dir && entry.depth == deeper(dir.depth) && goes_by(
        entry,
        dir.path,
    )
}

/// Whether a row is called as it is from the directory it is under: one of the rows before it,
/// or the top.
pub open spec fn is_called(rows: Seq<RowView>, i: int, top: Seq<char>, depth: int) -> bool {
    rows[i] matches RowView::Entry(entry) && ((entry.depth == depth && goes_by(entry, top))
        || exists|j: int| 0 <= j < i && #[trigger] lists_row(rows[j], entry))
}

/// Whether every row is called as it is from the directory it is under.
pub open spec fn all_called(rows: Seq<RowView>, top: Seq<char>, depth: int) -> bool {
    forall|i: int| 0 <= i < rows.len() ==> #[trigger] is_called(rows, i, top, depth)
}

/// Whether everything on a disk is listed in a directory it lies below, the way up aside.
pub open spec fn filed(disk: Seq<ListingView>) -> bool {
    forall|at: int, k: int|
        0 <= at < disk.len() && 0 <= k < disk[at].entries.len() && !is_up(
            (#[trigger] disk[at].entries[k]).0,
        ) ==> disk[at].entries[k].0.len() > 0 && path::below(
            disk[at].entries[k].0,
            disk[at].dir,
        )
}

proof fn lemma_called_concat(a: Seq<RowView>, b: Seq<RowView>, top: Seq<char>, depth: int)
    requires
        all_called(a, top, depth),
        all_called(b, top, depth),
    ensures
        all_called(a + b, top, depth),
{
    let all = a + b;
    assert forall|i: int| 0 <= i < all.len() implies #[trigger] is_called(all, i, top, depth) by {
        if i < a.len() {
            assert(is_called(a, i, top, depth));
            assert(all[i] == a[i]);
            let entry = a[i]->Entry_0;
            if !(entry.depth == depth && goes_by(entry, top)) {
                let j = choose|j: int| 0 <= j < i && #[trigger] lists_row(a[j], entry);
                assert(lists_row(all[j], entry));
            }
        } else {
            let k = i - a.len();
            assert(is_called(b, k, top, depth));
            assert(all[i] == b[k]);
            let entry = b[k]->Entry_0;
            if !(entry.depth == depth && goes_by(entry, top)) {
                let j = choose|j: int| 0 <= j < k && #[trigger] lists_row(b[j], entry);
                assert(all[a.len() + j] == b[j]);
                assert(lists_row(all[a.len() + j], entry));
            }
        }
    }
}

/// The rows below that of a directory, after it.
proof fn lemma_called_below(
    entry: EntryView,
    below: Seq<RowView>,
    top: Seq<char>,
    depth: int,
)
    requires
        entry.is_dir,
        entry.depth == depth,
        goes_by(entry, top),
        all_called(below, entry.path, deeper(depth)),
    ensures
        all_called(seq![RowView::Entry(entry)] + below, top, depth),
{
    let rows = seq![RowView::Entry(entry)] + below;
    assert forall|i: int| 0 <= i < rows.len() implies #[trigger] is_called(rows, i, top, depth) by {
        if i > 0 {
            let k = i - 1;
            assert(is_called(below, k, entry.path, deeper(depth)));
            assert(rows[i] == below[k]);
            let one = below[k]->Entry_0;
            if one.depth == deeper(depth) && goes_by(one, entry.path) {
                assert(lists_row(rows[0], one));
            } else {
                let j = choose|j: int| 0 <= j < k && #[trigger] lists_row(below[j], one);
                assert(rows[j + 1] == below[j]);
                assert(lists_row(rows[j + 1], one));
            }
        }
    }
}

proof fn lemma_dir_called(
    disk: Seq<ListingView>,
    dir: Seq<char>,
    depth: int,
    folds: FoldsView,
    above: int,
)
    requires
        filed(disk),
        dir.len() > 0,
    ensures
        all_called(dir_laid(disk, dir, depth, folds, above).rows, dir, depth),
    decreases deepest(disk) - above, 0int, 0int,
{
    lemma_listing_of(disk, dir);
    law_the_listing_found_is_the_first(disk, dir);
    let at = listing_of(disk, dir);
    if at < disk.len() {
        lemma_deepest(disk, at);
        if parts_of(disk[at]) > above && disk[at].error is None {
            lemma_entries_called(disk, at, dir, disk[at].entries.len() as int, depth, folds);
        }
    }
}

proof fn lemma_entries_called(
    disk: Seq<ListingView>,
    at: int,
    dir: Seq<char>,
    n: int,
    depth: int,
    folds: FoldsView,
)
    requires
        filed(disk),
        dir.len() > 0,
        0 <= at < disk.len(),
        path::equal(disk[at].dir, dir),
        0 <= n <= disk[at].entries.len(),
    ensures
        all_called(entries_laid(disk, at, dir, n, depth, folds).rows, dir, depth),
    decreases deepest(disk) - parts_of(disk[at]), 1int, n,
{
    lemma_deepest(disk, at);
    if n > 0 {
        let before = entries_laid(disk, at, dir, n - 1, depth, folds).rows;
        let all = entries_laid(disk, at, dir, n, depth, folds).rows;
        lemma_entries_called(disk, at, dir, n - 1, depth, folds);
        let (path, is_dir) = disk[at].entries[n - 1];
        if !is_up(path) {
            let entry = EntryView {
                path,
                name: listed_name(path, dir),
                is_dir,
                depth,
                change: None,
            };
            let head = seq![RowView::Entry(entry)];
            assert(disk[at].entries[n - 1].0 == path);
            assert(path::below(path, dir));
            path::law_stripped_joins_back(path, dir);
            assert(goes_by(entry, dir));
            if is_dir && folds.opens(path) {
                let below = dir_laid(disk, path, deeper(depth), folds, parts_of(disk[at])).rows;
                lemma_dir_called(disk, path, deeper(depth), folds, parts_of(disk[at]));
                lemma_called_below(entry, below, dir, depth);
                lemma_called_concat(before, head + below, dir, depth);
                assert(all =~= before + (head + below));
            } else {
                assert forall|i: int| 0 <= i < head.len() implies #[trigger] is_called(
                    head,
                    i,
                    dir,
                    depth,
                ) by {
                    assert(head[i] == RowView::Entry(entry));
                }
                lemma_called_concat(before, head, dir, depth);
                assert(all =~= before + head);
            }
        }
    }
}

/// Each row of a tree of the disk is called as it is from the directory whose row it is under,
/// or from the top, and stands one deeper than that.
pub proof fn law_rows_of_the_disk_are_called_from_their_directory(
    disk: Seq<ListingView>,
    dir: Seq<char>,
    depth: int,
    folds: FoldsView,
)
    requires
        filed(disk),
        dir.len() > 0,
    ensures
        all_called(dir_laid(disk, dir, depth, folds, -1).rows, dir, depth),
{
    lemma_dir_called(disk, dir, depth, folds, -1);
}

/// What a directory holds is every entry of its listing but the way up, in order.
pub proof fn law_the_way_up_is_left_out(entries: Seq<(Seq<char>, bool)>)
    ensures
        forall|i: int|
            0 <= i < entries.len() && !is_up((#[trigger] entries[i]).0) ==> contents(
                entries,
            ).contains(entries[i]),
        forall|k: int|
            0 <= k < contents(entries).len() ==> entries.contains(#[trigger] contents(entries)[k])
                && !is_up(contents(entries)[k].0),
        (forall|i: int| 0 <= i < entries.len() ==> !is_up((#[trigger] entries[i]).0)) ==> contents(
            entries,
        ) == entries,
    decreases entries.len(),
{
    if entries.len() > 0 {
        let less = entries.drop_last();
        let before = contents(less);
        let all = contents(entries);
        law_the_way_up_is_left_out(less);
        assert forall|i: int|
            0 <= i < entries.len() && !is_up((#[trigger] entries[i]).0) implies all.contains(
            entries[i],
        ) by {
            if i < less.len() {
                assert(less[i] == entries[i]);
                let k = choose|k: int| 0 <= k < before.len() && before[k] == entries[i];
                assert(all[k] == before[k]);
            } else {
                assert(all[all.len() - 1] == entries[i]);
            }
        }
        assert forall|k: int| 0 <= k < all.len() implies entries.contains(#[trigger] all[k])
            && !is_up(all[k].0) by {
            if k < before.len() {
                assert(all[k] == before[k]);
                let i = choose|i: int| 0 <= i < less.len() && less[i] == before[k];
                assert(entries[i] == all[k]);
            } else {
                assert(entries[entries.len() - 1] == all[k]);
            }
        }
        if forall|i: int| 0 <= i < entries.len() ==> !is_up((#[trigger] entries[i]).0) {
            assert forall|i: int| 0 <= i < less.len() implies !is_up((#[trigger] less[i]).0) by {
                assert(less[i] == entries[i]);
            }
            assert(!is_up(entries[entries.len() - 1].0));
            assert(all =~= entries);
        }
    } else {
        assert(contents(entries) =~= entries);
    }
}

/// Only a path whose last part is `..` is the way up.
pub proof fn law_only_dots_lead_up(base: Seq<char>, name: Seq<char>)
    requires
        base.len() > 0,
        name.len() > 0,
        name != seq!['.'],
        forall|i: int| 0 <= i < name.len() ==> name[i] != '/',
    ensures
        is_up(base + seq!['/'] + name) <==> name == seq!['.', '.'],
{
    path::law_a_name_is_a_part(base, name);
}

} // verus!
