//! The Files tab: the workspace as it is on disk, following the file being edited, with
//! the prompts that create, rename and delete.
//!
//! The disk is never read while drawing. Each directory's listing is read apart and kept; the
//! rows are laid out from what is kept, and a directory that is open but not read yet is asked
//! for, its row waiting childless until the answer lands. While the tab is on screen the open
//! directories are looked at every few seconds, and the ones that moved are read again.

use vstd::prelude::*;
use vstd::string::*;

use crate::ask::Ask;
use crate::changes::{self, path_under, Opening};
use crate::confirm::{Answer, Confirm};
use crate::entries::{self, find_listing, find_row, list_disk, reselect, Folds, Listing, Row};
use crate::git::told;
use crate::list::{self, List};
use crate::number::{self, to_decimal};
use crate::path::{self, components_of, is_absolute, join, parent, same, strip_prefix};
use crate::screen;
use crate::text::{self, chars_of, part, push_word, string_of, trimmed, trimmed_end};

verus! {

/// The path to move onto once the directories down to it have landed.
pub struct Pending {
    pub path: String,
    /// Whether the row goes mid-screen, as a file just switched to does; one just made or
    /// renamed stays where the tree already is.
    pub center: bool,
}

/// The whole workspace, and whether there was more of it than is looked through.
pub struct Walk {
    pub files: Vec<String>,
    pub capped: bool,
}

pub struct FilesTab {
    pub root: String,
    pub folds: Folds,
    pub rows: Vec<Row>,
    pub list: List,
    pub listings: Vec<Listing>,
    /// The directories being read right now.
    pub asking: Vec<String>,
    /// The path to move onto once the directories down to it have landed.
    pub pending: Option<Pending>,
    /// Whether the next look at the disk is already on its way.
    pub armed: bool,
    /// Whether a look at the disk is running.
    pub polling: bool,
    /// What the rows are narrowed to while the filter box is open.
    pub filter: Option<String>,
    /// The whole workspace, read once when the box opened, for the filter to look
    /// through; until it lands the filter looks through the rows listed so far.
    pub walk: Option<Walk>,
    /// The folds as they were when the box opened, put back when it closes.
    pub folds_before: Option<Folds>,
}

// ---- Lists of paths ----

/// Whether a path is among others, however it is spelled.
pub open spec fn among(paths: Seq<Seq<char>>, path: Seq<char>) -> bool {
    exists|i: int| 0 <= i < paths.len() && path::equal(#[trigger] paths[i], path)
}

/// Whether a path is among others.
pub fn is_among(paths: &Vec<String>, path: &str) -> (yes: bool)
    ensures
        yes == among(text::views(paths@), path@),
{
    let ghost all = text::views(paths@);
    for i in 0..paths.len()
        invariant
            all == text::views(paths@),
            forall|j: int| 0 <= j < i ==> !path::equal(#[trigger] all[j], path@),
    {
        assert(all[i as int] == paths@[i as int]@);
        if same(paths[i].as_str(), path) {
            return true;
        }
    }
    false
}

/// The paths that are not among `known` yet, each once.
pub open spec fn newly(known: Seq<Seq<char>>, paths: Seq<Seq<char>>) -> Seq<Seq<char>>
    decreases paths.len(),
{
    if paths.len() == 0 {
        Seq::empty()
    } else {
        let before = newly(known, paths.drop_last());
        if among(known + before, paths.last()) {
            before
        } else {
            before.push(paths.last())
        }
    }
}

/// The paths but for one.
pub open spec fn without(paths: Seq<Seq<char>>, path: Seq<char>) -> Seq<Seq<char>>
    decreases paths.len(),
{
    if paths.len() == 0 {
        Seq::empty()
    } else {
        let before = without(paths.drop_last(), path);
        if path::equal(paths.last(), path) {
            before
        } else {
            before.push(paths.last())
        }
    }
}

/// The paths but for one.
fn drop_path(paths: &Vec<String>, path: &str) -> (kept: Vec<String>)
    ensures
        text::views(kept@) == without(text::views(paths@), path@),
{
    let ghost all = text::views(paths@);
    let mut kept: Vec<String> = Vec::new();
    assert(text::views(kept@) =~= Seq::empty());
    for i in 0..paths.len()
        invariant
            all == text::views(paths@),
            text::views(kept@) == without(all.take(i as int), path@),
    {
        assert(all[i as int] == paths@[i as int]@);
        assert(all.take(i + 1).drop_last() =~= all.take(i as int));
        if !same(paths[i].as_str(), path) {
            push_word(&mut kept, paths[i].as_str());
        }
    }
    assert(all.take(all.len() as int) =~= all);
    kept
}

// ---- Listings ----

/// The listings with one more, in place of the one its directory had.
pub open spec fn with_listing(
    listings: Seq<entries::ListingView>,
    read: entries::ListingView,
) -> Seq<entries::ListingView> {
    let at = entries::listing_of(listings, read.dir);
    if at < listings.len() {
        listings.update(at, entries::ListingView { dir: listings[at].dir, ..read })
    } else {
        listings.push(read)
    }
}

/// What is kept and what is still being read once some directories were read.
pub open spec fn after_reads(
    listings: Seq<entries::ListingView>,
    asking: Seq<Seq<char>>,
    read: Seq<entries::ListingView>,
) -> (Seq<entries::ListingView>, Seq<Seq<char>>)
    decreases read.len(),
{
    if read.len() == 0 {
        (listings, asking)
    } else {
        let (listings, asking) = after_reads(listings, asking, read.drop_last());
        (with_listing(listings, read.last()), without(asking, read.last().dir))
    }
}

/// What the directories that could not be read said.
pub open spec fn read_errors(read: Seq<entries::ListingView>) -> Seq<Seq<char>>
    decreases read.len(),
{
    if read.len() == 0 {
        Seq::empty()
    } else {
        match read.last().error {
            Some(why) => read_errors(read.drop_last()).push(why),
            None => read_errors(read.drop_last()),
        }
    }
}

/// The directories of some listings that are open, the root left out.
pub open spec fn open_dirs(
    listings: Seq<entries::ListingView>,
    root: Seq<char>,
    folds: entries::FoldsView,
) -> Seq<Seq<char>>
    decreases listings.len(),
{
    if listings.len() == 0 {
        Seq::empty()
    } else {
        let before = open_dirs(listings.drop_last(), root, folds);
        let dir = listings.last().dir;
        if !path::equal(dir, root) && folds.opens(dir) {
            before.push(dir)
        } else {
            before
        }
    }
}

/// The listings of some directories.
pub open spec fn kept_of(listings: Seq<entries::ListingView>, dirs: Seq<Seq<char>>) -> Seq<
    entries::ListingView,
>
    decreases listings.len(),
{
    if listings.len() == 0 {
        Seq::empty()
    } else {
        let before = kept_of(listings.drop_last(), dirs);
        if among(dirs, listings.last().dir) {
            before.push(listings.last())
        } else {
            before
        }
    }
}

/// Those of some directories that are listed.
pub open spec fn listed_of(listings: Seq<entries::ListingView>, dirs: Seq<Seq<char>>) -> Seq<
    Seq<char>,
>
    decreases dirs.len(),
{
    if dirs.len() == 0 {
        Seq::empty()
    } else {
        let before = listed_of(listings, dirs.drop_last());
        if entries::listing_of(listings, dirs.last()) < listings.len() {
            before.push(dirs.last())
        } else {
            before
        }
    }
}

/// The nearest directory with a listing that shows `path`: itself or the first listed one
/// above it, the root at the end.
pub open spec fn holding(
    listings: Seq<entries::ListingView>,
    root: Seq<char>,
    path: Seq<char>,
) -> Seq<char>
    decreases path.len(),
    via holding_decreases
{
    if path::equal(path, root) || entries::listing_of(listings, path) < listings.len() {
        path
    } else {
        match path::up(path) {
            Some(dir) => holding(listings, root, dir),
            None => root,
        }
    }
}

#[via_fn]
proof fn holding_decreases(listings: Seq<entries::ListingView>, root: Seq<char>, path: Seq<char>) {
    path::lemma_up(path);
}

/// The first row of a file; the number of rows when there is none.
pub open spec fn first_file(rows: Seq<entries::RowView>) -> int
    decreases rows.len(),
{
    if rows.len() == 0 || (rows[0] matches entries::RowView::Entry(entry) && !entry.is_dir) {
        0
    } else {
        1 + first_file(rows.skip(1))
    }
}

fn find_file(rows: &Vec<Row>) -> (found: Option<usize>)
    ensures
        match found {
            Some(index) => index < rows.len() && index == first_file(entries::row_views(rows@)),
            None => first_file(entries::row_views(rows@)) == rows.len(),
        },
{
    let ghost all = entries::row_views(rows@);
    let mut i: usize = 0;
    assert(all.skip(0) =~= all);
    while i < rows.len()
        invariant
            i <= rows.len(),
            all == entries::row_views(rows@),
            first_file(all) == i + first_file(all.skip(i as int)),
        decreases rows.len() - i,
    {
        assert(all.skip(i as int)[0] == rows@[i as int]@);
        assert(all.skip(i as int).skip(1) =~= all.skip(i + 1));
        if let Some(entry) = rows[i].entry() {
            if !entry.is_dir {
                return Some(i);
            }
        }
        i += 1;
    }
    None
}

/// What looking at the disk comes to: it waits, a wait to be started or not, or the listings of
/// some directories are looked at.
pub enum Look {
    Wait(bool),
    At(Vec<String>),
}

proof fn lemma_newly_covers(known: Seq<Seq<char>>, paths: Seq<Seq<char>>, i: int)
    requires
        0 <= i < paths.len(),
    ensures
        among(known + newly(known, paths), paths[i]),
    decreases paths.len(),
{
    let before = newly(known, paths.drop_last());
    let all = newly(known, paths);
    if i == paths.len() - 1 {
        if !among(known + before, paths.last()) {
            assert((known + all).last() == paths.last());
        }
    } else {
        lemma_newly_covers(known, paths.drop_last(), i);
        assert(paths.drop_last()[i] == paths[i]);
        let j = choose|j: int|
            0 <= j < (known + before).len() && path::equal(#[trigger] (known + before)[j], paths[i]);
        assert((known + all)[j] == (known + before)[j]);
    }
}

/// What is being read already is not asked for again.
pub proof fn law_asking_again_asks_nothing(known: Seq<Seq<char>>, paths: Seq<Seq<char>>)
    ensures
        newly(known + newly(known, paths), paths) == Seq::<Seq<char>>::empty(),
{
    let all = known + newly(known, paths);
    assert forall|n: int| 0 <= n <= paths.len() implies #[trigger] newly(all, paths.take(n))
        == Seq::<Seq<char>>::empty() by {
        lemma_nothing_new(known, paths, n);
    }
    assert(paths.take(paths.len() as int) =~= paths);
}

proof fn lemma_nothing_new(known: Seq<Seq<char>>, paths: Seq<Seq<char>>, n: int)
    requires
        0 <= n <= paths.len(),
    ensures
        newly(known + newly(known, paths), paths.take(n)) == Seq::<Seq<char>>::empty(),
    decreases n,
{
    if n > 0 {
        let all = known + newly(known, paths);
        lemma_nothing_new(known, paths, n - 1);
        lemma_newly_covers(known, paths, n - 1);
        assert(paths.take(n).drop_last() =~= paths.take(n - 1));
        assert(all + Seq::<Seq<char>>::empty() =~= all);
    }
}

impl FilesTab {
    /// What the listings held come to.
    pub open spec fn laid(self) -> entries::Laid {
        entries::dir_laid(entries::listing_views(self.listings@), self.root@, 0, self.folds@, -1)
    }

    /// Whether the rows are narrowed to a text.
    pub open spec fn narrows(self) -> bool {
        self.filter matches Some(text) && text@.len() > 0
    }

    /// Whether a directory is listed.
    pub open spec fn lists(self, dir: Seq<char>) -> bool {
        entries::listing_of(entries::listing_views(self.listings@), dir) < self.listings.len()
    }

    /// Whether there is something to lay out: the root was read, or the whole workspace was
    /// for the filter.
    pub open spec fn lays_out(self) -> bool {
        self.lists(self.root@) || (self.narrows() && self.walk is Some)
    }

    /// Where the list stands over new rows: on the path the cursor was on, and, while
    /// narrowed, on the first file.
    pub open spec fn relisted(self, rows: Seq<entries::RowView>) -> (int, int) {
        let at = entries::reselected(
            self.list,
            rows,
            changes::cursor_path(entries::row_views(self.rows@), self.list),
        );
        if self.narrows() && first_file(rows) < rows.len() {
            list::settled(rows.len() as int, self.list.page as int, first_file(rows), at.1)
        } else {
            at
        }
    }

    /// Whether `next` is this tab laid out again, `narrowed` its rows while it narrows them,
    /// and `asked` the directories that are to be read for it.
    pub open spec fn rebuilt(
        self,
        narrowed: Seq<entries::RowView>,
        next: FilesTab,
        asked: Seq<Seq<char>>,
    ) -> bool {
        let rows = if self.narrows() {
            narrowed
        } else {
            self.laid().rows
        };
        &&& asked == newly(text::views(self.asking@), self.laid().missing)
        &&& text::views(next.asking@) == text::views(self.asking@) + asked
        &&& if self.lays_out() {
            &&& entries::row_views(next.rows@) == rows
            &&& next.list.stands(
                rows.len() as int,
                self.list.page as int,
                self.relisted(rows),
            )
        } else {
            next.rows == self.rows && next.list == self.list
        }
        &&& next == (FilesTab {
            rows: next.rows,
            list: next.list,
            asking: next.asking,
            ..self
        })
    }

    /// Whether `next` is this tab moved onto the path it waits for, if it is among the rows, or
    /// waiting no longer, if nothing more is being read.
    pub open spec fn settled(self, next: FilesTab) -> bool {
        match self.pending {
            None => next == self,
            Some(pending) => {
                let at = entries::first_at(entries::row_views(self.rows@), pending.path@);
                let len = self.list.len as int;
                let page = self.list.page as int;
                if at < self.rows.len() {
                    let on = list::settled(len, page, at, self.list.scroll as int);
                    let place = if pending.center {
                        list::settled(len, page, on.0, screen::less_by(on.0, page / 2))
                    } else {
                        on
                    };
                    &&& next.list.stands(len, page, place)
                    &&& next == (FilesTab { list: next.list, pending: None, ..self })
                } else if self.asking.len() == 0 {
                    next == (FilesTab { pending: None, ..self })
                } else {
                    next == self
                }
            },
        }
    }

    /// Whether `next` is this tab laid out again and moved onto what it waits for.
    pub open spec fn relaid(
        self,
        narrowed: Seq<entries::RowView>,
        next: FilesTab,
        asked: Seq<Seq<char>>,
    ) -> bool {
        exists|between: FilesTab| #[trigger]
            self.rebuilt(narrowed, between, asked) && between.settled(next)
    }

    /// Whether `next` is this tab waiting for a path, the way to it open.
    pub open spec fn waits_for(self, path: Seq<char>, center: bool, next: FilesTab) -> bool {
        &&& next.folds@ == self.folds@.with(
            entries::spelled(path::ancestors(self.root@, path)),
            true,
        )
        &&& next.pending matches Some(pending) && pending.path@ == path && pending.center
            == center
        &&& next == (FilesTab { folds: next.folds, pending: next.pending, ..self })
    }

    /// Whether this is the tab of a project nothing was read of yet.
    pub open spec fn fresh(self, root: Seq<char>) -> bool {
        &&& self.root@ == root
        &&& !self.folds@.open_by_default
        &&& self.folds@.toggled == Set::<Seq<Seq<char>>>::empty()
        &&& self.rows@.len() == 0
        &&& self.list.stands(0, 0, (0, 0))
        &&& self.listings@.len() == 0
        &&& self.asking@.len() == 0
        &&& self.pending is None
        &&& !self.armed
        &&& !self.polling
        &&& self.filter is None
        &&& self.walk is None
        &&& self.folds_before is None
    }

    pub fn new(root: String) -> (tab: Self)
        ensures
            tab.fresh(root@),
    {
        FilesTab {
            root,
            folds: Folds::closed(),
            rows: Vec::new(),
            list: List::new(),
            listings: Vec::new(),
            asking: Vec::new(),
            pending: None,
            armed: false,
            polling: false,
            filter: None,
            walk: None,
            folds_before: None,
        }
    }

    pub fn filter(&self) -> (filter: Option<&str>)
        ensures
            match filter {
                Some(filter) => text::optional(self.filter) == Some(filter@),
                None => self.filter is None,
            },
    {
        match &self.filter {
            Some(filter) => Some(filter.as_str()),
            None => None,
        }
    }

    /// The rows the listings held come to, narrowed to nothing, for the filter to look through.
    pub fn listed_rows(&self) -> (rows: Vec<Row>)
        ensures
            entries::row_views(rows@) == self.laid().rows,
    {
        let mut rows: Vec<Row> = Vec::new();
        let mut missing: Vec<String> = Vec::new();
        let mut errors: Vec<String> = Vec::new();
        list_disk(
            self.root.as_str(),
            0,
            &self.listings,
            &self.folds,
            &mut rows,
            &mut missing,
            &mut errors,
        );
        assert(entries::row_views(rows@) =~= self.laid().rows);
        rows
    }

    /// The directories that are to be read now: the ones already being read left out.
    pub fn ask(&mut self, dirs: &Vec<String>) -> (start: Vec<String>)
        ensures
            text::views(start@) == newly(text::views(old(self).asking@), text::views(dirs@)),
            text::views(final(self).asking@) == text::views(old(self).asking@) + text::views(
                start@,
            ),
            *final(self) == (FilesTab { asking: final(self).asking, ..*old(self) }),
    {
        let ghost known = text::views(self.asking@);
        let ghost all = text::views(dirs@);
        let ghost begun = *self;
        let mut start: Vec<String> = Vec::new();
        assert(text::views(start@) =~= Seq::empty());
        assert(known + text::views(start@) =~= known);
        for i in 0..dirs.len()
            invariant
                all == text::views(dirs@),
                text::views(start@) == newly(known, all.take(i as int)),
                text::views(self.asking@) == known + text::views(start@),
                *self == (FilesTab { asking: self.asking, ..begun }),
        {
            let dir = dirs[i].as_str();
            let ghost before = text::views(start@);
            assert(all[i as int] == dir@);
            assert(all.take(i + 1).drop_last() =~= all.take(i as int));
            if !is_among(&self.asking, dir) {
                push_word(&mut self.asking, dir);
                push_word(&mut start, dir);
                assert((known + before).push(dir@) =~= known + before.push(dir@));
            }
        }
        assert(all.take(all.len() as int) =~= all);
        start
    }

    /// Lays the rows out from the listings held, asking for the open directories that
    /// have none; until those land the rows stay as they are, never blank. While they are
    /// narrowed, the rows are `narrowed`.
    pub fn rebuild(&mut self, narrowed: Vec<Row>) -> (asked: Vec<String>)
        ensures
            old(self).rebuilt(
                entries::row_views(narrowed@),
                *final(self),
                text::views(asked@),
            ),
    {
        let ghost start = *self;
        let selected = path_under(&self.rows, &self.list);
        let mut rows: Vec<Row> = Vec::new();
        let mut missing: Vec<String> = Vec::new();
        let mut errors: Vec<String> = Vec::new();
        list_disk(
            self.root.as_str(),
            0,
            &self.listings,
            &self.folds,
            &mut rows,
            &mut missing,
            &mut errors,
        );
        assert(entries::row_views(rows@) =~= start.laid().rows);
        assert(text::views(missing@) =~= start.laid().missing);
        let read_root = find_listing(&self.listings, self.root.as_str()).is_some();
        let narrows = match &self.filter {
            Some(filter) => chars_of(filter.as_str()).len() > 0,
            None => false,
        };
        let mut laid_out = read_root;
        if narrows {
            rows = narrowed;
            if self.walk.is_some() {
                laid_out = true;
            }
        }
        if laid_out {
            self.rows = rows;
            reselect(&self.rows, &mut self.list, &selected);
            // A filter is typed to open a file: the cursor waits on the first one that
            // matches, so Enter opens it and never folds the directory above it.
            if narrows {
                if let Some(index) = find_file(&self.rows) {
                    self.list.select(index);
                }
            }
        }
        self.ask(&missing)
    }

    /// Moves onto the path waited for once it is among the rows; a path that never shows
    /// up, because nothing more is being read, stops being waited for.
    pub fn settle_pending(&mut self)
        ensures
            old(self).settled(*final(self)),
    {
        let (found, center) = match &self.pending {
            Some(pending) => (find_row(&self.rows, pending.path.as_str()), pending.center),
            None => return ,
        };
        match found {
            Some(index) => {
                self.list.select(index);
                if center {
                    self.list.center();
                }
                self.pending = None;
            },
            None => if self.asking.len() == 0 {
                self.pending = None;
            },
        }
    }

    /// Keeps what was read of some directories.
    fn keep(&mut self, listed: Vec<Listing>) -> (errors: Vec<String>)
        ensures
            ({
                let (listings, asking) = after_reads(
                    entries::listing_views(old(self).listings@),
                    text::views(old(self).asking@),
                    entries::listing_views(listed@),
                );
                &&& entries::listing_views(final(self).listings@) == listings
                &&& text::views(final(self).asking@) == asking
                &&& text::views(errors@) == read_errors(entries::listing_views(listed@))
                &&& *final(self) == (FilesTab {
                    listings: final(self).listings,
                    asking: final(self).asking,
                    ..*old(self)
                })
            }),
    {
        let ghost begun = *self;
        let ghost all = entries::listing_views(listed@);
        let ghost listings = entries::listing_views(self.listings@);
        let ghost asking = text::views(self.asking@);
        let mut errors: Vec<String> = Vec::new();
        assert(text::views(errors@) =~= Seq::empty());
        for i in 0..listed.len()
            invariant
                all == entries::listing_views(listed@),
                entries::listing_views(self.listings@) == after_reads(
                    listings,
                    asking,
                    all.take(i as int),
                ).0,
                text::views(self.asking@) == after_reads(listings, asking, all.take(i as int)).1,
                text::views(errors@) == read_errors(all.take(i as int)),
                *self == (FilesTab {
                    listings: self.listings,
                    asking: self.asking,
                    ..begun
                }),
        {
            let read = &listed[i];
            let ghost held = self.listings@;
            let ghost before = entries::listing_views(held);
            proof {
                assert(all[i as int] == read@);
                assert(all.take(i + 1).drop_last() =~= all.take(i as int));
            }
            self.asking = drop_path(&self.asking, read.dir.as_str());
            if let Some(why) = &read.error {
                push_word(&mut errors, why.as_str());
            }
            match find_listing(&self.listings, read.dir.as_str()) {
                Some(at) => {
                    let dir = self.listings[at].dir.clone();
                    let copy = copy_listing(read, dir);
                    assert(before[at as int] == held[at as int]@);
                    self.listings.set(at, copy);
                    assert(entries::listing_views(self.listings@) =~= before.update(
                        at as int,
                        copy@,
                    ));
                },
                None => {
                    let copy = copy_listing(read, read.dir.clone());
                    self.listings.push(copy);
                    assert(entries::listing_views(self.listings@) =~= before.push(copy@));
                },
            }
        }
        assert(all.take(all.len() as int) =~= all);
        errors
    }

    /// Takes what was read of some directories: what the unreadable ones said, and the
    /// directories that are to be read next.
    pub fn landed(&mut self, listed: Vec<Listing>, narrowed: Vec<Row>) -> (said: (
        Vec<String>,
        Vec<String>,
    ))
        ensures
            old(self).took(
                entries::listing_views(listed@),
                entries::row_views(narrowed@),
                *final(self),
                text::views(said.0@),
                text::views(said.1@),
            ),
    {
        let errors = self.keep(listed);
        let ghost kept = *self;
        let asked = self.rebuild(narrowed);
        let ghost between = *self;
        self.settle_pending();
        assert(kept.rebuilt(entries::row_views(narrowed@), between, text::views(asked@)));
        assert(kept.relaid(entries::row_views(narrowed@), *self, text::views(asked@)));
        (errors, asked)
    }

    /// Whether `next` is this tab after some directories were read.
    pub open spec fn took(
        self,
        listed: Seq<entries::ListingView>,
        narrowed: Seq<entries::RowView>,
        next: FilesTab,
        errors: Seq<Seq<char>>,
        asked: Seq<Seq<char>>,
    ) -> bool {
        &&& errors == read_errors(listed)
        &&& exists|kept: FilesTab|
            {
                &&& entries::listing_views(kept.listings@) == after_reads(
                    entries::listing_views(self.listings@),
                    text::views(self.asking@),
                    listed,
                ).0
                &&& text::views(kept.asking@) == after_reads(
                    entries::listing_views(self.listings@),
                    text::views(self.asking@),
                    listed,
                ).1
                &&& kept == (FilesTab { listings: kept.listings, asking: kept.asking, ..self })
                &&& #[trigger] kept.relaid(narrowed, next, asked)
            }
    }

    /// The directories the rows are laid out from: the root and every open one read so far.
    pub open spec fn on_screen(self) -> Seq<Seq<char>> {
        seq![self.root@] + open_dirs(
            entries::listing_views(self.listings@),
            self.root@,
            self.folds@,
        )
    }

    /// The directories the rows are laid out from: the root and every open one read so far.
    pub fn dirs_on_screen(&self) -> (dirs: Vec<String>)
        ensures
            text::views(dirs@) == self.on_screen(),
    {
        let ghost all = entries::listing_views(self.listings@);
        let ghost root = seq![self.root@];
        let mut dirs: Vec<String> = Vec::new();
        push_word(&mut dirs, self.root.as_str());
        assert(text::views(dirs@) =~= root + open_dirs(all.take(0), self.root@, self.folds@));
        for i in 0..self.listings.len()
            invariant
                all == entries::listing_views(self.listings@),
                text::views(dirs@) == root + open_dirs(
                    all.take(i as int),
                    self.root@,
                    self.folds@,
                ),
        {
            let dir = self.listings[i].dir.as_str();
            let ghost before = open_dirs(all.take(i as int), self.root@, self.folds@);
            assert(all[i as int] == self.listings@[i as int]@);
            assert(all.take(i + 1).drop_last() =~= all.take(i as int));
            if !same(dir, self.root.as_str()) && self.folds.is_open(dir) {
                push_word(&mut dirs, dir);
                assert((root + before).push(dir@) =~= root + before.push(dir@));
            }
        }
        assert(all.take(all.len() as int) =~= all);
        dirs
    }

    /// Whether a look at the disk is to be waited for: it is, unless it already is.
    pub fn watch(&mut self) -> (start: bool)
        ensures
            start == !old(self).armed,
            *final(self) == (FilesTab { armed: true, ..*old(self) }),
    {
        if self.armed {
            return false;
        }
        self.armed = true;
        true
    }

    /// Whether `next` is this tab looking at the disk, and what that comes to.
    pub open spec fn looks(self, next: FilesTab, look: Look) -> bool {
        if self.polling || self.asking.len() > 0 {
            &&& look == Look::Wait(!self.armed)
            &&& next == (FilesTab { armed: true, ..self })
        } else {
            &&& look matches Look::At(dirs) && text::views(dirs@) == listed_of(
                entries::listing_views(self.listings@),
                self.on_screen(),
            )
            &&& next == (FilesTab { polling: true, ..self })
        }
    }

    /// Looks at the open directories, for the ones that moved to be read again; a read
    /// already under way is left to land first.
    pub fn poll(&mut self) -> (look: Look)
        ensures
            old(self).looks(*final(self), look),
    {
        if self.polling || self.asking.len() > 0 {
            let start = self.watch();
            return Look::Wait(start);
        }
        self.polling = true;
        let dirs = self.dirs_on_screen();
        let ghost all = text::views(dirs@);
        let ghost listings = entries::listing_views(self.listings@);
        let mut watched: Vec<String> = Vec::new();
        assert(text::views(watched@) =~= Seq::empty());
        for i in 0..dirs.len()
            invariant
                all == text::views(dirs@),
                listings == entries::listing_views(self.listings@),
                text::views(watched@) == listed_of(listings, all.take(i as int)),
        {
            assert(all[i as int] == dirs@[i as int]@);
            assert(all.take(i + 1).drop_last() =~= all.take(i as int));
            if find_listing(&self.listings, dirs[i].as_str()).is_some() {
                push_word(&mut watched, dirs[i].as_str());
            }
        }
        assert(all.take(all.len() as int) =~= all);
        Look::At(watched)
    }

    /// The wait for the next look is over: the disk is looked at when the tab is still on
    /// screen.
    pub fn waited(&mut self, showing: bool) -> (look: Option<Look>)
        ensures
            match look {
                Some(look) => showing && (FilesTab { armed: false, ..*old(self) }).looks(
                    *final(self),
                    look,
                ),
                None => !showing && *final(self) == (FilesTab { armed: false, ..*old(self) }),
            },
    {
        self.armed = false;
        if showing {
            Some(self.poll())
        } else {
            None
        }
    }

    /// Takes what was read again of the directories that moved. Tells what the unreadable
    /// ones said, the directories that are to be read next, and whether the next look is to be
    /// waited for.
    pub fn polled(&mut self, listed: Vec<Listing>, showing: bool, narrowed: Vec<Row>) -> (said: (
        Vec<String>,
        Vec<String>,
        bool,
    ))
        ensures
            exists|between: FilesTab|
                {
                    &&& if listed@.len() == 0 {
                        &&& between == (FilesTab { polling: false, ..*old(self) })
                        &&& text::views(said.0@) == Seq::<Seq<char>>::empty()
                        &&& text::views(said.1@) == Seq::<Seq<char>>::empty()
                    } else {
                        (FilesTab { polling: false, ..*old(self) }).took(
                            entries::listing_views(listed@),
                            entries::row_views(narrowed@),
                            between,
                            text::views(said.0@),
                            text::views(said.1@),
                        )
                    }
                    &&& said.2 == (showing && !between.armed)
                    &&& *final(self) == (#[trigger] between.watching(showing))
                },
    {
        self.polling = false;
        let mut errors: Vec<String> = Vec::new();
        let mut asked: Vec<String> = Vec::new();
        assert(text::views(errors@) =~= Seq::<Seq<char>>::empty());
        assert(text::views(asked@) =~= Seq::<Seq<char>>::empty());
        if listed.len() > 0 {
            let said = self.landed(listed, narrowed);
            errors = said.0;
            asked = said.1;
        }
        let ghost between = *self;
        let start = if showing {
            self.watch()
        } else {
            false
        };
        assert(*self == between.watching(showing));
        (errors, asked, start)
    }

    /// This tab, waiting for the next look at the disk when it is on screen.
    pub open spec fn watching(self, showing: bool) -> FilesTab {
        FilesTab { armed: self.armed || showing, ..self }
    }

    /// Whether `next` is this tab with what is folded away forgotten, and `asked` the
    /// directories on screen that are to be read again.
    pub open spec fn refreshed(self, next: FilesTab, asked: Seq<Seq<char>>) -> bool {
        &&& entries::listing_views(next.listings@) == kept_of(
            entries::listing_views(self.listings@),
            self.on_screen(),
        )
        &&& asked == newly(text::views(self.asking@), self.on_screen())
        &&& text::views(next.asking@) == text::views(self.asking@) + asked
        &&& next == (FilesTab { listings: next.listings, asking: next.asking, ..self })
    }

    /// Every directory on screen is read again, and what is folded away is forgotten, so it is
    /// read fresh when opened.
    pub fn refresh(&mut self) -> (asked: Vec<String>)
        ensures
            old(self).refreshed(*final(self), text::views(asked@)),
    {
        let on_screen = self.dirs_on_screen();
        let ghost dirs = text::views(on_screen@);
        let ghost all = entries::listing_views(self.listings@);
        let mut kept: Vec<Listing> = Vec::new();
        assert(entries::listing_views(kept@) =~= Seq::empty());
        for i in 0..self.listings.len()
            invariant
                all == entries::listing_views(self.listings@),
                dirs == text::views(on_screen@),
                entries::listing_views(kept@) == kept_of(all.take(i as int), dirs),
        {
            let listing = &self.listings[i];
            let ghost held = kept@;
            assert(all[i as int] == listing@);
            assert(all.take(i + 1).drop_last() =~= all.take(i as int));
            if is_among(&on_screen, listing.dir.as_str()) {
                let copy = copy_listing(listing, listing.dir.clone());
                kept.push(copy);
                assert(entries::listing_views(kept@) =~= entries::listing_views(held).push(copy@));
            }
        }
        assert(all.take(all.len() as int) =~= all);
        self.listings = kept;
        self.ask(&on_screen)
    }

    /// Opens the file or directory under the cursor.
    pub fn open(&self) -> (opening: Opening)
        ensures
            match opening {
                Opening::Open(path) => changes::cursor_path(
                    entries::row_views(self.rows@),
                    self.list,
                ) == Some(path@),
                Opening::Nothing => changes::cursor_path(
                    entries::row_views(self.rows@),
                    self.list,
                ) is None,
                Opening::Say(_) => false,
            },
    {
        match path_under(&self.rows, &self.list) {
            Some(path) => Opening::Open(path),
            None => Opening::Nothing,
        }
    }

    /// Opens the way to a path and waits for it.
    fn wait_for(&mut self, path: &str, center: bool)
        ensures
            old(self).waits_for(path@, center, *final(self)),
    {
        self.folds.open_ancestors(self.root.as_str(), path);
        self.pending = Some(Pending { path: path.to_owned(), center });
    }

    /// Moves onto the file being edited, once the directories down to it were read; a file
    /// outside the workspace is not shown.
    pub fn move_onto(&mut self, path: &str, narrowed: Vec<Row>) -> (asked: Vec<String>)
        ensures
            old(self).onto(
                path@,
                entries::row_views(narrowed@),
                *final(self),
                text::views(asked@),
            ),
    {
        if !path::starts_with(path, self.root.as_str()) {
            let none: Vec<String> = Vec::new();
            assert(text::views(none@) =~= Seq::empty());
            return none;
        }
        self.wait_for(path, true);
        let ghost waiting = *self;
        let asked = self.rebuild(narrowed);
        let ghost between = *self;
        self.settle_pending();
        assert(waiting.rebuilt(entries::row_views(narrowed@), between, text::views(asked@)));
        assert(waiting.relaid(entries::row_views(narrowed@), *self, text::views(asked@)));
        asked
    }

    /// Whether `next` is this tab moved onto a file of the workspace, or about to be, once the
    /// directories that are to be read for it were.
    pub open spec fn onto(
        self,
        path: Seq<char>,
        narrowed: Seq<entries::RowView>,
        next: FilesTab,
        asked: Seq<Seq<char>>,
    ) -> bool {
        if !path::below(path, self.root@) {
            next == self && asked == Seq::<Seq<char>>::empty()
        } else {
            exists|waiting: FilesTab|
                self.waits_for(path, true, waiting) && #[trigger] waiting.relaid(
                    narrowed,
                    next,
                    asked,
                )
        }
    }

    /// The nearest directory with a listing that shows `path`: itself when it is a listed
    /// directory whose contents changed, else the first listed one above it, since a
    /// flattened chain of directories is listed at its end alone.
    pub fn listed_dir_holding(&self, path: &str) -> (dir: String)
        ensures
            dir@ == holding(entries::listing_views(self.listings@), self.root@, path@),
    {
        let ghost listings = entries::listing_views(self.listings@);
        let mut dir = path.to_owned();
        loop
            invariant
                listings == entries::listing_views(self.listings@),
                holding(listings, self.root@, dir@) == holding(listings, self.root@, path@),
            decreases dir@.len(),
        {
            proof {
                path::lemma_up(dir@);
            }
            if same(dir.as_str(), self.root.as_str()) || find_listing(
                &self.listings,
                dir.as_str(),
            ).is_some() {
                return dir;
            }
            match parent(dir.as_str()) {
                Some(above) => {
                    dir = above;
                },
                None => return self.root.clone(),
            }
        }
    }

    /// Something on disk changed under `path`, by one of the sidebar's own prompts: the
    /// directory holding it is read again, and the cursor lands on it when it is there.
    pub fn disk_changed(&mut self, path: &str, narrowed: Vec<Row>) -> (asked: (
        Vec<String>,
        Vec<String>,
    ))
        ensures
            old(self).changed_under(
                path@,
                entries::row_views(narrowed@),
                *final(self),
                text::views(asked.0@),
                text::views(asked.1@),
            ),
    {
        let dir = self.listed_dir_holding(path);
        self.wait_for(path, false);
        let ghost waiting = *self;
        let mut dirs: Vec<String> = Vec::new();
        push_word(&mut dirs, dir.as_str());
        assert(text::views(dirs@) =~= seq![dir@]);
        let first = self.ask(&dirs);
        let ghost asking = *self;
        assert(asking == waiting.asking_for(asking.asking));
        let second = self.rebuild(narrowed);
        (first, second)
    }

    /// Whether `next` is this tab after the disk changed under a path: the directory holding it
    /// is read again, and the path waited for.
    pub open spec fn changed_under(
        self,
        path: Seq<char>,
        narrowed: Seq<entries::RowView>,
        next: FilesTab,
        first: Seq<Seq<char>>,
        second: Seq<Seq<char>>,
    ) -> bool {
        exists|waiting: FilesTab, asking: FilesTab|
            {
                &&& self.waits_for(path, false, waiting)
                &&& first == newly(
                    text::views(waiting.asking@),
                    seq![
                        holding(entries::listing_views(self.listings@), self.root@, path),
                    ],
                )
                &&& text::views(asking.asking@) == text::views(waiting.asking@) + first
                &&& asking == (#[trigger] waiting.asking_for(asking.asking))
                &&& asking.rebuilt(narrowed, next, second)
            }
    }

    /// This tab, reading those directories.
    pub open spec fn asking_for(self, asking: Vec<String>) -> FilesTab {
        FilesTab { asking, ..self }
    }

    /// Whether `next` is this tab with the filter box opened, narrowed to a text or closed: the
    /// folds are put by when it opens, and put back when it closes.
    pub open spec fn filtered(self, text: Option<Seq<char>>, next: FilesTab) -> bool {
        let opening = text is Some && self.filter is None;
        let closing = text is None && self.filter is Some;
        &&& text::optional(next.filter) == text
        &&& if opening {
            next.folds_before matches Some(before) && before@ == self.folds@
        } else if closing {
            next.folds_before is None
        } else {
            next.folds_before == self.folds_before
        }
        &&& match self.folds_before {
            Some(before) if closing => next.folds == before,
            _ => next.folds == self.folds,
        }
        &&& if closing {
            next.walk is None
        } else {
            next.walk == self.walk
        }
        &&& next == (FilesTab {
            filter: next.filter,
            folds: next.folds,
            folds_before: next.folds_before,
            walk: next.walk,
            ..self
        })
    }

    /// Whether `next` is this tab with the filter changed and laid out again.
    pub open spec fn refiltered(
        self,
        text: Option<Seq<char>>,
        narrowed: Seq<entries::RowView>,
        next: FilesTab,
        asked: Seq<Seq<char>>,
    ) -> bool {
        exists|between: FilesTab|
            self.filtered(text, between) && #[trigger] between.rebuilt(narrowed, next, asked)
    }

    /// Opens the filter box, or narrows the rows to `text` while it is open; `None`
    /// closes it and the whole tree comes back, folded as it was. Tells whether the whole
    /// workspace is to be walked, which it is when the box opens, and the directories that
    /// are to be read.
    pub fn set_filter(&mut self, text: Option<String>, narrowed: Vec<Row>) -> (said: (
        bool,
        Vec<String>,
    ))
        ensures
            said.0 == (text is Some && old(self).filter is None),
            old(self).refiltered(
                text::optional(text),
                entries::row_views(narrowed@),
                *final(self),
                text::views(said.1@),
            ),
    {
        let opening = text.is_some() && self.filter.is_none();
        let closing = text.is_none() && self.filter.is_some();
        let ghost start = *self;
        if opening {
            self.folds_before = Some(self.folds.copy());
        }
        if closing {
            if let Some(folds) = self.folds_before.take() {
                self.folds = folds;
            }
            self.walk = None;
        }
        self.filter = text;
        let ghost between = *self;
        assert(start.filtered(text::optional(text), between));
        let asked = self.rebuild(narrowed);
        assert(between.rebuilt(entries::row_views(narrowed@), *self, text::views(asked@)));
        assert(start.refiltered(
            text::optional(text),
            entries::row_views(narrowed@),
            *self,
            text::views(asked@),
        ));
        (opening, asked)
    }

    /// The walk of the workspace landed; kept only while the box that asked is still open.
    /// Tells what is said when there was more than `cap` files, and the directories that are
    /// to be read.
    pub fn walk_landed(&mut self, walk: Walk, cap: usize, narrowed: Vec<Row>) -> (said: (
        Option<String>,
        Vec<String>,
    ))
        ensures
            if old(self).filter is None {
                *final(self) == *old(self) && said.0 is None && said.1@.len() == 0
            } else {
                &&& text::optional(said.0) == (if walk.capped {
                    Some(
                        "the filter looks through the first "@ + number::decimal(cap as nat)
                            + " files only"@,
                    )
                } else {
                    None
                })
                &&& (FilesTab { walk: Some(walk), ..*old(self) }).rebuilt(
                    entries::row_views(narrowed@),
                    *final(self),
                    text::views(said.1@),
                )
            },
    {
        if self.filter.is_none() {
            return (None, Vec::new());
        }
        let status = if walk.capped {
            let mut status = told(
                "the filter looks through the first ",
                to_decimal(cap as u64).as_str(),
            );
            status.append(" files only");
            Some(status)
        } else {
            None
        };
        self.walk = Some(walk);
        let asked = self.rebuild(narrowed);
        (status, asked)
    }
}

/// The same listing again, its directory spelled as given.
fn copy_listing(listing: &Listing, dir: String) -> (copy: Listing)
    ensures
        copy@ == (entries::ListingView { dir: dir@, ..listing@ }),
{
    let ghost all = listing@.entries;
    let mut found: Vec<(String, bool)> = Vec::new();
    for i in 0..listing.entries.len()
        invariant
            all == listing@.entries,
            found@.map_values(|entry: (String, bool)| (entry.0@, entry.1)) == all.take(i as int),
    {
        let ghost held = found@;
        let entry = &listing.entries[i];
        let copied = (entry.0.clone(), entry.1);
        found.push(copied);
        proof {
            assert(all[i as int] == (entry.0@, entry.1));
            assert(found@.map_values(|entry: (String, bool)| (entry.0@, entry.1)) =~= held.map_values(
                |entry: (String, bool)| (entry.0@, entry.1),
            ).push((copied.0@, copied.1)));
        }
    }
    assert(all.take(all.len() as int) =~= all);
    Listing { dir, entries: found, error: text::copy_optional(&listing.error) }
}

// ---- Prompts ----

/// Where a prompt acts: the workspace, and the entry under the cursor when it needs one.
pub struct PromptTarget {
    pub root: String,
    pub path: Option<String>,
    pub is_dir: bool,
}

impl Clone for PromptTarget {
    fn clone(&self) -> (copy: Self)
        ensures
            copy.root@ == self.root@,
            text::optional(copy.path) == text::optional(self.path),
            copy.is_dir == self.is_dir,
    {
        PromptTarget {
            root: self.root.clone(),
            path: text::copy_optional(&self.path),
            is_dir: self.is_dir,
        }
    }
}

/// What a line is asked for: something new, or another name.
pub enum Prompt {
    New(String),
    Rename { root: String, source: String },
}

/// What a deletion is answered with.
pub enum Deletion {
    Cancel,
    Delete { path: String, is_dir: bool },
}

impl PromptTarget {
    /// A path as it is spelled below the root.
    pub fn relative(&self, path: &str) -> (text: String)
        ensures
            text@ == entries::listed_name(path@, self.root@),
    {
        match strip_prefix(path, self.root.as_str()) {
            Some(relative) => relative,
            None => path.to_owned(),
        }
    }

    /// The directory a new entry goes in: the one under the cursor, else the cursor's
    /// parent, else the root.
    pub open spec fn holder(self) -> Seq<char> {
        match self.path {
            None => self.root@,
            Some(path) => if self.is_dir {
                path@
            } else {
                match path::up(path@) {
                    Some(dir) => dir,
                    None => self.root@,
                }
            },
        }
    }

    /// The directory a new entry goes in: the one under the cursor, else the cursor's
    /// parent, else the root.
    pub fn dir(&self) -> (dir: String)
        ensures
            dir@ == self.holder(),
    {
        match &self.path {
            None => self.root.clone(),
            Some(path) => if self.is_dir {
                path.clone()
            } else {
                match parent(path.as_str()) {
                    Some(dir) => dir,
                    None => self.root.clone(),
                }
            },
        }
    }

    /// What a new entry's name starts as: its directory below the root, and a `/`.
    pub open spec fn new_line(self) -> Seq<char> {
        let line = entries::listed_name(self.holder(), self.root@);
        if line.len() == 0 {
            line
        } else {
            line.push('/')
        }
    }
}

/// A file, or a directory when the name ends in `/`, next to the cursor.
pub fn prompt_new(target: &PromptTarget) -> (ask: Ask<Prompt>)
    ensures
        ask.valid(),
        ask@.title == "New file or folder"@,
        ask@.label == "A name ending in / makes a folder"@,
        ask@.ok == "Create"@,
        ask@.line == target.new_line(),
        ask@.cursor == target.new_line().len(),
        ask@.taken matches Some(Prompt::New(root)) && root@ == target.root@,
{
    let dir = target.dir();
    let mut line = target.relative(dir.as_str());
    if chars_of(line.as_str()).len() > 0 {
        line.push('/');
    }
    Ask::new(
        "New file or folder",
        "A name ending in / makes a folder",
        "Create",
        Prompt::New(target.root.clone()),
    ).with_line(line.as_str())
}

/// The entry under the cursor gets a new name, its open buffers going along.
pub fn prompt_rename(target: &PromptTarget) -> (ask: Option<Ask<Prompt>>)
    ensures
        match ask {
            None => target.path is None,
            Some(ask) => {
                &&& target.path is Some
                &&& ask.valid()
                &&& ask@.title == "Rename"@
                &&& ask@.label == "The new name, or a path to move it to"@
                &&& ask@.ok == "Rename"@
                &&& ask@.line == entries::listed_name(target.path->0@, target.root@)
                &&& ask@.cursor == ask@.line.len()
                &&& ask@.taken matches Some(Prompt::Rename { root, source }) && root@
                    == target.root@ && source@ == target.path->0@
            },
        },
{
    let source = match &target.path {
        Some(path) => path.clone(),
        None => return None,
    };
    let line = target.relative(source.as_str());
    Some(
        Ask::new(
            "Rename",
            "The new name, or a path to move it to",
            "Rename",
            Prompt::Rename { root: target.root.clone(), source },
        ).with_line(line.as_str()),
    )
}

/// The entry under the cursor is deleted after a confirmation, its buffers closed.
pub fn prompt_delete(target: &PromptTarget) -> (confirm: Option<Confirm<Deletion>>)
    ensures
        match confirm {
            None => target.path is None,
            Some(confirm) => {
                let kind = if target.is_dir {
                    "folder"@
                } else {
                    "file"@
                };
                &&& target.path is Some
                &&& confirm.title@ == "Confirm deletion"@
                &&& text::views(confirm.lines@) == (seq![
                    "Delete "@ + kind + " \""@ + entries::listed_name(
                        target.path->0@,
                        target.root@,
                    ) + "\"?"@,
                ] + if target.is_dir {
                    seq!["All its contents will also be deleted."@]
                } else {
                    Seq::empty()
                })
                &&& confirm.answers@.len() == 2
                &&& confirm.answers@[0].label@ == "Cancel"@
                &&& !confirm.answers@[0].destructive
                &&& confirm.answers@[0].choice is Cancel
                &&& confirm.answers@[1].label@ == "Delete"@
                &&& confirm.answers@[1].destructive
                &&& confirm.answers@[1].choice matches Deletion::Delete { path, is_dir } && path@
                    == target.path->0@ && is_dir == target.is_dir
                &&& confirm.focused == 0
            },
        },
{
    let path = match &target.path {
        Some(path) => path.clone(),
        None => return None,
    };
    let kind = if target.is_dir {
        "folder"
    } else {
        "file"
    };
    let mut question = told("Delete ", kind);
    question.append(" \"");
    question.append(target.relative(path.as_str()).as_str());
    question.append("\"?");
    let mut lines: Vec<String> = Vec::new();
    push_word(&mut lines, question.as_str());
    assert(text::views(lines@) =~= seq![question@] + Seq::empty());
    if target.is_dir {
        push_word(&mut lines, "All its contents will also be deleted.");
        assert(text::views(lines@) =~= seq![question@] + seq![
            "All its contents will also be deleted."@,
        ]);
    }
    let mut answers: Vec<Answer<Deletion>> = Vec::new();
    answers.push(Answer::new("Cancel", Deletion::Cancel));
    answers.push(
        Answer::new("Delete", Deletion::Delete { path, is_dir: target.is_dir }).destructive(),
    );
    Some(Confirm::new("Confirm deletion", lines, answers))
}

/// Whether a path leads out of where it starts: a part of it is `/` or `..`.
pub open spec fn climbs(path: Seq<char>) -> bool {
    let parts = path::components(path);
    exists|i: int|
        0 <= i < parts.len() && (#[trigger] parts[i] == seq!['/'] || parts[i] == seq!['.', '.'])
}

/// Where a name lands below `root`; nowhere when it is empty, absolute or climbs.
pub open spec fn landing(root: Seq<char>, name: Seq<char>) -> Option<Seq<char>> {
    if name.len() == 0 || path::absolute(name) || climbs(name) {
        None
    } else {
        Some(path::joined(root, name))
    }
}

fn leads_out(path: &str) -> (yes: bool)
    ensures
        yes == climbs(path@),
{
    let parts = components_of(path);
    let ghost all = path::components(path@);
    assert(text::views(parts@).len() == parts.len());
    for i in 0..parts.len()
        invariant
            all == text::views(parts@),
            all == path::components(path@),
            forall|j: int|
                0 <= j < i ==> #[trigger] all[j] != seq!['/'] && all[j] != seq!['.', '.'],
    {
        assert(all[i as int] == parts@[i as int]@);
        let chars = chars_of(parts[i].as_str());
        if chars.len() == 1 && chars[0] == '/' {
            assert(chars@ =~= seq!['/']);
            return true;
        }
        if chars.len() == 2 && chars[0] == '.' && chars[1] == '.' {
            assert(chars@ =~= seq!['.', '.']);
            return true;
        }
        proof {
            assert(seq!['/'][0] == '/');
            assert(seq!['.', '.'][0] == '.' && seq!['.', '.'][1] == '.');
        }
    }
    false
}

/// Where `name`, as typed in a prompt, lands below `root`. A name may go into
/// subdirectories, made on the way; it may not leave the project, by being absolute or by
/// climbing with `..`.
pub fn inside(root: &str, name: &str) -> (path: Result<String, String>)
    ensures
        match path {
            Ok(path) => landing(root@, name@) == Some(path@),
            Err(why) => landing(root@, name@) is None && why@
                == "the name must stay inside the project"@,
        },
{
    if chars_of(name).len() == 0 || is_absolute(name) || leads_out(name) {
        return Err("the name must stay inside the project".to_owned());
    }
    Ok(join(root, name))
}

/// A name that is taken lands below the root, and no part of the way there leads up again.
pub proof fn law_a_name_never_leaves_the_project(root: Seq<char>, name: Seq<char>)
    requires
        landing(root, name) is Some,
    ensures
        path::below(landing(root, name)->0, root),
        forall|i: int|
            path::components(root).len() <= i < path::components(landing(root, name)->0).len()
                ==> #[trigger] path::components(landing(root, name)->0)[i] != seq!['.', '.'],
{
    let path = landing(root, name)->0;
    let parts = path::components(name);
    path::lemma_components(name);
    if root.len() > 0 {
        path::lemma_join(root, name);
        path::law_join_lies_below(root, name);
        let more = path::names(name);
        assert forall|i: int|
            path::components(root).len() <= i < path::components(
                path,
            ).len() implies #[trigger] path::components(path)[i] != seq!['.', '.'] by {
            let j = i - path::components(root).len();
            assert(path::components(path)[i] == more[j]);
            assert(parts[path::lead(name).len() + j] == more[j]);
        }
    } else {
        assert(path =~= name);
        assert(path::components(root) =~= Seq::empty());
        assert(path::components(path).subrange(0, 0) =~= path::components(root));
    }
}

/// The name an entry is offered for, taken as it stands, renames nothing. A name with white
/// space around it is cut, and one that climbs is refused.
pub proof fn law_the_name_offered_renames_nothing(root: Seq<char>, path: Seq<char>)
    requires
        root.len() > 0,
        path::below(path, root),
        !path::equal(path, root),
        text::trim(entries::listed_name(path, root)) == entries::listed_name(path, root),
        !climbs(entries::listed_name(path, root)),
    ensures
        landing(root, without_slashes(text::trim(entries::listed_name(path, root)))) matches Some(
            to,
        ) && path::equal(to, path),
{
    path::law_stripped_joins_back(path, root);
    let rest = path::stripped(path, root)->0;
    if rest.len() == 0 {
        path::lemma_join(root, rest);
        path::lemma_components(rest);
        assert(path::components(rest) =~= Seq::empty());
        assert(path::components(path) =~= path::components(root) + path::names(rest));
        assert(path::components(path) =~= path::components(root));
    }
}

/// Something to be made on disk: a directory, or an empty file.
pub struct Creation {
    pub path: String,
    pub is_dir: bool,
}

/// What a name typed for something new comes to: a directory when it ends in `/`, else a file,
/// or why it cannot be.
pub fn to_create(root: &str, input: &str) -> (made: Result<Creation, String>)
    ensures
        match made {
            Ok(made) => {
                &&& landing(root@, text::trim(input@)) == Some(made.path@)
                &&& made.is_dir == text::ends_with(text::trim_end(input@), seq!['/'])
            },
            Err(why) => landing(root@, text::trim(input@)) is None && why@
                == "the name must stay inside the project"@,
        },
{
    let chars = chars_of(input);
    let name = string_of(&trimmed(&chars));
    let ended = trimmed_end(&chars);
    let is_dir = ended.len() > 0 && ended[ended.len() - 1] == '/';
    proof {
        let end = ended@;
        if end.len() > 0 {
            assert(end.subrange(end.len() - 1, end.len() as int) =~= seq![end.last()]);
            assert(seq![end.last()][0] == end.last());
            assert(seq!['/'][0] == '/');
        }
    }
    match inside(root, name.as_str()) {
        Ok(path) => Ok(Creation { path, is_dir }),
        Err(why) => Err(why),
    }
}

/// A text without the `/` it ends in.
pub open spec fn without_slashes(s: Seq<char>) -> Seq<char>
    decreases s.len(),
{
    if s.len() > 0 && s.last() == '/' {
        without_slashes(s.drop_last())
    } else {
        s
    }
}

/// A text without the `/` it ends in.
pub fn trim_slashes(s: &Vec<char>) -> (t: Vec<char>)
    ensures
        t@ == without_slashes(s@),
{
    let mut n = s.len();
    assert(s@.take(n as int) =~= s@);
    while n > 0 && s[n - 1] == '/'
        invariant
            n <= s.len(),
            without_slashes(s@.take(n as int)) == without_slashes(s@),
        decreases n,
    {
        assert(s@.take(n as int).drop_last() =~= s@.take(n - 1));
        n -= 1;
    }
    assert(s@.take(n as int) =~= s@.subrange(0, n as int));
    part(s, 0, n)
}

/// What another name comes to: it cannot be, it is the one there is, or the entry goes there,
/// the directory it goes in made first.
pub enum Renaming {
    Refused(String),
    Nothing,
    Move { to: String, parent: Option<String> },
}

/// What another name typed for `source` comes to.
pub fn to_rename(root: &str, source: &str, input: &str) -> (renaming: Renaming)
    ensures
        ({
            let to = landing(root@, without_slashes(text::trim(input@)));
            match renaming {
                Renaming::Refused(why) => to is None && why@
                    == "the name must stay inside the project"@,
                Renaming::Nothing => to matches Some(to) && path::equal(to, source@),
                Renaming::Move { to: path, parent } => {
                    &&& to == Some(path@)
                    &&& !path::equal(path@, source@)
                    &&& text::optional(parent) == path::up(path@)
                },
            }
        }),
{
    let name = string_of(&trim_slashes(&trimmed(&chars_of(input))));
    match inside(root, name.as_str()) {
        Err(why) => Renaming::Refused(why),
        Ok(to) => if same(to.as_str(), source) {
            Renaming::Nothing
        } else {
            let above = parent(to.as_str());
            Renaming::Move { to, parent: above }
        },
    }
}

/// The paths the disk changed under after a rename: where it was first, where it went last, so
/// the cursor follows it there.
pub fn changed_by_rename(source: &str, to: &str) -> (paths: Vec<String>)
    ensures
        text::views(paths@) == (match path::up(source@) {
            Some(from) => seq![from, to@],
            None => seq![to@],
        }),
{
    let mut paths: Vec<String> = Vec::new();
    match parent(source) {
        Some(from) => {
            push_word(&mut paths, from.as_str());
            push_word(&mut paths, to);
            assert(text::views(paths@) =~= seq![from@, to@]);
        },
        None => {
            push_word(&mut paths, to);
            assert(text::views(paths@) =~= seq![to@]);
        },
    }
    paths
}

/// The path the disk changed under after a deletion.
pub fn changed_by_delete(path: &str) -> (above: String)
    ensures
        above@ == (match path::up(path@) {
            Some(above) => above,
            None => path@,
        }),
{
    match parent(path) {
        Some(above) => above,
        None => path.to_owned(),
    }
}

/// What is said of a path that is taken.
pub fn already_exists(path: &str) -> (message: String)
    ensures
        message@ == path@ + " already exists"@,
{
    told(path, " already exists")
}

/// What is said of a path that something failed on.
pub fn failed_on(path: &str, err: &str) -> (message: String)
    ensures
        message@ == path@ + ": "@ + err@,
{
    let mut message = told(path, ": ");
    message.append(err);
    message
}

// ---- Open buffers ----

/// A buffer: the file it holds, and whether it has changes that are not saved.
pub struct Document {
    pub id: u64,
    pub path: Option<String>,
    pub modified: bool,
}

/// Where the buffers under `source` go after a rename.
pub open spec fn retargeted(docs: Seq<Document>, source: Seq<char>, target: Seq<char>) -> Seq<
    (u64, Seq<char>),
>
    decreases docs.len(),
{
    if docs.len() == 0 {
        Seq::empty()
    } else {
        let before = retargeted(docs.drop_last(), source, target);
        let doc = docs.last();
        match doc.path {
            Some(path) => match path::stripped(path@, source) {
                Some(rest) => before.push((doc.id, path::joined(target, rest))),
                None => before,
            },
            None => before,
        }
    }
}

/// Points every open buffer under `source` at its new location after a rename.
pub fn retarget_documents(docs: &Vec<Document>, source: &str, target: &str) -> (moved: Vec<
    (u64, String),
>)
    ensures
        moved@.map_values(|doc: (u64, String)| (doc.0, doc.1@)) == retargeted(
            docs@,
            source@,
            target@,
        ),
{
    let mut moved: Vec<(u64, String)> = Vec::new();
    assert(moved@.map_values(|doc: (u64, String)| (doc.0, doc.1@)) =~= Seq::empty());
    for i in 0..docs.len()
        invariant
            moved@.map_values(|doc: (u64, String)| (doc.0, doc.1@)) == retargeted(
                docs@.take(i as int),
                source@,
                target@,
            ),
    {
        let doc = &docs[i];
        assert(docs@.take(i + 1).drop_last() =~= docs@.take(i as int));
        if let Some(path) = &doc.path {
            if let Some(rest) = strip_prefix(path.as_str(), source) {
                let ghost held = moved@;
                let went = (doc.id, join(target, rest.as_str()));
                moved.push(went);
                assert(moved@.map_values(|doc: (u64, String)| (doc.0, doc.1@))
                    =~= held.map_values(|doc: (u64, String)| (doc.0, doc.1@)).push(
                    (went.0, went.1@),
                ));
            }
        }
    }
    assert(docs@.take(docs.len() as int) =~= docs@);
    moved
}

/// A buffer that follows a rename comes back to its file when the rename is undone.
pub proof fn law_renaming_back_brings_a_buffer_back(
    path: Seq<char>,
    source: Seq<char>,
    target: Seq<char>,
)
    requires
        source.len() > 0,
        target.len() > 0,
        path::below(path, source),
    ensures
        path::stripped(path, source) matches Some(rest) && path::stripped(
            path::joined(target, rest),
            target,
        ) matches Some(back) && path::equal(path::joined(source, back), path),
{
    path::law_stripped_joins_back(path, source);
    let rest = path::stripped(path, source)->0;
    let went = path::joined(target, rest);
    path::lemma_join(target, rest);
    path::law_join_lies_below(target, rest);
    path::law_stripped_joins_back(went, target);
    let back = path::stripped(went, target)->0;
    assert(path::components(went).skip(path::components(target).len() as int) =~= path::names(
        rest,
    ));
    path::lemma_join(source, back);
    let k = path::components(source).len() as int;
    assert(path::components(path).subrange(0, k) =~= path::components(source));
    assert(path::components(path::joined(source, back)) =~= path::components(path));
}

/// The unmodified buffers of files that were just deleted.
pub open spec fn gone(docs: Seq<Document>, target: Seq<char>) -> Seq<u64>
    decreases docs.len(),
{
    if docs.len() == 0 {
        Seq::empty()
    } else {
        let before = gone(docs.drop_last(), target);
        let doc = docs.last();
        match doc.path {
            Some(path) if path::below(path@, target) && !doc.modified => before.push(doc.id),
            _ => before,
        }
    }
}

/// Closes the unmodified buffers of files that were just deleted; a modified one stays,
/// with its changes, as a buffer for a file that no longer exists.
pub fn close_documents_under(docs: &Vec<Document>, target: &str) -> (ids: Vec<u64>)
    ensures
        ids@ == gone(docs@, target@),
{
    let mut ids: Vec<u64> = Vec::new();
    assert(ids@ =~= Seq::empty());
    for i in 0..docs.len()
        invariant
            ids@ == gone(docs@.take(i as int), target@),
    {
        let doc = &docs[i];
        assert(docs@.take(i + 1).drop_last() =~= docs@.take(i as int));
        if let Some(path) = &doc.path {
            if path::starts_with(path.as_str(), target) && !doc.modified {
                ids.push(doc.id);
            }
        }
    }
    assert(docs@.take(docs.len() as int) =~= docs@);
    ids
}

/// A buffer with unsaved changes is never closed by a deletion.
pub proof fn law_unsaved_buffers_stay(docs: Seq<Document>, target: Seq<char>, id: u64)
    requires
        forall|i: int| 0 <= i < docs.len() && (#[trigger] docs[i]).id == id ==> docs[i].modified,
    ensures
        !gone(docs, target).contains(id),
    decreases docs.len(),
{
    if docs.len() > 0 {
        let rest = docs.drop_last();
        assert forall|i: int| 0 <= i < rest.len() && (
        #[trigger] rest[i]).id == id implies rest[i].modified by {
            assert(rest[i] == docs[i]);
        }
        law_unsaved_buffers_stay(rest, target, id);
        assert(docs[docs.len() - 1] == docs.last());
        let before = gone(rest, target);
        assert forall|i: int| 0 <= i < gone(docs, target).len() implies gone(docs, target)[i]
            != id by {
            if i < before.len() {
                assert(gone(docs, target)[i] == before[i]);
                assert(before.contains(before[i]));
            }
        }
    }
}

/// Why a buffer could not be closed.
pub enum CloseFault {
    Gone,
    Modified(String),
    Save(String),
}

/// What is said of a buffer that could not be closed; nothing of one that was gone already.
pub fn close_message(fault: CloseFault) -> (message: Option<String>)
    ensures
        text::optional(message) == (match fault {
            CloseFault::Gone => None,
            CloseFault::Modified(name) => Some(name@ + " is modified and stays open"@),
            CloseFault::Save(err) => Some(err@),
        }),
{
    match fault {
        CloseFault::Gone => None,
        CloseFault::Modified(name) => Some(told(name.as_str(), " is modified and stays open")),
        CloseFault::Save(err) => Some(err),
    }
}

// ---- What holds of the lists ----

/// What is asked for is what was wanted and is not known, each path once.
pub proof fn law_only_what_is_new_is_asked(known: Seq<Seq<char>>, paths: Seq<Seq<char>>)
    ensures
        forall|i: int|
            0 <= i < paths.len() ==> among(known + newly(known, paths), #[trigger] paths[i]),
        forall|i: int|
            0 <= i < newly(known, paths).len() ==> paths.contains(
                #[trigger] newly(known, paths)[i],
            ) && !among(known, newly(known, paths)[i]),
        forall|i: int, j: int|
            0 <= i < j < newly(known, paths).len() ==> !path::equal(
                #[trigger] newly(known, paths)[i],
                #[trigger] newly(known, paths)[j],
            ),
    decreases paths.len(),
{
    let all = newly(known, paths);
    assert forall|i: int| 0 <= i < paths.len() implies among(known + all, #[trigger] paths[i]) by {
        lemma_newly_covers(known, paths, i);
    }
    if paths.len() > 0 {
        let less = paths.drop_last();
        let before = newly(known, less);
        law_only_what_is_new_is_asked(known, less);
        assert forall|i: int| 0 <= i < all.len() implies paths.contains(#[trigger] all[i])
            && !among(known, all[i]) by {
            if i < before.len() {
                assert(all[i] == before[i]);
                assert(less.contains(before[i]));
                let k = choose|k: int| 0 <= k < less.len() && less[k] == before[i];
                assert(paths[k] == before[i]);
            } else {
                assert(all[i] == paths[paths.len() - 1]);
                if among(known, paths.last()) {
                    let k = choose|k: int|
                        0 <= k < known.len() && path::equal(#[trigger] known[k], paths.last());
                    assert((known + before)[k] == known[k]);
                }
            }
        }
        assert forall|i: int, j: int| 0 <= i < j < all.len() implies !path::equal(
            #[trigger] all[i],
            #[trigger] all[j],
        ) by {
            assert(all[i] == before[i]);
            if j < before.len() {
                assert(all[j] == before[j]);
            } else {
                assert(all[j] == paths.last());
                assert((known + before)[known.len() + i] == before[i]);
            }
        }
    }
}

/// The paths without one are all the others, and no spelling of that one.
pub proof fn law_one_path_less(paths: Seq<Seq<char>>, path: Seq<char>)
    ensures
        forall|i: int|
            0 <= i < without(paths, path).len() ==> paths.contains(
                #[trigger] without(paths, path)[i],
            ) && !path::equal(without(paths, path)[i], path),
        forall|i: int|
            0 <= i < paths.len() && !path::equal(#[trigger] paths[i], path) ==> without(
                paths,
                path,
            ).contains(paths[i]),
    decreases paths.len(),
{
    if paths.len() > 0 {
        let less = paths.drop_last();
        let before = without(less, path);
        let all = without(paths, path);
        law_one_path_less(less, path);
        assert forall|i: int| 0 <= i < all.len() implies paths.contains(#[trigger] all[i])
            && !path::equal(all[i], path) by {
            if i < before.len() {
                assert(all[i] == before[i]);
                let k = choose|k: int| 0 <= k < less.len() && less[k] == before[i];
                assert(paths[k] == before[i]);
            } else {
                assert(all[i] == paths[paths.len() - 1]);
            }
        }
        assert forall|i: int|
            0 <= i < paths.len() && !path::equal(#[trigger] paths[i], path) implies all.contains(
            paths[i],
        ) by {
            if i < less.len() {
                assert(less[i] == paths[i]);
                let k = choose|k: int| 0 <= k < before.len() && before[k] == less[i];
                assert(all[k] == before[k]);
            } else {
                assert(all[all.len() - 1] == paths[i]);
            }
        }
    }
}

/// Whether what is kept of a directory is a listing.
pub open spec fn keeps(
    listings: Seq<entries::ListingView>,
    dir: Seq<char>,
    read: entries::ListingView,
) -> bool {
    let at = entries::listing_of(listings, dir);
    at < listings.len() && listings[at].entries == read.entries && listings[at].error == read.error
}

proof fn lemma_with_listing(
    listings: Seq<entries::ListingView>,
    read: entries::ListingView,
    dir: Seq<char>,
)
    ensures
        with_listing(listings, read).len() >= listings.len(),
        path::equal(read.dir, dir) ==> keeps(with_listing(listings, read), dir, read),
        !path::equal(read.dir, dir) ==> {
            let all = with_listing(listings, read);
            let at = entries::listing_of(listings, dir);
            &&& at < listings.len() ==> entries::listing_of(all, dir) == at && all[at]
                == listings[at]
            &&& at == listings.len() ==> entries::listing_of(all, dir) == all.len()
        },
{
    let all = with_listing(listings, read);
    entries::law_the_listing_found_is_the_first(listings, read.dir);
    entries::law_the_listing_found_is_the_first(listings, dir);
    entries::law_the_listing_found_is_the_first(all, dir);
    let held = entries::listing_of(listings, read.dir);
    let was = entries::listing_of(listings, dir);
    let at = entries::listing_of(all, dir);
    if path::equal(read.dir, dir) {
        if held < listings.len() {
            assert(path::equal(all[held].dir, dir));
            assert forall|i: int| 0 <= i < held implies !path::equal((#[trigger] all[i]).dir, dir) by {
                assert(all[i] == listings[i]);
            }
        } else {
            assert(all[held] == read);
            assert forall|i: int| 0 <= i < held implies !path::equal((#[trigger] all[i]).dir, dir) by {
                assert(all[i] == listings[i]);
            }
        }
        assert(at == held);
    } else {
        assert forall|i: int| 0 <= i < all.len() implies path::equal((#[trigger] all[i]).dir, dir)
            == (i < listings.len() && path::equal(listings[i].dir, dir)) by {
            if i < listings.len() && i != held {
                assert(all[i] == listings[i]);
            }
        }
        if was < listings.len() {
            assert(path::equal(all[was].dir, dir));
            assert(at <= was);
            assert(!(at < was)) by {
                if at < was {
                    assert(path::equal(listings[at].dir, dir));
                }
            }
            assert(was != held);
        } else if at < all.len() {
            assert(path::equal(listings[at].dir, dir));
        }
    }
}

/// What was read of a directory last is what is kept of it, in place of what was kept before,
/// and it is not being read any more; what is kept of a directory that was not read stays.
pub proof fn law_what_was_read_last_is_kept(
    listings: Seq<entries::ListingView>,
    asking: Seq<Seq<char>>,
    read: Seq<entries::ListingView>,
    dir: Seq<char>,
    i: int,
)
    requires
        -1 <= i < read.len(),
        i >= 0 ==> path::equal(read[i].dir, dir),
        forall|j: int| i < j < read.len() ==> !path::equal((#[trigger] read[j]).dir, dir),
    ensures
        i >= 0 ==> keeps(after_reads(listings, asking, read).0, dir, read[i]),
        i >= 0 ==> !among(after_reads(listings, asking, read).1, dir),
        i < 0 && entries::listing_of(listings, dir) < listings.len() ==> keeps(
            after_reads(listings, asking, read).0,
            dir,
            listings[entries::listing_of(listings, dir)],
        ),
        i < 0 && entries::listing_of(listings, dir) >= listings.len() ==> entries::listing_of(
            after_reads(listings, asking, read).0,
            dir,
        ) == after_reads(listings, asking, read).0.len(),
        i < 0 && asking.contains(dir) ==> after_reads(listings, asking, read).1.contains(dir),
    decreases read.len(),
{
    entries::law_the_listing_found_is_the_first(listings, dir);
    if read.len() > 0 {
        let less = read.drop_last();
        let last = read.last();
        let before = after_reads(listings, asking, less);
        lemma_with_listing(before.0, last, dir);
        law_one_path_less(before.1, last.dir);
        entries::law_the_listing_found_is_the_first(before.0, dir);
        let after = without(before.1, last.dir);
        if i == read.len() - 1 {
            if among(after, dir) {
                let k = choose|k: int| 0 <= k < after.len() && path::equal(#[trigger] after[k], dir);
                assert(!path::equal(after[k], last.dir));
            }
        } else {
            assert forall|j: int| i < j < less.len() implies !path::equal(
                (#[trigger] less[j]).dir,
                dir,
            ) by {
                assert(less[j] == read[j]);
            }
            if i >= 0 {
                assert(less[i] == read[i]);
            }
            law_what_was_read_last_is_kept(listings, asking, less, dir, i);
            assert(!path::equal(read[read.len() - 1].dir, dir));
            if i >= 0 && among(after, dir) {
                let k = choose|k: int| 0 <= k < after.len() && path::equal(#[trigger] after[k], dir);
                assert(before.1.contains(after[k]));
                let m = choose|m: int| 0 <= m < before.1.len() && before.1[m] == after[k];
                assert(path::equal(before.1[m], dir));
            }
            if i < 0 && asking.contains(dir) {
                let m = choose|m: int| 0 <= m < before.1.len() && before.1[m] == dir;
                assert(!path::equal(before.1[m], last.dir));
            }
        }
    }
}

/// What is said is what each directory that could not be read said, and nothing else.
pub proof fn law_each_error_is_said(read: Seq<entries::ListingView>)
    ensures
        forall|i: int|
            0 <= i < read.len() && (#[trigger] read[i]).error is Some ==> read_errors(read).contains(
                read[i].error->0,
            ),
        forall|k: int|
            0 <= k < read_errors(read).len() ==> exists|i: int|
                0 <= i < read.len() && (#[trigger] read[i]).error == Some(
                    #[trigger] read_errors(read)[k],
                ),
        read_errors(read).len() <= read.len(),
    decreases read.len(),
{
    if read.len() > 0 {
        let less = read.drop_last();
        let before = read_errors(less);
        let all = read_errors(read);
        law_each_error_is_said(less);
        assert forall|i: int|
            0 <= i < read.len() && (#[trigger] read[i]).error is Some implies all.contains(
            read[i].error->0,
        ) by {
            if i < less.len() {
                assert(less[i] == read[i]);
                let k = choose|k: int| 0 <= k < before.len() && before[k] == read[i].error->0;
                assert(all[k] == before[k]);
            } else {
                assert(all[all.len() - 1] == read[i].error->0);
            }
        }
        assert forall|k: int| 0 <= k < all.len() implies exists|i: int|
            0 <= i < read.len() && (#[trigger] read[i]).error == Some(#[trigger] all[k]) by {
            if k < before.len() {
                assert(all[k] == before[k]);
                let i = choose|i: int|
                    0 <= i < less.len() && (#[trigger] less[i]).error == Some(before[k]);
                assert(read[i].error == Some(all[k]));
            } else {
                assert(read[read.len() - 1].error == Some(all[k]));
            }
        }
    }
}

/// The directories on screen are those that are listed and open, but for the root.
pub proof fn law_the_open_listed_directories_are_on_screen(
    listings: Seq<entries::ListingView>,
    root: Seq<char>,
    folds: entries::FoldsView,
)
    ensures
        forall|i: int|
            0 <= i < listings.len() && !path::equal((#[trigger] listings[i]).dir, root)
                && folds.opens(listings[i].dir) ==> open_dirs(listings, root, folds).contains(
                listings[i].dir,
            ),
        forall|k: int|
            0 <= k < open_dirs(listings, root, folds).len() ==> {
                let dir = #[trigger] open_dirs(listings, root, folds)[k];
                &&& !path::equal(dir, root)
                &&& folds.opens(dir)
                &&& entries::listing_of(listings, dir) < listings.len()
            },
    decreases listings.len(),
{
    if listings.len() > 0 {
        let less = listings.drop_last();
        let before = open_dirs(less, root, folds);
        let all = open_dirs(listings, root, folds);
        law_the_open_listed_directories_are_on_screen(less, root, folds);
        assert forall|i: int|
            0 <= i < listings.len() && !path::equal((#[trigger] listings[i]).dir, root)
                && folds.opens(listings[i].dir) implies all.contains(listings[i].dir) by {
            if i < less.len() {
                assert(less[i] == listings[i]);
                let k = choose|k: int| 0 <= k < before.len() && before[k] == listings[i].dir;
                assert(all[k] == before[k]);
            } else {
                assert(all[all.len() - 1] == listings[i].dir);
            }
        }
        assert forall|k: int| 0 <= k < all.len() implies ({
            let dir = #[trigger] all[k];
            &&& !path::equal(dir, root)
            &&& folds.opens(dir)
            &&& entries::listing_of(listings, dir) < listings.len()
        }) by {
            let dir = all[k];
            if k < before.len() {
                assert(dir == before[k]);
                entries::law_the_listing_found_is_the_first(less, dir);
                let at = entries::listing_of(less, dir);
                assert(less[at] == listings[at]);
                entries::law_the_first_listing_is_found(listings, dir, at);
            } else {
                assert(listings[listings.len() - 1].dir == dir);
                entries::law_the_first_listing_is_found(listings, dir, listings.len() - 1);
            }
        }
    }
}

/// What is kept is each listing of one of the directories, as it is, and no other.
pub proof fn law_other_listings_are_forgotten(
    listings: Seq<entries::ListingView>,
    dirs: Seq<Seq<char>>,
)
    ensures
        forall|i: int|
            0 <= i < listings.len() && among(dirs, (#[trigger] listings[i]).dir) ==> kept_of(
                listings,
                dirs,
            ).contains(listings[i]),
        forall|k: int|
            0 <= k < kept_of(listings, dirs).len() ==> listings.contains(
                #[trigger] kept_of(listings, dirs)[k],
            ) && among(dirs, kept_of(listings, dirs)[k].dir),
    decreases listings.len(),
{
    if listings.len() > 0 {
        let less = listings.drop_last();
        let before = kept_of(less, dirs);
        let all = kept_of(listings, dirs);
        law_other_listings_are_forgotten(less, dirs);
        assert forall|i: int|
            0 <= i < listings.len() && among(dirs, (#[trigger] listings[i]).dir) implies all.contains(
            listings[i],
        ) by {
            if i < less.len() {
                assert(less[i] == listings[i]);
                let k = choose|k: int| 0 <= k < before.len() && before[k] == listings[i];
                assert(all[k] == before[k]);
            } else {
                assert(all[all.len() - 1] == listings[i]);
            }
        }
        assert forall|k: int| 0 <= k < all.len() implies listings.contains(#[trigger] all[k])
            && among(dirs, all[k].dir) by {
            if k < before.len() {
                assert(all[k] == before[k]);
                let i = choose|i: int| 0 <= i < less.len() && less[i] == before[k];
                assert(listings[i] == all[k]);
            } else {
                assert(listings[listings.len() - 1] == all[k]);
            }
        }
    }
}

/// Those of some directories that are listed, in order, and no other.
pub proof fn law_the_listed_ones_are_looked_at(
    listings: Seq<entries::ListingView>,
    dirs: Seq<Seq<char>>,
)
    ensures
        forall|i: int|
            0 <= i < dirs.len() && entries::listing_of(listings, #[trigger] dirs[i])
                < listings.len() ==> listed_of(listings, dirs).contains(dirs[i]),
        forall|k: int|
            0 <= k < listed_of(listings, dirs).len() ==> dirs.contains(
                #[trigger] listed_of(listings, dirs)[k],
            ) && entries::listing_of(listings, listed_of(listings, dirs)[k]) < listings.len(),
    decreases dirs.len(),
{
    if dirs.len() > 0 {
        let less = dirs.drop_last();
        let before = listed_of(listings, less);
        let all = listed_of(listings, dirs);
        law_the_listed_ones_are_looked_at(listings, less);
        assert forall|i: int|
            0 <= i < dirs.len() && entries::listing_of(listings, #[trigger] dirs[i])
                < listings.len() implies all.contains(dirs[i]) by {
            if i < less.len() {
                assert(less[i] == dirs[i]);
                let k = choose|k: int| 0 <= k < before.len() && before[k] == dirs[i];
                assert(all[k] == before[k]);
            } else {
                assert(all[all.len() - 1] == dirs[i]);
            }
        }
        assert forall|k: int| 0 <= k < all.len() implies dirs.contains(#[trigger] all[k])
            && entries::listing_of(listings, all[k]) < listings.len() by {
            if k < before.len() {
                assert(all[k] == before[k]);
                let i = choose|i: int| 0 <= i < less.len() && less[i] == before[k];
                assert(dirs[i] == all[k]);
            } else {
                assert(dirs[dirs.len() - 1] == all[k]);
            }
        }
    }
}

/// What holds a path is listed, or the root; the path lies in it; nothing nearer is listed.
pub proof fn law_the_nearest_listed_directory_holds_a_path(
    listings: Seq<entries::ListingView>,
    root: Seq<char>,
    path: Seq<char>,
)
    requires
        path::below(path, root),
        root.len() > 0,
    ensures
        ({
            let dir = holding(listings, root, path);
            &&& path::below(path, dir)
            &&& path::below(dir, root)
            &&& path::equal(dir, root) || entries::listing_of(listings, dir) < listings.len()
            &&& forall|other: Seq<char>|
                path::below(path, other) && path::components(other).len() > path::components(
                    dir,
                ).len() ==> #[trigger] entries::listing_of(listings, other) == listings.len()
        }),
    decreases path.len(),
{
    let parts = path::components(path);
    let n = parts.len() as int;
    assert(parts.subrange(0, n) =~= parts);
    let dir = holding(listings, root, path);
    if path::equal(path, root) || entries::listing_of(listings, path) < listings.len() {
        assert(path::below(path, path));
    } else {
        path::lemma_up(path);
        path::law_the_path_above_lacks_the_last_part(path);
        path::law_every_path_has_a_part(root);
        let k = path::components(root).len() as int;
        assert(path::components(root) =~= parts.subrange(0, k));
        assert(k < n) by {
            if k == n {
                assert(parts =~= path::components(root));
            }
        }
        let next = path::up(path)->0;
        assert(parts != seq![seq!['/']]) by {
            if parts == seq![seq!['/']] {
                assert(n == 1);
                assert(k == 0);
            }
        }
        let less = path::components(next);
        assert(less =~= parts.subrange(0, n - 1));
        assert(path::components(root) =~= less.subrange(0, k));
        law_the_nearest_listed_directory_holds_a_path(listings, root, next);
        let m = path::components(dir).len() as int;
        assert(path::components(dir) =~= less.subrange(0, m));
        assert(less.subrange(0, m) =~= parts.subrange(0, m));
        assert forall|other: Seq<char>|
            path::below(path, other) && path::components(other).len() > path::components(
                dir,
            ).len() implies #[trigger] entries::listing_of(listings, other) == listings.len() by {
            let q = path::components(other).len() as int;
            assert(path::components(other) =~= parts.subrange(0, q));
            if q == n {
                assert(path::components(other) =~= parts);
                entries::law_the_listing_found_is_the_first(listings, other);
                entries::law_the_listing_found_is_the_first(listings, path);
                let at = entries::listing_of(listings, other);
                if at < listings.len() {
                    assert(path::equal(listings[at].dir, path));
                }
            } else {
                assert(path::components(other) =~= less.subrange(0, q));
                assert(path::below(next, other));
            }
        }
    }
}

/// While the rows are narrowed the cursor goes to the first row of a file.
pub proof fn law_the_first_file_is_the_first(rows: Seq<entries::RowView>)
    ensures
        ({
            let at = first_file(rows);
            &&& 0 <= at <= rows.len()
            &&& at < rows.len() ==> (rows[at] matches entries::RowView::Entry(entry)
                && !entry.is_dir)
            &&& forall|i: int|
                0 <= i < at ==> !((#[trigger] rows[i]) is Entry && !rows[i]->Entry_0.is_dir)
        }),
    decreases rows.len(),
{
    if rows.len() > 0 && !(rows[0] is Entry && !rows[0]->Entry_0.is_dir) {
        let rest = rows.skip(1);
        law_the_first_file_is_the_first(rest);
        let at = first_file(rows);
        if at < rows.len() {
            assert(rest[at - 1] == rows[at]);
        }
        assert forall|i: int| 0 <= i < at implies !((#[trigger] rows[i]) is Entry
            && !rows[i]->Entry_0.is_dir) by {
            if i > 0 {
                assert(rest[i - 1] == rows[i]);
            }
        }
    }
}

/// Whether a buffer of a deleted file with nothing unsaved has that number.
pub open spec fn is_of_one_deleted(docs: Seq<Document>, target: Seq<char>, id: u64) -> bool {
    exists|i: int|
        0 <= i < docs.len() && (#[trigger] docs[i]).id == id && !docs[i].modified && docs[i].path
            is Some && path::below(docs[i].path->0@, target)
}

/// Every buffer of a deleted file goes when it has nothing unsaved, and no other.
pub proof fn law_buffers_of_deleted_files_go(docs: Seq<Document>, target: Seq<char>)
    ensures
        forall|i: int|
            0 <= i < docs.len() && !(#[trigger] docs[i]).modified && docs[i].path is Some
                && path::below(docs[i].path->0@, target) ==> gone(docs, target).contains(docs[i].id),
        forall|k: int|
            0 <= k < gone(docs, target).len() ==> is_of_one_deleted(
                docs,
                target,
                #[trigger] gone(docs, target)[k],
            ),
    decreases docs.len(),
{
    if docs.len() > 0 {
        let less = docs.drop_last();
        let before = gone(less, target);
        let all = gone(docs, target);
        law_buffers_of_deleted_files_go(less, target);
        assert forall|i: int|
            0 <= i < docs.len() && !(#[trigger] docs[i]).modified && docs[i].path is Some
                && path::below(docs[i].path->0@, target) implies all.contains(docs[i].id) by {
            if i < less.len() {
                assert(less[i] == docs[i]);
                let k = choose|k: int| 0 <= k < before.len() && before[k] == docs[i].id;
                assert(all[k] == before[k]);
            } else {
                assert(all[all.len() - 1] == docs[i].id);
            }
        }
        assert forall|k: int| 0 <= k < all.len() implies is_of_one_deleted(
            docs,
            target,
            #[trigger] all[k],
        ) by {
            if k < before.len() {
                assert(all[k] == before[k]);
                let i = choose|i: int|
                    0 <= i < less.len() && (#[trigger] less[i]).id == before[k] && !less[i].modified
                        && less[i].path is Some && path::below(less[i].path->0@, target);
                assert(docs[i] == less[i]);
            } else {
                assert(docs[docs.len() - 1].id == all[k]);
            }
        }
    }
}

/// Every buffer of a renamed file goes along: to where its file is below the new name. No other
/// buffer moves.
pub proof fn law_buffers_go_along(docs: Seq<Document>, source: Seq<char>, target: Seq<char>)
    ensures
        forall|i: int|
            0 <= i < docs.len() && (#[trigger] docs[i]).path is Some && path::below(
                docs[i].path->0@,
                source,
            ) ==> retargeted(docs, source, target).contains(
                (docs[i].id, path::joined(target, path::stripped(docs[i].path->0@, source)->0)),
            ),
        forall|k: int|
            0 <= k < retargeted(docs, source, target).len() ==> exists|i: int|
                0 <= i < docs.len() && (#[trigger] docs[i]).path is Some && path::below(
                    docs[i].path->0@,
                    source,
                ) && (#[trigger] retargeted(docs, source, target)[k]).0 == docs[i].id,
    decreases docs.len(),
{
    if docs.len() > 0 {
        let less = docs.drop_last();
        let before = retargeted(less, source, target);
        let all = retargeted(docs, source, target);
        law_buffers_go_along(less, source, target);
        assert forall|i: int|
            0 <= i < docs.len() && (#[trigger] docs[i]).path is Some && path::below(
                docs[i].path->0@,
                source,
            ) implies all.contains(
            (docs[i].id, path::joined(target, path::stripped(docs[i].path->0@, source)->0)),
        ) by {
            let went = (
                docs[i].id,
                path::joined(target, path::stripped(docs[i].path->0@, source)->0),
            );
            if i < less.len() {
                assert(less[i] == docs[i]);
                let k = choose|k: int| 0 <= k < before.len() && before[k] == went;
                assert(all[k] == before[k]);
            } else {
                assert(all[all.len() - 1] == went);
            }
        }
        assert forall|k: int| 0 <= k < all.len() implies exists|i: int|
            0 <= i < docs.len() && (#[trigger] docs[i]).path is Some && path::below(
                docs[i].path->0@,
                source,
            ) && (#[trigger] all[k]).0 == docs[i].id by {
            if k < before.len() {
                assert(all[k] == before[k]);
                let i = choose|i: int|
                    0 <= i < less.len() && (#[trigger] less[i]).path is Some && path::below(
                        less[i].path->0@,
                        source,
                    ) && before[k].0 == less[i].id;
                assert(docs[i] == less[i]);
            } else {
                assert(docs[docs.len() - 1].id == all[k].0);
            }
        }
    }
}

/// A name without a `/` lands right below the root, unless it is empty or `..`; one that starts
/// with a `/`, or goes up anywhere on its way, lands nowhere.
pub proof fn law_where_a_name_lands(root: Seq<char>, name: Seq<char>, more: Seq<char>)
    requires
        root.len() > 0,
        root.last() != '/',
        forall|i: int| 0 <= i < name.len() ==> name[i] != '/',
    ensures
        name.len() > 0 && name != seq!['.', '.'] ==> landing(root, name) == Some(
            root + seq!['/'] + name,
        ),
        landing(root, seq!['.', '.']) is None,
        landing(root, seq!['/'] + more) is None,
        landing(root, Seq::empty()) is None,
        more.len() > 0 ==> landing(root, more + seq!['/'] + seq!['.', '.']) is None,
{
    let up = seq!['.', '.'];
    let slash = seq!['/'];
    path::law_a_name_is_a_part(root, name);
    path::law_a_name_is_a_part(root, up);
    if name.len() > 0 && name != up {
        let parts = path::components(name);
        assert(parts == seq![name]);
        assert(name[0] != '/');
        assert(!climbs(name)) by {
            if climbs(name) {
                let i = choose|i: int|
                    0 <= i < parts.len() && (#[trigger] parts[i] == slash || parts[i] == up);
                assert(parts[i] == name);
                assert(slash[0] == '/');
            }
        }
        assert(root.push('/') + name =~= root + slash + name);
    }
    assert(path::components(up)[0] == up);
    assert((slash + more)[0] == '/');
    if more.len() > 0 {
        path::law_a_name_is_a_part(more, up);
        let parts = path::components(more + slash + up);
        assert(up[0] == '.' && up.len() == 2);
        assert(up != seq!['.']) by {
            assert(seq!['.'].len() == 1);
        }
        assert(parts[parts.len() - 1] == up);
    }
}

/// The `/` a text ends in are cut, all of them and nothing else.
pub proof fn law_the_slashes_at_the_end_are_cut(s: Seq<char>, slashes: Seq<char>)
    requires
        s.len() > 0 ==> s.last() != '/',
        forall|i: int| 0 <= i < slashes.len() ==> slashes[i] == '/',
    ensures
        without_slashes(s + slashes) == s,
    decreases slashes.len(),
{
    let all = s + slashes;
    if slashes.len() > 0 {
        assert(all.last() == slashes[slashes.len() - 1]);
        assert(all.drop_last() =~= s + slashes.drop_last());
        law_the_slashes_at_the_end_are_cut(s, slashes.drop_last());
    } else {
        assert(all =~= s);
    }
}

/// Closing the filter box brings the folds back as they were when it opened, whatever was
/// folded or typed meanwhile.
pub proof fn law_closing_the_filter_brings_the_folds_back(
    before: FilesTab,
    opened: FilesTab,
    later: FilesTab,
    closed: FilesTab,
    typed: Seq<char>,
)
    requires
        before.filter is None,
        before.filtered(Some(typed), opened),
        later.folds_before == opened.folds_before,
        later.filter is Some,
        later.filtered(None, closed),
    ensures
        opened.folds@ == before.folds@,
        closed.folds@ == before.folds@,
        closed.filter is None,
        closed.walk is None,
        !closed.narrows(),
{
}

/// Once the path that is waited for has a row the cursor is on it, and nothing is waited for;
/// nor is it when nothing more is being read.
pub proof fn law_what_was_waited_for_is_under_the_cursor(tab: FilesTab, next: FilesTab)
    requires
        tab.settled(next),
        tab.pending is Some,
        tab.list.len == tab.rows.len(),
    ensures
        ({
            let rows = entries::row_views(tab.rows@);
            let path = tab.pending->0.path@;
            let found = exists|i: int|
                0 <= i < rows.len() && (#[trigger] rows[i]).path() is Some && path::equal(
                    rows[i].path()->0,
                    path,
                );
            &&& next.rows == tab.rows
            &&& found ==> next.pending is None && next.list.cursor < rows.len()
                && rows[next.list.cursor as int].path() is Some && path::equal(
                rows[next.list.cursor as int].path()->0,
                path,
            )
            &&& !found ==> next.list == tab.list && (next.pending is None <==> tab.asking.len() == 0)
        }),
{
    let rows = entries::row_views(tab.rows@);
    let path = tab.pending->0.path@;
    entries::law_the_cursor_finds_its_path(rows, path, tab.list);
    let at = entries::first_at(rows, path);
    if exists|i: int|
        0 <= i < rows.len() && (#[trigger] rows[i]).path() is Some && path::equal(
            rows[i].path()->0,
            path,
        ) {
        let i = choose|i: int|
            0 <= i < rows.len() && (#[trigger] rows[i]).path() is Some && path::equal(
                rows[i].path()->0,
                path,
            );
        assert(at <= i);
    }
}

// ---- What is read when ----

/// Whatever the rows need and was not read is being read once they are laid out, and nothing is
/// asked for that was being read already.
pub proof fn law_what_is_missing_is_being_read(
    tab: FilesTab,
    narrowed: Seq<entries::RowView>,
    next: FilesTab,
    asked: Seq<Seq<char>>,
)
    requires
        tab.rebuilt(narrowed, next, asked),
    ensures
        forall|i: int|
            0 <= i < tab.laid().missing.len() ==> among(
                text::views(next.asking@),
                #[trigger] tab.laid().missing[i],
            ),
        forall|i: int|
            0 <= i < asked.len() ==> tab.laid().missing.contains(#[trigger] asked[i]) && !among(
                text::views(tab.asking@),
                asked[i],
            ),
        next.folds == tab.folds,
        next.listings == tab.listings,
{
    law_only_what_is_new_is_asked(text::views(tab.asking@), tab.laid().missing);
}

/// A refresh reads every directory on screen again, the root among them, and keeps what is
/// known of those alone.
pub proof fn law_a_refresh_reads_what_is_on_screen(
    tab: FilesTab,
    next: FilesTab,
    asked: Seq<Seq<char>>,
)
    requires
        tab.refreshed(next, asked),
    ensures
        among(text::views(next.asking@), tab.root@),
        forall|i: int|
            0 <= i < tab.listings.len() && tab.folds@.opens((#[trigger] tab.listings@[i]).dir@)
                ==> among(text::views(next.asking@), tab.listings@[i].dir@),
        forall|k: int|
            0 <= k < next.listings.len() ==> path::equal(
                (#[trigger] next.listings@[k]).dir@,
                tab.root@,
            ) || tab.folds@.opens(next.listings@[k].dir@),
{
    let shown = tab.on_screen();
    let listings = entries::listing_views(tab.listings@);
    let open = open_dirs(listings, tab.root@, tab.folds@);
    law_only_what_is_new_is_asked(text::views(tab.asking@), shown);
    law_the_open_listed_directories_are_on_screen(listings, tab.root@, tab.folds@);
    law_other_listings_are_forgotten(listings, shown);
    assert(shown[0] == tab.root@);
    let asking = text::views(next.asking@);
    assert forall|i: int|
        0 <= i < tab.listings.len() && tab.folds@.opens(
            (#[trigger] tab.listings@[i]).dir@,
        ) implies among(asking, tab.listings@[i].dir@) by {
        let dir = tab.listings@[i].dir@;
        assert(listings[i] == tab.listings@[i]@);
        if path::equal(dir, tab.root@) {
            let j = choose|j: int| 0 <= j < asking.len() && path::equal(#[trigger] asking[j], tab.root@);
            assert(path::equal(asking[j], dir));
        } else {
            let k = choose|k: int| 0 <= k < open.len() && open[k] == dir;
            assert(shown[k + 1] == dir);
        }
    }
    assert forall|k: int| 0 <= k < next.listings.len() implies path::equal(
        (#[trigger] next.listings@[k]).dir@,
        tab.root@,
    ) || tab.folds@.opens(next.listings@[k].dir@) by {
        let kept = entries::listing_views(next.listings@);
        let dir = next.listings@[k].dir@;
        assert(kept[k] == next.listings@[k]@);
        assert(among(shown, kept[k].dir));
        let j = choose|j: int| 0 <= j < shown.len() && path::equal(#[trigger] shown[j], dir);
        if j > 0 {
            assert(shown[j] == open[j - 1]);
            assert(tab.folds@.opens(open[j - 1]));
        }
    }
}

/// Waiting for a path opens every directory on the way to it, and closes none.
pub proof fn law_waiting_for_a_path_opens_the_way(
    tab: FilesTab,
    path: Seq<char>,
    center: bool,
    next: FilesTab,
    i: int,
    other: Seq<char>,
)
    requires
        tab.waits_for(path, center, next),
    ensures
        0 <= i < path::ancestors(tab.root@, path).len() ==> next.folds@.opens(
            path::ancestors(tab.root@, path)[i],
        ),
        tab.folds@.opens(other) ==> next.folds@.opens(other),
        next.pending matches Some(pending) && pending.path@ == path,
        next.rows == tab.rows && next.list == tab.list && next.listings == tab.listings,
{
    if 0 <= i < path::ancestors(tab.root@, path).len() {
        entries::law_opening_the_way_opens_each(tab.folds@, tab.root@, path, i);
    }
}

/// A look at the disk waits while something is being read, and else looks at each directory on
/// screen that is listed.
pub proof fn law_a_look_waits_for_what_is_being_read(tab: FilesTab, next: FilesTab, look: Look)
    requires
        tab.looks(next, look),
    ensures
        tab.asking.len() > 0 || tab.polling ==> (look matches Look::Wait(start) && start
            == !tab.armed) && next.armed && next.polling == tab.polling,
        tab.asking.len() == 0 && !tab.polling ==> next.polling && (look matches Look::At(dirs)
            && forall|i: int|
            0 <= i < tab.listings.len() && (path::equal(
                (#[trigger] tab.listings@[i]).dir@,
                tab.root@,
            ) || tab.folds@.opens(tab.listings@[i].dir@)) ==> among(
                text::views(dirs@),
                tab.listings@[i].dir@,
            )),
{
    if tab.asking.len() == 0 && !tab.polling {
        let listings = entries::listing_views(tab.listings@);
        let shown = tab.on_screen();
        let open = open_dirs(listings, tab.root@, tab.folds@);
        let dirs = text::views(look->At_0@);
        law_the_open_listed_directories_are_on_screen(listings, tab.root@, tab.folds@);
        law_the_listed_ones_are_looked_at(listings, shown);
        assert forall|i: int|
            0 <= i < tab.listings.len() && (path::equal(
                (#[trigger] tab.listings@[i]).dir@,
                tab.root@,
            ) || tab.folds@.opens(tab.listings@[i].dir@)) implies among(
            dirs,
            tab.listings@[i].dir@,
        ) by {
            let dir = tab.listings@[i].dir@;
            assert(listings[i] == tab.listings@[i]@);
            if path::equal(dir, tab.root@) {
                entries::law_the_first_listing_is_found(listings, tab.root@, i);
                assert(shown[0] == tab.root@);
                assert(dirs.contains(shown[0]));
                let m = choose|m: int| 0 <= m < dirs.len() && dirs[m] == tab.root@;
                assert(path::equal(dirs[m], dir));
            } else {
                let k = choose|k: int| 0 <= k < open.len() && open[k] == dir;
                assert(shown[k + 1] == dir);
                entries::law_the_first_listing_is_found(listings, dir, i);
                assert(dirs.contains(shown[k + 1]));
                let m = choose|m: int| 0 <= m < dirs.len() && dirs[m] == dir;
                assert(path::equal(dirs[m], dir));
            }
        }
    }
}

} // verus!
