//! Where a list of rows stands: the cursor, the first row on screen, and how many fit.

use vstd::prelude::*;

use crate::screen;

verus! {

#[derive(Clone, Copy, PartialEq, Eq, Structural, Debug)]
pub struct List {
    pub cursor: usize,
    pub scroll: usize,
    /// Rows the last render had room for; what paging and scrolling are measured against.
    pub page: usize,
    /// How many rows there are.
    pub len: usize,
}

/// How many rows fit, one at least.
pub open spec fn room(page: int) -> int {
    screen::most(page, 1)
}

/// The cursor and the first row on screen, kept among `len` rows: the cursor on one of them,
/// the screen moved as little as brings the cursor onto it, and no further than the end.
pub open spec fn settled(len: int, page: int, cursor: int, scroll: int) -> (int, int) {
    if len == 0 {
        (0, 0)
    } else {
        let page = room(page);
        let cursor = screen::least(cursor, len - 1);
        let down = screen::least(scroll, cursor);
        let up = screen::most(down, cursor + 1 - page);
        (cursor, screen::least(up, screen::less_by(len, page)))
    }
}

impl List {
    /// Whether the list stands at that cursor and that first row.
    pub open spec fn stands(self, len: int, page: int, at: (int, int)) -> bool {
        self.len == len && self.page == page && self.cursor == at.0 && self.scroll == at.1
    }

    /// A list with no rows.
    pub fn new() -> (list: Self)
        ensures
            list.stands(0, 0, (0, 0)),
    {
        List { cursor: 0, scroll: 0, page: 0, len: 0 }
    }

    /// Tells the list how many rows it now has; the cursor and the scroll are kept within.
    pub fn set_len(&mut self, len: usize)
        ensures
            final(self).stands(
                len as int,
                old(self).page as int,
                settled(
                    len as int,
                    old(self).page as int,
                    old(self).cursor as int,
                    old(self).scroll as int,
                ),
            ),
    {
        self.len = len;
        self.clamp();
    }

    pub fn set_page(&mut self, page: usize)
        ensures
            final(self).stands(
                old(self).len as int,
                room(page as int),
                settled(
                    old(self).len as int,
                    page as int,
                    old(self).cursor as int,
                    old(self).scroll as int,
                ),
            ),
    {
        self.page = if page < 1 {
            1
        } else {
            page
        };
        self.clamp();
    }

    pub fn clamp(&mut self)
        ensures
            final(self).stands(
                old(self).len as int,
                old(self).page as int,
                settled(
                    old(self).len as int,
                    old(self).page as int,
                    old(self).cursor as int,
                    old(self).scroll as int,
                ),
            ),
    {
        if self.len == 0 {
            self.cursor = 0;
            self.scroll = 0;
            return;
        }
        let page: usize = if self.page < 1 {
            1
        } else {
            self.page
        };
        if self.cursor > self.len - 1 {
            self.cursor = self.len - 1;
        }
        if self.cursor < self.scroll {
            self.scroll = self.cursor;
        }
        if self.cursor - self.scroll >= page {
            self.scroll = self.cursor - (page - 1);
        }
        let max_scroll: usize = if self.len < page {
            0
        } else {
            self.len - page
        };
        if self.scroll > max_scroll {
            self.scroll = max_scroll;
        }
    }

    pub fn move_by(&mut self, delta: isize)
        ensures
            final(self).stands(
                old(self).len as int,
                old(self).page as int,
                settled(
                    old(self).len as int,
                    old(self).page as int,
                    screen::most(old(self).cursor + delta, 0),
                    old(self).scroll as int,
                ),
            ),
    {
        let target: i128 = self.cursor as i128 + delta as i128;
        self.cursor = if target < 0 {
            0
        } else if target > usize::MAX as i128 {
            usize::MAX
        } else {
            target as usize
        };
        self.clamp();
    }

    /// Moves a page on, or back.
    pub fn turn_page(&mut self, forward: bool)
        ensures
            final(self).stands(
                old(self).len as int,
                old(self).page as int,
                settled(
                    old(self).len as int,
                    old(self).page as int,
                    if forward {
                        old(self).cursor + old(self).page
                    } else {
                        screen::less_by(old(self).cursor as int, old(self).page as int)
                    },
                    old(self).scroll as int,
                ),
            ),
    {
        if forward {
            self.cursor = if self.page < usize::MAX - self.cursor {
                self.cursor + self.page
            } else {
                usize::MAX
            };
        } else {
            self.cursor = if self.cursor < self.page {
                0
            } else {
                self.cursor - self.page
            };
        }
        self.clamp();
    }

    pub fn half_page(&self) -> (half: isize)
        ensures
            half == screen::most(self.page as int / 2, 1),
    {
        let half: usize = self.page / 2;
        assert(half <= isize::MAX);
        if half < 1 {
            1
        } else {
            half as isize
        }
    }

    pub fn select(&mut self, index: usize)
        ensures
            final(self).stands(
                old(self).len as int,
                old(self).page as int,
                settled(
                    old(self).len as int,
                    old(self).page as int,
                    index as int,
                    old(self).scroll as int,
                ),
            ),
    {
        self.cursor = index;
        self.clamp();
    }

    pub fn home(&mut self)
        ensures
            final(self).stands(
                old(self).len as int,
                old(self).page as int,
                settled(old(self).len as int, old(self).page as int, 0, old(self).scroll as int),
            ),
    {
        self.select(0);
    }

    pub fn end(&mut self)
        ensures
            final(self).stands(
                old(self).len as int,
                old(self).page as int,
                settled(
                    old(self).len as int,
                    old(self).page as int,
                    screen::less_by(old(self).len as int, 1),
                    old(self).scroll as int,
                ),
            ),
    {
        let last: usize = if self.len == 0 {
            0
        } else {
            self.len - 1
        };
        self.select(last);
    }

    /// Where scrolling by so many rows puts the cursor and the screen: the rows move under a
    /// cursor that stays on screen.
    pub open spec fn scrolled(self, delta: int) -> (int, int) {
        let page = room(self.page as int);
        let scroll = screen::most(
            screen::least(self.scroll + delta, screen::less_by(self.len as int, page)),
            0,
        );
        let cursor = screen::least(screen::most(self.cursor as int, scroll), scroll + page - 1);
        settled(self.len as int, self.page as int, cursor, scroll)
    }

    /// Scrolls the rows under a cursor that stays on screen.
    pub fn scroll_by(&mut self, delta: isize)
        ensures
            final(self).stands(
                old(self).len as int,
                old(self).page as int,
                old(self).scrolled(delta as int),
            ),
    {
        let page: usize = if self.page < 1 {
            1
        } else {
            self.page
        };
        let max_scroll: usize = if self.len < page {
            0
        } else {
            self.len - page
        };
        let target: i128 = self.scroll as i128 + delta as i128;
        self.scroll = if target < 0 {
            0
        } else if target > max_scroll as i128 {
            max_scroll
        } else {
            target as usize
        };
        if self.cursor < self.scroll {
            self.cursor = self.scroll;
        }
        let last_visible = self.scroll + (page - 1);
        if self.cursor > last_visible {
            self.cursor = last_visible;
        }
        self.clamp();
    }

    /// Where the cursor's row in the middle of the screen puts the screen.
    pub open spec fn centered(self) -> (int, int) {
        settled(
            self.len as int,
            self.page as int,
            self.cursor as int,
            screen::less_by(self.cursor as int, self.page as int / 2),
        )
    }

    /// Puts the cursor's row in the middle of the screen.
    pub fn center(&mut self)
        ensures
            final(self).stands(
                old(self).len as int,
                old(self).page as int,
                old(self).centered(),
            ),
    {
        let half: usize = self.page / 2;
        self.scroll = if self.cursor < half {
            0
        } else {
            self.cursor - half
        };
        self.clamp();
    }

    /// Whether the cursor is within a screen of the last row.
    pub fn near_end(&self) -> (near: bool)
        ensures
            near == (self.cursor + self.page >= self.len),
    {
        self.page >= self.len || self.cursor >= self.len - self.page
    }

    /// The row a screen line lands on, if any.
    pub fn row_at(&self, line: usize) -> (row: Option<usize>)
        ensures
            match row {
                Some(index) => index == self.scroll + line && index < self.len,
                None => self.scroll + line >= self.len,
            },
    {
        if line < self.len && self.scroll < self.len - line {
            Some(self.scroll + line)
        } else {
            None
        }
    }
}

/// Where every operation leaves a list: with rows there is always one under the cursor and it
/// is on screen, and the screen shows no more past the last row than it must.
pub proof fn law_the_cursor_is_on_screen(len: int, page: int, cursor: int, scroll: int)
    requires
        len >= 0,
        page >= 0,
        cursor >= 0,
        scroll >= 0,
    ensures
        ({
            let (cursor, scroll) = settled(len, page, cursor, scroll);
            &&& 0 <= scroll <= cursor
            &&& len > 0 ==> cursor < len && cursor < scroll + room(page)
            &&& len >= room(page) ==> scroll + room(page) <= len
            &&& len < room(page) ==> scroll == 0
        }),
{
}

/// Keeping a list within its rows twice is keeping it once.
pub proof fn law_settling_twice_is_once(len: int, page: int, cursor: int, scroll: int)
    requires
        len >= 0,
        page >= 0,
        cursor >= 0,
        scroll >= 0,
    ensures
        ({
            let at = settled(len, page, cursor, scroll);
            settled(len, page, at.0, at.1) == at
        }),
{
}

/// Scrolling keeps the cursor on screen, and moves the screen by exactly what was asked as long
/// as there are rows to show.
pub proof fn law_scrolling_moves_the_screen(list: List, delta: int)
    requires
        list.len > 0,
        0 <= list.scroll + delta <= screen::less_by(list.len as int, room(list.page as int)),
        list.cursor < list.len,
    ensures
        list.scrolled(delta).1 == list.scroll + delta,
        list.scrolled(delta).1 <= list.scrolled(delta).0 < list.scrolled(delta).1 + room(
            list.page as int,
        ),
{
}

/// The cursor goes where it was put, or onto the last row; the screen moves only when the
/// cursor is off it, and then no further than brings the cursor onto its first or last line.
pub proof fn law_the_screen_moves_as_little_as_it_can(
    len: int,
    page: int,
    cursor: int,
    scroll: int,
)
    requires
        page >= 1,
        0 <= scroll,
        0 <= cursor,
        page <= len,
    ensures
        ({
            let at = settled(len, page, cursor, scroll);
            let on = if cursor < len {
                cursor
            } else {
                len - 1
            };
            &&& at.0 == on
            &&& scroll <= on < scroll + page && scroll + page <= len ==> at.1 == scroll
            &&& scroll + page > len && len - page <= on ==> at.1 == len - page
            &&& on < scroll && on + page <= len ==> at.1 == on
            &&& scroll + page <= on ==> at.1 == on + 1 - page
        }),
{
}

/// A list no row fits on is one a row fits on.
pub proof fn law_one_row_always_fits(len: int, cursor: int, scroll: int)
    requires
        len > 0,
        0 <= scroll,
        0 <= cursor,
    ensures
        settled(len, 0, cursor, scroll) == settled(len, 1, cursor, scroll),
        ({
            let at = settled(len, 0, cursor, scroll);
            at.1 == at.0 && at.0 == if cursor < len {
                cursor
            } else {
                len - 1
            }
        }),
{
}

/// Scrolling goes no further than the first and the last screen, and leaves the cursor on its
/// row as long as the row is on screen, else on the line of the screen nearest to it.
pub proof fn law_scrolling_stops_at_the_ends(list: List, delta: int)
    requires
        1 <= list.page <= list.len,
        list.cursor < list.len,
        list.scroll + list.page <= list.len,
    ensures
        ({
            let at = list.scrolled(delta);
            &&& list.scroll + delta <= 0 ==> at.1 == 0
            &&& list.scroll + delta >= list.len - list.page ==> at.1 == list.len - list.page
            &&& at.1 <= list.cursor < at.1 + list.page ==> at.0 == list.cursor
            &&& list.cursor < at.1 ==> at.0 == at.1
            &&& at.1 + list.page <= list.cursor ==> at.0 == at.1 + list.page - 1
        }),
{
}

/// Centring leaves the cursor where it is, half a screen above it as far as there are rows.
pub proof fn law_centring_has_half_a_screen_above(list: List)
    requires
        1 <= list.page <= list.len,
        list.cursor < list.len,
    ensures
        ({
            let at = list.centered();
            let half = list.page as int / 2;
            &&& at.0 == list.cursor
            &&& list.cursor <= half ==> at.1 == 0
            &&& half <= list.cursor && list.cursor - half + list.page <= list.len ==> at.1
                == list.cursor - half
            &&& list.cursor - half + list.page > list.len ==> at.1 == list.len - list.page || at.1
                == 0
        }),
{
}

} // verus!
