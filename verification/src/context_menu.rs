//! The menu the right button opens: what can be done to the thing under the pointer.

use vstd::prelude::*;
use vstd::string::*;

use crate::confirm::{self, add_lengths, Drawn};
use crate::screen::{
    self, find_hit, rest, smaller, sum, KeyCode, KeyEvent, MouseButton, MouseEvent,
    MouseEventKind, Rect,
};
use crate::text::length;

verus! {

/// The room between the label and the key on its right.
pub const GAP: u16 = 3;

/// One line of the menu: what it reads as, the key that does the same thing, and what it
/// does. The key is only written down — the menu does not listen for it.
pub struct Entry<A> {
    pub label: String,
    pub key: String,
    pub action: A,
}

impl<A> Entry<A> {
    pub fn new(label: &str, key: &str, action: A) -> (entry: Self)
        ensures
            entry.label@ == label@,
            entry.key@ == key@,
            entry.action == action,
    {
        Entry { label: label.to_owned(), key: key.to_owned(), action }
    }
}

/// The menu the right button opens, where it was pressed: what can be done to the thing
/// under the pointer. Up and down walk it, Enter takes the one in focus, a click takes the
/// one it lands on, and Escape — or a click outside — answers nothing.
pub struct ContextMenu<A> {
    pub entries: Vec<Entry<A>>,
    /// The row and column the button was pressed on.
    pub at: (u16, u16),
    pub focused: usize,
    /// Where each entry was drawn last, so a click can land on one.
    pub rows: Vec<Rect>,
}

/// What an event comes to: it was of no interest, the menu stays, it goes, or it goes and an
/// entry is run.
pub enum Reply<A> {
    Ignored,
    Stay,
    Close,
    Run(A),
}

/// One line drawn: its label on the left and its key on the right, and whether it has the
/// focus.
pub struct LinePaint {
    pub label: Drawn,
    pub key: Drawn,
    pub focused: bool,
}

/// How many characters the two columns of an entry have.
pub open spec fn columns<A>(entry: Entry<A>) -> int {
    confirm::plus(entry.label@.len() as int, entry.key@.len() as int)
}

/// The most characters the two columns of an entry have.
pub open spec fn widest<A>(entries: Seq<Entry<A>>) -> int
    decreases entries.len(),
{
    if entries.len() == 0 {
        0
    } else {
        screen::most(widest(entries.drop_last()), columns(entries.last()))
    }
}

impl<A> ContextMenu<A> {
    pub fn new(at: (u16, u16), entries: Vec<Entry<A>>) -> (menu: Self)
        ensures
            menu.entries == entries,
            menu.at == at,
            menu.focused == 0,
            menu.rows@.len() == 0,
    {
        ContextMenu { entries, at, focused: 0, rows: Vec::new() }
    }

    /// What taking an entry comes to: it is run, and the menu goes either way.
    pub open spec fn took(self, index: int, next: ContextMenu<A>, reply: Reply<A>) -> bool {
        &&& next == (ContextMenu { entries: next.entries, ..self })
        &&& if 0 <= index < self.entries.len() {
            &&& reply == Reply::Run(self.entries[index].action)
            &&& next.entries@ == self.entries@.remove(index)
        } else {
            &&& reply == Reply::<A>::Close
            &&& next.entries == self.entries
        }
    }

    /// Runs one entry and closes the menu.
    pub fn take(&mut self, index: usize) -> (reply: Reply<A>)
        ensures
            old(self).took(index as int, *final(self), reply),
    {
        if index >= self.entries.len() {
            return Reply::Close;
        }
        let entry = self.entries.remove(index);
        Reply::Run(entry.action)
    }

    /// Where the focus goes from one entry to the next or the one before, round the end.
    pub open spec fn walked(self, forward: bool) -> int {
        let entries = self.entries.len() as int;
        if entries == 0 {
            self.focused as int
        } else if forward {
            (self.focused + 1) % entries
        } else {
            (self.focused + entries - 1) % entries
        }
    }

    pub fn walk(&mut self, forward: bool)
        ensures
            final(self).focused == old(self).walked(forward),
            *final(self) == (ContextMenu { focused: final(self).focused, ..*old(self) }),
    {
        let entries = self.entries.len() as u128;
        if entries == 0 {
            return ;
        }
        let at: u128 = if forward {
            (self.focused as u128 + 1) % entries
        } else {
            (self.focused as u128 + entries - 1) % entries
        };
        self.focused = at as usize;
    }

    /// How wide the widest line is, both columns and the gap between them.
    pub fn width(&self) -> (width: u16)
        ensures
            width == screen::capped((widest(self.entries@) as u16) + GAP + 2),
    {
        let mut most: usize = 0;
        for i in 0..self.entries.len()
            invariant
                most == widest(self.entries@.take(i as int)),
        {
            assert(self.entries@.take(i + 1).drop_last() =~= self.entries@.take(i as int));
            let entry = &self.entries[i];
            let here = add_lengths(length(entry.label.as_str()), length(entry.key.as_str()));
            if most < here {
                most = here;
            }
        }
        assert(self.entries@.take(self.entries.len() as int) =~= self.entries@);
        sum(most as u16, GAP + 2)
    }

    /// Where the menu stands: at the pointer, folded back onto the screen at its edges.
    pub open spec fn menu(self, area: Rect) -> Rect {
        let width = screen::least(
            screen::capped(screen::capped((widest(self.entries@) as u16) + GAP + 2) + 2),
            area.width as int,
        );
        let height = screen::least(
            screen::capped((self.entries.len() as u16) + 2),
            area.height as int,
        );
        Rect {
            x: screen::least(self.at.1 as int, screen::less_by(area.end(), width)) as u16,
            y: if self.at.0 + height <= area.floor() {
                self.at.0
            } else {
                screen::less_by(self.at.0 as int, height) as u16
            },
            width: width as u16,
            height: height as u16,
        }
    }

    /// Where the menu stands on the screen.
    pub fn place(&self, area: Rect) -> (menu: Rect)
        ensures
            menu == self.menu(area),
    {
        let width = smaller(sum(self.width(), 2), area.width);
        let height = smaller(sum(self.entries.len() as u16, 2), area.height);
        let x = smaller(self.at.1, rest(area.right(), width));
        let y = if self.at.0 as u32 + height as u32 <= area.bottom() as u32 {
            self.at.0
        } else {
            rest(self.at.0, height)
        };
        Rect { x, y, width, height }
    }

    /// How many entries fit inside.
    pub open spec fn fitting(self, inner: Rect) -> int {
        screen::least(self.entries.len() as int, screen::less_by(inner.floor(), inner.y as int))
    }

    /// The line of an entry inside.
    pub open spec fn line_of(self, inner: Rect, index: int) -> Rect {
        Rect { x: inner.x, y: (inner.y + index) as u16, width: inner.width, height: 1 }
    }

    /// Lays the menu out inside its border, and remembers where the entries were drawn.
    pub fn render(&mut self, inner: Rect) -> (lines: Vec<LinePaint>)
        ensures
            *final(self) == (ContextMenu { rows: final(self).rows, ..*old(self) }),
            final(self).rows@.len() == old(self).fitting(inner),
            forall|i: int|
                0 <= i < old(self).fitting(inner) ==> #[trigger] final(self).rows@[i] == old(
                    self,
                ).line_of(inner, i),
            lines@.len() == old(self).fitting(inner),
            forall|i: int|
                0 <= i < lines@.len() ==> {
                    let line = #[trigger] lines@[i];
                    let entry = old(self).entries@[i];
                    &&& line.label.x == inner.x
                    &&& line.label.y == inner.y + i
                    &&& line.label.text@ == entry.label@
                    &&& line.label.width == inner.width
                    &&& line.key.x == screen::less_by(
                        inner.end(),
                        (entry.key@.len() as u16) as int,
                    )
                    &&& line.key.y == inner.y + i
                    &&& line.key.text@ == entry.key@
                    &&& line.key.width == inner.width
                    &&& line.focused == (i == old(self).focused)
                },
    {
        let ghost start = *self;
        let mut rows: Vec<Rect> = Vec::new();
        let mut lines: Vec<LinePaint> = Vec::new();
        let bottom = inner.bottom();
        while lines.len() < self.entries.len() && inner.y as u128 + (lines.len() as u128)
            < bottom as u128
            invariant
                *self == start,
                bottom == inner.floor(),
                rows@.len() == lines@.len(),
                lines@.len() <= start.fitting(inner),
                forall|i: int|
                    0 <= i < rows@.len() ==> #[trigger] rows@[i] == start.line_of(inner, i),
                forall|i: int|
                    0 <= i < lines@.len() ==> {
                        let line = #[trigger] lines@[i];
                        let entry = start.entries@[i];
                        &&& line.label.x == inner.x
                        &&& line.label.y == inner.y + i
                        &&& line.label.text@ == entry.label@
                        &&& line.label.width == inner.width
                        &&& line.key.x == screen::less_by(
                            inner.end(),
                            (entry.key@.len() as u16) as int,
                        )
                        &&& line.key.y == inner.y + i
                        &&& line.key.text@ == entry.key@
                        &&& line.key.width == inner.width
                        &&& line.focused == (i == start.focused)
                    },
            decreases self.entries.len() - lines.len(),
        {
            let index = lines.len();
            let y = (inner.y as u128 + index as u128) as u16;
            let entry = &self.entries[index];
            let key_x = rest(inner.right(), length(entry.key.as_str()) as u16);
            let width = inner.width;
            lines.push(
                LinePaint {
                    label: Drawn { x: inner.x, y, text: entry.label.clone(), width },
                    key: Drawn { x: key_x, y, text: entry.key.clone(), width },
                    focused: index == self.focused,
                },
            );
            rows.push(Rect { x: inner.x, y, width, height: 1 });
        }
        self.rows = rows;
        lines
    }

    /// What a key comes to.
    pub fn handle_key(&mut self, key: KeyEvent) -> (reply: Reply<A>)
        ensures
            match key.code {
                KeyCode::Esc => reply == Reply::<A>::Close && *final(self) == *old(self),
                KeyCode::Enter => old(self).took(old(self).focused as int, *final(self), reply),
                KeyCode::Up => {
                    &&& reply == Reply::<A>::Stay
                    &&& final(self).focused == old(self).walked(false)
                    &&& *final(self) == (ContextMenu { focused: final(self).focused, ..*old(self) })
                },
                KeyCode::Down | KeyCode::Tab => {
                    &&& reply == Reply::<A>::Stay
                    &&& final(self).focused == old(self).walked(true)
                    &&& *final(self) == (ContextMenu { focused: final(self).focused, ..*old(self) })
                },
                _ => reply == Reply::<A>::Stay && *final(self) == *old(self),
            },
    {
        match key.code {
            KeyCode::Esc => Reply::Close,
            KeyCode::Enter => {
                let focused = self.focused;
                self.take(focused)
            },
            KeyCode::Up => {
                self.walk(false);
                Reply::Stay
            },
            KeyCode::Down | KeyCode::Tab => {
                self.walk(true);
                Reply::Stay
            },
            _ => Reply::Stay,
        }
    }

    /// What the mouse comes to: moving onto another entry gives it the focus, pressing on one
    /// takes it, and pressing outside closes the menu.
    pub fn handle_mouse(&mut self, event: &MouseEvent) -> (reply: Reply<A>)
        ensures
            ({
                let hit = screen::first_hit(old(self).rows@, event.row, event.column);
                let inside = hit < old(self).rows.len();
                match event.kind {
                    MouseEventKind::Moved => if inside && hit != old(self).focused {
                        &&& reply == Reply::<A>::Stay
                        &&& *final(self) == (ContextMenu { focused: hit as usize, ..*old(self) })
                    } else {
                        reply == Reply::<A>::Ignored && *final(self) == *old(self)
                    },
                    MouseEventKind::Down(button) if button != MouseButton::Middle => if inside {
                        old(self).took(hit, *final(self), reply)
                    } else {
                        reply == Reply::<A>::Close && *final(self) == *old(self)
                    },
                    _ => reply == Reply::<A>::Stay && *final(self) == *old(self),
                }
            }),
    {
        let hit = find_hit(&self.rows, event.row, event.column);
        match event.kind {
            // The pointer moving is only news when it lands on another entry: the
            // terminal reports every motion, and taking one repaints the screen.
            MouseEventKind::Moved => match hit {
                Some(index) => if index != self.focused {
                    self.focused = index;
                    Reply::Stay
                } else {
                    Reply::Ignored
                },
                None => Reply::Ignored,
            },
            MouseEventKind::Down(button) => if button == MouseButton::Middle {
                Reply::Stay
            } else {
                match hit {
                    Some(index) => self.take(index),
                    // Pressing outside a menu is how a menu is dismissed everywhere.
                    None => Reply::Close,
                }
            },
            _ => Reply::Stay,
        }
    }
}

/// The menu is never wider or higher than the screen, and starts no further right than fits.
pub proof fn law_the_menu_is_on_screen<A>(menu: ContextMenu<A>, area: Rect)
    requires
        area.x == 0,
        area.y == 0,
        menu.at.0 < area.height,
    ensures
        menu.menu(area).x + menu.menu(area).width <= area.width,
        menu.menu(area).y + menu.menu(area).height <= area.height,
{
}

/// The focus goes to the next entry, from the last to the first; back to the one before, from
/// the first to the last.
pub proof fn law_the_focus_goes_round<A>(menu: ContextMenu<A>)
    requires
        menu.focused < menu.entries.len(),
    ensures
        menu.focused + 1 < menu.entries.len() ==> menu.walked(true) == menu.focused + 1,
        menu.focused + 1 == menu.entries.len() ==> menu.walked(true) == 0,
        menu.focused > 0 ==> menu.walked(false) == menu.focused - 1,
        menu.focused == 0 ==> menu.walked(false) == menu.entries.len() - 1,
{
    let n = menu.entries.len() as int;
    let f = menu.focused as int;
    if f + 1 < n {
        vstd::arithmetic::div_mod::lemma_small_mod((f + 1) as nat, n as nat);
    } else {
        vstd::arithmetic::div_mod::lemma_mod_self_0(n);
    }
    if f > 0 {
        vstd::arithmetic::div_mod::lemma_mod_add_multiples_vanish(f - 1, n);
        vstd::arithmetic::div_mod::lemma_small_mod((f - 1) as nat, n as nat);
        assert((f + n - 1) % n == f - 1);
    } else {
        vstd::arithmetic::div_mod::lemma_small_mod((n - 1) as nat, n as nat);
    }
}

proof fn lemma_widest<A>(entries: Seq<Entry<A>>, i: int)
    requires
        0 <= i < entries.len(),
    ensures
        columns(entries[i]) <= widest(entries),
    decreases entries.len(),
{
    if i < entries.len() - 1 {
        lemma_widest(entries.drop_last(), i);
    }
}

/// The menu opens at the pointer where there is room for it to the right and below, with room
/// for both columns of each entry and a gap of three between them, one row for each. Without
/// room to the right it moves left up to the edge; without room below it opens above the
/// pointer.
pub proof fn law_the_menu_opens_at_the_pointer<A>(menu: ContextMenu<A>, area: Rect)
    requires
        area.x == 0,
        area.y == 0,
        widest(menu.entries@) + 7 <= area.width,
        menu.entries.len() + 2 <= area.height,
        menu.at.0 < area.height,
        menu.at.1 < area.width,
    ensures
        ({
            let at = menu.menu(area);
            &&& at.width == widest(menu.entries@) + 7
            &&& at.height == menu.entries.len() + 2
            &&& menu.at.1 + at.width <= area.width ==> at.x == menu.at.1
            &&& menu.at.1 + at.width > area.width ==> at.x + at.width == area.width
            &&& menu.at.0 + at.height <= area.height ==> at.y == menu.at.0
            &&& menu.at.0 + at.height > area.height && menu.at.0 >= at.height ==> at.y + at.height
                == menu.at.0
            &&& menu.at.0 + at.height > area.height && menu.at.0 < at.height ==> at.y == 0
            &&& forall|i: int|
                0 <= i < menu.entries.len() ==> {
                    let entry = #[trigger] menu.entries@[i];
                    entry.label@.len() + entry.key@.len() + 7 <= at.width
                }
        }),
{
    let at = menu.menu(area);
    lemma_widest_positive(menu.entries@);
    assert forall|i: int| 0 <= i < menu.entries.len() implies ({
        let entry = #[trigger] menu.entries@[i];
        entry.label@.len() + entry.key@.len() + 7 <= at.width
    }) by {
        lemma_widest(menu.entries@, i);
    }
}

proof fn lemma_widest_positive<A>(entries: Seq<Entry<A>>)
    ensures
        widest(entries) >= 0,
    decreases entries.len(),
{
    if entries.len() > 0 {
        lemma_widest_positive(entries.drop_last());
    }
}

} // verus!
