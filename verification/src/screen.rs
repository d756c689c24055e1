//! What is drawn on and what is typed: stretches of the screen, keys, the mouse, and the looks
//! a theme names.

use vstd::prelude::*;

verus! {

/// A stretch of the screen.
#[derive(Clone, Copy, PartialEq, Eq, Structural, Debug)]
pub struct Rect {
    pub x: u16,
    pub y: u16,
    pub width: u16,
    pub height: u16,
}

/// A column or row that does not go past what can be counted.
pub open spec fn capped(n: int) -> int {
    if n < 0xffff {
        n
    } else {
        0xffff
    }
}

/// What is left of `a` after `b`, none when `b` is more.
pub open spec fn less_by(a: int, b: int) -> int {
    if a < b {
        0
    } else {
        a - b
    }
}

/// The smaller of two.
pub open spec fn least(a: int, b: int) -> int {
    if a < b {
        a
    } else {
        b
    }
}

/// The larger of two.
pub open spec fn most(a: int, b: int) -> int {
    if a < b {
        b
    } else {
        a
    }
}

impl Rect {
    /// The column after the last.
    pub open spec fn end(self) -> int {
        capped(self.x + self.width)
    }

    /// The row after the last.
    pub open spec fn floor(self) -> int {
        capped(self.y + self.height)
    }

    /// The column after the last.
    pub fn right(self) -> (column: u16)
        ensures
            column == self.end(),
    {
        sum(self.x, self.width)
    }

    /// The row after the last.
    pub fn bottom(self) -> (row: u16)
        ensures
            row == self.floor(),
    {
        sum(self.y, self.height)
    }

    /// Nothing of the screen.
    pub fn none() -> (rect: Rect)
        ensures
            rect == (Rect { x: 0, y: 0, width: 0, height: 0 }),
    {
        Rect { x: 0, y: 0, width: 0, height: 0 }
    }

    /// Whether a place on the screen is in the stretch.
    pub open spec fn covers(self, row: u16, column: u16) -> bool {
        self.y <= row < self.floor() && self.x <= column < self.end()
    }

    /// Whether a place on the screen is in the stretch.
    pub fn contains(self, row: u16, column: u16) -> (yes: bool)
        ensures
            yes == self.covers(row, column),
    {
        row >= self.y && row < self.bottom() && column >= self.x && column < self.right()
    }

    /// Whether a place on the screen is on the first row of the stretch.
    pub open spec fn hit(self, row: u16, column: u16) -> bool {
        row == self.y && self.x <= column < self.end()
    }

    /// A stretch that wide and high in the middle of this one.
    pub open spec fn middle(self, width: int, height: int) -> Rect {
        Rect {
            x: capped(self.x + less_by(self.width as int, width) / 2) as u16,
            y: capped(self.y + less_by(self.height as int, height) / 2) as u16,
            width: width as u16,
            height: height as u16,
        }
    }

    /// A stretch that wide and high in the middle of this one.
    pub fn centered(self, width: u16, height: u16) -> (rect: Rect)
        ensures
            rect == self.middle(width as int, height as int),
    {
        Rect {
            x: sum(self.x, rest(self.width, width) / 2),
            y: sum(self.y, rest(self.height, height) / 2),
            width,
            height,
        }
    }
}

/// The first stretch whose first row a place on the screen is on; the number of them when
/// there is none.
pub open spec fn first_hit(rects: Seq<Rect>, row: u16, column: u16) -> int
    decreases rects.len(),
{
    if rects.len() == 0 || rects[0].hit(row, column) {
        0
    } else {
        1 + first_hit(rects.skip(1), row, column)
    }
}

/// The first stretch whose first row a place on the screen is on.
pub fn find_hit(rects: &Vec<Rect>, row: u16, column: u16) -> (found: Option<usize>)
    ensures
        match found {
            Some(index) => index < rects.len() && index == first_hit(rects@, row, column),
            None => first_hit(rects@, row, column) == rects.len(),
        },
{
    let mut i: usize = 0;
    assert(rects@.skip(0) =~= rects@);
    while i < rects.len()
        invariant
            i <= rects.len(),
            first_hit(rects@, row, column) == i + first_hit(rects@.skip(i as int), row, column),
        decreases rects.len() - i,
    {
        let rect = rects[i];
        assert(rects@.skip(i as int)[0] == rect);
        assert(rects@.skip(i as int).skip(1) =~= rects@.skip(i + 1));
        if row == rect.y && column >= rect.x && column < rect.right() {
            return Some(i);
        }
        i += 1;
    }
    None
}

/// A sum that stops at the last column or row that can be counted.
pub fn sum(a: u16, b: u16) -> (c: u16)
    ensures
        c == capped(a + b),
{
    if b < 0xffff - a {
        a + b
    } else {
        0xffff
    }
}

/// What is left of `a` after `b`.
pub fn rest(a: u16, b: u16) -> (c: u16)
    ensures
        c == less_by(a as int, b as int),
{
    if a < b {
        0
    } else {
        a - b
    }
}

/// The smaller of two.
pub fn smaller(a: u16, b: u16) -> (c: u16)
    ensures
        c == least(a as int, b as int),
{
    if a < b {
        a
    } else {
        b
    }
}

/// The larger of two.
pub fn larger(a: u16, b: u16) -> (c: u16)
    ensures
        c == most(a as int, b as int),
{
    if a < b {
        b
    } else {
        a
    }
}

/// A length as columns or rows, as many as can be counted.
pub fn counted(n: usize) -> (c: u16)
    ensures
        c == capped(n as int),
{
    if n < 0xffff {
        n as u16
    } else {
        0xffff
    }
}

/// What a theme says of a part of the screen.
#[derive(Clone, Copy, PartialEq, Eq, Structural, Debug)]
pub enum Scope {
    Text,
    Directory,
    Inactive,
    Added,
    Deleted,
    Changed,
    Fault,
    Warning,
    Selected,
}

impl Scope {
    /// The name a theme has it under.
    pub open spec fn key(self) -> Seq<char> {
        match self {
            Scope::Text => "ui.text"@,
            Scope::Directory => "ui.text.directory"@,
            Scope::Inactive => "ui.text.inactive"@,
            Scope::Added => "diff.plus"@,
            Scope::Deleted => "diff.minus"@,
            Scope::Changed => "diff.delta"@,
            Scope::Fault => "error"@,
            Scope::Warning => "warning"@,
            Scope::Selected => "ui.menu.selected"@,
        }
    }

    /// The name a theme has it under.
    pub fn name(self) -> (key: &'static str)
        ensures
            key@ == self.key(),
    {
        match self {
            Scope::Text => "ui.text",
            Scope::Directory => "ui.text.directory",
            Scope::Inactive => "ui.text.inactive",
            Scope::Added => "diff.plus",
            Scope::Deleted => "diff.minus",
            Scope::Changed => "diff.delta",
            Scope::Fault => "error",
            Scope::Warning => "warning",
            Scope::Selected => "ui.menu.selected",
        }
    }
}

/// How a text looks: what the theme says, made bold or not, and what is laid over it.
#[derive(Clone, Copy, PartialEq, Eq, Structural, Debug)]
pub struct Style {
    pub scope: Scope,
    pub bold: bool,
    pub over: Option<Mark>,
}

/// What a selected row is marked with: the look of a selected menu item, or, without the
/// focus, the bold dimmed one.
#[derive(Clone, Copy, PartialEq, Eq, Structural, Debug)]
pub enum Mark {
    Focused,
    Dimmed,
}

/// A key, apart from what is held with it.
#[derive(Clone, Copy, PartialEq, Eq, Structural, Debug)]
pub enum KeyCode {
    Char(char),
    F(u8),
    Esc,
    Enter,
    Tab,
    Backspace,
    Delete,
    Left,
    Right,
    Up,
    Down,
    Home,
    End,
    PageUp,
    PageDown,
    Other,
}

/// What is held with a key.
#[derive(Clone, Copy, PartialEq, Eq, Structural, Debug)]
pub struct Modifiers {
    pub shift: bool,
    pub control: bool,
    pub alt: bool,
    pub command: bool,
}

impl Modifiers {
    /// Whether nothing is held.
    pub open spec fn plain(self) -> bool {
        !self.shift && !self.control && !self.alt && !self.command
    }

    /// Whether Shift is held, and nothing else.
    pub open spec fn only_shift(self) -> bool {
        self.shift && !self.control && !self.alt && !self.command
    }

    /// Whether Control is held, and nothing else.
    pub open spec fn only_control(self) -> bool {
        !self.shift && self.control && !self.alt && !self.command
    }

    /// Whether nothing is held.
    pub fn is_plain(self) -> (yes: bool)
        ensures
            yes == self.plain(),
    {
        !self.shift && !self.control && !self.alt && !self.command
    }

    /// Whether Shift is held, and nothing else.
    pub fn is_shift(self) -> (yes: bool)
        ensures
            yes == self.only_shift(),
    {
        self.shift && !self.control && !self.alt && !self.command
    }

    /// Whether Control is held, and nothing else.
    pub fn is_control(self) -> (yes: bool)
        ensures
            yes == self.only_control(),
    {
        !self.shift && self.control && !self.alt && !self.command
    }
}

#[derive(Clone, Copy, PartialEq, Eq, Structural, Debug)]
pub struct KeyEvent {
    pub code: KeyCode,
    pub modifiers: Modifiers,
}

#[derive(Clone, Copy, PartialEq, Eq, Structural, Debug)]
pub enum MouseButton {
    Left,
    Right,
    Middle,
}

#[derive(Clone, Copy, PartialEq, Eq, Structural, Debug)]
pub enum MouseEventKind {
    Down(MouseButton),
    Up(MouseButton),
    Drag(MouseButton),
    Moved,
    ScrollDown,
    ScrollUp,
    Other,
}

#[derive(Clone, Copy, PartialEq, Eq, Structural, Debug)]
pub struct MouseEvent {
    pub kind: MouseEventKind,
    pub column: u16,
    pub row: u16,
}

/// A place is in a stretch when it is on one of its rows and one of its columns, as far as they
/// can be counted.
pub proof fn law_a_stretch_covers_its_rows_and_columns(rect: Rect, row: u16, column: u16)
    requires
        rect.x + rect.width <= 0xffff,
        rect.y + rect.height <= 0xffff,
    ensures
        rect.covers(row, column) <==> rect.y <= row && row < rect.y + rect.height && rect.x
            <= column && column < rect.x + rect.width,
        rect.hit(row, column) <==> rect.y == row && rect.x <= column && column < rect.x
            + rect.width,
{
}

/// What is in the middle of a stretch has as much of it on either side, but for one column or
/// row.
pub proof fn law_the_middle_leaves_as_much_on_either_side(rect: Rect, width: u16, height: u16)
    requires
        rect.x + rect.width <= 0xffff,
        rect.y + rect.height <= 0xffff,
        width <= rect.width,
        height <= rect.height,
    ensures
        ({
            let inner = rect.middle(width as int, height as int);
            let left = inner.x - rect.x;
            let right = rect.x + rect.width - (inner.x + inner.width);
            let above = inner.y - rect.y;
            let under = rect.y + rect.height - (inner.y + inner.height);
            &&& inner.width == width
            &&& inner.height == height
            &&& 0 <= left <= right <= left + 1
            &&& 0 <= above <= under <= above + 1
        }),
{
}

/// The first stretch that is hit is hit, and none before it is.
pub proof fn law_the_first_hit_is_the_first(rects: Seq<Rect>, row: u16, column: u16)
    ensures
        ({
            let at = first_hit(rects, row, column);
            &&& 0 <= at <= rects.len()
            &&& at < rects.len() ==> rects[at].hit(row, column)
            &&& forall|i: int| 0 <= i < at ==> !(#[trigger] rects[i]).hit(row, column)
        }),
    decreases rects.len(),
{
    if rects.len() > 0 && !rects[0].hit(row, column) {
        let rest = rects.skip(1);
        law_the_first_hit_is_the_first(rest, row, column);
        assert forall|i: int| 0 <= i < first_hit(rects, row, column) implies !(
        #[trigger] rects[i]).hit(row, column) by {
            if i > 0 {
                assert(rest[i - 1] == rects[i]);
            }
        }
    }
}

} // verus!
