//! A question in the middle of the screen: what happened, and the answers to it.

use vstd::prelude::*;
use vstd::string::*;

use crate::git::told;
use crate::screen::{
    self, find_hit, larger, rest, smaller, sum, KeyCode, KeyEvent, MouseButton, MouseEvent,
    MouseEventKind, Rect,
};
use crate::text::{self, length};

verus! {

/// The room around the text inside the border.
pub const PADDING: u16 = 2;

/// An answer: what it reads as, whether it is the destructive one, and what it does once it is
/// chosen.
pub struct Answer<C> {
    pub label: String,
    pub destructive: bool,
    pub choice: C,
}

impl<C> Answer<C> {
    pub fn new(label: &str, choice: C) -> (answer: Self)
        ensures
            answer.label@ == label@,
            !answer.destructive,
            answer.choice == choice,
    {
        Answer { label: label.to_owned(), destructive: false, choice }
    }

    /// An answer that throws work away wears the warning colour.
    pub fn destructive(self) -> (answer: Self)
        ensures
            answer == (Answer { destructive: true, ..self }),
    {
        let mut answer = self;
        answer.destructive = true;
        answer
    }
}

/// A question in the middle of the screen: what happened, and the answers to it. Left
/// and right (or Tab) walk them, Enter takes the one in focus, a click takes the one it
/// lands on, and Escape always answers nothing.
pub struct Confirm<C> {
    pub title: String,
    pub lines: Vec<String>,
    pub answers: Vec<Answer<C>>,
    pub focused: usize,
    /// Where each answer was drawn last, so a click can land on one.
    pub buttons: Vec<Rect>,
}

/// What an event comes to: the dialog stays, it goes, or it goes and an answer is run.
pub enum Reply<C> {
    Stay,
    Close,
    Run(C),
}

/// How a button looks.
#[derive(Clone, Copy, PartialEq, Eq, Structural, Debug)]
pub enum ButtonStyle {
    Selected,
    Warning,
    Text,
}

/// A text drawn from a place on, cut to a width.
pub struct Drawn {
    pub x: u16,
    pub y: u16,
    pub text: String,
    pub width: u16,
}

/// What is drawn inside the border: the title, the lines that fit, and the buttons.
pub struct ConfirmPaint {
    pub title: Drawn,
    pub lines: Vec<Drawn>,
    pub buttons: Vec<(Drawn, ButtonStyle)>,
}

/// A sum of lengths, as far as lengths can be counted.
pub open spec fn plus(a: int, b: int) -> int {
    if a + b < usize::MAX {
        a + b
    } else {
        usize::MAX as int
    }
}

pub fn add_lengths(a: usize, b: usize) -> (c: usize)
    ensures
        c == plus(a as int, b as int),
{
    if b < usize::MAX - a {
        a + b
    } else {
        usize::MAX
    }
}

/// What some answers read as.
pub open spec fn labels<C>(answers: Seq<Answer<C>>) -> Seq<Seq<char>> {
    answers.map_values(|answer: Answer<C>| answer.label@)
}

/// The columns of some buttons, a blank on either side of each label.
pub open spec fn labels_width(labels: Seq<Seq<char>>) -> int
    decreases labels.len(),
{
    if labels.len() == 0 {
        0
    } else {
        plus(labels_width(labels.drop_last()), plus(labels.last().len() as int, 2))
    }
}

/// The columns of some buttons, with the gaps between them.
pub open spec fn row_width(labels: Seq<Seq<char>>) -> int {
    plus(
        labels_width(labels),
        if labels.len() == 0 {
            0
        } else {
            least_usize((labels.len() - 1) * 2)
        },
    )
}

/// A length, as far as lengths can be counted.
pub open spec fn least_usize(n: int) -> int {
    if n < usize::MAX {
        n
    } else {
        usize::MAX as int
    }
}

/// The longest of some texts.
pub open spec fn longest(texts: Seq<Seq<char>>) -> int
    decreases texts.len(),
{
    if texts.len() == 0 {
        0
    } else {
        screen::most(longest(texts.drop_last()), texts.last().len() as int)
    }
}

/// How wide a dialog is around a text that wide: the padding and the border, and no more than
/// the screen.
pub open spec fn box_width(text_width: int, area: Rect) -> int {
    screen::least(screen::capped((text_width as u16) + PADDING * 2 + 2), area.width as int)
}

/// How wide a dialog is around a text that wide.
pub fn around(text_width: usize, area: Rect) -> (width: u16)
    ensures
        width == box_width(text_width as int, area),
{
    smaller(sum(text_width as u16, PADDING * 2 + 2), area.width)
}

/// Where the button of an answer stands, after those before it.
pub open spec fn button_at(labels: Seq<Seq<char>>, n: int, x: int, y: u16) -> Rect
    decreases n,
{
    let width = plus(labels[n].len() as int, 2) as u16;
    if n <= 0 {
        Rect { x: x as u16, y, width, height: 1 }
    } else {
        let before = button_at(labels, n - 1, x, y);
        Rect {
            x: screen::capped(screen::capped(before.x + before.width) + 2) as u16,
            y,
            width,
            height: 1,
        }
    }
}

/// Where buttons start: together on the right, no further left than the inside.
pub open spec fn buttons_start(inner: Rect, width: int) -> int {
    screen::most(screen::less_by(inner.end(), (width as u16) as int), inner.x as int)
}

/// The row of the buttons: the last inside.
pub open spec fn buttons_row(inner: Rect) -> u16 {
    screen::less_by(inner.floor(), 1) as u16
}

/// How many lines fit between the title and the end.
pub open spec fn lines_shown(lines: int, inner: Rect) -> int {
    screen::least(lines, screen::less_by(inner.floor(), inner.y + 2))
}

/// A label with a blank on either side.
pub fn padded(label: &str) -> (text: String)
    ensures
        text@ == " "@ + label@ + " "@,
{
    let mut text = told(" ", label);
    text.append(" ");
    text
}

impl<C> Confirm<C> {
    pub fn new(title: &str, lines: Vec<String>, answers: Vec<Answer<C>>) -> (confirm: Self)
        ensures
            confirm.title@ == title@,
            confirm.lines == lines,
            confirm.answers == answers,
            confirm.focused == 0,
            confirm.buttons@.len() == 0,
    {
        Confirm { title: title.to_owned(), lines, answers, focused: 0, buttons: Vec::new() }
    }

    /// What running an answer comes to: it is taken out of the dialog, which goes; nothing
    /// when there is no such answer.
    pub open spec fn answered(self, index: int, next: Confirm<C>, reply: Reply<C>) -> bool {
        &&& next == (Confirm { answers: next.answers, ..self })
        &&& if 0 <= index < self.answers.len() {
            &&& reply == Reply::Run(self.answers[index].choice)
            &&& next.answers@ == self.answers@.remove(index)
        } else {
            &&& reply == Reply::<C>::Stay
            &&& next.answers == self.answers
        }
    }

    /// Runs one answer and closes the dialog.
    pub fn answer(&mut self, index: usize) -> (reply: Reply<C>)
        ensures
            old(self).answered(index as int, *final(self), reply),
    {
        if index >= self.answers.len() {
            return Reply::Stay;
        }
        let answer = self.answers.remove(index);
        Reply::Run(answer.choice)
    }

    /// Where the focus goes from one answer to the next or the one before, round the end.
    pub open spec fn walked(self, forward: bool) -> int {
        let answers = self.answers.len() as int;
        if answers == 0 {
            self.focused as int
        } else if forward {
            (self.focused + 1) % answers
        } else {
            (self.focused + answers - 1) % answers
        }
    }

    pub fn walk(&mut self, forward: bool)
        ensures
            final(self).focused == old(self).walked(forward),
            *final(self) == (Confirm { focused: final(self).focused, ..*old(self) }),
    {
        let answers = self.answers.len() as u128;
        if answers == 0 {
            return ;
        }
        let at: u128 = if forward {
            (self.focused as u128 + 1) % answers
        } else {
            (self.focused as u128 + answers - 1) % answers
        };
        self.focused = at as usize;
    }

    /// How wide each answer is drawn, gaps included.
    pub fn buttons_width(&self) -> (width: usize)
        ensures
            width == row_width(labels(self.answers@)),
    {
        let ghost all = labels(self.answers@);
        let mut width: usize = 0;
        for i in 0..self.answers.len()
            invariant
                all == labels(self.answers@),
                width == labels_width(all.take(i as int)),
        {
            assert(all[i as int] == self.answers@[i as int].label@);
            assert(all.take(i + 1).drop_last() =~= all.take(i as int));
            width = add_lengths(width, add_lengths(length(self.answers[i].label.as_str()), 2));
        }
        assert(all.take(all.len() as int) =~= all);
        let n = self.answers.len();
        let gaps: usize = if n == 0 {
            0
        } else {
            add_lengths(n - 1, n - 1)
        };
        add_lengths(width, gaps)
    }

    /// The longest line of the dialog.
    pub open spec fn text_width(self) -> int {
        screen::most(
            longest(text::views(self.lines@)),
            screen::most(self.title@.len() as int, row_width(labels(self.answers@))),
        )
    }

    /// The dialog: as wide as its longest line, as high as its lines with the title, the
    /// answers and the blanks between, in the middle of the screen.
    pub open spec fn dialog(self, area: Rect) -> Rect {
        area.middle(
            box_width(self.text_width(), area),
            screen::least(screen::capped((self.lines.len() as u16) + 6), area.height as int),
        )
    }

    /// Where the dialog stands on the screen.
    pub fn place(&self, area: Rect) -> (dialog: Rect)
        ensures
            dialog == self.dialog(area),
    {
        let ghost all = text::views(self.lines@);
        let mut widest: usize = 0;
        for i in 0..self.lines.len()
            invariant
                all == text::views(self.lines@),
                widest == longest(all.take(i as int)),
        {
            assert(all[i as int] == self.lines@[i as int]@);
            assert(all.take(i + 1).drop_last() =~= all.take(i as int));
            let line = length(self.lines[i].as_str());
            if widest < line {
                widest = line;
            }
        }
        assert(all.take(all.len() as int) =~= all);
        let title = length(self.title.as_str());
        let buttons = self.buttons_width();
        let other = if title < buttons {
            buttons
        } else {
            title
        };
        let text_width = if widest < other {
            other
        } else {
            widest
        };
        let height = smaller(sum(self.lines.len() as u16, 6), area.height);
        area.centered(around(text_width, area), height)
    }

    /// How the button of an answer looks.
    pub open spec fn look(self, index: int) -> ButtonStyle {
        if index == self.focused {
            ButtonStyle::Selected
        } else if self.answers[index].destructive {
            ButtonStyle::Warning
        } else {
            ButtonStyle::Text
        }
    }

    /// Where the buttons stand inside the border.
    pub open spec fn button(self, inner: Rect, index: int) -> Rect {
        let all = labels(self.answers@);
        button_at(all, index, buttons_start(inner, row_width(all)), buttons_row(inner))
    }

    /// Lays the dialog out inside its border, and remembers where the answers were drawn.
    pub fn render(&mut self, inner: Rect) -> (paint: ConfirmPaint)
        ensures
            *final(self) == (Confirm { buttons: final(self).buttons, ..*old(self) }),
            final(self).buttons@.len() == old(self).answers.len(),
            forall|i: int|
                0 <= i < old(self).answers.len() ==> #[trigger] final(self).buttons@[i] == old(
                    self,
                ).button(inner, i),
            paint.title.x == inner.x,
            paint.title.y == inner.y,
            paint.title.text@ == old(self).title@,
            paint.title.width == inner.width,
            paint.lines@.len() == lines_shown(old(self).lines.len() as int, inner),
            forall|i: int|
                0 <= i < paint.lines@.len() ==> {
                    let line = #[trigger] paint.lines@[i];
                    &&& line.x == inner.x
                    &&& line.y == inner.y + 2 + i
                    &&& line.text@ == old(self).lines@[i]@
                    &&& line.width == inner.width
                },
            paint.buttons@.len() == old(self).answers.len(),
            forall|i: int|
                0 <= i < paint.buttons@.len() ==> {
                    let (button, style) = #[trigger] paint.buttons@[i];
                    &&& button.x == old(self).button(inner, i).x
                    &&& button.y == buttons_row(inner)
                    &&& button.text@ == " "@ + old(self).answers@[i].label@ + " "@
                    &&& button.width == inner.width
                    &&& style == old(self).look(i)
                },
    {
        let ghost start = *self;
        let title = Drawn {
            x: inner.x,
            y: inner.y,
            text: self.title.clone(),
            width: inner.width,
        };
        let mut lines: Vec<Drawn> = Vec::new();
        let bottom = inner.bottom();
        while lines.len() < self.lines.len() && inner.y as u128 + 2 + (lines.len() as u128)
            < bottom as u128
            invariant
                *self == start,
                bottom == inner.floor(),
                lines@.len() <= lines_shown(start.lines.len() as int, inner),
                forall|i: int|
                    0 <= i < lines@.len() ==> {
                        let line = #[trigger] lines@[i];
                        &&& line.x == inner.x
                        &&& line.y == inner.y + 2 + i
                        &&& line.text@ == start.lines@[i]@
                        &&& line.width == inner.width
                    },
            decreases self.lines.len() - lines.len(),
        {
            let at = lines.len();
            let y = (inner.y as u128 + 2 + at as u128) as u16;
            lines.push(
                Drawn { x: inner.x, y, text: self.lines[at].clone(), width: inner.width },
            );
        }
        let ghost all = labels(start.answers@);
        let width = self.buttons_width();
        let y = rest(inner.bottom(), 1);
        let x0 = larger(rest(inner.right(), width as u16), inner.x);
        let mut x = x0;
        let mut rects: Vec<Rect> = Vec::new();
        let mut buttons: Vec<(Drawn, ButtonStyle)> = Vec::new();
        for i in 0..self.answers.len()
            invariant
                *self == start,
                all == labels(start.answers@),
                x0 == buttons_start(inner, row_width(all)),
                y == buttons_row(inner),
                rects@.len() == i,
                buttons@.len() == i,
                i < self.answers.len() ==> x == button_at(all, i as int, x0 as int, y).x,
                forall|j: int|
                    0 <= j < i ==> #[trigger] rects@[j] == button_at(all, j, x0 as int, y),
                forall|j: int|
                    0 <= j < i ==> {
                        let (button, style) = #[trigger] buttons@[j];
                        &&& button.x == button_at(all, j, x0 as int, y).x
                        &&& button.y == y
                        &&& button.text@ == " "@ + start.answers@[j].label@ + " "@
                        &&& button.width == inner.width
                        &&& style == start.look(j)
                    },
        {
            assert(all[i as int] == self.answers@[i as int].label@);
            let answer = &self.answers[i];
            let button_width = add_lengths(length(answer.label.as_str()), 2) as u16;
            let style = if i == self.focused {
                ButtonStyle::Selected
            } else if answer.destructive {
                ButtonStyle::Warning
            } else {
                ButtonStyle::Text
            };
            buttons.push(
                (
                    Drawn { x, y, text: padded(answer.label.as_str()), width: inner.width },
                    style,
                ),
            );
            rects.push(Rect { x, y, width: button_width, height: 1 });
            x = sum(sum(x, button_width), 2);
        }
        self.buttons = rects;
        ConfirmPaint { title, lines, buttons }
    }

    /// What a click comes to: the answer it lands on is run.
    pub fn handle_mouse(&mut self, event: &MouseEvent) -> (reply: Reply<C>)
        ensures
            ({
                let hit = screen::first_hit(old(self).buttons@, event.row, event.column);
                if event.kind == MouseEventKind::Down(MouseButton::Left) && hit < old(
                    self,
                ).buttons.len() {
                    old(self).answered(hit, *final(self), reply)
                } else {
                    reply == Reply::<C>::Stay && *final(self) == *old(self)
                }
            }),
    {
        if event.kind != MouseEventKind::Down(MouseButton::Left) {
            return Reply::Stay;
        }
        match find_hit(&self.buttons, event.row, event.column) {
            Some(index) => self.answer(index),
            None => Reply::Stay,
        }
    }

    /// What a key comes to.
    pub fn handle_key(&mut self, key: KeyEvent) -> (reply: Reply<C>)
        ensures
            match key.code {
                KeyCode::Esc => reply == Reply::<C>::Close && *final(self) == *old(self),
                KeyCode::Enter => old(self).answered(
                    old(self).focused as int,
                    *final(self),
                    reply,
                ),
                KeyCode::Char(' ') => old(self).answered(
                    old(self).focused as int,
                    *final(self),
                    reply,
                ),
                KeyCode::Left => {
                    &&& reply == Reply::<C>::Stay
                    &&& final(self).focused == old(self).walked(false)
                    &&& *final(self) == (Confirm { focused: final(self).focused, ..*old(self) })
                },
                KeyCode::Right | KeyCode::Tab => {
                    &&& reply == Reply::<C>::Stay
                    &&& final(self).focused == old(self).walked(true)
                    &&& *final(self) == (Confirm { focused: final(self).focused, ..*old(self) })
                },
                _ => reply == Reply::<C>::Stay && *final(self) == *old(self),
            },
    {
        match key.code {
            KeyCode::Esc => Reply::Close,
            KeyCode::Enter | KeyCode::Char(' ') => {
                let focused = self.focused;
                self.answer(focused)
            },
            KeyCode::Left => {
                self.walk(false);
                Reply::Stay
            },
            KeyCode::Right | KeyCode::Tab => {
                self.walk(true);
                Reply::Stay
            },
            _ => Reply::Stay,
        }
    }
}

/// Walking the answers forward and back again comes back to the same one, and never leaves
/// them.
pub proof fn law_walking_there_and_back<C>(confirm: Confirm<C>, other: Confirm<C>)
    requires
        confirm.focused < confirm.answers.len(),
        other.answers == confirm.answers,
        other.focused == confirm.walked(true),
    ensures
        0 <= confirm.walked(true) < confirm.answers.len(),
        other.walked(false) == confirm.focused,
{
    let n = confirm.answers.len() as int;
    let f = confirm.focused as int;
    if f + 1 < n {
        vstd::arithmetic::div_mod::lemma_small_mod((f + 1) as nat, n as nat);
        vstd::arithmetic::div_mod::lemma_mod_add_multiples_vanish(f, n);
        vstd::arithmetic::div_mod::lemma_small_mod(f as nat, n as nat);
    } else {
        vstd::arithmetic::div_mod::lemma_mod_self_0(n);
        vstd::arithmetic::div_mod::lemma_small_mod((n - 1) as nat, n as nat);
    }
}

/// The focus goes to the next answer, from the last to the first; back to the one before, from
/// the first to the last.
pub proof fn law_the_focus_goes_round<C>(confirm: Confirm<C>)
    requires
        confirm.focused < confirm.answers.len(),
    ensures
        confirm.focused + 1 < confirm.answers.len() ==> confirm.walked(true) == confirm.focused + 1,
        confirm.focused + 1 == confirm.answers.len() ==> confirm.walked(true) == 0,
        confirm.focused > 0 ==> confirm.walked(false) == confirm.focused - 1,
        confirm.focused == 0 ==> confirm.walked(false) == confirm.answers.len() - 1,
{
    let n = confirm.answers.len() as int;
    let f = confirm.focused as int;
    if f + 1 < n {
        vstd::arithmetic::div_mod::lemma_small_mod((f + 1) as nat, n as nat);
    } else {
        vstd::arithmetic::div_mod::lemma_mod_self_0(n);
    }
    if f > 0 {
        vstd::arithmetic::div_mod::lemma_mod_add_multiples_vanish(f - 1, n);
        vstd::arithmetic::div_mod::lemma_small_mod((f - 1) as nat, n as nat);
        assert((f + n - 1) % n == f - 1);
    } else {
        vstd::arithmetic::div_mod::lemma_small_mod((n - 1) as nat, n as nat);
    }
}

/// The longest of some texts is as long as each of them, and no longer than one is.
pub proof fn law_the_longest_is_the_longest(texts: Seq<Seq<char>>)
    ensures
        longest(texts) >= 0,
        forall|i: int| 0 <= i < texts.len() ==> (#[trigger] texts[i]).len() <= longest(texts),
        texts.len() == 0 ==> longest(texts) == 0,
        texts.len() > 0 ==> exists|i: int|
            0 <= i < texts.len() && (#[trigger] texts[i]).len() == longest(texts),
    decreases texts.len(),
{
    if texts.len() > 0 {
        let less = texts.drop_last();
        law_the_longest_is_the_longest(less);
        assert forall|i: int| 0 <= i < texts.len() implies (#[trigger] texts[i]).len() <= longest(
            texts,
        ) by {
            if i < less.len() {
                assert(less[i] == texts[i]);
            }
        }
        if less.len() > 0 && longest(less) > texts.last().len() {
            let i = choose|i: int| 0 <= i < less.len() && (#[trigger] less[i]).len() == longest(less);
            assert(texts[i].len() == longest(texts));
        } else {
            assert(texts[texts.len() - 1].len() == longest(texts));
        }
    }
}

/// A dialog has room for its longest line with three columns on either side, and for its lines
/// with six rows more, as far as the screen has.
pub proof fn law_a_dialog_is_around_its_text<C>(confirm: Confirm<C>, area: Rect)
    requires
        area.x + area.width <= 0xffff,
        area.y + area.height <= 0xffff,
        confirm.text_width() + 6 <= area.width,
        confirm.lines.len() + 6 <= area.height,
    ensures
        ({
            let dialog = confirm.dialog(area);
            &&& dialog.width == confirm.text_width() + 6
            &&& dialog.height == confirm.lines.len() + 6
            &&& area.x <= dialog.x && dialog.x + dialog.width <= area.x + area.width
            &&& area.y <= dialog.y && dialog.y + dialog.height <= area.y + area.height
            &&& confirm.title@.len() <= confirm.text_width()
            &&& row_width(labels(confirm.answers@)) <= confirm.text_width()
            &&& forall|i: int|
                0 <= i < confirm.lines.len() ==> (#[trigger] confirm.lines@[i])@.len()
                    <= confirm.text_width()
        }),
{
    let all = text::views(confirm.lines@);
    law_the_longest_is_the_longest(all);
    lemma_row_width(labels(confirm.answers@));
    assert forall|i: int| 0 <= i < confirm.lines.len() implies (#[trigger] confirm.lines@[i])@.len()
        <= confirm.text_width() by {
        assert(all[i] == confirm.lines@[i]@);
    }
}

proof fn lemma_labels_width(labels: Seq<Seq<char>>)
    ensures
        labels_width(labels) >= 0,
    decreases labels.len(),
{
    if labels.len() > 0 {
        lemma_labels_width(labels.drop_last());
    }
}

proof fn lemma_row_width(labels: Seq<Seq<char>>)
    ensures
        row_width(labels) >= 0,
{
    lemma_labels_width(labels);
}

/// Where a button stands, counted from the first, while the row fits.
proof fn lemma_button_at(labels: Seq<Seq<char>>, n: int, x: int, y: u16)
    requires
        0 <= n < labels.len(),
        0 <= x,
        x + labels_width(labels.take(n + 1)) + 2 * n <= 0xffff,
    ensures
        labels_width(labels.take(n + 1)) == labels_width(labels.take(n)) + labels[n].len() + 2,
        button_at(labels, n, x, y) == (Rect {
            x: (x + labels_width(labels.take(n)) + 2 * n) as u16,
            y,
            width: (labels[n].len() + 2) as u16,
            height: 1,
        }),
    decreases n,
{
    let now = labels.take(n + 1);
    assert(now.drop_last() =~= labels.take(n));
    assert(now.last() == labels[n]);
    lemma_labels_width(labels.take(n));
    if n > 0 {
        lemma_button_at(labels, n - 1, x, y);
        lemma_labels_width(labels.take(n - 1));
        let before = button_at(labels, n - 1, x, y);
        assert(before.x == x + labels_width(labels.take(n - 1)) + 2 * (n - 1));
        assert(before.width == labels[n - 1].len() + 2);
        assert(before.x + before.width + 2 == x + labels_width(labels.take(n)) + 2 * n);
    } else {
        assert(labels.take(0) =~= Seq::empty());
    }
    assert(plus(labels[n].len() as int, 2) == labels[n].len() + 2);
}

/// The buttons stand side by side in one row, each as wide as its label with a blank on either
/// side, two columns between each two, the last one up against the right edge.
pub proof fn law_the_buttons_stand_on_the_right(labels: Seq<Seq<char>>, inner: Rect, i: int)
    requires
        0 <= i < labels.len(),
        inner.x + inner.width <= 0xffff,
        row_width(labels) <= inner.width,
        labels.len() <= 0xffff,
    ensures
        ({
            let start = buttons_start(inner, row_width(labels));
            let row = buttons_row(inner);
            let button = button_at(labels, i, start, row);
            &&& button.width == labels[i].len() + 2
            &&& button.height == 1
            &&& button.y == row
            &&& inner.x <= button.x
            &&& i + 1 < labels.len() ==> button_at(labels, i + 1, start, row).x == button.x
                + button.width + 2
            &&& i + 1 == labels.len() ==> button.x + button.width == inner.x + inner.width
        }),
{
    let n = labels.len() as int;
    let start = buttons_start(inner, row_width(labels));
    let row = buttons_row(inner);
    assert(labels.take(n) =~= labels);
    lemma_labels_width(labels);
    lemma_widths_grow(labels, i + 1);
    lemma_labels_width(labels.take(i));
    assert(start == inner.x + inner.width - row_width(labels));
    lemma_button_at(labels, i, start, row);
    if i + 1 < n {
        lemma_widths_grow(labels, i + 2);
        lemma_button_at(labels, i + 1, start, row);
    }
}

proof fn lemma_widths_grow(labels: Seq<Seq<char>>, n: int)
    requires
        0 <= n <= labels.len(),
    ensures
        labels_width(labels.take(n)) <= labels_width(labels),
    decreases labels.len() - n,
{
    if n < labels.len() {
        lemma_widths_grow(labels, n + 1);
        assert(labels.take(n + 1).drop_last() =~= labels.take(n));
        lemma_labels_width(labels.take(n));
        lemma_widths_bounded(labels.take(n));
    } else {
        assert(labels.take(n) =~= labels);
    }
}

proof fn lemma_widths_bounded(labels: Seq<Seq<char>>)
    ensures
        labels_width(labels) <= usize::MAX,
{
}

} // verus!
