//! A question in the middle of the screen that wants a line of text.

use vstd::prelude::*;
use vstd::string::*;

use crate::confirm::{self, add_lengths, around, padded, Drawn};
use crate::screen::{
    self, find_hit, larger, rest, smaller, sum, KeyCode, KeyEvent, MouseButton, MouseEvent,
    MouseEventKind, Rect,
};
use crate::text::{self, chars_of, length, part, string_of, trimmed};

verus! {

/// How wide the field is drawn, unless the title or the label needs more.
pub const FIELD_WIDTH: u16 = 48;

/// A question in the middle of the screen that wants a line of text: the box `Confirm`
/// draws, with a field in place of the message. The field has the focus from the moment
/// it opens — Enter takes what is in it, Escape answers nothing — and the buttons take a
/// click.
pub struct Ask<T> {
    title: String,
    label: String,
    line: Vec<char>,
    cursor: usize,
    ok: String,
    taken: Option<T>,
    field: Rect,
    buttons: Vec<Rect>,
}

/// What a dialog holds.
pub struct AskView<T> {
    pub title: Seq<char>,
    /// What the field is for, under it.
    pub label: Seq<char>,
    pub line: Seq<char>,
    /// Where the next character goes: how many characters of the line come before it.
    pub cursor: int,
    pub ok: Seq<char>,
    /// What is done with the line once it is taken.
    pub taken: Option<T>,
    /// Where the field was drawn last, for the terminal's cursor to sit in.
    pub field: Rect,
    /// Where each button was drawn last, so a click can land on one.
    pub buttons: Seq<Rect>,
}

/// What an event comes to: the dialog stays, it goes, or it goes and the line is handed over.
pub enum Reply<T> {
    Stay,
    Close,
    Take(T, String),
}

/// What the dialog comes to when its line is taken.
pub open spec fn take_reply<T>(dialog: AskView<T>, reply: Reply<T>) -> bool {
    let line = text::trim(dialog.line);
    if line.len() == 0 {
        reply is Stay
    } else {
        match dialog.taken {
            Some(taken) => reply matches Reply::Take(what, text) && what == taken && text@ == line,
            None => reply is Close,
        }
    }
}

/// What is left of the dialog when its line was taken.
pub open spec fn after_take<T>(dialog: AskView<T>) -> AskView<T> {
    if text::trim(dialog.line).len() == 0 {
        dialog
    } else {
        AskView { taken: None, ..dialog }
    }
}

/// A dialog with a text put in at the cursor, and the cursor after it.
pub open spec fn inserted<T>(dialog: AskView<T>, text: Seq<char>) -> AskView<T> {
    AskView {
        line: dialog.line.take(dialog.cursor) + text + dialog.line.skip(dialog.cursor),
        cursor: dialog.cursor + text.len(),
        ..dialog
    }
}

/// A dialog without the character before the cursor.
pub open spec fn deleted_before<T>(dialog: AskView<T>) -> AskView<T> {
    if dialog.cursor == 0 {
        dialog
    } else {
        AskView {
            line: dialog.line.remove(dialog.cursor - 1),
            cursor: dialog.cursor - 1,
            ..dialog
        }
    }
}

/// A dialog without the character after the cursor.
pub open spec fn deleted_after<T>(dialog: AskView<T>) -> AskView<T> {
    if dialog.cursor == dialog.line.len() {
        dialog
    } else {
        AskView { line: dialog.line.remove(dialog.cursor), ..dialog }
    }
}

/// What a key that is not taken as a whole does to the dialog.
pub open spec fn typed<T>(dialog: AskView<T>, key: KeyEvent) -> AskView<T> {
    if key.modifiers.control {
        if key.code == KeyCode::Char('u') {
            AskView { line: Seq::empty(), cursor: 0, ..dialog }
        } else {
            dialog
        }
    } else {
        match key.code {
            KeyCode::Enter => after_take(dialog),
            KeyCode::Char(c) => inserted(dialog, seq![c]),
            KeyCode::Backspace => deleted_before(dialog),
            KeyCode::Delete => deleted_after(dialog),
            KeyCode::Left => AskView { cursor: screen::less_by(dialog.cursor, 1), ..dialog },
            KeyCode::Right => AskView {
                cursor: screen::least(dialog.cursor + 1, dialog.line.len() as int),
                ..dialog
            },
            KeyCode::Home => AskView { cursor: 0, ..dialog },
            KeyCode::End => AskView { cursor: dialog.line.len() as int, ..dialog },
            _ => dialog,
        }
    }
}

/// What a key comes to.
pub open spec fn key_reply<T>(dialog: AskView<T>, key: KeyEvent, reply: Reply<T>) -> bool {
    if key.modifiers.control {
        if key.code == KeyCode::Char('c') {
            reply is Close
        } else {
            reply is Stay
        }
    } else {
        match key.code {
            KeyCode::Esc => reply is Close,
            KeyCode::Enter => take_reply(dialog, reply),
            _ => reply is Stay,
        }
    }
}

/// What a field that wide shows of a line, and where the cursor sits in it: the tail of the
/// line when it has grown past the field's width, so the cursor is always on screen.
pub open spec fn window(line: Seq<char>, cursor: int, width: int) -> (Seq<char>, int) {
    if cursor < width {
        (line, cursor)
    } else {
        (line.skip(cursor - width + 1), width - 1)
    }
}

/// The columns of the two buttons.
pub open spec fn two_buttons(ok: Seq<char>) -> int {
    confirm::plus(ok.len() as int, 12)
}

/// The labels of the two buttons.
pub open spec fn button_labels(ok: Seq<char>) -> Seq<Seq<char>> {
    seq!["Cancel"@, ok]
}

/// The longest line of the dialog.
pub open spec fn text_width<T>(dialog: AskView<T>) -> int {
    screen::most(
        screen::most(dialog.title.len() as int, dialog.label.len() as int),
        screen::most(two_buttons(dialog.ok), FIELD_WIDTH as int),
    )
}

/// What is drawn inside the border: the title, the label under the rule, the field, and the
/// buttons, the second of them the selected one.
pub struct AskPaint {
    pub title: Drawn,
    pub label: Drawn,
    pub field: Drawn,
    /// The row of the rule under the field.
    pub rule: u16,
    pub cancel: Drawn,
    pub ok: Drawn,
}

/// Whether a text is drawn there.
pub open spec fn drawn_at(drawn: Drawn, x: int, y: int, text: Seq<char>, width: int) -> bool {
    drawn.x == x && drawn.y == y && drawn.text@ == text && drawn.width == width
}

impl<T> View for Ask<T> {
    type V = AskView<T>;

    closed spec fn view(&self) -> AskView<T> {
        AskView {
            title: self.title@,
            label: self.label@,
            line: self.line@,
            cursor: self.cursor as int,
            ok: self.ok@,
            taken: self.taken,
            field: self.field,
            buttons: self.buttons@,
        }
    }
}

impl<T> Ask<T> {
    /// Whether the cursor is somewhere in the line.
    pub open spec fn valid(self) -> bool {
        0 <= self@.cursor <= self@.line.len()
    }

    pub fn new(title: &str, label: &str, ok: &str, taken: T) -> (ask: Self)
        ensures
            ask.valid(),
            ask@ == (AskView {
                title: title@,
                label: label@,
                line: Seq::empty(),
                cursor: 0,
                ok: ok@,
                taken: Some(taken),
                field: Rect { x: 0, y: 0, width: 0, height: 0 },
                buttons: Seq::empty(),
            }),
    {
        let ask = Ask {
            title: title.to_owned(),
            label: label.to_owned(),
            line: Vec::new(),
            cursor: 0,
            ok: ok.to_owned(),
            taken: Some(taken),
            field: Rect::none(),
            buttons: Vec::new(),
        };
        assert(ask@.line =~= Seq::empty());
        assert(ask@.buttons =~= Seq::empty());
        ask
    }

    /// The line the field holds starts as this, with the cursor after it.
    pub fn with_line(self, line: &str) -> (ask: Self)
        ensures
            ask.valid(),
            ask@ == (AskView { line: line@, cursor: line@.len() as int, ..self@ }),
    {
        let mut ask = self;
        ask.line = chars_of(line);
        ask.cursor = ask.line.len();
        ask
    }

    /// What the field holds.
    pub fn line(&self) -> (line: String)
        ensures
            line@ == self@.line,
    {
        string_of(&self.line)
    }

    /// Closes the dialog and hands the line over. A blank field answers nothing: there is
    /// no name in it to take.
    pub fn take(&mut self) -> (reply: Reply<T>)
        ensures
            take_reply(old(self)@, reply),
            final(self)@ == after_take(old(self)@),
    {
        let line = trimmed(&self.line);
        if line.len() == 0 {
            return Reply::Stay;
        }
        match self.taken.take() {
            Some(taken) => Reply::Take(taken, string_of(&line)),
            None => Reply::Close,
        }
    }

    pub fn insert(&mut self, text: &str)
        requires
            old(self).valid(),
        ensures
            final(self).valid(),
            final(self)@ == inserted(old(self)@, text@),
    {
        let more = chars_of(text);
        let mut line = part(&self.line, 0, self.cursor);
        let after = part(&self.line, self.cursor, self.line.len());
        let ghost start = self@;
        text::push_all(&mut line, &more);
        let cursor = line.len();
        text::push_all(&mut line, &after);
        proof {
            assert(start.line.subrange(0, start.cursor) =~= start.line.take(start.cursor));
            assert(start.line.subrange(start.cursor, start.line.len() as int)
                =~= start.line.skip(start.cursor));
        }
        self.line = line;
        self.cursor = cursor;
    }

    pub fn delete_before(&mut self)
        requires
            old(self).valid(),
        ensures
            final(self).valid(),
            final(self)@ == deleted_before(old(self)@),
    {
        if self.cursor == 0 {
            return ;
        }
        let from = self.cursor - 1;
        self.line.remove(from);
        self.cursor = from;
    }

    pub fn delete_after(&mut self)
        requires
            old(self).valid(),
        ensures
            final(self).valid(),
            final(self)@ == deleted_after(old(self)@),
    {
        if self.cursor == self.line.len() {
            return ;
        }
        let at = self.cursor;
        self.line.remove(at);
    }

    pub fn move_left(&mut self)
        requires
            old(self).valid(),
        ensures
            final(self).valid(),
            final(self)@ == (AskView { cursor: screen::less_by(old(self)@.cursor, 1), ..old(self)@ }),
    {
        if self.cursor > 0 {
            self.cursor = self.cursor - 1;
        }
    }

    pub fn move_right(&mut self)
        requires
            old(self).valid(),
        ensures
            final(self).valid(),
            final(self)@ == (AskView {
                cursor: screen::least(old(self)@.cursor + 1, old(self)@.line.len() as int),
                ..old(self)@
            }),
    {
        if self.cursor < self.line.len() {
            self.cursor = self.cursor + 1;
        }
    }

    /// What the field shows and where the cursor sits in it: the tail of the line when it
    /// has grown past the field's width, so the cursor is always on screen.
    pub fn shown(&self, width: usize) -> (shown: (String, usize))
        requires
            self.valid(),
            width > 0,
        ensures
            (shown.0@, shown.1 as int) == window(self@.line, self@.cursor, width as int),
    {
        if self.cursor < width {
            return (string_of(&self.line), self.cursor);
        }
        let skip = self.cursor - (width - 1);
        let tail = part(&self.line, skip, self.line.len());
        assert(tail@ =~= self.line@.skip(skip as int));
        (string_of(&tail), width - 1)
    }

    pub fn buttons_width(&self) -> (width: usize)
        ensures
            width == two_buttons(self@.ok),
    {
        add_lengths(length(self.ok.as_str()), 12)
    }

    /// Where the dialog stands on the screen: in the middle, as wide as its longest line.
    pub fn place(&self, area: Rect) -> (dialog: Rect)
        ensures
            dialog == area.middle(
                confirm::box_width(text_width(self@), area),
                screen::least(9, area.height as int),
            ),
    {
        let title = length(self.title.as_str());
        let label = length(self.label.as_str());
        let buttons = self.buttons_width();
        let field = FIELD_WIDTH as usize;
        let over = if title < label {
            label
        } else {
            title
        };
        let under = if buttons < field {
            field
        } else {
            buttons
        };
        let text_width = if over < under {
            under
        } else {
            over
        };
        area.centered(around(text_width, area), smaller(9, area.height))
    }

    /// Lays the dialog out inside its border, and remembers where the field and the buttons
    /// were drawn.
    pub fn render(&mut self, inner: Rect) -> (paint: AskPaint)
        requires
            old(self).valid(),
            inner.width > 0,
        ensures
            final(self).valid(),
            ({
                let start = old(self)@;
                let field = Rect {
                    x: inner.x,
                    y: screen::capped(inner.y + 2) as u16,
                    width: inner.width,
                    height: 1,
                };
                let from = confirm::buttons_start(inner, two_buttons(start.ok));
                let row = confirm::buttons_row(inner);
                let cancel = confirm::button_at(button_labels(start.ok), 0, from, row);
                let ok = confirm::button_at(button_labels(start.ok), 1, from, row);
                &&& final(self)@ == (AskView { field, buttons: seq![cancel, ok], ..start })
                &&& drawn_at(
                    paint.title,
                    inner.x as int,
                    inner.y as int,
                    start.title,
                    inner.width as int,
                )
                &&& drawn_at(
                    paint.label,
                    inner.x as int,
                    screen::capped(inner.y + 4),
                    start.label,
                    inner.width as int,
                )
                &&& drawn_at(
                    paint.field,
                    field.x as int,
                    field.y as int,
                    window(start.line, start.cursor, field.width as int).0,
                    field.width as int,
                )
                &&& paint.rule == screen::capped(field.y + 1)
                &&& drawn_at(
                    paint.cancel,
                    cancel.x as int,
                    row as int,
                    " "@ + "Cancel"@ + " "@,
                    inner.width as int,
                )
                &&& drawn_at(
                    paint.ok,
                    ok.x as int,
                    row as int,
                    " "@ + start.ok + " "@,
                    inner.width as int,
                )
            }),
    {
        let ghost start = self@;
        let width = inner.width;
        let title = Drawn { x: inner.x, y: inner.y, text: self.title.clone(), width };
        let label = Drawn { x: inner.x, y: sum(inner.y, 4), text: self.label.clone(), width };
        self.field = Rect { x: inner.x, y: sum(inner.y, 2), width, height: 1 };
        let (shown, _) = self.shown(width as usize);
        let field = Drawn { x: self.field.x, y: self.field.y, text: shown, width };
        let rule = sum(self.field.y, 1);
        let y = rest(inner.bottom(), 1);
        let x = larger(rest(inner.right(), self.buttons_width() as u16), inner.x);
        let cancel_width = add_lengths(length("Cancel"), 2) as u16;
        let ok_width = add_lengths(length(self.ok.as_str()), 2) as u16;
        let ok_x = sum(sum(x, cancel_width), 2);
        let cancel = Drawn { x, y, text: padded("Cancel"), width };
        let ok = Drawn { x: ok_x, y, text: padded(self.ok.as_str()), width };
        let mut buttons: Vec<Rect> = Vec::new();
        buttons.push(Rect { x, y, width: cancel_width, height: 1 });
        buttons.push(Rect { x: ok_x, y, width: ok_width, height: 1 });
        proof {
            let labels = button_labels(start.ok);
            assert(labels[0] == "Cancel"@ && labels[1] == start.ok);
            assert(confirm::button_at(labels, 0, x as int, y) == buttons@[0]);
            assert(confirm::button_at(labels, 1, x as int, y) == buttons@[1]);
            assert(buttons@ =~= seq![buttons@[0], buttons@[1]]);
        }
        self.buttons = buttons;
        AskPaint { title, label, field, rule, cancel, ok }
    }

    /// Where the terminal's cursor sits, row and column; nowhere before the field was drawn.
    pub fn cursor(&self) -> (at: Option<(usize, usize)>)
        requires
            self.valid(),
        ensures
            at == (if self@.field.width == 0 {
                None
            } else {
                Some(
                    (
                        self@.field.y as usize,
                        (self@.field.x + window(
                            self@.line,
                            self@.cursor,
                            self@.field.width as int,
                        ).1) as usize,
                    ),
                )
            }),
    {
        if self.field.width == 0 {
            return None;
        }
        let (_, at) = self.shown(self.field.width as usize);
        Some((self.field.y as usize, self.field.x as usize + at))
    }

    /// What a pasted text does: it goes in at the cursor.
    pub fn paste(&mut self, text: &str) -> (reply: Reply<T>)
        requires
            old(self).valid(),
        ensures
            final(self).valid(),
            reply is Stay,
            final(self)@ == inserted(old(self)@, text@),
    {
        self.insert(text);
        Reply::Stay
    }

    /// What a click comes to: the second button takes the line, the first closes the dialog.
    pub fn handle_mouse(&mut self, event: &MouseEvent) -> (reply: Reply<T>)
        requires
            old(self).valid(),
        ensures
            final(self).valid(),
            ({
                let hit = screen::first_hit(old(self)@.buttons, event.row, event.column);
                if event.kind != MouseEventKind::Down(MouseButton::Left) || hit >= old(
                    self,
                )@.buttons.len() {
                    reply is Stay && final(self)@ == old(self)@
                } else if hit == 1 {
                    take_reply(old(self)@, reply) && final(self)@ == after_take(old(self)@)
                } else {
                    reply is Close && final(self)@ == old(self)@
                }
            }),
    {
        if event.kind != MouseEventKind::Down(MouseButton::Left) {
            return Reply::Stay;
        }
        match find_hit(&self.buttons, event.row, event.column) {
            Some(index) => if index == 1 {
                self.take()
            } else {
                Reply::Close
            },
            None => Reply::Stay,
        }
    }

    /// What a key comes to.
    pub fn handle_key(&mut self, key: KeyEvent) -> (reply: Reply<T>)
        requires
            old(self).valid(),
        ensures
            final(self).valid(),
            key_reply(old(self)@, key, reply),
            final(self)@ == typed(old(self)@, key),
    {
        if key.modifiers.control {
            if key.code == KeyCode::Char('u') {
                self.line = Vec::new();
                self.cursor = 0;
                assert(self@.line =~= Seq::empty());
            } else if key.code == KeyCode::Char('c') {
                return Reply::Close;
            }
            return Reply::Stay;
        }
        match key.code {
            KeyCode::Esc => return Reply::Close,
            KeyCode::Enter => return self.take(),
            KeyCode::Char(c) => {
                let mut text = String::new();
                text.push(c);
                assert(text@ =~= seq![c]);
                self.insert(text.as_str());
            },
            KeyCode::Backspace => self.delete_before(),
            KeyCode::Delete => self.delete_after(),
            KeyCode::Left => self.move_left(),
            KeyCode::Right => self.move_right(),
            KeyCode::Home => self.cursor = 0,
            KeyCode::End => self.cursor = self.line.len(),
            _ => {},
        }
        Reply::Stay
    }
}

/// Deleting right after typing a character gives back the line as it was.
pub proof fn law_backspace_undoes_typing<T>(dialog: AskView<T>, c: char)
    requires
        0 <= dialog.cursor <= dialog.line.len(),
    ensures
        deleted_before(inserted(dialog, seq![c])) == dialog,
{
    let more = inserted(dialog, seq![c]);
    assert(more.line.remove(more.cursor - 1) =~= dialog.line);
}

/// Wherever the cursor is, a field shows it: the column it sits in is one of the field's.
pub proof fn law_the_cursor_is_in_the_field(line: Seq<char>, cursor: int, width: int)
    requires
        0 <= cursor <= line.len(),
        width > 0,
    ensures
        0 <= window(line, cursor, width).1 < width,
        window(line, cursor, width).0.take(window(line, cursor, width).1) == line.subrange(
            cursor - window(line, cursor, width).1,
            cursor,
        ),
{
    let (shown, at) = window(line, cursor, width);
    assert(shown.take(at) =~= line.subrange(cursor - at, cursor));
}

/// A key pressed with nothing held.
pub open spec fn pressed_alone(code: KeyCode) -> KeyEvent {
    KeyEvent {
        code,
        modifiers: screen::Modifiers { shift: false, control: false, alt: false, command: false },
    }
}

/// Typing goes on where the cursor is: what is before it and what is after it stay as they are.
pub proof fn law_keys_edit_around_the_cursor<T>(
    dialog: AskView<T>,
    before: Seq<char>,
    c: char,
    after: Seq<char>,
)
    ensures
        dialog.line == before + after && dialog.cursor == before.len() ==> typed(
            dialog,
            pressed_alone(KeyCode::Char(c)),
        ) == (AskView {
            line: before + seq![c] + after,
            cursor: before.len() as int + 1,
            ..dialog
        }),
        dialog.line == before + seq![c] + after && dialog.cursor == before.len() + 1 ==> typed(
            dialog,
            pressed_alone(KeyCode::Backspace),
        ) == (AskView { line: before + after, cursor: before.len() as int, ..dialog }) && typed(
            dialog,
            pressed_alone(KeyCode::Left),
        ) == (AskView { cursor: before.len() as int, ..dialog }),
        dialog.line == before + seq![c] + after && dialog.cursor == before.len() ==> typed(
            dialog,
            pressed_alone(KeyCode::Delete),
        ) == (AskView { line: before + after, ..dialog }) && typed(
            dialog,
            pressed_alone(KeyCode::Right),
        ) == (AskView { cursor: before.len() as int + 1, ..dialog }),
        dialog.line == before + after && dialog.cursor == before.len() ==> typed(
            dialog,
            pressed_alone(KeyCode::Home),
        ) == (AskView { cursor: 0, ..dialog }) && typed(dialog, pressed_alone(KeyCode::End)) == (
        AskView { cursor: (before.len() + after.len()) as int, ..dialog }),
{
    if dialog.line == before + after && dialog.cursor == before.len() {
        assert(dialog.line.take(dialog.cursor) =~= before);
        assert(dialog.line.skip(dialog.cursor) =~= after);
    }
    let longer = before + seq![c] + after;
    assert(longer.remove(before.len() as int) =~= before + after);
}

/// At the ends of the line there is nothing to delete and nowhere to go.
pub proof fn law_the_line_has_ends<T>(dialog: AskView<T>)
    requires
        0 <= dialog.cursor <= dialog.line.len(),
    ensures
        dialog.cursor == 0 ==> typed(dialog, pressed_alone(KeyCode::Backspace)) == dialog && typed(
            dialog,
            pressed_alone(KeyCode::Left),
        ) == dialog,
        dialog.cursor == dialog.line.len() ==> typed(dialog, pressed_alone(KeyCode::Delete))
            == dialog && typed(dialog, pressed_alone(KeyCode::Right)) == dialog,
{
}

/// Control and a letter type nothing: with `u` the line is emptied, with `c` the dialog goes,
/// with any other nothing happens.
pub proof fn law_control_types_nothing<T>(dialog: AskView<T>, key: KeyEvent, reply: Reply<T>)
    requires
        key.modifiers.control,
    ensures
        key.code == KeyCode::Char('u') ==> typed(dialog, key).line.len() == 0 && typed(
            dialog,
            key,
        ).cursor == 0,
        key.code != KeyCode::Char('u') ==> typed(dialog, key) == dialog,
        key_reply(dialog, key, reply) <==> if key.code == KeyCode::Char('c') {
            reply is Close
        } else {
            reply is Stay
        },
{
}

/// What is handed over is the line without the white space around it, once; a blank line is not
/// taken, whether with Enter or not.
pub proof fn law_a_name_is_taken_without_the_space_around_it<T>(
    dialog: AskView<T>,
    before: Seq<char>,
    name: Seq<char>,
    after: Seq<char>,
    reply: Reply<T>,
)
    requires
        text::all_space(before),
        text::all_space(after),
        dialog.line == before + name + after,
        name.len() > 0 ==> !text::is_space(name[0]) && !text::is_space(name[name.len() - 1]),
        key_reply(dialog, pressed_alone(KeyCode::Enter), reply),
    ensures
        name.len() == 0 ==> reply is Stay && typed(dialog, pressed_alone(KeyCode::Enter)) == dialog,
        name.len() > 0 && dialog.taken is Some ==> (reply matches Reply::Take(taken, line) && taken
            == dialog.taken->0 && line@ == name),
        name.len() > 0 ==> typed(dialog, pressed_alone(KeyCode::Enter)) == (AskView {
            taken: None,
            ..dialog
        }),
{
    if name.len() > 0 {
        text::law_trim_cuts_the_white_space_around(before, name, after);
    } else {
        assert forall|i: int| 0 <= i < dialog.line.len() implies text::is_space(
            #[trigger] dialog.line[i],
        ) by {
            if i < before.len() {
                assert(dialog.line[i] == before[i]);
            } else {
                assert(dialog.line[i] == after[i - before.len()]);
            }
        }
        text::lemma_trim_blank(dialog.line);
    }
}

/// A field shows the line from some place on, from its start while the cursor fits in it.
pub proof fn law_the_field_shows_the_line<T>(dialog: AskView<T>, width: int)
    requires
        0 <= dialog.cursor <= dialog.line.len(),
        width > 0,
    ensures
        ({
            let (shown, at) = window(dialog.line, dialog.cursor, width);
            &&& shown == dialog.line.skip(dialog.cursor - at)
            &&& dialog.cursor < width ==> at == dialog.cursor
            &&& dialog.cursor >= width ==> at == width - 1
        }),
{
    assert(dialog.line.skip(0) =~= dialog.line);
}

} // verus!
