//! Work under way, in the middle of the screen.

use vstd::prelude::*;
use vstd::string::*;

use crate::confirm::{self, around, Drawn};
use crate::git::told;
use crate::screen::{self, smaller, sum, KeyCode, Rect};
use crate::text::{self, length};

verus! {

/// How often the spinner moves on, in milliseconds.
pub const FRAME: u64 = 80;

/// Work under way, in the middle of the screen: a spinner beside what is being done, so a
/// wait on the network reads as work and not as nothing. It goes when the work lands and
/// its answer takes its place; Escape puts it away sooner, and the answer still comes.
pub struct Busy {
    pub id: String,
    pub title: String,
}

/// What is heard while the work is under way.
#[derive(Clone, Copy, PartialEq, Eq, Structural, Debug)]
pub enum Heard {
    Key(KeyCode),
    Mouse,
    Other,
}

/// What an event comes to: it is left to others, it goes no further, or the dialog is removed.
pub enum Reply {
    Ignored,
    Consumed,
    Remove(String),
}

/// What is drawn inside the border.
pub struct BusyPaint {
    pub title: Drawn,
    pub hint: Option<Drawn>,
}

pub open spec fn hint() -> Seq<char> {
    "Esc hides this; the answer still comes"@
}

impl Busy {
    pub fn new(id: &str, title: &str) -> (busy: Self)
        ensures
            busy.id@ == id@,
            busy.title@ == title@,
    {
        Busy { id: id.to_owned(), title: title.to_owned() }
    }

    /// What the dialog reads as: the spinner, a blank while it stands still, and what is done.
    pub open spec fn heading(self, frame: Option<Seq<char>>) -> Seq<char> {
        (match frame {
            Some(frame) => frame,
            None => " "@,
        }) + " "@ + self.title@
    }

    fn head(&self, frame: &Option<String>) -> (title: String)
        ensures
            title@ == self.heading(text::optional(*frame)),
    {
        let mut title = match frame {
            Some(frame) => told(frame.as_str(), " "),
            None => told(" ", " "),
        };
        title.append(self.title.as_str());
        title
    }

    /// Where the dialog stands on the screen: in the middle, as wide as its longer line.
    pub fn place(&self, area: Rect, frame: &Option<String>) -> (dialog: Rect)
        ensures
            dialog == area.middle(
                confirm::box_width(
                    screen::most(
                        self.heading(text::optional(*frame)).len() as int,
                        hint().len() as int,
                    ),
                    area,
                ),
                screen::least(5, area.height as int),
            ),
    {
        let title = length(self.head(frame).as_str());
        let hint = length("Esc hides this; the answer still comes");
        let text_width = if title < hint {
            hint
        } else {
            title
        };
        area.centered(around(text_width, area), smaller(5, area.height))
    }

    /// Lays the dialog out inside its border; the hint where there is room for it.
    pub fn render(&self, inner: Rect, frame: &Option<String>) -> (paint: BusyPaint)
        ensures
            paint.title.x == inner.x,
            paint.title.y == inner.y,
            paint.title.width == inner.width,
            paint.title.text@ == self.heading(text::optional(*frame)),
            match paint.hint {
                Some(line) => {
                    &&& inner.height > 2
                    &&& line.x == inner.x
                    &&& line.y == screen::capped(inner.y + 2)
                    &&& line.width == inner.width
                    &&& line.text@ == hint()
                },
                None => inner.height <= 2,
            },
    {
        let title = Drawn {
            x: inner.x,
            y: inner.y,
            text: self.head(frame),
            width: inner.width,
        };
        let hint = if inner.height > 2 {
            Some(
                Drawn {
                    x: inner.x,
                    y: sum(inner.y, 2),
                    text: "Esc hides this; the answer still comes".to_owned(),
                    width: inner.width,
                },
            )
        } else {
            None
        };
        BusyPaint { title, hint }
    }

    /// What an event comes to: nothing behind the dialog is for typing into while the work it
    /// waits on is under way, and Escape puts it away.
    pub fn handle_event(&self, event: Heard) -> (reply: Reply)
        ensures
            match event {
                Heard::Key(code) => if code == KeyCode::Esc {
                    reply matches Reply::Remove(id) && id@ == self.id@
                } else {
                    reply is Consumed
                },
                Heard::Mouse => reply is Consumed,
                Heard::Other => reply is Ignored,
            },
    {
        match event {
            Heard::Key(code) => if code == KeyCode::Esc {
                Reply::Remove(self.id.clone())
            } else {
                Reply::Consumed
            },
            Heard::Mouse => Reply::Consumed,
            Heard::Other => Reply::Ignored,
        }
    }
}

} // verus!
