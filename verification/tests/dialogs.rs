use coil::ask::{Ask, Reply};
use coil::busy::{Busy, Heard};
use coil::confirm::{Answer, ButtonStyle, Confirm};
use coil::context_menu::{ContextMenu, Entry};
use coil::screen::{
    KeyCode, KeyEvent, Modifiers, MouseButton, MouseEvent, MouseEventKind, Rect,
};

fn ask(line: &str) -> Ask<()> {
    Ask::new("Save", "Name", "Save", ()).with_line(line)
}

fn plain(code: KeyCode) -> KeyEvent {
    let modifiers = Modifiers { shift: false, control: false, alt: false, command: false };
    KeyEvent { code, modifiers }
}

fn control(c: char) -> KeyEvent {
    let modifiers = Modifiers { shift: false, control: true, alt: false, command: false };
    KeyEvent { code: KeyCode::Char(c), modifiers }
}

fn press(row: u16, column: u16) -> MouseEvent {
    MouseEvent { kind: MouseEventKind::Down(MouseButton::Left), row, column }
}

#[test]
fn typing_lands_where_the_cursor_is() {
    let mut dialog = ask("main.rs");
    dialog.move_left();
    dialog.move_left();
    dialog.insert("X");

    assert_eq!(dialog.line(), "main.Xrs");
}

#[test]
fn deleting_walks_whole_characters() {
    let mut dialog = ask("añ");
    dialog.delete_before();
    assert_eq!(dialog.line(), "a");

    dialog.move_left();
    dialog.delete_after();
    assert_eq!(dialog.line(), "");

    // Nothing left to take: the dialog must not walk off either end.
    dialog.delete_before();
    dialog.delete_after();
    assert_eq!(dialog.line(), "");
}

#[test]
fn a_line_wider_than_the_field_shows_its_tail() {
    let dialog = ask("abcdefghij");

    assert_eq!(dialog.shown(20), ("abcdefghij".to_string(), 10));
    // The cursor sits at the end, so the window ends with it.
    assert_eq!(dialog.shown(4), ("hij".to_string(), 3));
}

#[test]
fn a_blank_line_answers_nothing() {
    let mut dialog = ask("  ");
    assert!(matches!(dialog.handle_key(plain(KeyCode::Enter)), Reply::Stay));
    assert!(matches!(dialog.handle_key(plain(KeyCode::Char('a'))), Reply::Stay));
    match dialog.handle_key(plain(KeyCode::Enter)) {
        Reply::Take((), line) => assert_eq!(line, "a"),
        _ => panic!("the line is taken"),
    }
    assert!(matches!(dialog.handle_key(plain(KeyCode::Enter)), Reply::Close));
}

#[test]
fn keys_edit_the_line() {
    let mut dialog = ask("abc");
    dialog.handle_key(plain(KeyCode::Home));
    dialog.handle_key(plain(KeyCode::Delete));
    dialog.handle_key(plain(KeyCode::Right));
    dialog.handle_key(plain(KeyCode::Char('-')));
    dialog.handle_key(plain(KeyCode::Backspace));
    assert_eq!(dialog.line(), "bc");
    dialog.handle_key(plain(KeyCode::End));
    assert!(matches!(dialog.paste("de"), Reply::Stay));
    assert_eq!(dialog.line(), "bcde");
    dialog.handle_key(control('u'));
    assert_eq!(dialog.line(), "");
    assert!(matches!(dialog.handle_key(control('c')), Reply::Close));
    assert!(matches!(dialog.handle_key(plain(KeyCode::Esc)), Reply::Close));
}

#[test]
fn the_dialog_is_laid_out_inside_its_border() {
    let mut dialog = ask("name");
    let place = dialog.place(Rect { x: 0, y: 0, width: 100, height: 40 });
    assert_eq!(place, Rect { x: 23, y: 15, width: 54, height: 9 });
    assert_eq!(dialog.cursor(), None);
    let paint = dialog.render(Rect { x: 25, y: 16, width: 50, height: 7 });
    assert_eq!((paint.title.text.as_str(), paint.title.y), ("Save", 16));
    assert_eq!((paint.field.text.as_str(), paint.field.y, paint.rule), ("name", 18, 19));
    assert_eq!((paint.label.text.as_str(), paint.label.y), ("Name", 20));
    assert_eq!((paint.cancel.text.as_str(), paint.cancel.x, paint.cancel.y), (" Cancel ", 59, 22));
    assert_eq!((paint.ok.text.as_str(), paint.ok.x), (" Save ", 69));
    assert_eq!(dialog.cursor(), Some((18, 29)));
    assert!(matches!(dialog.handle_mouse(&press(22, 60)), Reply::Close));
    assert!(matches!(dialog.handle_mouse(&press(10, 60)), Reply::Stay));
    assert!(matches!(dialog.handle_mouse(&press(22, 70)), Reply::Take((), _)));
}

fn confirm() -> Confirm<u8> {
    let answers = vec![Answer::new("Cancel", 1u8), Answer::new("Delete", 2u8).destructive()];
    Confirm::new("Confirm deletion", vec!["Delete file \"a\"?".to_string()], answers)
}

#[test]
fn answers_are_walked_round() {
    let mut dialog = confirm();
    dialog.handle_key(plain(KeyCode::Left));
    assert_eq!(dialog.focused, 1);
    dialog.handle_key(plain(KeyCode::Tab));
    assert_eq!(dialog.focused, 0);
    dialog.handle_key(plain(KeyCode::Right));
    assert!(matches!(
        dialog.handle_key(plain(KeyCode::Char(' '))),
        coil::confirm::Reply::Run(2)
    ));
    assert!(matches!(dialog.handle_key(plain(KeyCode::Esc)), coil::confirm::Reply::Close));
}

#[test]
fn a_click_takes_the_answer_it_lands_on() {
    let mut dialog = confirm();
    let place = dialog.place(Rect { x: 0, y: 0, width: 80, height: 24 });
    assert_eq!((place.width, place.height), (24, 7));
    let paint = dialog.render(Rect { x: 30, y: 9, width: 20, height: 5 });
    assert_eq!(paint.lines.len(), 1);
    assert_eq!((paint.lines[0].y, paint.lines[0].text.as_str()), (11, "Delete file \"a\"?"));
    assert_eq!(paint.buttons[0].1, ButtonStyle::Selected);
    assert_eq!(paint.buttons[1].1, ButtonStyle::Warning);
    assert_eq!((paint.buttons[0].0.x, paint.buttons[1].0.x, paint.buttons[1].0.y), (32, 42, 13));
    assert!(matches!(dialog.handle_mouse(&press(13, 43)), coil::confirm::Reply::Run(2)));
    assert!(matches!(dialog.handle_mouse(&press(13, 1)), coil::confirm::Reply::Stay));
}

#[test]
fn a_menu_opens_at_the_pointer_and_stays_on_screen() {
    let entries = vec![Entry::new("Rename", "F2", 'r'), Entry::new("Delete", "Del", 'd')];
    let mut menu = ContextMenu::new((22, 78), entries);
    assert_eq!(menu.width(), 14);
    let place = menu.place(Rect { x: 0, y: 0, width: 80, height: 24 });
    assert_eq!(place, Rect { x: 64, y: 18, width: 16, height: 4 });
    let lines = menu.render(Rect { x: 66, y: 19, width: 12, height: 2 });
    assert_eq!(lines.len(), 2);
    assert_eq!((lines[1].key.x, lines[1].key.text.as_str()), (75, "Del"));
    assert!(lines[0].focused);
    let moved = MouseEvent { kind: MouseEventKind::Moved, row: 20, column: 70 };
    assert!(matches!(menu.handle_mouse(&moved), coil::context_menu::Reply::Stay));
    assert!(matches!(menu.handle_mouse(&moved), coil::context_menu::Reply::Ignored));
    assert_eq!(menu.focused, 1);
    assert!(matches!(menu.handle_mouse(&press(0, 0)), coil::context_menu::Reply::Close));
    assert!(matches!(menu.handle_key(plain(KeyCode::Enter)), coil::context_menu::Reply::Run('d')));
    assert!(matches!(menu.handle_key(plain(KeyCode::Enter)), coil::context_menu::Reply::Close));
}

#[test]
fn the_menu_is_walked_round() {
    let entries = vec![Entry::new("a", "", 1), Entry::new("b", "", 2), Entry::new("c", "", 3)];
    let mut menu = ContextMenu::new((0, 0), entries);
    menu.handle_key(plain(KeyCode::Up));
    assert_eq!(menu.focused, 2);
    menu.handle_key(plain(KeyCode::Down));
    assert_eq!(menu.focused, 0);
}

#[test]
fn work_under_way_is_hidden_by_escape() {
    let busy = Busy::new("fetch", "Fetching");
    let area = Rect { x: 0, y: 0, width: 80, height: 24 };
    let place = busy.place(area, &Some("⣾".to_string()));
    assert_eq!((place.width, place.height), (44, 5));
    let paint = busy.render(Rect { x: 1, y: 1, width: 40, height: 3 }, &None);
    assert_eq!(paint.title.text, "  Fetching");
    assert_eq!(paint.hint.unwrap().y, 3);
    assert!(busy.render(Rect { x: 1, y: 1, width: 40, height: 2 }, &None).hint.is_none());
    match busy.handle_event(Heard::Key(KeyCode::Esc)) {
        coil::busy::Reply::Remove(id) => assert_eq!(id, "fetch"),
        _ => panic!("the dialog is removed"),
    }
    assert!(matches!(busy.handle_event(Heard::Mouse), coil::busy::Reply::Consumed));
    assert!(matches!(busy.handle_event(Heard::Other), coil::busy::Reply::Ignored));
}
