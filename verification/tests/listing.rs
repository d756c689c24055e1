use coil::list::List;

fn list(len: usize, page: usize, cursor: usize, scroll: usize) -> List {
    List { cursor, scroll, page, len }
}

#[test]
fn the_cursor_stays_among_the_rows() {
    let mut rows = List::new();
    rows.set_page(5);
    rows.set_len(20);
    rows.move_by(100);
    assert_eq!((rows.cursor, rows.scroll), (19, 15));
    rows.move_by(-3);
    assert_eq!((rows.cursor, rows.scroll), (16, 15));
    rows.set_len(4);
    assert_eq!((rows.cursor, rows.scroll), (3, 0));
    rows.set_len(0);
    assert_eq!((rows.cursor, rows.scroll), (0, 0));
}

#[test]
fn home_and_end_are_the_first_and_last_rows() {
    let mut rows = list(10, 4, 5, 3);
    rows.end();
    assert_eq!((rows.cursor, rows.scroll), (9, 6));
    rows.home();
    assert_eq!((rows.cursor, rows.scroll), (0, 0));
    rows.select(7);
    assert_eq!((rows.cursor, rows.scroll), (7, 4));
}

#[test]
fn scrolling_takes_the_cursor_along() {
    let mut rows = list(30, 10, 0, 0);
    rows.scroll_by(3);
    assert_eq!((rows.cursor, rows.scroll), (3, 3));
    rows.scroll_by(100);
    assert_eq!((rows.cursor, rows.scroll), (20, 20));
    rows.cursor = 29;
    rows.scroll_by(-5);
    assert_eq!((rows.cursor, rows.scroll), (24, 15));
}

#[test]
fn the_middle_of_the_screen() {
    let mut rows = list(100, 11, 50, 0);
    rows.center();
    assert_eq!((rows.cursor, rows.scroll), (50, 45));
    let mut top = list(100, 11, 2, 50);
    top.center();
    assert_eq!((top.cursor, top.scroll), (2, 0));
}

#[test]
fn a_half_page_is_at_least_a_row() {
    assert_eq!(list(9, 1, 0, 0).half_page(), 1);
    assert_eq!(list(9, 9, 0, 0).half_page(), 4);
}

#[test]
fn a_page_is_turned_whole() {
    let mut rows = list(100, 10, 5, 0);
    rows.turn_page(true);
    assert_eq!(rows.cursor, 15);
    rows.turn_page(false);
    rows.turn_page(false);
    assert_eq!(rows.cursor, 0);
}

#[test]
fn the_end_is_near_within_a_screen() {
    assert!(list(20, 10, 10, 5).near_end());
    assert!(!list(20, 10, 9, 5).near_end());
}

#[test]
fn a_line_lands_on_a_row_or_on_none() {
    assert_eq!(list(20, 10, 10, 5).row_at(3), Some(8));
    assert_eq!(list(8, 10, 0, 5).row_at(3), None);
}

#[test]
fn a_list_in_place_stays() {
    let mut rows = list(5, 3, 9, 9);
    rows.clamp();
    let settled = (rows.cursor, rows.scroll);
    rows.clamp();
    assert_eq!((rows.cursor, rows.scroll), settled);
    assert_eq!(settled, (4, 2));
}
