use coil::changes::{same_answer, ChangesTab, Opening};
use coil::entries::{
    draw_entry, list_changed, list_disk, reselect, CommitRow, Entry, Folds, Listing, Row, RowPaint,
};
use coil::git::{Change, ChangedFile};
use coil::list::List;
use coil::screen::{Mark, Rect, Scope};

fn changed(path: &str, change: Change) -> ChangedFile {
    ChangedFile { path: path.to_string(), change, from: None }
}

fn names(rows: &[Row]) -> Vec<(String, usize)> {
    rows.iter()
        .map(|row| match row.entry() {
            Some(entry) => (entry.name.clone(), entry.depth),
            None => ("commit".to_string(), 0),
        })
        .collect()
}

fn listing(dir: &str, entries: &[(&str, bool)]) -> Listing {
    Listing {
        dir: dir.to_string(),
        entries: entries.iter().map(|(path, is_dir)| (path.to_string(), *is_dir)).collect(),
        error: None,
    }
}

#[test]
fn a_chain_of_directories_is_one_row() {
    let files = vec![
        changed("/r/src/ui/deep/a.rs", Change::Modified),
        changed("/r/b.rs", Change::Added),
        changed("/r/src/ui/deep/z.rs", Change::Deleted),
        changed("/elsewhere/c.rs", Change::Added),
    ];
    let mut rows = Vec::new();
    list_changed("/r", &files, &Folds::opened(), &mut rows);
    let shown: Vec<(String, usize)> = vec![
        ("src/ui/deep".to_string(), 0),
        ("a.rs".to_string(), 1),
        ("z.rs".to_string(), 1),
        ("b.rs".to_string(), 0),
    ];
    assert_eq!(names(&rows), shown);
    assert_eq!(rows[0].dir(), Some("/r/src/ui/deep"));
    assert_eq!(rows[1].path(), Some("/r/src/ui/deep/a.rs"));
    assert_eq!(rows[2].entry().unwrap().change, Some(Change::Deleted));
}

#[test]
fn a_closed_directory_hides_its_files() {
    let files = vec![changed("/r/src/a.rs", Change::Modified)];
    let mut folds = Folds::opened();
    folds.set("/r/src/".to_string(), false);
    let mut rows = Vec::new();
    list_changed("/r", &files, &folds, &mut rows);
    assert_eq!(names(&rows), vec![("src".to_string(), 0)]);
}

#[test]
fn the_last_change_to_a_file_is_the_one_listed() {
    let files = vec![changed("/r/a", Change::Added), changed("/r/./a", Change::Deleted)];
    let mut rows = Vec::new();
    list_changed("/r", &files, &Folds::opened(), &mut rows);
    assert_eq!(rows.len(), 1);
    assert_eq!(rows[0].entry().unwrap().change, Some(Change::Deleted));
}

#[test]
fn names_are_listed_in_order() {
    let files = vec![
        changed("/r/b", Change::Added),
        changed("/r/a", Change::Added),
        changed("/r/B", Change::Added),
        changed("/r/é", Change::Added),
    ];
    let mut rows = Vec::new();
    list_changed("/r", &files, &Folds::opened(), &mut rows);
    let shown: Vec<String> = names(&rows).into_iter().map(|row| row.0).collect();
    assert_eq!(shown, ["B", "a", "b", "é"]);
}

#[test]
fn folds_remember_what_is_otherwise() {
    let mut folds = Folds::closed();
    assert!(!folds.is_open("/r/a"));
    folds.set("/r/a".to_string(), true);
    assert!(folds.is_open("/r//a/."));
    assert!(!folds.is_open("/r/b"));
    folds.set("/r/a/".to_string(), false);
    assert!(!folds.is_open("/r/a"));
}

#[test]
fn every_directory_on_the_way_is_opened() {
    let mut folds = Folds::closed();
    folds.open_ancestors("/r", "/r/a/b/c.rs");
    assert!(folds.is_open("/r/a"));
    assert!(folds.is_open("/r/a/b"));
    assert!(!folds.is_open("/r"));
    assert!(!folds.is_open("/r/a/b/c.rs"));
}

#[test]
fn closing_all_closes_what_is_listed() {
    let mut folds = Folds::opened();
    folds.close_all(&vec!["/r/a".to_string(), "/r/b".to_string()]);
    assert!(!folds.is_open("/r/a") && !folds.is_open("/r/b") && folds.is_open("/r/c"));
    let mut closed = Folds::closed();
    closed.set("/r/a".to_string(), true);
    closed.close_all(&vec![]);
    assert!(!closed.is_open("/r/a"));
}

#[test]
fn the_disk_is_listed_as_far_as_it_is_open() {
    let disk = vec![
        listing("/r", &[("/r/..", true), ("/r/src", true), ("/r/docs", true), ("/r/a", false)]),
        listing("/r/src", &[("/r/src/lib.rs", false)]),
    ];
    let mut folds = Folds::closed();
    folds.set("/r/src".to_string(), true);
    folds.set("/r/docs".to_string(), true);
    let (mut rows, mut missing, mut errors) = (Vec::new(), Vec::new(), Vec::new());
    list_disk("/r", 0, &disk, &folds, &mut rows, &mut missing, &mut errors);
    let shown: Vec<(String, usize)> = vec![
        ("src".to_string(), 0),
        ("lib.rs".to_string(), 1),
        ("docs".to_string(), 0),
        ("a".to_string(), 0),
    ];
    assert_eq!(names(&rows), shown);
    assert_eq!(missing, ["/r/docs"]);
    assert!(errors.is_empty());
}

#[test]
fn a_directory_that_cannot_be_read_is_said() {
    let disk = vec![Listing {
        dir: "/r".to_string(),
        entries: Vec::new(),
        error: Some("permission denied".to_string()),
    }];
    let (mut rows, mut missing, mut errors) = (Vec::new(), Vec::new(), Vec::new());
    list_disk("/r", 0, &disk, &Folds::closed(), &mut rows, &mut missing, &mut errors);
    assert!(rows.is_empty() && missing.is_empty());
    assert_eq!(errors, ["/r: permission denied"]);
}

#[test]
fn the_cursor_goes_back_to_its_path() {
    let files = vec![changed("/r/a", Change::Added), changed("/r/b", Change::Added)];
    let mut rows = Vec::new();
    list_changed("/r", &files, &Folds::opened(), &mut rows);
    let mut list = List::new();
    list.set_page(5);
    reselect(&rows, &mut list, &Some("/r/b".to_string()));
    assert_eq!((list.cursor, list.len), (1, 2));
    reselect(&rows, &mut list, &Some("/r/none".to_string()));
    assert_eq!(list.cursor, 1);
    reselect(&rows, &mut list, &None);
    assert_eq!(list.cursor, 1);
}

#[test]
fn a_commit_row_has_no_path() {
    let row = Row::Commit(CommitRow {
        index: 3,
        short: "abc".to_string(),
        subject: "s".to_string(),
        time: 0,
        head: false,
    });
    assert!(row.entry().is_none() && row.path().is_none() && row.dir().is_none());
    assert_eq!(row.depth(), 0);
}

#[test]
fn a_changed_file_is_drawn_with_its_letter() {
    let entry = Entry {
        path: "/r/a/b.rs".to_string(),
        name: "b.rs".to_string(),
        is_dir: false,
        depth: 2,
        change: Some(Change::Added),
    };
    let paint = RowPaint {
        line: Rect { x: 1, y: 7, width: 20, height: 1 },
        selected: Some(Mark::Focused),
        current: true,
    };
    let drawn = draw_entry(&paint, &entry, false);
    assert_eq!((drawn.x, drawn.y, drawn.width), (6, 7, 12));
    assert_eq!(drawn.label, "  b.rs");
    assert_eq!(drawn.style.scope, Scope::Added);
    assert!(drawn.style.bold);
    let letter = drawn.letter.unwrap();
    assert_eq!((letter.x, letter.change.letter()), (19, "A"));
    assert_eq!(letter.style.scope.name(), "diff.plus");
}

#[test]
fn a_directory_is_drawn_with_its_fold() {
    let entry = Entry {
        path: "/r/a".to_string(),
        name: "a".to_string(),
        is_dir: true,
        depth: 0,
        change: None,
    };
    let paint = RowPaint {
        line: Rect { x: 0, y: 0, width: 20, height: 1 },
        selected: None,
        current: false,
    };
    assert_eq!(draw_entry(&paint, &entry, true).label, "▾ a");
    assert_eq!(draw_entry(&paint, &entry, false).label, "▸ a");
    assert_eq!(draw_entry(&paint, &entry, false).width, 19);
}

#[test]
fn the_changes_tab_takes_an_answer() {
    let mut tab = ChangesTab::new("/r".to_string());
    assert_eq!(tab.label(), "Changes");
    assert_eq!(tab.empty_message().text, "reading git status…");
    assert!(tab.ask());
    assert!(!tab.ask());
    let files = vec![changed("/r/a", Change::Added), changed("/r/b", Change::Deleted)];
    assert!(tab.landed(true, Ok(files), &Some("/r/b".to_string())));
    assert_eq!(tab.label(), "Changes 2");
    assert_eq!(tab.list.cursor, 1);
    match tab.open() {
        Opening::Say(text) => assert_eq!(text, "b is deleted"),
        _ => panic!("a deleted file cannot be opened"),
    }
    assert!(!tab.shown());
    assert!(tab.waited(true));
    assert!(!tab.landed(false, Err("git: gone".to_string()), &None));
    assert!(tab.empty_message().is_error);
    assert_eq!(tab.rows.len(), 0);
}

#[test]
fn one_answer_however_its_paths_are_spelled() {
    let a = Ok(vec![changed("/r/a", Change::Added)]);
    assert!(same_answer(&a, &Ok(vec![changed("/r//a", Change::Added)])));
    assert!(!same_answer(&a, &Ok(vec![changed("/r/a", Change::Modified)])));
    assert!(!same_answer(&a, &Err("x".to_string())));
}
