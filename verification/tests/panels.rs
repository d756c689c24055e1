use coil::diff_view::DiffTarget;
use coil::entries::{Entry, Folds, Listing, Row};
use coil::file_tree::{
    self, confirms, draw_commit, query_commits, query_diff, Arrival, Body, CommitPaint, FileTree,
    HistoryAsk, Tab, Turn,
};
use coil::files::PromptTarget;
use coil::git::{Change, ChangedFile, Commit, Step};
use coil::list::List;
use coil::message::Message;
use coil::screen::{
    KeyCode, KeyEvent, Modifiers, MouseButton, MouseEvent, MouseEventKind, Rect, Scope, Style,
};
use coil::sidebar::{
    find_typed, is_editor_shortcut, open_menu, Act, Column, CommitsTab, MenuAction, Sidebar,
    TabKind,
};

/// A key by its name: modifiers first, each before a `-`.
fn key(name: &str) -> KeyEvent {
    let mut modifiers = Modifiers { shift: false, control: false, alt: false, command: false };
    let mut rest = name;
    loop {
        if let Some(plain) = rest.strip_prefix("C-") {
            modifiers.control = true;
            rest = plain;
        } else if let Some(plain) = rest.strip_prefix("A-") {
            modifiers.alt = true;
            rest = plain;
        } else if let Some(plain) = rest.strip_prefix("Cmd-") {
            modifiers.command = true;
            rest = plain;
        } else {
            break;
        }
    }
    let code = match rest {
        "ret" => KeyCode::Enter,
        "space" => KeyCode::Char(' '),
        "esc" => KeyCode::Esc,
        "tab" => KeyCode::Tab,
        "F12" => KeyCode::F(12),
        _ => KeyCode::Char(rest.chars().next().expect("a key of ours")),
    };
    KeyEvent { code, modifiers }
}

fn mouse(kind: MouseEventKind, row: u16, column: u16) -> MouseEvent {
    MouseEvent { kind, row, column }
}

fn listing(dir: &str, entries: &[(&str, bool)]) -> Listing {
    Listing {
        dir: dir.to_string(),
        entries: entries.iter().map(|(path, is_dir)| (path.to_string(), *is_dir)).collect(),
        error: None,
    }
}

fn commit(n: usize) -> Commit {
    Commit {
        hash: format!("{n:040}"),
        short: format!("{n:07}"),
        time: 0,
        subject: format!("commit {n}"),
        file: None,
        file_from: None,
    }
}

#[test]
fn the_editors_shortcuts_pass_through_the_sidebar() {
    assert!(is_editor_shortcut(key("C-q")));
    assert!(is_editor_shortcut(key("C-s")));
    assert!(is_editor_shortcut(key("A-z")));
    assert!(is_editor_shortcut(key("Cmd-s")));
    assert!(is_editor_shortcut(key("F12")));

    // What the sidebar reads as its own: plain keys, which would otherwise run a
    // command on the file behind it.
    assert!(!is_editor_shortcut(key("j")));
    assert!(!is_editor_shortcut(key("i")));
    assert!(!is_editor_shortcut(key("ret")));
    assert!(!is_editor_shortcut(key("space")));
}

// ---- The sidebar ----

fn column() -> Column {
    Column { rows: Vec::new(), list: List::new() }
}

fn sidebar() -> Sidebar {
    let commits = CommitsTab {
        label: "Commits".to_string(),
        folds: None,
        history: column(),
        files: None,
        on_files: false,
        message: None,
    };
    Sidebar::new("/p".to_string(), false, Ok(None), commits)
}

fn shown() -> Sidebar {
    let mut bar = sidebar();
    match bar.toggle(vec![]) {
        Act::Shown { read, watch } => {
            assert_eq!(read, ["/p"]);
            assert!(watch);
        }
        _ => panic!("the root is read"),
    }
    bar.files.landed(
        vec![listing("/p", &[("/p/src", true), ("/p/Alpha.rs", false), ("/p/beta.rs", false)])],
        vec![],
    );
    bar.begin(Rect { x: 0, y: 0, width: 31, height: 20 }, vec![]);
    bar
}

#[test]
fn the_tabs_come_round() {
    assert!(matches!(TabKind::Files.next(), TabKind::Changes));
    assert!(matches!(TabKind::Changes.next(), TabKind::Commits));
    assert!(matches!(TabKind::Commits.next(), TabKind::Files));
}

#[test]
fn typing_finds_a_name_whatever_its_case() {
    let entry = |name: &str| {
        Row::Entry(Entry {
            path: format!("/p/{name}"),
            name: name.to_string(),
            is_dir: false,
            depth: 0,
            change: None,
        })
    };
    let rows = vec![entry("beta"), entry("Élan"), entry("Alpha")];
    assert_eq!(find_typed(&rows, 0, "al"), Some(2));
    assert_eq!(find_typed(&rows, 0, "él"), Some(1));
    assert_eq!(find_typed(&rows, 2, "b"), Some(0));
    assert_eq!(find_typed(&rows, 0, "z"), None);
}

#[test]
fn the_sidebar_opens_a_directory_and_a_file() {
    let mut bar = shown();
    assert!(bar.showing(TabKind::Files));
    bar.focus(vec![]);
    let reply = bar.handle_key(key("ret"), 0, vec![]);
    match reply.act {
        Act::Read(dirs) => assert_eq!(dirs, ["/p/src"]),
        _ => panic!("the directory is read"),
    }
    bar.files.landed(vec![listing("/p/src", &[("/p/src/lib.rs", false)])], vec![]);
    bar.handle_key(KeyEvent { code: KeyCode::Down, ..key("j") }, 0, vec![]);
    match bar.handle_key(key("ret"), 0, vec![]).act {
        Act::OpenFile(path) => assert_eq!(path, "/p/src/lib.rs"),
        _ => panic!("the file is opened"),
    }
}

#[test]
fn a_shortcut_is_left_to_the_editor() {
    let mut bar = shown();
    bar.focus(vec![]);
    assert!(matches!(bar.handle_key(key("C-q"), 0, vec![]).act, Act::Ignored));
}

#[test]
fn dragging_the_edge_leaves_the_editor_room() {
    let mut bar = shown();
    assert_eq!(bar.width(30), 30);
    bar.handle_mouse(
        &mouse(MouseEventKind::Down(MouseButton::Left), 5, 30),
        100,
        3,
        0,
        vec![],
    );
    assert!(bar.resizing());
    bar.handle_mouse(
        &mouse(MouseEventKind::Drag(MouseButton::Left), 5, 200),
        100,
        3,
        0,
        vec![],
    );
    assert_eq!(bar.width(30), 31 + 100 - 20);
    let reply =
        bar.handle_mouse(&mouse(MouseEventKind::Up(MouseButton::Left), 5, 200), 100, 3, 0, vec![]);
    match reply.act {
        Act::KeepWidth(kept) => assert_eq!(kept, bar.width(30)),
        _ => panic!("the width is kept"),
    }
    assert!(!bar.resizing());
}

#[test]
fn the_menu_acts_on_the_row() {
    let target = PromptTarget {
        root: "/p".to_string(),
        path: Some("/p/src/a.rs".to_string()),
        is_dir: false,
    };
    let mut menu = open_menu(3, 4, &target);
    match menu.take(0) {
        coil::context_menu::Reply::Run(MenuAction::New(taken)) => {
            assert_eq!(taken.path.as_deref(), Some("/p/src/a.rs"))
        }
        _ => panic!("the first entry makes something new"),
    }
    assert_eq!(target.relative("/p/src/a.rs"), "src/a.rs");
    assert_eq!(target.dir(), "/p/src");
}

#[test]
fn history_is_shown_in_its_tab() {
    let mut bar = shown();
    match bar.show_history("/p/a.rs".to_string()) {
        Act::History(path) => assert_eq!(path, "/p/a.rs"),
        _ => panic!("the history is asked for"),
    }
    assert!(bar.showing(TabKind::Commits));
    match bar.open_commit(commit(1)) {
        Act::EnterCommit(opened) => assert_eq!(opened, commit(1)),
        _ => panic!("the commit is opened"),
    }
}

#[test]
fn the_history_steps_back_before_the_keys_leave() {
    let mut bar = shown();
    bar.switch_tab(TabKind::Commits, vec![]);
    bar.focus(vec![]);
    assert!(matches!(
        bar.handle_key(key("esc"), 0, vec![]).act,
        Act::StepBack { leave: true }
    ));
    bar.stepped_back(true, true);
    assert!(bar.focused);
    bar.stepped_back(true, false);
    assert!(!bar.focused);
    assert!(matches!(
        bar.switch_tab(TabKind::Commits, vec![]),
        Act::StepBack { leave: false }
    ));
}

#[test]
fn the_tab_on_screen_stands_out() {
    let bar = shown();
    assert!(bar.label_style(TabKind::Files).bold);
    assert_eq!(bar.label_style(TabKind::Changes).scope, Scope::Inactive);
    let fault = Message { text: "x".to_string(), is_error: true };
    assert_eq!(fault.scope().name(), "error");
}

// ---- The file tree ----

fn disk() -> Vec<Listing> {
    vec![
        listing("/p", &[("/p/src", true), ("/p/a.rs", false)]),
        listing("/p/src", &[("/p/src/lib.rs", false)]),
    ]
}

fn tree() -> FileTree {
    let mut tree = FileTree::new("/p".to_string(), true, Ok(None));
    tree.list.set_page(10);
    tree.rebuild(&disk());
    tree
}

#[test]
fn the_tree_opens_and_closes() {
    let mut tree = tree();
    assert_eq!(tree.rows.len(), 2);
    tree.expand_dir(&disk());
    assert!(tree.is_expanded("/p/src"));
    assert_eq!(tree.rows.len(), 3);
    tree.list.select(1);
    tree.collapse_or_parent(&disk());
    assert_eq!(tree.list.cursor, 0);
    tree.collapse_or_parent(&disk());
    assert_eq!(tree.rows.len(), 2);
    tree.toggle_dir(&disk());
    tree.collapse_all(&disk());
    assert_eq!(tree.rows.len(), 2);
}

#[test]
fn keys_are_read_by_the_tree() {
    let mut tree = tree();
    tree.focused = true;
    assert!(matches!(tree.handle_key(key("j"), &disk()), Turn::Stay));
    assert_eq!(tree.list.cursor, 1);
    match tree.handle_key(key("ret"), &disk()) {
        Turn::Open(path) => assert_eq!(path, "/p/a.rs"),
        _ => panic!("the file is opened"),
    }
    match tree.prompt_rename() {
        Turn::Rename { source, line } => {
            assert_eq!((source.as_str(), line.as_str()), ("/p/a.rs", "a.rs"))
        }
        _ => panic!("another name is asked for"),
    }
    assert!(matches!(tree.handle_key(key("esc"), &disk()), Turn::Stay));
    assert!(!tree.focused && tree.open);
}

#[test]
fn a_commit_is_entered_and_left() {
    let mut tree = tree();
    tree.switch_tab(Tab::Commits, &disk());
    let page: Vec<Commit> = (0..5).map(commit).collect();
    assert!(tree.take_commits(0, Ok(page)));
    tree.rebuild(&disk());
    tree.list.select(3);
    let (cursor, scroll) = (tree.list.cursor, tree.list.scroll);
    let files = vec![
        ChangedFile { path: "/p/a.rs".to_string(), change: Change::Modified, from: None },
        ChangedFile { path: "/p/b.rs".to_string(), change: Change::Added, from: None },
    ];
    tree.open_commit(commit(3), Ok((String::new(), files)), &disk());
    // The commit itself stands above its files.
    assert_eq!(tree.rows.len(), 3);
    assert_eq!(tree.rows[1].path(), Some("/p/a.rs"));
    tree.leave_commit(&disk());
    assert!(tree.opened.is_none());
    assert_eq!(tree.rows.len(), 5);
    assert_eq!((tree.list.cursor, tree.list.scroll), (cursor, scroll));
}

#[test]
fn a_stray_page_changes_nothing() {
    let mut tree = tree();
    tree.switch_tab(Tab::Commits, &disk());
    tree.take_commits(0, Ok((0..3).map(commit).collect()));
    assert!(!tree.take_commits(7, Ok(vec![commit(9)])));
    assert_eq!(tree.commits.as_ref().unwrap().as_ref().unwrap().len(), 3);
}

#[test]
fn the_history_of_a_file_is_read_whole() {
    let args = |asked: &HistoryAsk| match query_commits(asked, &vec![]) {
        Step::Run(args) => args,
        Step::Done(_) => panic!("git is asked"),
    };
    let page = args(&HistoryAsk { skip: 200, history: None });
    assert!(page.contains(&"--skip=200".to_string()));
    let whole = args(&HistoryAsk { skip: 0, history: Some("a.rs".to_string()) });
    assert_eq!(whole[4..], ["--follow", "--name-status", "--", "a.rs"]);
    let target = DiffTarget {
        hash: "abc".to_string(),
        pathspecs: vec!["a".to_string()],
        name: "n".to_string(),
    };
    match query_diff(&target, &vec![]) {
        Step::Run(args) => assert_eq!(args[6..], ["abc", "--", "a"]),
        Step::Done(_) => panic!("git is asked"),
    }
}

#[test]
fn changes_are_polled() {
    let mut tree = tree();
    tree.switch_tab(Tab::Changes, &disk());
    let (_, ask) = tree.poll_changes(Arrival::Waiting, 0);
    assert!(ask);
    let (moved, ask) = tree.poll_changes(Arrival::Came(Ok(vec![])), 1);
    assert!(moved && !ask);
    let (moved, _) = tree.poll_changes(Arrival::Waiting, 2);
    assert!(!moved);
}

#[test]
fn the_tree_answers_its_prompts() {
    assert!(confirms("y"));
    assert!(!confirms("n"));
    assert_eq!(file_tree::to_create("/p", "src/"), Some(("/p/src/".to_string(), true)));
    assert_eq!(file_tree::to_create("/p", " "), None);
    assert_eq!(file_tree::to_rename("/p", "/p/a", "b").as_deref(), Some("/p/b"));
    assert_eq!(file_tree::to_rename("/p", "/p/a", "a"), None);
}

#[test]
fn dragging_keeps_the_tree_on_screen() {
    let mut tree = tree();
    tree.area = Rect { x: 0, y: 0, width: 31, height: 20 };
    let edge = tree.area.x + tree.area.width - 1;
    tree.handle_mouse(
        &mouse(MouseEventKind::Down(MouseButton::Left), 5, edge),
        100,
        3,
        &disk(),
    );
    assert!(tree.resizing());
    tree.handle_mouse(
        &mouse(MouseEventKind::Drag(MouseButton::Left), 5, 200),
        100,
        3,
        &disk(),
    );
    assert_eq!(tree.width(30), 31 + 100 - 20);
    assert!(matches!(
        tree.handle_mouse(
            &mouse(MouseEventKind::Up(MouseButton::Left), 5, 200),
            100,
            3,
            &disk(),
        ),
        Turn::Keep(111)
    ));
}

#[test]
fn a_commit_is_drawn_with_its_age() {
    let style = Style { scope: Scope::Added, bold: false, over: None };
    let paint = CommitPaint {
        x: 2,
        y: 0,
        width: 30,
        short: "abcdef0".to_string(),
        subject: "s".to_string(),
        time: 0,
        hash_style: style,
        subject_style: style,
    };
    let (columns, age) = draw_commit(&paint, 9, 7200);
    assert_eq!(age, "2h");
    assert_eq!(columns.age_x, Some(30));
    assert_eq!(columns.subject_x, 10);
}

#[test]
fn an_empty_tab_says_why() {
    let mut tree = tree();
    tree.area = Rect { x: 0, y: 0, width: 31, height: 20 };
    tree.switch_tab(Tab::Changes, &disk());
    match tree.body(&None) {
        Body::Message { message: Message { is_error, .. }, .. } => assert!(!is_error),
        _ => panic!("a message is shown"),
    }
    assert!(!Folds::closed().is_open("/p"));
}

#[test]
fn a_commit_goes_by_the_empty_path() {
    let mut tree = tree();
    tree.switch_tab(Tab::Commits, &disk());
    tree.take_commits(0, Ok((0..3).map(commit).collect()));
    tree.rebuild(&disk());
    tree.list.select(2);
    tree.select("/p/a.rs");
    assert_eq!(tree.list.cursor, 2);
    tree.select("");
    assert_eq!(tree.list.cursor, 0);
}

#[test]
fn the_last_column_parts_the_panels_from_the_editor() {
    let mut tree = tree();
    assert_eq!(tree.tab_columns, ((0, 0), (0, 0), (0, 0)));
    tree.area = Rect { x: 2, y: 1, width: 31, height: 20 };
    assert_eq!(tree.separator(), Rect { x: 32, y: 1, width: 1, height: 20 });
    assert_eq!(shown().separator(), Rect { x: 30, y: 0, width: 1, height: 20 });
}
