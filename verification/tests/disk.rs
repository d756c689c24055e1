use coil::changes::Opening;
use coil::entries::Listing;
use coil::files::{
    already_exists, changed_by_delete, changed_by_rename, close_documents_under, close_message,
    failed_on, inside, prompt_delete, prompt_new, prompt_rename, retarget_documents, to_create,
    to_rename, CloseFault, Deletion, Document, FilesTab, Look, Prompt, PromptTarget, Renaming,
    Walk,
};
use std::path::Path;

fn listing(dir: &str, entries: &[(&str, bool)]) -> Listing {
    Listing {
        dir: dir.to_string(),
        entries: entries.iter().map(|(path, is_dir)| (path.to_string(), *is_dir)).collect(),
        error: None,
    }
}

#[test]
fn a_name_stays_inside_the_project() {
    let root = "/p";
    let lands = |name: &str| Path::new(root).join(name).to_str().unwrap().to_string();
    assert_eq!(inside(root, "a.ts").unwrap(), lands("a.ts"));
    assert_eq!(inside(root, "a/b/c.ts").unwrap(), lands("a/b/c.ts"));
    assert_eq!(inside(root, "./a.ts").unwrap(), lands("./a.ts"));

    assert!(inside(root, "/etc/passwd").is_err());
    assert!(inside(root, "../a.ts").is_err());
    assert!(inside(root, "a/../../b.ts").is_err());
    assert!(inside(root, "").is_err());
}

#[test]
fn a_refused_name_says_why() {
    assert_eq!(inside("/p", "..").unwrap_err(), "the name must stay inside the project");
    assert!(to_create("/p", "  ").is_err());
}

#[test]
fn a_name_that_ends_in_a_slash_is_a_directory() {
    let dir = to_create("/p", " src/ui/ ").unwrap();
    assert!(dir.is_dir);
    assert_eq!(dir.path, "/p/src/ui/");
    let file = to_create("/p", "src/a b.rs\n").unwrap();
    assert!(!file.is_dir);
    assert_eq!(file.path, "/p/src/a b.rs");
}

#[test]
fn a_rename_goes_into_its_directory() {
    match to_rename("/p", "/p/a", " src/b// ") {
        Renaming::Move { to, parent } => {
            assert_eq!(to, "/p/src/b");
            assert_eq!(parent.as_deref(), Some("/p/src"));
        }
        _ => panic!("the entry moves"),
    }
    assert!(matches!(to_rename("/p", "/p/a", "./a/"), Renaming::Nothing));
    match to_rename("/p", "/p/a", "../a") {
        Renaming::Refused(why) => assert_eq!(why, "the name must stay inside the project"),
        _ => panic!("the name leaves the project"),
    }
}

#[test]
fn what_changed_on_disk() {
    assert_eq!(changed_by_rename("/p/a/b", "/p/c"), ["/p/a", "/p/c"]);
    assert_eq!(changed_by_rename("/", "/p/c"), ["/p/c"]);
    assert_eq!(changed_by_delete("/p/a/b"), "/p/a");
    assert_eq!(changed_by_delete("/"), "/");
    assert_eq!(already_exists("/p/a"), "/p/a already exists");
    assert_eq!(failed_on("/p/a", "no room"), "/p/a: no room");
}

fn document(id: u64, path: &str, modified: bool) -> Document {
    Document { id, path: Some(path.to_string()), modified }
}

#[test]
fn open_buffers_follow_their_files() {
    let docs = vec![
        document(1, "/p/src/a.rs", false),
        document(2, "/p/srcs/b.rs", false),
        Document { id: 3, path: None, modified: false },
        document(4, "/p/src/ui/c.rs", true),
    ];
    assert_eq!(
        retarget_documents(&docs, "/p/src", "/p/lib"),
        [(1, "/p/lib/a.rs".to_string()), (4, "/p/lib/ui/c.rs".to_string())]
    );
}

#[test]
fn a_modified_buffer_stays_open() {
    let docs = vec![
        document(1, "/p/src/a.rs", false),
        document(2, "/p/src/b.rs", true),
        document(3, "/p/c.rs", false),
    ];
    assert_eq!(close_documents_under(&docs, "/p/src"), [1]);
    assert_eq!(close_message(CloseFault::Gone), None);
    assert_eq!(
        close_message(CloseFault::Modified("b.rs".to_string())).unwrap(),
        "b.rs is modified and stays open"
    );
    assert_eq!(close_message(CloseFault::Save("no".to_string())).unwrap(), "no");
}

fn target(path: Option<&str>, is_dir: bool) -> PromptTarget {
    PromptTarget { root: "/p".to_string(), path: path.map(str::to_string), is_dir }
}

#[test]
fn prompts_start_from_the_row() {
    let new = prompt_new(&target(Some("/p/src/a.rs"), false));
    assert_eq!(new.line(), "src/");
    assert_eq!(prompt_new(&target(Some("/p/src"), true)).line(), "src/");
    assert_eq!(prompt_new(&target(None, false)).line(), "");
    let mut renamed = prompt_rename(&target(Some("/p/src/a.rs"), false)).unwrap();
    assert_eq!(renamed.line(), "src/a.rs");
    match renamed.take() {
        coil::ask::Reply::Take(Prompt::Rename { root, source }, line) => {
            assert_eq!((root.as_str(), source.as_str()), ("/p", "/p/src/a.rs"));
            assert_eq!(line, "src/a.rs");
        }
        _ => panic!("the name is taken"),
    }
    assert!(prompt_rename(&target(None, false)).is_none());
    assert!(prompt_delete(&target(None, false)).is_none());
    let mut asked = prompt_delete(&target(Some("/p/src"), true)).unwrap();
    assert!(matches!(
        asked.answer(1),
        coil::confirm::Reply::Run(Deletion::Delete { is_dir: true, .. })
    ));
}

#[test]
fn listings_land_and_open_further() {
    let mut tab = FilesTab::new("/p".to_string());
    assert!(matches!(tab.open(), Opening::Nothing));
    assert_eq!(tab.rebuild(vec![]), ["/p"]);
    assert!(tab.rebuild(vec![]).is_empty());
    let (errors, asked) =
        tab.landed(vec![listing("/p", &[("/p/src", true), ("/p/a.rs", false)])], vec![]);
    assert!(errors.is_empty() && asked.is_empty());
    assert_eq!(tab.rows.len(), 2);
    tab.folds.set("/p/src".to_string(), true);
    assert_eq!(tab.rebuild(vec![]), ["/p/src"]);
    tab.landed(vec![listing("/p/src", &[("/p/src/b.rs", false)])], vec![]);
    assert_eq!(tab.rows[1].path(), Some("/p/src/b.rs"));
    assert_eq!(tab.dirs_on_screen(), ["/p", "/p/src"]);
    assert_eq!(tab.listed_dir_holding("/p/src/b.rs"), "/p/src");
    tab.list.select(1);
    match tab.open() {
        Opening::Open(path) => assert_eq!(path, "/p/src/b.rs"),
        _ => panic!("the file opens"),
    }
}

#[test]
fn a_listing_that_failed_is_told() {
    let mut tab = FilesTab::new("/p".to_string());
    tab.rebuild(vec![]);
    let mut failed = listing("/p", &[]);
    failed.error = Some("permission denied".to_string());
    let (errors, _) = tab.landed(vec![failed], vec![]);
    assert_eq!(errors, ["permission denied"]);
}

#[test]
fn a_path_is_moved_onto_once_its_way_is_read() {
    let mut tab = FilesTab::new("/p".to_string());
    tab.list.set_page(10);
    tab.rebuild(vec![]);
    tab.landed(vec![listing("/p", &[("/p/src", true), ("/p/a.rs", false)])], vec![]);
    assert_eq!(tab.move_onto("/p/src/b.rs", vec![]), ["/p/src"]);
    tab.landed(vec![listing("/p/src", &[("/p/src/b.rs", false)])], vec![]);
    assert_eq!(tab.list.cursor, 1);
    assert!(tab.pending.is_none());
}

#[test]
fn the_disk_is_watched_while_it_shows() {
    let mut tab = FilesTab::new("/p".to_string());
    tab.rebuild(vec![]);
    tab.landed(vec![listing("/p", &[("/p/a.rs", false)])], vec![]);
    assert!(tab.watch());
    assert!(!tab.watch());
    assert!(tab.waited(false).is_none());
    assert!(tab.watch());
    match tab.waited(true) {
        Some(Look::At(dirs)) => assert_eq!(dirs, ["/p"]),
        _ => panic!("the directories on screen are looked at"),
    }
    let (errors, _, _) = tab.polled(vec![listing("/p", &[])], true, vec![]);
    assert!(errors.is_empty());
    assert!(tab.rows.is_empty());
}

#[test]
fn a_filter_narrows_and_is_left() {
    let mut tab = FilesTab::new("/p".to_string());
    tab.rebuild(vec![]);
    tab.landed(vec![listing("/p", &[("/p/a.rs", false)])], vec![]);
    let (walk, _) = tab.set_filter(Some("b".to_string()), vec![]);
    assert!(walk);
    assert_eq!(tab.filter(), Some("b"));
    assert!(tab.rows.is_empty());
    let (said, _) = tab.walk_landed(
        Walk { files: vec!["/p/a.rs".to_string()], capped: true },
        1,
        vec![],
    );
    assert!(said.is_some());
    let (walk, _) = tab.set_filter(None, vec![]);
    assert!(!walk);
    assert_eq!(tab.filter(), None);
    assert_eq!(tab.rows.len(), 1);
}

#[test]
fn renaming_back_brings_a_buffer_back() {
    let there = retarget_documents(&vec![document(1, "/p/src/a.rs", false)], "/p/src", "/p/lib");
    let docs = vec![document(1, &there[0].1, false)];
    assert_eq!(
        retarget_documents(&docs, "/p/lib", "/p/src"),
        [(1, "/p/src/a.rs".to_string())]
    );
}

#[test]
fn the_name_offered_renames_nothing() {
    let ask = prompt_rename(&target(Some("/p/src/a.rs"), false)).unwrap();
    assert!(matches!(to_rename("/p", "/p/src/a.rs", &ask.line()), Renaming::Nothing));
}

#[test]
fn what_is_being_read_is_not_asked_again() {
    let mut tab = FilesTab::new("/p".to_string());
    let dirs = vec!["/p/a".to_string(), "/p//a".to_string(), "/p/b".to_string()];
    assert_eq!(tab.ask(&dirs), ["/p/a", "/p/b"]);
    assert!(tab.ask(&dirs).is_empty());
}
