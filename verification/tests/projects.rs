use coil::age::format_age;
use coil::commands::{
    blame_landed, blame_line, blame_said, file_history, review_code_toggle,
    review_commits_toggle, review_context_toggle, BlameTurn, LastBlame, Review,
};
use coil::diff_view::{DiffTarget, DiffView, Landing, Toggle};
use coil::git::{Blame, BlameRequest, Commit};
use coil::message::{say, say_errors};
use coil::panel_width;
use coil::session::{key, session_file, sessions_dir, temp_file};

#[test]
fn two_projects_called_the_same_are_two_sessions() {
    let one = key("/home/someone/work/site");
    let two = key("/home/someone/play/site");

    assert!(one.starts_with("site-"));
    assert!(two.starts_with("site-"));
    assert_ne!(one, two);

    // And the same project is the same session, run after run.
    assert_eq!(one, key("/home/someone/work/site"));
}

#[test]
fn a_project_without_a_folder_has_a_name() {
    // The hash of the single byte `/`.
    assert_eq!(key("/"), "workspace-af63a24c860189fe");
    // The hash of nothing.
    assert_eq!(key(""), "workspace-cbf29ce484222325");
}

#[test]
fn a_session_is_kept_under_its_key() {
    assert_eq!(sessions_dir("/data"), "/data/sessions");
    assert_eq!(session_file("/data", "/"), "/data/sessions/workspace-af63a24c860189fe.toml");
    assert_eq!(
        temp_file("/data", "/", 42),
        "/data/sessions/.workspace-af63a24c860189fe.42.toml"
    );
}

#[test]
fn a_width_is_kept_under_its_name() {
    assert_eq!(panel_width::state_file("/data", "sidebar"), "/data/sidebar.toml");
    assert_eq!(panel_width::temp_file("/data", "sidebar", 7), "/data/.sidebar.7.toml");
}

#[test]
fn an_age_reads_in_few_characters() {
    assert_eq!(format_age(100, 100), "0m");
    assert_eq!(format_age(0, 59 * 60 + 59), "59m");
    assert_eq!(format_age(0, 3 * 3600), "3h");
    assert_eq!(format_age(0, 2 * 86400), "2d");
    assert_eq!(format_age(0, 61 * 86400), "2mo");
    assert_eq!(format_age(0, 800 * 86400), "2y");
    assert_eq!(format_age(100, 0), "0m");
    assert_eq!(format_age(i64::MIN, i64::MAX), "584942417355y");
}

#[test]
fn messages_are_kept_in_order() {
    let mut messages = Vec::new();
    say(&mut messages, "a".to_string(), false);
    say_errors(&mut messages, vec!["b".to_string(), "c".to_string()]);
    let told: Vec<(&str, bool)> =
        messages.iter().map(|message| (message.text.as_str(), message.is_error)).collect();
    assert_eq!(told, [("a", false), ("b", true), ("c", true)]);
}

fn commit() -> Commit {
    Commit {
        hash: "abcdef0123".to_string(),
        short: "abcdef0".to_string(),
        time: 0,
        subject: "the subject".to_string(),
        file: None,
        file_from: None,
    }
}

fn request(line: usize) -> BlameRequest {
    BlameRequest { path: "/r/a.rs".to_string(), line, contents: "text".to_string() }
}

#[test]
fn a_buffer_without_a_file_is_refused() {
    assert_eq!(
        file_history(None).unwrap_err(),
        "The buffer has no file to show the history of"
    );
    assert_eq!(file_history(Some("/r/a".to_string())).unwrap(), "/r/a");
    match blame_line(None, 3, String::new(), &None) {
        BlameTurn::Refused(why) => assert_eq!(why, "The buffer has no file to blame"),
        _ => panic!("nothing to blame"),
    }
}

#[test]
fn blaming_again_opens_the_commit() {
    let path = Some("/r/a.rs".to_string());
    match blame_line(path.clone(), 3, "text".to_string(), &None) {
        BlameTurn::Ask(asked) => assert_eq!((asked.line, asked.contents.as_str()), (3, "text")),
        _ => panic!("git is asked"),
    }
    let blame = Blame { author: "Someone".to_string(), commit: Some(commit()) };
    let (message, last) = blame_landed(request(3), Ok(blame), 7200);
    assert_eq!(
        message.text,
        "abcdef0 · Someone · 2h ago · the subject (blame again to open it)"
    );
    assert!(!message.is_error);
    match blame_line(path.clone(), 3, String::new(), &last) {
        BlameTurn::Open(opened) => assert_eq!(opened, commit()),
        _ => panic!("the commit is opened"),
    }
    assert!(matches!(blame_line(path, 4, String::new(), &last), BlameTurn::Ask(_)));
}

#[test]
fn an_uncommitted_line_opens_nothing() {
    let blame = Blame { author: "Not Committed Yet".to_string(), commit: None };
    assert_eq!(blame_said(&blame, 0), "Not committed yet");
    let last = Some(LastBlame { path: "/r//a.rs".to_string(), line: 3, blame });
    match blame_line(Some("/r/a.rs".to_string()), 3, String::new(), &last) {
        BlameTurn::Uncommitted(status) => assert_eq!(status, "Not committed yet"),
        _ => panic!("there is no commit"),
    }
    let (message, last) = blame_landed(request(3), Err("git: gone".to_string()), 0);
    assert!(message.is_error && last.is_none());
    assert_eq!(message.text, "git: gone");
}

#[test]
fn each_toggle_is_its_own() {
    assert!(matches!(review_commits_toggle(), Review::Commits));
    assert!(matches!(review_code_toggle(), Review::Code));
    assert!(matches!(review_context_toggle(), Review::Context));
}

fn target(name: &str) -> DiffTarget {
    DiffTarget { hash: "abc".to_string(), pathspecs: vec![], name: name.to_string() }
}

#[test]
fn a_patch_is_asked_once() {
    let mut view = DiffView::new("/r".to_string());
    let asked = view.ask(target("a")).unwrap();
    assert!(view.ask(target("a")).is_none());
    assert!(matches!(view.landed(&asked, None), Landing::Show(_)));
    assert!(matches!(view.landed(&asked, Some("git: gone".to_string())), Landing::Fault(_)));
    assert!(view.ask(target("b")).is_some());
    assert!(matches!(view.landed(&asked, None), Landing::Dropped));
    view.forget();
    assert!(view.ask(target("b")).is_some());
}

#[test]
fn the_context_is_toggled_on_the_patch() {
    let mut view = DiffView::new("/r".to_string());
    assert!(!view.full_context());
    assert!(matches!(view.toggle_context(9, false), Toggle::Refused(_)));
    view.ask(target("a"));
    view.shown_in(9);
    assert!(matches!(view.toggle_context(9, false), Toggle::Refused(_)));
    match view.toggle_context(9, true) {
        Toggle::Ask(again) => assert!(again.full_context),
        _ => panic!("the patch is asked again"),
    }
    assert!(view.full_context());
    assert!(view.show(&vec![9], 1, Some(4)).switch);
    assert_eq!(view.show(&vec![9], 9, Some(4)).cursor, Some(4));
    assert_eq!(view.show(&vec![], 1, None).doc, None);
}
