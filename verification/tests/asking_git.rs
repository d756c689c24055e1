use coil::git::{
    blame, commit_files, fed, file_log, log, parse_blame, parse_log, parse_name_status, parse_status,
    pathspec, prefix, run, show, status, BlameRequest, Change, ChangedFile, Fed, Outcome, Step,
};

fn root() -> String {
    "/repo/sub".to_string()
}

fn below(name: &str) -> String {
    std::path::Path::new("/repo/sub").join(name).to_str().unwrap().to_string()
}

fn args<T>(step: Step<T>) -> Vec<String> {
    match step {
        Step::Run(args) => args,
        Step::Done(_) => panic!("git is asked nothing"),
    }
}

fn done<T>(step: Step<T>) -> Result<T, String> {
    match step {
        Step::Run(args) => panic!("git is asked {args:?}"),
        Step::Done(answer) => answer,
    }
}

#[test]
fn status_keeps_what_is_below_the_root_and_reads_a_rename() {
    let status =
        b" M sub/a.txt\0?? sub/new.txt\0R  sub/moved.txt\0sub/old.txt\0 D other/gone.txt\0";
    let files = parse_status(status, "sub/", &root()).unwrap();
    assert_eq!(
        files,
        vec![
            ChangedFile {
                path: below("a.txt"),
                change: Change::Modified,
                from: None,
            },
            ChangedFile {
                path: below("new.txt"),
                change: Change::Added,
                from: None,
            },
            ChangedFile {
                path: below("moved.txt"),
                change: Change::Renamed,
                from: Some("sub/old.txt".into()),
            },
        ]
    );
}

#[test]
fn status_refuses_an_entry_it_cannot_read() {
    assert!(parse_status(b"M\0", "", &root()).is_err());
}

#[test]
fn an_unreadable_entry_is_quoted() {
    assert_eq!(
        parse_status(b"M\"\0", "", &root()).unwrap_err(),
        "git status: unreadable entry \"M\\\"\""
    );
}

#[test]
fn a_path_that_is_no_text_is_read_with_marks_in_it() {
    let files = parse_status(b" M a\xff.txt\0", "", "/r").unwrap();
    assert_eq!(files[0].path, "/r/a\u{fffd}.txt");
}

#[test]
fn a_copy_in_the_second_column_carries_its_source() {
    let files = parse_status(b" C to\0from\0?? last\0", "", "/r").unwrap();
    assert_eq!(files.len(), 2);
    assert_eq!(files[0].change, Change::Added);
    assert_eq!(files[0].from.as_deref(), Some("from"));
    assert_eq!(files[1].path, "/r/last");
}

#[test]
fn log_reads_a_page_of_commits() {
    let log = b"abc123full\x1fabc123f\x1f1700000000\x1ffirst: subject\0def456full\x1fdef456f\x1f1699999999\x1fsecond\0";
    let commits = parse_log(log).unwrap();
    assert_eq!(commits.len(), 2);
    assert_eq!(commits[0].short, "abc123f");
    assert_eq!(commits[0].time, 1700000000);
    assert_eq!(commits[0].subject, "first: subject");
    assert_eq!(commits[0].file, None);
    assert_eq!(commits[1].subject, "second");
}

#[test]
fn a_file_log_names_the_file_as_each_commit_had_it() {
    let log = b"h1\x1fh1\x1f10\x1fmoved it\0\nR100\0old/name.rs\0new/name.rs\0h2\x1fh2\x1f9\x1fwrote it\0\nA\0old/name.rs\0";
    let commits = parse_log(log).unwrap();
    assert_eq!(commits.len(), 2);
    assert_eq!(commits[0].file.as_deref(), Some("new/name.rs"));
    assert_eq!(commits[0].file_from.as_deref(), Some("old/name.rs"));
    assert_eq!(commits[1].file.as_deref(), Some("old/name.rs"));
    assert_eq!(commits[1].file_from, None);
}

#[test]
fn log_refuses_an_unreadable_date() {
    assert!(parse_log(b"h\x1fh\x1fyesterday\x1fs\0").is_err());
}

#[test]
fn what_a_log_cannot_be_read_for_is_said() {
    assert_eq!(
        parse_log(b"h\x1fh\x1fyesterday\x1fs\0").unwrap_err(),
        "git log: unreadable date \"yesterday\""
    );
    assert_eq!(
        parse_log(b"h\x1fh\x1f3\0").unwrap_err(),
        "git log: unreadable entry \"h\\u{1f}h\\u{1f}3\""
    );
    assert_eq!(
        parse_log(b"A\0name\0").unwrap_err(),
        "git log: unreadable entry \"A\""
    );
    assert_eq!(
        parse_log(b"h\x1fh\x1f3\x1fs\0\nR100\0from").unwrap_err(),
        "git log: unreadable entry \"R100\""
    );
}

#[test]
fn a_subject_may_hold_anything() {
    let commits = parse_log(b"h\x1fs\x1f-5\x1fa\x1fb\0").unwrap();
    assert_eq!(commits[0].subject, "a\u{1f}b");
    assert_eq!(commits[0].time, -5);
}

#[test]
fn a_commit_listing_reads_letters_sources_and_paths() {
    let listing = b"M\0sub/a.rs\0R090\0sub/from.rs\0sub/to.rs\0A\0elsewhere.rs\0";
    let files = parse_name_status(listing, "sub/", &root()).unwrap();
    assert_eq!(
        files,
        vec![
            ChangedFile {
                path: below("a.rs"),
                change: Change::Modified,
                from: None,
            },
            ChangedFile {
                path: below("to.rs"),
                change: Change::Renamed,
                from: Some("sub/from.rs".into()),
            },
        ]
    );
}

#[test]
fn a_listing_that_ends_early_is_refused() {
    assert_eq!(
        parse_name_status(b"R100", "", "/r").unwrap_err(),
        "git show: a rename without its source"
    );
    assert_eq!(
        parse_name_status(b"M", "", "/r").unwrap_err(),
        "git show: M names no file"
    );
}

#[test]
fn blame_reads_the_commit_of_a_line() {
    let answer = "4da9363b7cb5cab71da15e39617e64a4a4127c5a 10 10 1\n\
            author Santiago Corredoira\n\
            author-mail <s@example.com>\n\
            committer-time 1786727071\n\
            summary docs: the subject\n\
            filename README.md\n\
            \tthe line itself\n";
    let blame = parse_blame(answer).unwrap();
    assert_eq!(blame.author, "Santiago Corredoira");
    let commit = blame.commit.unwrap();
    assert_eq!(commit.short, "4da9363");
    assert_eq!(commit.time, 1786727071);
    assert_eq!(commit.subject, "docs: the subject");
    assert_eq!(commit.file.as_deref(), Some("README.md"));
}

#[test]
fn blame_of_an_uncommitted_line_has_no_commit() {
    let answer = "0000000000000000000000000000000000000000 3 3 1\n\
            author Not Committed Yet\n\
            committer-time 1786727071\n\
            summary Version of README.md from standard input\n\
            filename README.md\n\
            \tnew line\n";
    let blame = parse_blame(answer).unwrap();
    assert_eq!(blame.author, "Not Committed Yet");
    assert_eq!(blame.commit, None);
}

#[test]
fn a_blame_that_cannot_be_read_is_refused() {
    assert_eq!(parse_blame("").unwrap_err(), "git blame: no answer");
    assert_eq!(
        parse_blame("abc 1 1\ncommitter-time soon\n").unwrap_err(),
        "git blame: unreadable date \"soon\""
    );
}

#[test]
fn changes_are_told_by_their_letters() {
    assert_eq!(Change::Modified.letter(), "M");
    assert_eq!(Change::Added.letter(), "A");
    assert_eq!(Change::Deleted.letter(), "D");
    assert_eq!(Change::Renamed.letter(), "R");
    assert_eq!(pathspec("a b"), ":(top,literal)a b");
}

#[test]
fn a_run_that_failed_says_why() {
    let failed = Outcome::Failed(b"fatal: not a repository\nmore\n".to_vec());
    assert_eq!(run("status", failed).unwrap_err(), "git status: fatal: not a repository");
    assert_eq!(run("log", Outcome::Failed(Vec::new())).unwrap_err(), "git log: failed");
    let unstarted = Outcome::Unstarted("no such file".to_string());
    assert_eq!(run("log", unstarted).unwrap_err(), "git: no such file");
    assert_eq!(run("log", Outcome::Output(vec![1])).unwrap(), vec![1]);
}

#[test]
fn the_status_is_asked_after_the_prefix() {
    assert_eq!(args(status("/r", &vec![])), ["rev-parse", "--show-prefix"]);
    let prefix = Ok(b"sub/\n".to_vec());
    assert_eq!(
        args(status("/r/sub", &vec![prefix.clone()])),
        ["status", "--porcelain=v1", "-z", "--untracked-files=all"]
    );
    let listed = Ok(b" M sub/a\0".to_vec());
    let files = done(status("/r/sub", &vec![prefix, listed])).unwrap();
    assert_eq!(files[0].path, "/r/sub/a");
    let failed = done(status("/r", &vec![Err("git: gone".to_string())]));
    assert_eq!(failed.unwrap_err(), "git: gone");
}

#[test]
fn the_prefix_ends_where_its_text_does() {
    assert_eq!(args(prefix(&vec![])), ["rev-parse", "--show-prefix"]);
    assert_eq!(done(prefix(&vec![Ok(b"a/b/\r\n".to_vec())])).unwrap(), "a/b/");
}

#[test]
fn a_page_of_history_starts_where_it_is_asked() {
    assert_eq!(
        args(log(400, &vec![])),
        [
            "log",
            "-z",
            "--abbrev=7",
            "--format=%H%x1f%h%x1f%ct%x1f%s",
            "--skip=400",
            "--max-count=200",
        ]
    );
    assert!(done(log(0, &vec![Ok(Vec::new())])).unwrap().is_empty());
}

#[test]
fn a_file_is_followed_across_renames() {
    assert_eq!(
        args(file_log("a/b.rs", &vec![])),
        [
            "log",
            "-z",
            "--abbrev=7",
            "--format=%H%x1f%h%x1f%ct%x1f%s",
            "--follow",
            "--name-status",
            "--",
            "a/b.rs",
        ]
    );
}

#[test]
fn a_commit_tells_its_files_and_the_prefix() {
    let first = Ok(b"\n".to_vec());
    assert_eq!(
        args(commit_files("/r", "abc", &vec![first.clone()])),
        [
            "show",
            "--format=",
            "--name-status",
            "-z",
            "-M",
            "--diff-merges=first-parent",
            "--no-color",
            "abc",
        ]
    );
    let (prefix, files) =
        done(commit_files("/r", "abc", &vec![first.clone(), Ok(b"D\0x\0".to_vec())])).unwrap();
    assert_eq!(prefix, "");
    assert_eq!(files[0].change, Change::Deleted);
    assert!(done(commit_files("/r", "abc", &vec![first, Ok(b"D".to_vec())])).is_err());
}

#[test]
fn a_patch_is_asked_for_its_paths() {
    let specs = vec![":(top,literal)a".to_string()];
    let asked = args(show("abc", &specs, &vec![]));
    assert_eq!(asked[6..], ["abc", "--", ":(top,literal)a"]);
    assert_eq!(done(show("abc", &specs, &vec![Ok(b"+x\n".to_vec())])).unwrap(), "+x\n");
}

#[test]
fn a_line_is_blamed_by_its_number() {
    let request = BlameRequest {
        path: "/r/a.rs".to_string(),
        line: 9,
        contents: String::new(),
    };
    assert_eq!(
        args(blame(&request, None)),
        ["blame", "--porcelain", "-L", "10,10", "--contents", "-", "--", "/r/a.rs"]
    );
    let told = |outcome| done(blame(&request, Some(outcome))).unwrap_err();
    assert_eq!(told(Fed::Unstarted("x".into())), "git: x");
    assert_eq!(told(Fed::Unwaited("x".into())), "git blame: x");
    assert_eq!(told(Fed::Unwritten("x".into())), "git blame: x");
    assert_eq!(told(Fed::Failed(b"fatal: no\n".to_vec())), "git blame: fatal: no");
    assert_eq!(told(Fed::Output(Vec::new())), "git blame: no answer");
}

#[test]
fn a_git_that_failed_says_why_before_the_broken_pipe() {
    let broken = || Some("broken pipe".to_string());
    assert!(matches!(fed(false, broken(), vec![1], vec![2]), Fed::Failed(why) if why == [2]));
    assert!(matches!(fed(true, broken(), vec![1], vec![2]), Fed::Unwritten(_)));
    assert!(matches!(fed(true, None, vec![1], vec![2]), Fed::Output(out) if out == [1]));
}
