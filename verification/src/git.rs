//! What the sidebar asks git, and how git's answers are read. Every question is git's own to
//! answer, so the sidebar agrees with the command line on what is ignored, renamed or changed.
//!
//! A question is a step: given the answers of the runs made so far, it names the arguments git
//! is to be run with next, or says what the whole came to.

use vstd::prelude::*;
use vstd::slice::*;
use vstd::string::*;

use crate::number::{self, to_decimal, to_integer};
use crate::path::{self, join};
use crate::split::{self, cut_once, split_bytes, to_lines};
use crate::text::{
    self, chars_of, copy_optional, from_lossy, holds, part, push_word, quote, spells, string_of,
    trimmed_end,
};

verus! {

/// How many commits one `git log` reads; the next page is read as the cursor nears the end.
pub const LOG_PAGE: usize = 200;

/// What keeps the fields of a commit's record apart.
pub const FIELD: char = '\u{1f}';

const FIELD_BYTE: u8 = 0x1f;

const LINE_FEED: u8 = 0x0a;

const QUESTION: u8 = 0x3f;

const LETTER_A: u8 = 0x41;

const LETTER_C: u8 = 0x43;

const LETTER_D: u8 = 0x44;

const LETTER_R: u8 = 0x52;

#[derive(Clone, Copy, PartialEq, Eq, Structural, Debug)]
pub enum Change {
    Modified,
    Added,
    Deleted,
    Renamed,
}

/// What the two columns of a `git status` entry say of a file, read as one.
pub open spec fn status_change(index: u8, worktree: u8) -> Change {
    let either = |code: char| index == code as u8 || worktree == code as u8;
    if either('?') {
        Change::Added
    } else if either('D') {
        Change::Deleted
    } else if either('R') {
        Change::Renamed
    } else if either('A') || either('C') {
        Change::Added
    } else {
        Change::Modified
    }
}

/// What a `--name-status` letter says of a file in a commit.
pub open spec fn listed_change(status: u8) -> Change {
    if status == 'A' as u8 || status == 'C' as u8 {
        Change::Added
    } else if status == 'D' as u8 {
        Change::Deleted
    } else if status == 'R' as u8 {
        Change::Renamed
    } else {
        Change::Modified
    }
}

/// Whether a letter says that the path a file came from is told with it.
pub open spec fn has_source(letter: u8) -> bool {
    letter == 'R' as u8 || letter == 'C' as u8
}

impl Change {
    pub open spec fn mark(self) -> Seq<char> {
        match self {
            Change::Modified => "M"@,
            Change::Added => "A"@,
            Change::Deleted => "D"@,
            Change::Renamed => "R"@,
        }
    }

    pub fn letter(self) -> (letter: &'static str)
        ensures
            letter@ == self.mark(),
    {
        match self {
            Change::Modified => "M",
            Change::Added => "A",
            Change::Deleted => "D",
            Change::Renamed => "R",
        }
    }

    /// What one `git status` entry says of a file, both columns read as one: staged or not
    /// makes no difference to a list of what changed.
    pub fn from_status(index: u8, worktree: u8) -> (change: Self)
        ensures
            change == status_change(index, worktree),
    {
        if index == QUESTION || worktree == QUESTION {
            Change::Added
        } else if index == LETTER_D || worktree == LETTER_D {
            Change::Deleted
        } else if index == LETTER_R || worktree == LETTER_R {
            Change::Renamed
        } else if index == LETTER_A || worktree == LETTER_A || index == LETTER_C || worktree
            == LETTER_C {
            Change::Added
        } else {
            Change::Modified
        }
    }

    /// What a `--name-status` letter says of a file in a commit.
    pub fn from_name_status(status: u8) -> (change: Self)
        ensures
            change == listed_change(status),
    {
        if status == LETTER_A || status == LETTER_C {
            Change::Added
        } else if status == LETTER_D {
            Change::Deleted
        } else if status == LETTER_R {
            Change::Renamed
        } else {
            Change::Modified
        }
    }
}

/// A file git reports as changed, in the working tree or in a commit.
#[derive(Debug, PartialEq, Eq)]
pub struct ChangedFile {
    pub path: String,
    pub change: Change,
    /// Where a renamed file came from, relative to the repository's top: a diff asked with
    /// both paths reads as a rename, with one alone as a new file.
    pub from: Option<String>,
}

/// What a changed file holds.
pub struct ChangedFileView {
    pub path: Seq<char>,
    pub change: Change,
    pub from: Option<Seq<char>>,
}

impl View for ChangedFile {
    type V = ChangedFileView;

    open spec fn view(&self) -> ChangedFileView {
        ChangedFileView {
            path: self.path@,
            change: self.change,
            from: text::optional(self.from),
        }
    }
}

impl Clone for ChangedFile {
    fn clone(&self) -> (copy: Self)
        ensures
            copy@ == self@,
    {
        ChangedFile {
            path: self.path.clone(),
            change: self.change,
            from: copy_optional(&self.from),
        }
    }
}

#[derive(Debug, PartialEq, Eq)]
pub struct Commit {
    pub hash: String,
    pub short: String,
    /// The committer's date, which a rebase renews, so ages read in the list's order.
    pub time: i64,
    pub subject: String,
    /// The file the commit was reached by (a file's history, a blame), relative to the
    /// repository's top and named as it was in that commit.
    pub file: Option<String>,
    /// Where that file came from when the commit renamed it.
    pub file_from: Option<String>,
}

/// What a commit holds.
pub struct CommitView {
    pub hash: Seq<char>,
    pub short: Seq<char>,
    pub time: int,
    pub subject: Seq<char>,
    pub file: Option<Seq<char>>,
    pub file_from: Option<Seq<char>>,
}

impl View for Commit {
    type V = CommitView;

    open spec fn view(&self) -> CommitView {
        CommitView {
            hash: self.hash@,
            short: self.short@,
            time: self.time as int,
            subject: self.subject@,
            file: text::optional(self.file),
            file_from: text::optional(self.file_from),
        }
    }
}

impl Clone for Commit {
    fn clone(&self) -> (copy: Self)
        ensures
            copy@ == self@,
    {
        Commit {
            hash: self.hash.clone(),
            short: self.short.clone(),
            time: self.time,
            subject: self.subject.clone(),
            file: copy_optional(&self.file),
            file_from: copy_optional(&self.file_from),
        }
    }
}

/// Who last changed a line, and in which commit; no commit when the change is not
/// committed yet.
#[derive(Debug, PartialEq, Eq)]
pub struct Blame {
    pub author: String,
    pub commit: Option<Commit>,
}

/// What a blame holds.
pub struct BlameView {
    pub author: Seq<char>,
    pub commit: Option<CommitView>,
}

/// The commit, if there is one.
pub open spec fn commit_view(commit: Option<Commit>) -> Option<CommitView> {
    match commit {
        Some(commit) => Some(commit@),
        None => None,
    }
}

impl View for Blame {
    type V = BlameView;

    open spec fn view(&self) -> BlameView {
        BlameView { author: self.author@, commit: commit_view(self.commit) }
    }
}

/// A line to blame: the file, its line from 0, and the buffer's text, which is what the line
/// numbers count.
pub struct BlameRequest {
    pub path: String,
    pub line: usize,
    pub contents: String,
}

pub type Answer<T> = Result<T, String>;

/// What git's answer about changed files holds.
pub open spec fn files_answer(answer: Answer<Vec<ChangedFile>>) -> Result<
    Seq<ChangedFileView>,
    Seq<char>,
> {
    match answer {
        Ok(files) => Ok(file_views(files@)),
        Err(why) => Err(why@),
    }
}

/// What several changed files hold.
pub open spec fn file_views(files: Seq<ChangedFile>) -> Seq<ChangedFileView> {
    files.map_values(|file: ChangedFile| file@)
}

/// What git's answer about the history holds.
pub open spec fn commits_answer(answer: Answer<Vec<Commit>>) -> Result<
    Seq<CommitView>,
    Seq<char>,
> {
    match answer {
        Ok(commits) => Ok(commit_views(commits@)),
        Err(why) => Err(why@),
    }
}

/// What several commits hold.
pub open spec fn commit_views(commits: Seq<Commit>) -> Seq<CommitView> {
    commits.map_values(|commit: Commit| commit@)
}

/// What git's answer to a blame holds.
pub open spec fn blame_answer(answer: Answer<Blame>) -> Result<BlameView, Seq<char>> {
    match answer {
        Ok(blame) => Ok(blame@),
        Err(why) => Err(why@),
    }
}

// ---- Asking ----

/// What asking comes to next: git is to be run with these arguments, or the answer is whole.
pub enum Step<T> {
    Run(Vec<String>),
    Done(Answer<T>),
}

/// How a run of git ended: it could not be started, it failed and said why, or it answered.
pub enum Outcome {
    Unstarted(String),
    Failed(Vec<u8>),
    Output(Vec<u8>),
}

/// The first line of what git said against a run.
pub open spec fn reason(stderr: Seq<u8>) -> Seq<char> {
    let said = split::lines(text::lossy(stderr));
    if said.len() == 0 {
        "failed"@
    } else {
        said[0]
    }
}

/// What a run of git came to.
pub open spec fn ran(command: Seq<char>, outcome: Outcome) -> Result<Seq<u8>, Seq<char>> {
    match outcome {
        Outcome::Unstarted(why) => Err("git: "@ + why@),
        Outcome::Failed(stderr) => Err("git "@ + command + ": "@ + reason(stderr@)),
        Outcome::Output(stdout) => Ok(stdout@),
    }
}

/// What a run's answer holds.
pub open spec fn bytes_answer(answer: Answer<Vec<u8>>) -> Result<Seq<u8>, Seq<char>> {
    match answer {
        Ok(stdout) => Ok(stdout@),
        Err(why) => Err(why@),
    }
}

/// The first line of what git said against a run.
fn first_reason(stderr: &Vec<u8>) -> (why: String)
    ensures
        why@ == reason(stderr@),
{
    let said = from_lossy(stderr.as_slice());
    let lines = to_lines(&chars_of(said.as_str()));
    assert(split::texts(lines@).len() == lines@.len());
    if lines.len() == 0 {
        "failed".to_owned()
    } else {
        assert(split::texts(lines@)[0] == lines@[0]@);
        string_of(&lines[0])
    }
}

/// What a run of git, `command` its first argument, came to: what it printed, or why it could
/// not be had.
pub fn run(command: &str, outcome: Outcome) -> (answer: Answer<Vec<u8>>)
    ensures
        bytes_answer(answer) == ran(command@, outcome),
{
    match outcome {
        Outcome::Unstarted(err) => {
            let mut why = "git: ".to_owned();
            why.append(err.as_str());
            Err(why)
        },
        Outcome::Failed(stderr) => {
            let mut why = "git ".to_owned();
            why.append(command);
            why.append(": ");
            why.append(first_reason(&stderr).as_str());
            Err(why)
        },
        Outcome::Output(stdout) => Ok(stdout),
    }
}

/// A pathspec naming one path from the repository's top, taken literally.
pub fn pathspec(top_relative: &str) -> (spec_text: String)
    ensures
        spec_text@ == ":(top,literal)"@ + top_relative@,
{
    let mut spec_text = ":(top,literal)".to_owned();
    spec_text.append(top_relative);
    spec_text
}

/// What is asked for the root's place in its repository.
pub open spec fn prefix_args() -> Seq<Seq<char>> {
    seq!["rev-parse"@, "--show-prefix"@]
}

/// Where the root sits, as git's answer tells it.
pub open spec fn prefix_of(stdout: Seq<u8>) -> Seq<char> {
    text::trim_end(text::lossy(stdout))
}

/// Where the root sits inside its repository, as git spells it: `""` or `"a/b/"`.
pub fn prefix(answers: &Vec<Answer<Vec<u8>>>) -> (step: Step<String>)
    ensures
        match step {
            Step::Run(args) => answers.len() == 0 && text::views(args@) == prefix_args(),
            Step::Done(Ok(prefix)) => {
                &&& answers.len() > 0
                &&& answers[0] matches Ok(stdout) && prefix@ == prefix_of(stdout@)
            },
            Step::Done(Err(why)) => {
                &&& answers.len() > 0
                &&& answers[0] matches Err(err) && why@ == err@
            },
        },
{
    if answers.len() == 0 {
        let mut args: Vec<String> = Vec::new();
        push_word(&mut args, "rev-parse");
        push_word(&mut args, "--show-prefix");
        assert(text::views(args@) =~= prefix_args());
        return Step::Run(args);
    }
    match &answers[0] {
        Err(err) => Step::Done(Err(err.clone())),
        Ok(stdout) => {
            let said = from_lossy(stdout.as_slice());
            Step::Done(Ok(string_of(&trimmed_end(&chars_of(said.as_str())))))
        },
    }
}

/// What is asked for what changed in the working tree.
pub open spec fn status_args() -> Seq<Seq<char>> {
    seq!["status"@, "--porcelain=v1"@, "-z"@, "--untracked-files=all"@]
}

/// Whether a path was placed below `root`: it lies there, unless what was put after the root is
/// a path from the top of the disk.
pub open spec fn rooted(path: Seq<char>, root: Seq<char>) -> bool {
    exists|rest: Seq<char>|
        path == #[trigger] path::joined(root, rest) && (path::absolute(rest) || path::below(
            path,
            root,
        ))
}

/// Every file of a list was placed below `root`.
pub open spec fn all_rooted(files: Seq<ChangedFileView>, root: Seq<char>) -> bool {
    forall|i: int| 0 <= i < files.len() ==> rooted((#[trigger] files[i]).path, root)
}

proof fn lemma_placed_rooted(
    name: Seq<char>,
    prefix: Seq<char>,
    root: Seq<char>,
    change: Change,
    from: Option<Seq<char>>,
)
    requires
        root.len() > 0,
    ensures
        all_rooted(placed(name, prefix, root, change, from), root),
{
    if text::starts_with(name, prefix) {
        let rest = name.skip(prefix.len() as int);
        if !path::absolute(rest) {
            path::law_join_lies_below(root, rest);
        }
        assert(rooted(path::joined(root, rest), root));
    }
}

/// A status names nothing but what was placed below the root.
pub proof fn law_a_status_stays_below_the_root(
    entries: Seq<Seq<u8>>,
    prefix: Seq<char>,
    root: Seq<char>,
)
    requires
        root.len() > 0,
    ensures
        status_read(entries, prefix, root) matches Ok(files) ==> all_rooted(files, root),
    decreases entries.len(),
{
    if entries.len() > 0 {
        if entries[0].len() == 0 {
            law_a_status_stays_below_the_root(entries.skip(1), prefix, root);
        } else if entries[0].len() >= 4 {
            let width = status_width(entries);
            let entry = entries[0];
            law_a_status_stays_below_the_root(entries.skip(width), prefix, root);
            lemma_placed_rooted(
                text::lossy(entry.skip(3)),
                prefix,
                root,
                status_change(entry[0], entry[1]),
                if width == 2 {
                    Some(text::lossy(entries[1]))
                } else {
                    None
                },
            );
        }
    }
}

/// What a commit changed is placed below the root.
pub proof fn law_a_commits_files_stay_below_the_root(
    entries: Seq<Seq<u8>>,
    prefix: Seq<char>,
    root: Seq<char>,
)
    requires
        root.len() > 0,
    ensures
        names_read(entries, prefix, root) matches Ok(files) ==> all_rooted(files, root),
    decreases entries.len(),
{
    if entries.len() > 0 {
        let status = entries[0];
        if status.len() == 0 {
            law_a_commits_files_stay_below_the_root(entries.skip(1), prefix, root);
        } else {
            let width = listing_width(status);
            if entries.len() >= width {
                law_a_commits_files_stay_below_the_root(entries.skip(width), prefix, root);
                lemma_placed_rooted(
                    text::lossy(entries[width - 1]),
                    prefix,
                    root,
                    listed_change(status[0]),
                    if width == 3 {
                        Some(text::lossy(entries[1]))
                    } else {
                        None
                    },
                );
            }
        }
    }
}

/// What `git status` names below `root`, ignore rules included: the root's place is asked
/// first, then the status.
pub fn status(root: &str, answers: &Vec<Answer<Vec<u8>>>) -> (step: Step<Vec<ChangedFile>>)
    ensures
        match step {
            Step::Run(args) => {
                ||| answers.len() == 0 && text::views(args@) == prefix_args()
                ||| answers.len() == 1 && answers[0] is Ok && text::views(args@) == status_args()
            },
            Step::Done(answer) => {
                ||| answers.len() > 0 && (answers[0] matches Err(err) && files_answer(answer)
                    == Err::<Seq<ChangedFileView>, Seq<char>>(err@))
                ||| answers.len() > 1 && answers[0] is Ok && (answers[1] matches Err(err)
                    && files_answer(answer) == Err::<Seq<ChangedFileView>, Seq<char>>(err@))
                ||| answers.len() > 1 && (answers[0] matches Ok(prefix) && (
                answers[1] matches Ok(listed) && files_answer(answer) == status_read(
                    split::split(listed@, 0u8),
                    prefix_of(prefix@),
                    root@,
                )))
            },
        },
{
    let prefix = match prefix(answers) {
        Step::Run(args) => return Step::Run(args),
        Step::Done(Err(err)) => return Step::Done(Err(err)),
        Step::Done(Ok(prefix)) => prefix,
    };
    if answers.len() == 1 {
        let mut args: Vec<String> = Vec::new();
        push_word(&mut args, "status");
        push_word(&mut args, "--porcelain=v1");
        push_word(&mut args, "-z");
        push_word(&mut args, "--untracked-files=all");
        assert(text::views(args@) =~= status_args());
        return Step::Run(args);
    }
    match &answers[1] {
        Err(err) => Step::Done(Err(err.clone())),
        Ok(listed) => Step::Done(parse_status(listed.as_slice(), prefix.as_str(), root)),
    }
}

/// What every `git log` is asked with: the fields of a record, kept apart by one character.
pub open spec fn log_args() -> Seq<Seq<char>> {
    seq!["log"@, "-z"@, "--abbrev=7"@, "--format=%H%x1f%h%x1f%ct%x1f%s"@]
}

/// What is asked for a page of the history.
pub open spec fn page_args(skip: nat) -> Seq<Seq<char>> {
    log_args().push("--skip="@ + number::decimal(skip)).push(
        "--max-count="@ + number::decimal(LOG_PAGE as nat),
    )
}

/// What is asked for the history of one file.
pub open spec fn followed_args(path: Seq<char>) -> Seq<Seq<char>> {
    log_args() + seq!["--follow"@, "--name-status"@, "--"@, path]
}

fn log_words() -> (args: Vec<String>)
    ensures
        text::views(args@) == log_args(),
{
    let mut args: Vec<String> = Vec::new();
    push_word(&mut args, "log");
    push_word(&mut args, "-z");
    push_word(&mut args, "--abbrev=7");
    push_word(&mut args, "--format=%H%x1f%h%x1f%ct%x1f%s");
    assert(text::views(args@) =~= log_args());
    args
}

/// What the history's answer comes to.
pub open spec fn log_step(
    args: Seq<Seq<char>>,
    answers: Seq<Answer<Vec<u8>>>,
    step: Step<Vec<Commit>>,
) -> bool {
    match step {
        Step::Run(asked) => answers.len() == 0 && text::views(asked@) == args,
        Step::Done(answer) => answers.len() > 0 && match answers[0] {
            Ok(log) => commits_answer(answer) == log_read(split::split(log@, 0u8), Seq::empty()),
            Err(err) => commits_answer(answer) == Err::<Seq<CommitView>, Seq<char>>(err@),
        },
    }
}

/// One page of history, newest first, starting `skip` commits down from HEAD.
pub fn log(skip: usize, answers: &Vec<Answer<Vec<u8>>>) -> (step: Step<Vec<Commit>>)
    ensures
        log_step(page_args(skip as nat), answers@, step),
{
    if answers.len() == 0 {
        let mut args = log_words();
        let mut from = "--skip=".to_owned();
        from.append(to_decimal(skip as u64).as_str());
        push_word(&mut args, from.as_str());
        let mut count = "--max-count=".to_owned();
        count.append(to_decimal(LOG_PAGE as u64).as_str());
        push_word(&mut args, count.as_str());
        return Step::Run(args);
    }
    match &answers[0] {
        Err(err) => Step::Done(Err(err.clone())),
        Ok(log) => Step::Done(parse_log(log.as_slice())),
    }
}

/// The whole history of one file below the root, followed across renames, each commit
/// carrying the name the file had in it. Read whole: `--follow` miscounts `--skip`.
pub fn file_log(path: &str, answers: &Vec<Answer<Vec<u8>>>) -> (step: Step<Vec<Commit>>)
    ensures
        log_step(followed_args(path@), answers@, step),
{
    if answers.len() == 0 {
        let mut args = log_words();
        push_word(&mut args, "--follow");
        push_word(&mut args, "--name-status");
        push_word(&mut args, "--");
        push_word(&mut args, path);
        assert(text::views(args@) =~= followed_args(path@));
        return Step::Run(args);
    }
    match &answers[0] {
        Err(err) => Step::Done(Err(err.clone())),
        Ok(log) => Step::Done(parse_log(log.as_slice())),
    }
}

/// What is asked for what a commit changed.
pub open spec fn listing_args(hash: Seq<char>) -> Seq<Seq<char>> {
    seq![
        "show"@,
        "--format="@,
        "--name-status"@,
        "-z"@,
        "-M"@,
        "--diff-merges=first-parent"@,
        "--no-color"@,
        hash,
    ]
}

/// What one commit changed below `root` (a merge against its first parent), and where the
/// root sits inside the repository, which the diffs are then asked with.
pub fn commit_files(root: &str, hash: &str, answers: &Vec<Answer<Vec<u8>>>) -> (step: Step<
    (String, Vec<ChangedFile>),
>)
    ensures
        match step {
            Step::Run(args) => {
                ||| answers.len() == 0 && text::views(args@) == prefix_args()
                ||| answers.len() == 1 && answers[0] is Ok && text::views(args@) == listing_args(
                    hash@,
                )
            },
            Step::Done(Ok(found)) => {
                &&& answers.len() > 1
                &&& answers[0] matches Ok(prefix) && found.0@ == prefix_of(prefix@)
                &&& answers[1] matches Ok(listed) && names_read(
                    split::split(listed@, 0u8),
                    found.0@,
                    root@,
                ) == Ok::<Seq<ChangedFileView>, Seq<char>>(file_views(found.1@))
            },
            Step::Done(Err(why)) => {
                ||| answers.len() > 0 && (answers[0] matches Err(err) && why@ == err@)
                ||| answers.len() > 1 && answers[0] is Ok && (answers[1] matches Err(err) && why@
                    == err@)
                ||| answers.len() > 1 && (answers[0] matches Ok(prefix) && (
                answers[1] matches Ok(listed) && names_read(
                    split::split(listed@, 0u8),
                    prefix_of(prefix@),
                    root@,
                ) == Err::<Seq<ChangedFileView>, Seq<char>>(why@)))
            },
        },
{
    let prefix = match prefix(answers) {
        Step::Run(args) => return Step::Run(args),
        Step::Done(Err(err)) => return Step::Done(Err(err)),
        Step::Done(Ok(prefix)) => prefix,
    };
    if answers.len() == 1 {
        let mut args: Vec<String> = Vec::new();
        push_word(&mut args, "show");
        push_word(&mut args, "--format=");
        push_word(&mut args, "--name-status");
        push_word(&mut args, "-z");
        push_word(&mut args, "-M");
        push_word(&mut args, "--diff-merges=first-parent");
        push_word(&mut args, "--no-color");
        push_word(&mut args, hash);
        assert(text::views(args@) =~= listing_args(hash@));
        return Step::Run(args);
    }
    match &answers[1] {
        Err(err) => Step::Done(Err(err.clone())),
        Ok(listed) => match parse_name_status(listed.as_slice(), prefix.as_str(), root) {
            Err(err) => Step::Done(Err(err)),
            Ok(files) => Step::Done(Ok((prefix, files))),
        },
    }
}

/// What is asked for a commit's patch.
pub open spec fn show_args(hash: Seq<char>, pathspecs: Seq<Seq<char>>) -> Seq<Seq<char>> {
    seq![
        "show"@,
        "--format=medium"@,
        "--no-color"@,
        "--no-ext-diff"@,
        "-M"@,
        "--diff-merges=first-parent"@,
        hash,
        "--"@,
    ] + pathspecs
}

/// A commit's patch narrowed to `pathspecs`, under the commit's own header, as `git show`
/// prints it.
pub fn show(hash: &str, pathspecs: &Vec<String>, answers: &Vec<Answer<Vec<u8>>>) -> (step: Step<
    String,
>)
    ensures
        match step {
            Step::Run(args) => answers.len() == 0 && text::views(args@) == show_args(
                hash@,
                text::views(pathspecs@),
            ),
            Step::Done(Ok(patch)) => {
                &&& answers.len() > 0
                &&& answers[0] matches Ok(stdout) && patch@ == text::lossy(stdout@)
            },
            Step::Done(Err(why)) => {
                &&& answers.len() > 0
                &&& answers[0] matches Err(err) && why@ == err@
            },
        },
{
    if answers.len() == 0 {
        let mut args: Vec<String> = Vec::new();
        push_word(&mut args, "show");
        push_word(&mut args, "--format=medium");
        push_word(&mut args, "--no-color");
        push_word(&mut args, "--no-ext-diff");
        push_word(&mut args, "-M");
        push_word(&mut args, "--diff-merges=first-parent");
        push_word(&mut args, hash);
        push_word(&mut args, "--");
        let ghost specs = text::views(pathspecs@);
        assert(text::views(args@) =~= show_args(hash@, specs.take(0)));
        for i in 0..pathspecs.len()
            invariant
                specs == text::views(pathspecs@),
                text::views(args@) == show_args(hash@, specs.take(i as int)),
        {
            push_word(&mut args, pathspecs[i].as_str());
            assert(specs[i as int] == pathspecs@[i as int]@);
            assert(text::views(args@) =~= show_args(hash@, specs.take(i + 1)));
        }
        assert(specs.take(pathspecs.len() as int) =~= specs);
        return Step::Run(args);
    }
    match &answers[0] {
        Err(err) => Step::Done(Err(err.clone())),
        Ok(stdout) => Step::Done(Ok(from_lossy(stdout.as_slice()))),
    }
}

/// How a run of git that was fed a text ended: besides what a run comes to, it may not have
/// been waited for, or not have taken the text whole though it answered.
pub enum Fed {
    Unstarted(String),
    Unwaited(String),
    Failed(Vec<u8>),
    Unwritten(String),
    Output(Vec<u8>),
}

/// How a run of git that was fed a text ended, once it was waited for. A git that gave up before
/// reading says why; the broken pipe it leaves behind does not.
pub fn fed(success: bool, written: Option<String>, stdout: Vec<u8>, stderr: Vec<u8>) -> (ended: Fed)
    ensures
        ended == if !success {
            Fed::Failed(stderr)
        } else {
            match written {
                Some(err) => Fed::Unwritten(err),
                None => Fed::Output(stdout),
            }
        },
{
    if !success {
        return Fed::Failed(stderr);
    }
    match written {
        Some(err) => Fed::Unwritten(err),
        None => Fed::Output(stdout),
    }
}

/// What is asked for the commit of one line.
pub open spec fn blame_args(path: Seq<char>, line: nat) -> Seq<Seq<char>> {
    let number = number::decimal(line + 1);
    seq![
        "blame"@,
        "--porcelain"@,
        "-L"@,
        number + ","@ + number,
        "--contents"@,
        "-"@,
        "--"@,
        path,
    ]
}

/// What a blame came to.
pub open spec fn blamed(outcome: Fed) -> Result<BlameView, Seq<char>> {
    match outcome {
        Fed::Unstarted(err) => Err("git: "@ + err@),
        Fed::Unwaited(err) => Err("git blame: "@ + err@),
        Fed::Failed(stderr) => Err("git blame: "@ + reason(stderr@)),
        Fed::Unwritten(err) => Err("git blame: "@ + err@),
        Fed::Output(stdout) => blame_read(text::lossy(stdout@)),
    }
}

/// Blames one line of the buffer's text as git would the file with that text in it: a line
/// changed since the last commit belongs to no commit.
pub fn blame(request: &BlameRequest, outcome: Option<Fed>) -> (step: Step<Blame>)
    requires
        request.line < usize::MAX,
    ensures
        match step {
            Step::Run(args) => outcome is None && text::views(args@) == blame_args(
                request.path@,
                request.line as nat,
            ),
            Step::Done(answer) => outcome matches Some(ended) && blame_answer(answer) == blamed(
                ended,
            ),
        },
{
    match outcome {
        None => {
            let number = to_decimal((request.line + 1) as u64);
            let mut range = number.clone();
            range.append(",");
            range.append(number.as_str());
            let mut args: Vec<String> = Vec::new();
            push_word(&mut args, "blame");
            push_word(&mut args, "--porcelain");
            push_word(&mut args, "-L");
            push_word(&mut args, range.as_str());
            push_word(&mut args, "--contents");
            push_word(&mut args, "-");
            push_word(&mut args, "--");
            push_word(&mut args, request.path.as_str());
            assert(text::views(args@) =~= blame_args(request.path@, request.line as nat));
            Step::Run(args)
        },
        Some(Fed::Unstarted(err)) => Step::Done(Err(told("git: ", err.as_str()))),
        Some(Fed::Unwaited(err)) => Step::Done(Err(told("git blame: ", err.as_str()))),
        Some(Fed::Failed(stderr)) => Step::Done(
            Err(told("git blame: ", first_reason(&stderr).as_str())),
        ),
        Some(Fed::Unwritten(err)) => Step::Done(Err(told("git blame: ", err.as_str()))),
        Some(Fed::Output(stdout)) => Step::Done(
            parse_blame(from_lossy(stdout.as_slice()).as_str()),
        ),
    }
}

/// Two texts, one after the other.
pub fn told(what: &str, why: &str) -> (message: String)
    ensures
        message@ == what@ + why@,
{
    let mut message = what.to_owned();
    message.append(why);
    message
}

// ---- Reading what changed ----

/// What has been read, before what is still to come.
pub open spec fn after<T>(done: Seq<T>, rest: Result<Seq<T>, Seq<char>>) -> Result<
    Seq<T>,
    Seq<char>,
> {
    match rest {
        Ok(more) => Ok(done + more),
        Err(why) => Err(why),
    }
}

/// A file named from the repository's top, as a path below `root`; none outside `prefix`.
pub open spec fn placed(
    name: Seq<char>,
    prefix: Seq<char>,
    root: Seq<char>,
    change: Change,
    from: Option<Seq<char>>,
) -> Seq<ChangedFileView> {
    if text::starts_with(name, prefix) {
        seq![
            ChangedFileView {
                path: path::joined(root, name.skip(prefix.len() as int)),
                change,
                from,
            },
        ]
    } else {
        Seq::empty()
    }
}

/// How many entries tell of one change in a status: its source is told after it.
pub open spec fn status_width(entries: Seq<Seq<u8>>) -> int {
    let entry = entries[0];
    if (has_source(entry[0]) || has_source(entry[1])) && entries.len() > 1 {
        2
    } else {
        1
    }
}

/// The change the first entry of a status tells of.
pub open spec fn status_first(
    entries: Seq<Seq<u8>>,
    prefix: Seq<char>,
    root: Seq<char>,
) -> Seq<ChangedFileView> {
    let entry = entries[0];
    placed(
        text::lossy(entry.skip(3)),
        prefix,
        root,
        status_change(entry[0], entry[1]),
        if status_width(entries) == 2 {
            Some(text::lossy(entries[1]))
        } else {
            None
        },
    )
}

/// What the entries of a status say: empty ones nothing, and one that is too short to tell of
/// a change makes the whole unreadable.
pub open spec fn status_read(
    entries: Seq<Seq<u8>>,
    prefix: Seq<char>,
    root: Seq<char>,
) -> Result<Seq<ChangedFileView>, Seq<char>>
    decreases entries.len(),
{
    if entries.len() == 0 {
        Ok(Seq::empty())
    } else if entries[0].len() == 0 {
        status_read(entries.skip(1), prefix, root)
    } else if entries[0].len() < 4 {
        Err("git status: unreadable entry "@ + text::quoted(text::lossy(entries[0])))
    } else {
        after(
            status_first(entries, prefix, root),
            status_read(entries.skip(status_width(entries)), prefix, root),
        )
    }
}

/// Whether a letter says that a source is told with it.
fn sourced(letter: u8) -> (yes: bool)
    ensures
        yes == has_source(letter),
{
    letter == LETTER_R || letter == LETTER_C
}

/// Adds the file of that name, unless it lies outside `prefix`.
fn place(
    files: &mut Vec<ChangedFile>,
    name: &str,
    prefix: &str,
    root: &str,
    change: Change,
    from: Option<String>,
)
    ensures
        file_views(final(files)@) == file_views(old(files)@) + placed(
            name@,
            prefix@,
            root@,
            change,
            text::optional(from),
        ),
{
    let ghost held = files@;
    let chars = chars_of(name);
    let lead = chars_of(prefix);
    if !holds(&chars, &lead, 0) {
        assert(file_views(held) + Seq::<ChangedFileView>::empty() =~= file_views(held));
        return;
    }
    let inside = string_of(&part(&chars, lead.len(), chars.len()));
    assert(inside@ =~= name@.skip(prefix@.len() as int));
    let file = ChangedFile { path: join(root, inside.as_str()), change, from };
    files.push(file);
    assert(file_views(files@) =~= file_views(held) + seq![file@]);
}

/// Reads `git status --porcelain=v1 -z`: paths are relative to the repository's top, and
/// only those under `prefix`, the root's place in it, are kept, as paths below `root`.
pub fn parse_status(status: &[u8], prefix: &str, root: &str) -> (answer: Answer<Vec<ChangedFile>>)
    ensures
        files_answer(answer) == status_read(split::split(status@, 0u8), prefix@, root@),
{
    let entries = split_bytes(status, 0);
    let ghost all = split::runs(entries@);
    let mut files: Vec<ChangedFile> = Vec::new();
    let mut i: usize = 0;
    proof {
        assert(all.skip(0) =~= all);
        let whole = status_read(all, prefix@, root@);
        if let Ok(more) = whole {
            assert(file_views(files@) + more =~= more);
        }
    }
    while i < entries.len()
        invariant
            i <= entries.len(),
            all == split::runs(entries@),
            all == split::split(status@, 0u8),
            after(file_views(files@), status_read(all.skip(i as int), prefix@, root@))
                == status_read(all, prefix@, root@),
        decreases entries.len() - i,
    {
        let entry = &entries[i];
        let ghost rest = all.skip(i as int);
        assert(rest[0] == entry@) by {
            assert(all[i as int] == entries@[i as int]@);
        }
        assert(rest.skip(1) =~= all.skip(i + 1));
        if entry.len() == 0 {
            i += 1;
            continue ;
        }
        if entry.len() < 4 {
            let shown = quote(from_lossy(entry.as_slice()).as_str());
            return Err(told("git status: unreadable entry ", shown.as_str()));
        }
        let change = Change::from_status(entry[0], entry[1]);
        // A rename or a copy carries the path it came from as the next entry.
        let renamed = sourced(entry[0]) || sourced(entry[1]);
        let mut from: Option<String> = None;
        let mut next: usize = i + 1;
        if renamed && next < entries.len() {
            assert(rest[1] == entries@[i + 1]@) by {
                assert(all[i + 1] == entries@[i + 1]@);
            }
            from = Some(from_lossy(entries[next].as_slice()));
            next += 1;
        }
        let name = from_lossy(slice_subrange(entry.as_slice(), 3, entry.len()));
        let ghost held = file_views(files@);
        let ghost tail = status_read(all.skip(next as int), prefix@, root@);
        proof {
            assert(entry@.subrange(3, entry@.len() as int) =~= entry@.skip(3));
            assert(rest.skip(status_width(rest)) =~= all.skip(next as int));
        }
        place(&mut files, name.as_str(), prefix, root, change, from);
        proof {
            let first = status_first(rest, prefix@, root@);
            assert(file_views(files@) == held + first);
            if let Ok(more) = tail {
                assert(held + (first + more) =~= held + first + more);
            }
        }
        i = next;
    }
    proof {
        assert(all.skip(i as int) =~= Seq::empty());
        assert(file_views(files@) + Seq::empty() =~= file_views(files@));
    }
    Ok(files)
}

/// How many entries tell of one change in a listing.
pub open spec fn listing_width(status: Seq<u8>) -> int {
    if has_source(status[0]) {
        3
    } else {
        2
    }
}

/// What the entries of a `--name-status` listing say: a letter, the source when renamed or
/// copied, and the path.
pub open spec fn names_read(
    entries: Seq<Seq<u8>>,
    prefix: Seq<char>,
    root: Seq<char>,
) -> Result<Seq<ChangedFileView>, Seq<char>>
    decreases entries.len(),
{
    if entries.len() == 0 {
        Ok(Seq::empty())
    } else {
        let status = entries[0];
        if status.len() == 0 {
            names_read(entries.skip(1), prefix, root)
        } else if has_source(status[0]) && entries.len() < 2 {
            Err("git show: a rename without its source"@)
        } else {
            let width = listing_width(status);
            if entries.len() < width {
                Err("git show: "@ + text::lossy(status) + " names no file"@)
            } else {
                after(
                    placed(
                        text::lossy(entries[width - 1]),
                        prefix,
                        root,
                        listed_change(status[0]),
                        if width == 3 {
                            Some(text::lossy(entries[1]))
                        } else {
                            None
                        },
                    ),
                    names_read(entries.skip(width), prefix, root),
                )
            }
        }
    }
}

/// Reads a `--name-status -z` listing: a letter, the source when renamed or copied, and
/// the path; only paths under `prefix` are kept, as paths below `root`.
pub fn parse_name_status(listing: &[u8], prefix: &str, root: &str) -> (answer: Answer<
    Vec<ChangedFile>,
>)
    ensures
        files_answer(answer) == names_read(split::split(listing@, 0u8), prefix@, root@),
{
    let entries = split_bytes(listing, 0);
    let ghost all = split::runs(entries@);
    let mut files: Vec<ChangedFile> = Vec::new();
    let mut i: usize = 0;
    proof {
        assert(all.skip(0) =~= all);
        if let Ok(more) = names_read(all, prefix@, root@) {
            assert(file_views(files@) + more =~= more);
        }
    }
    while i < entries.len()
        invariant
            i <= entries.len(),
            all == split::runs(entries@),
            all == split::split(listing@, 0u8),
            after(file_views(files@), names_read(all.skip(i as int), prefix@, root@))
                == names_read(all, prefix@, root@),
        decreases entries.len() - i,
    {
        let status = &entries[i];
        let ghost rest = all.skip(i as int);
        assert(forall|j: int|
            0 <= j < rest.len() ==> #[trigger] rest[j] == entries@[i + j]@) by {
            assert forall|j: int| 0 <= j < rest.len() implies #[trigger] rest[j] == entries@[i
                + j]@ by {
                assert(all[i + j] == entries@[i + j]@);
            }
        }
        assert(rest[0] == status@);
        assert(rest.skip(1) =~= all.skip(i + 1));
        if status.len() == 0 {
            i += 1;
            continue ;
        }
        let letter = status[0];
        let mut at: usize = i + 1;
        let mut from: Option<String> = None;
        if sourced(letter) {
            if at >= entries.len() {
                return Err("git show: a rename without its source".to_owned());
            }
            assert(rest[1] == entries@[i + 1]@);
            from = Some(from_lossy(entries[at].as_slice()));
            at += 1;
        }
        if at >= entries.len() {
            let mut why = told("git show: ", from_lossy(status.as_slice()).as_str());
            why.append(" names no file");
            return Err(why);
        }
        assert(rest[at - i] == entries@[at as int]@);
        let name = from_lossy(entries[at].as_slice());
        let ghost held = file_views(files@);
        let ghost source = text::optional(from);
        let ghost tail = names_read(all.skip(at + 1), prefix@, root@);
        assert(rest.skip(listing_width(status@)) =~= all.skip(at + 1));
        place(&mut files, name.as_str(), prefix, root, Change::from_name_status(letter), from);
        proof {
            let first = placed(name@, prefix@, root@, listed_change(letter), source);
            assert(file_views(files@) == held + first);
            if let Ok(more) = tail {
                assert(held + (first + more) =~= held + first + more);
            }
        }
        i = at + 1;
    }
    proof {
        assert(all.skip(i as int) =~= Seq::empty());
        assert(file_views(files@) + Seq::empty() =~= file_views(files@));
    }
    Ok(files)
}

// ---- Reading the history ----

/// A record without the line feed it may start with.
pub open spec fn unbroken(record: Seq<u8>) -> Seq<u8> {
    if record.len() > 0 && record[0] == '\n' as u8 {
        record.skip(1)
    } else {
        record
    }
}

/// The commit a record tells of: its four fields, the last of which may hold anything.
pub open spec fn commit_read(record: Seq<char>) -> Result<CommitView, Seq<char>> {
    let (hash, rest) = split::split_once(record, FIELD);
    let (short, rest) = match rest {
        Some(rest) => split::split_once(rest, FIELD),
        None => (Seq::empty(), None),
    };
    let (time, subject) = match rest {
        Some(rest) => split::split_once(rest, FIELD),
        None => (Seq::empty(), None),
    };
    match subject {
        None => Err("git log: unreadable entry "@ + text::quoted(record)),
        Some(subject) => match number::integer(time) {
            None => Err("git log: unreadable date "@ + text::quoted(time)),
            Some(time) => Ok(
                CommitView { hash, short, time, subject, file: None, file_from: None },
            ),
        },
    }
}

/// The history with the name of the followed file in its last commit told.
pub open spec fn named_last(
    commits: Seq<CommitView>,
    file: Seq<char>,
    from: Option<Seq<char>>,
) -> Seq<CommitView> {
    commits.update(
        commits.len() - 1,
        CommitView { file: Some(file), file_from: from, ..commits.last() },
    )
}

/// What the records of a log say, after the commits already read: a record with fields is a
/// commit, one without is the letter of the file the last commit was reached by, followed by
/// its source when renamed and its path.
pub open spec fn log_read(records: Seq<Seq<u8>>, commits: Seq<CommitView>) -> Result<
    Seq<CommitView>,
    Seq<char>,
>
    decreases records.len(),
{
    if records.len() == 0 {
        Ok(commits)
    } else {
        let record = unbroken(records[0]);
        if record.len() == 0 {
            log_read(records.skip(1), commits)
        } else if !record.contains(FIELD as u8) {
            let width = listing_width(record);
            if commits.len() == 0 || records.len() < width {
                Err("git log: unreadable entry "@ + text::quoted(text::lossy(record)))
            } else {
                log_read(
                    records.skip(width),
                    named_last(
                        commits,
                        text::lossy(unbroken(records[width - 1])),
                        if width == 3 {
                            Some(text::lossy(unbroken(records[1])))
                        } else {
                            None
                        },
                    ),
                )
            }
        } else {
            match commit_read(text::lossy(record)) {
                Err(why) => Err(why),
                Ok(commit) => log_read(records.skip(1), commits.push(commit)),
            }
        }
    }
}

/// A record without the line feed it may start with.
fn unbreak(record: &Vec<u8>) -> (rest: &[u8])
    ensures
        rest@ == unbroken(record@),
{
    if record.len() > 0 && record[0] == LINE_FEED {
        let rest = slice_subrange(record.as_slice(), 1, record.len());
        assert(rest@ =~= record@.skip(1));
        rest
    } else {
        record.as_slice()
    }
}

/// Whether a record holds fields.
fn fielded(record: &[u8]) -> (yes: bool)
    ensures
        yes == record@.contains(FIELD as u8),
{
    for i in 0..record.len()
        invariant
            forall|j: int| 0 <= j < i ==> record@[j] != FIELD_BYTE,
    {
        if record[i] == FIELD_BYTE {
            assert(record@[i as int] == FIELD as u8);
            return true;
        }
    }
    false
}

/// Reads the record of one commit.
fn parse_commit(record: &str) -> (answer: Answer<Commit>)
    ensures
        match answer {
            Ok(commit) => commit_read(record@) == Ok::<CommitView, Seq<char>>(commit@),
            Err(why) => commit_read(record@) == Err::<CommitView, Seq<char>>(why@),
        },
{
    let (hash, rest) = cut_once(&chars_of(record), FIELD);
    if let Some(rest) = rest {
        let (short, rest) = cut_once(&rest, FIELD);
        if let Some(rest) = rest {
            let (time, subject) = cut_once(&rest, FIELD);
            if let Some(subject) = subject {
                let time = string_of(&time);
                return match to_integer(time.as_str()) {
                    None => Err(
                        told("git log: unreadable date ", quote(time.as_str()).as_str()),
                    ),
                    Some(time) => Ok(
                        Commit {
                            hash: string_of(&hash),
                            short: string_of(&short),
                            time,
                            subject: string_of(&subject),
                            file: None,
                            file_from: None,
                        },
                    ),
                };
            }
        }
    }
    Err(told("git log: unreadable entry ", quote(record).as_str()))
}

/// Reads a `git log -z` in the format it is asked in, with or without `--name-status`: with
/// it, a commit's record is followed by the followed file's letter, its source when renamed,
/// and its path.
pub fn parse_log(log: &[u8]) -> (answer: Answer<Vec<Commit>>)
    ensures
        commits_answer(answer) == log_read(split::split(log@, 0u8), Seq::empty()),
{
    let records = split_bytes(log, 0);
    let ghost all = split::runs(records@);
    let mut commits: Vec<Commit> = Vec::new();
    let mut i: usize = 0;
    assert(all.skip(0) =~= all);
    assert(commit_views(commits@) =~= Seq::empty());
    while i < records.len()
        invariant
            i <= records.len(),
            all == split::runs(records@),
            all == split::split(log@, 0u8),
            log_read(all.skip(i as int), commit_views(commits@)) == log_read(all, Seq::empty()),
        decreases records.len() - i,
    {
        let record = unbreak(&records[i]);
        let ghost rest = all.skip(i as int);
        let ghost held = commit_views(commits@);
        assert forall|j: int| 0 <= j < rest.len() implies #[trigger] rest[j] == records@[i
            + j]@ by {
            assert(all[i + j] == records@[i + j]@);
        }
        assert(rest[0] == records@[i as int]@);
        assert(rest.skip(1) =~= all.skip(i + 1));
        if record.len() == 0 {
            i += 1;
            continue ;
        }
        if !fielded(record) {
            let renamed = sourced(record[0]);
            let at: usize = if renamed {
                if records.len() - i >= 2 {
                    i + 2
                } else {
                    records.len()
                }
            } else {
                i + 1
            };
            if commits.len() == 0 || at >= records.len() {
                let shown = quote(from_lossy(record).as_str());
                return Err(told("git log: unreadable entry ", shown.as_str()));
            }
            assert(rest[at - i] == records@[at as int]@);
            let file = Some(from_lossy(unbreak(&records[at])));
            let file_from = if renamed {
                assert(rest[1] == records@[i + 1]@);
                Some(from_lossy(unbreak(&records[i + 1])))
            } else {
                None
            };
            let last = commits.len() - 1;
            let commit = commits[last].clone();
            let told_of = Commit { file, file_from, ..commit };
            commits.set(last, told_of);
            proof {
                assert(rest.skip(listing_width(record@)) =~= all.skip(at + 1));
                assert(held.last() == commit@);
                assert(commit_views(commits@) =~= named_last(
                    held,
                    file->0@,
                    text::optional(file_from),
                ));
            }
            i = at + 1;
            continue ;
        }
        match parse_commit(from_lossy(record).as_str()) {
            Err(err) => return Err(err),
            Ok(commit) => {
                commits.push(commit);
                assert(commit_views(commits@) =~= held.push(commit@));
            },
        }
        i += 1;
    }
    assert(all.skip(i as int) =~= Seq::empty());
    Ok(commits)
}

// ---- Reading a blame ----

/// Whether a line is the text of the blamed line, which ends the headers.
pub open spec fn is_blamed_text(line: Seq<char>) -> bool {
    line.len() > 0 && line[0] == '\t'
}

/// The lines up to the text of the blamed line.
pub open spec fn headers(lines: Seq<Seq<char>>) -> Seq<Seq<char>>
    decreases lines.len(),
{
    if lines.len() == 0 || is_blamed_text(lines[0]) {
        Seq::empty()
    } else {
        seq![lines[0]] + headers(lines.skip(1))
    }
}

/// The value of the last header of that name; empty when there is none.
pub open spec fn header(headers: Seq<Seq<char>>, key: Seq<char>) -> Seq<char>
    decreases headers.len(),
{
    if headers.len() == 0 {
        Seq::empty()
    } else {
        let (name, value) = split::split_once(headers.last(), ' ');
        if name == key {
            match value {
                Some(value) => value,
                None => Seq::empty(),
            }
        } else {
            header(headers.drop_last(), key)
        }
    }
}

/// Whether a hash is the one that no commit has.
pub open spec fn is_zero(hash: Seq<char>) -> bool {
    forall|i: int| 0 <= i < hash.len() ==> hash[i] == '0'
}

/// The first characters a commit is called by.
pub open spec fn shortened(hash: Seq<char>) -> Seq<char> {
    if hash.len() < 7 {
        hash
    } else {
        hash.take(7)
    }
}

/// What one line of `git blame --porcelain` says.
pub open spec fn blame_read(answer: Seq<char>) -> Result<BlameView, Seq<char>> {
    let lines = split::lines(answer);
    if lines.len() == 0 {
        Err("git blame: no answer"@)
    } else {
        let hash = split::split_once(lines[0], ' ').0;
        let told = headers(lines.skip(1));
        let author = header(told, "author"@);
        let time = header(told, "committer-time"@);
        if is_zero(hash) {
            Ok(BlameView { author, commit: None })
        } else {
            match number::integer(time) {
                None => Err("git blame: unreadable date "@ + text::quoted(time)),
                Some(time) => Ok(
                    BlameView {
                        author,
                        commit: Some(
                            CommitView {
                                hash,
                                short: shortened(hash),
                                time,
                                subject: header(told, "summary"@),
                                file: Some(header(told, "filename"@)),
                                file_from: None,
                            },
                        ),
                    },
                ),
            }
        }
    }
}

proof fn lemma_headers(lines: Seq<Seq<char>>, n: int)
    requires
        0 <= n <= lines.len(),
        forall|i: int| 0 <= i < n ==> !is_blamed_text(#[trigger] lines[i]),
        n < lines.len() ==> is_blamed_text(lines[n]),
    ensures
        headers(lines) == lines.take(n),
    decreases n,
{
    if n > 0 {
        let rest = lines.skip(1);
        assert forall|i: int| 0 <= i < n - 1 implies !is_blamed_text(#[trigger] rest[i]) by {
            assert(rest[i] == lines[i + 1]);
        }
        if n < lines.len() {
            assert(rest[n - 1] == lines[n]);
        }
        lemma_headers(rest, n - 1);
        assert(headers(lines) =~= lines.take(n));
    } else {
        assert(lines.take(0) =~= Seq::empty());
    }
}

fn all_zero(hash: &Vec<char>) -> (yes: bool)
    ensures
        yes == is_zero(hash@),
{
    for i in 0..hash.len()
        invariant
            forall|j: int| 0 <= j < i ==> hash@[j] == '0',
    {
        if hash[i] != '0' {
            return false;
        }
    }
    true
}

/// Reads one line of `git blame --porcelain`: the hash, then headers up to the tab that
/// starts the line's text. An all-zero hash is a line no commit holds.
pub fn parse_blame(answer: &str) -> (blame: Answer<Blame>)
    ensures
        blame_answer(blame) == blame_read(answer@),
{
    let lines = to_lines(&chars_of(answer));
    let ghost all = split::texts(lines@);
    assert(all.len() == lines.len());
    if lines.len() == 0 {
        return Err("git blame: no answer".to_owned());
    }
    assert(all[0] == lines@[0]@);
    let (hash, _) = cut_once(&lines[0], ' ');
    let mut author: Vec<char> = Vec::new();
    let mut time: Vec<char> = Vec::new();
    let mut subject: Vec<char> = Vec::new();
    let mut file: Vec<char> = Vec::new();
    let ghost after_first = all.skip(1);
    let mut i: usize = 1;
    assert(after_first.take(0) =~= Seq::empty());
    while i < lines.len() && !(lines[i].len() > 0 && lines[i][0] == '\t')
        invariant
            1 <= i <= lines.len(),
            all == split::texts(lines@),
            after_first == all.skip(1),
            forall|j: int| 0 <= j < i - 1 ==> !is_blamed_text(#[trigger] after_first[j]),
            author@ == header(after_first.take(i - 1), "author"@),
            time@ == header(after_first.take(i - 1), "committer-time"@),
            subject@ == header(after_first.take(i - 1), "summary"@),
            file@ == header(after_first.take(i - 1), "filename"@),
        decreases lines.len() - i,
    {
        proof {
            let seen = after_first.take(i as int);
            assert(after_first[i - 1] == lines@[i as int]@);
            assert(seen.last() == lines@[i as int]@);
            assert(seen.drop_last() =~= after_first.take(i - 1));
            reveal_strlit("author");
            reveal_strlit("committer-time");
            reveal_strlit("summary");
            reveal_strlit("filename");
            assert("author"@.len() == 6 && "committer-time"@.len() == 14 && "summary"@.len() == 7
                && "filename"@.len() == 8);
        }
        let (key, value) = cut_once(&lines[i], ' ');
        let value = match value {
            Some(value) => value,
            None => Vec::new(),
        };
        assert(value@ == match split::split_once(lines@[i as int]@, ' ').1 {
            Some(value) => value,
            None => Seq::empty(),
        });
        if spells(&key, "author") {
            author = value;
        } else if spells(&key, "committer-time") {
            time = value;
        } else if spells(&key, "summary") {
            subject = value;
        } else if spells(&key, "filename") {
            file = value;
        }
        i += 1;
    }
    proof {
        if i < lines.len() {
            assert(after_first[i - 1] == lines@[i as int]@);
        }
        lemma_headers(after_first, i - 1);
    }
    let commit = if all_zero(&hash) {
        None
    } else {
        let time = string_of(&time);
        match to_integer(time.as_str()) {
            None => return Err(
                told("git blame: unreadable date ", quote(time.as_str()).as_str()),
            ),
            Some(time) => {
                let end: usize = if hash.len() < 7 {
                    hash.len()
                } else {
                    7
                };
                let short = part(&hash, 0, end);
                assert(short@ =~= shortened(hash@));
                Some(
                    Commit {
                        hash: string_of(&hash),
                        short: string_of(&short),
                        time,
                        subject: string_of(&subject),
                        file: Some(string_of(&file)),
                        file_from: None,
                    },
                )
            },
        }
    };
    Ok(Blame { author: string_of(&author), commit })
}

// ---- What the answers say ----

/// A change is the one the letters of a status name, in either column: `?` is a file git does
/// not know, and outranks the others; then a deletion, then a rename, then a file that is new.
pub proof fn law_a_status_is_what_its_letters_name(index: u8, worktree: u8)
    ensures
        index == 0x3f || worktree == 0x3f ==> status_change(index, worktree) is Added,
        (index == 0x44 || worktree == 0x44) && index != 0x3f && worktree != 0x3f ==> status_change(
            index,
            worktree,
        ) is Deleted,
        (index == 0x52 || worktree == 0x52) && index != 0x3f && worktree != 0x3f && index != 0x44
            && worktree != 0x44 ==> status_change(index, worktree) is Renamed,
        (index == 0x41 || index == 0x43) && (worktree == 0x20 || worktree == 0x4d) ==> status_change(
            index,
            worktree,
        ) is Added,
        (worktree == 0x41 || worktree == 0x43) && (index == 0x20 || index == 0x4d) ==> status_change(
            index,
            worktree,
        ) is Added,
        (index == 0x4d || index == 0x54 || index == 0x55 || index == 0x20) && (worktree == 0x4d
            || worktree == 0x54 || worktree == 0x55 || worktree == 0x20) ==> status_change(
            index,
            worktree,
        ) is Modified,
        status_change(index, worktree) == status_change(worktree, index),
{
}

/// A file a commit changed is shown for what the letter of its status names.
pub proof fn law_a_listing_is_what_its_letter_names(letter: u8)
    ensures
        letter == 0x41 || letter == 0x43 ==> listed_change(letter) is Added,
        letter == 0x44 ==> listed_change(letter) is Deleted,
        letter == 0x52 ==> listed_change(letter) is Renamed,
        letter == 0x4d || letter == 0x54 ==> listed_change(letter) is Modified,
{
}

/// Each change is shown by its own letter, the one git writes for it.
pub proof fn law_each_change_has_its_letter(change: Change)
    ensures
        change.mark().len() == 1,
        change is Modified ==> change.mark()[0] == 'M',
        change is Added ==> change.mark()[0] == 'A',
        change is Deleted ==> change.mark()[0] == 'D',
        change is Renamed ==> change.mark()[0] == 'R',
{
    reveal_strlit("M");
    reveal_strlit("A");
    reveal_strlit("D");
    reveal_strlit("R");
}

/// Whether a file was read from a name: one that starts with the prefix, its path what follows,
/// below the root.
pub open spec fn is_read_from(
    file: ChangedFileView,
    name: Seq<char>,
    prefix: Seq<char>,
    root: Seq<char>,
) -> bool {
    exists|rest: Seq<char>| name == #[trigger] (prefix + rest) && file.path == path::joined(root, rest)
}

proof fn lemma_placed(
    name: Seq<char>,
    prefix: Seq<char>,
    root: Seq<char>,
    change: Change,
    from: Option<Seq<char>>,
)
    ensures
        (exists|rest: Seq<char>| name == #[trigger] (prefix + rest)) ==> {
            &&& placed(name, prefix, root, change, from).len() == 1
            &&& is_read_from(placed(name, prefix, root, change, from)[0], name, prefix, root)
            &&& placed(name, prefix, root, change, from)[0].change == change
            &&& placed(name, prefix, root, change, from)[0].from == from
        },
        !(exists|rest: Seq<char>| name == #[trigger] (prefix + rest)) ==> placed(
            name,
            prefix,
            root,
            change,
            from,
        ).len() == 0,
{
    let n = prefix.len() as int;
    if exists|rest: Seq<char>| name == #[trigger] (prefix + rest) {
        let rest = choose|rest: Seq<char>| name == #[trigger] (prefix + rest);
        assert(name.subrange(0, n) =~= prefix);
        assert(name.skip(n) =~= rest);
        assert(name == prefix + name.skip(n));
    } else if text::starts_with(name, prefix) {
        assert(name.subrange(0, n) == prefix);
        assert(name =~= prefix + name.skip(n));
    }
}

/// A status is read entry by entry: an entry without a source, below the prefix, is a file with
/// the change its two letters name; one outside it is left out; what follows is read the same
/// whatever stood before.
pub proof fn law_a_status_entry_is_one_file(
    entry: Seq<u8>,
    rest: Seq<Seq<u8>>,
    prefix: Seq<char>,
    root: Seq<char>,
)
    requires
        entry.len() >= 4,
        entry[0] != 0x52 && entry[0] != 0x43 && entry[1] != 0x52 && entry[1] != 0x43,
    ensures
        status_read(rest, prefix, root) matches Err(why) ==> status_read(
            seq![entry] + rest,
            prefix,
            root,
        ) == Err::<Seq<ChangedFileView>, Seq<char>>(why),
        status_read(rest, prefix, root) matches Ok(more) ==> {
            let name = text::lossy(entry.subrange(3, entry.len() as int));
            &&& status_read(seq![entry] + rest, prefix, root) matches Ok(files)
            &&& (exists|r: Seq<char>| name == #[trigger] (prefix + r)) ==> {
                &&& files.len() == more.len() + 1
                &&& is_read_from(files[0], name, prefix, root)
                &&& files[0].change == status_change(entry[0], entry[1])
                &&& files[0].from is None
                &&& files.subrange(1, files.len() as int) == more
            }
            &&& !(exists|r: Seq<char>| name == #[trigger] (prefix + r)) ==> files == more
        },
{
    let all = seq![entry] + rest;
    assert(all[0] == entry);
    assert(all.skip(1) =~= rest);
    assert(entry.subrange(3, entry.len() as int) =~= entry.skip(3));
    lemma_placed(
        text::lossy(entry.skip(3)),
        prefix,
        root,
        status_change(entry[0], entry[1]),
        None,
    );
    if let Ok(more) = status_read(rest, prefix, root) {
        let first = status_first(all, prefix, root);
        assert(status_read(all, prefix, root) == Ok::<Seq<ChangedFileView>, Seq<char>>(first + more));
        if first.len() == 1 {
            assert((first + more).skip(1) =~= more);
            assert((first + more).subrange(1, (first + more).len() as int) =~= more);
        } else {
            assert(first + more =~= more);
        }
    }
}

/// An entry of a rename or a copy carries where the file came from as the entry after it.
pub proof fn law_a_renamed_entry_takes_its_source_along(
    entry: Seq<u8>,
    source: Seq<u8>,
    rest: Seq<Seq<u8>>,
    prefix: Seq<char>,
    root: Seq<char>,
)
    requires
        entry.len() >= 4,
        entry[0] == 0x52 || entry[0] == 0x43 || entry[1] == 0x52 || entry[1] == 0x43,
    ensures
        status_read(rest, prefix, root) matches Err(why) ==> status_read(
            seq![entry, source] + rest,
            prefix,
            root,
        ) == Err::<Seq<ChangedFileView>, Seq<char>>(why),
        status_read(rest, prefix, root) matches Ok(more) ==> {
            let name = text::lossy(entry.subrange(3, entry.len() as int));
            &&& status_read(seq![entry, source] + rest, prefix, root) matches Ok(files)
            &&& (exists|r: Seq<char>| name == #[trigger] (prefix + r)) ==> {
                &&& files.len() == more.len() + 1
                &&& is_read_from(files[0], name, prefix, root)
                &&& files[0].change == status_change(entry[0], entry[1])
                &&& files[0].from == Some(text::lossy(source))
                &&& files.subrange(1, files.len() as int) == more
            }
            &&& !(exists|r: Seq<char>| name == #[trigger] (prefix + r)) ==> files == more
        },
{
    let all = seq![entry, source] + rest;
    assert(all[0] == entry);
    assert(all[1] == source);
    assert(all.skip(2) =~= rest);
    assert(entry.subrange(3, entry.len() as int) =~= entry.skip(3));
    lemma_placed(
        text::lossy(entry.skip(3)),
        prefix,
        root,
        status_change(entry[0], entry[1]),
        Some(text::lossy(source)),
    );
    if let Ok(more) = status_read(rest, prefix, root) {
        let first = status_first(all, prefix, root);
        assert(status_read(all, prefix, root) == Ok::<Seq<ChangedFileView>, Seq<char>>(first + more));
        if first.len() == 1 {
            assert((first + more).skip(1) =~= more);
            assert((first + more).subrange(1, (first + more).len() as int) =~= more);
        } else {
            assert(first + more =~= more);
        }
    }
}

/// An empty entry says nothing; one too short to hold two letters, a space and a name is
/// refused.
pub proof fn law_a_short_entry_is_refused(
    entry: Seq<u8>,
    rest: Seq<Seq<u8>>,
    prefix: Seq<char>,
    root: Seq<char>,
)
    ensures
        entry.len() == 0 ==> status_read(seq![entry] + rest, prefix, root) == status_read(
            rest,
            prefix,
            root,
        ),
        0 < entry.len() < 4 ==> status_read(seq![entry] + rest, prefix, root) is Err,
        status_read(Seq::empty(), prefix, root) == Ok::<Seq<ChangedFileView>, Seq<char>>(Seq::empty()),
{
    let all = seq![entry] + rest;
    assert(all[0] == entry);
    assert(all.skip(1) =~= rest);
}

/// What a commit changed is read status by status: a letter and a path, or, for a rename or a
/// copy, a letter, where it came from and where it went.
pub proof fn law_a_commit_names_each_file(
    status: Seq<u8>,
    source: Seq<u8>,
    path: Seq<u8>,
    rest: Seq<Seq<u8>>,
    prefix: Seq<char>,
    root: Seq<char>,
)
    requires
        status.len() > 0,
    ensures
        ({
            let renamed = status[0] == 0x52 || status[0] == 0x43;
            let all = if renamed {
                seq![status, source, path] + rest
            } else {
                seq![status, path] + rest
            };
            let name = text::lossy(path);
            &&& names_read(rest, prefix, root) matches Err(why) ==> names_read(all, prefix, root)
                == Err::<Seq<ChangedFileView>, Seq<char>>(why)
            &&& names_read(rest, prefix, root) matches Ok(more) ==> {
                &&& names_read(all, prefix, root) matches Ok(files)
                &&& (exists|r: Seq<char>| name == #[trigger] (prefix + r)) ==> {
                    &&& files.len() == more.len() + 1
                    &&& is_read_from(files[0], name, prefix, root)
                    &&& files[0].change == listed_change(status[0])
                    &&& files[0].from == if renamed {
                        Some(text::lossy(source))
                    } else {
                        None
                    }
                    &&& files.subrange(1, files.len() as int) == more
                }
                &&& !(exists|r: Seq<char>| name == #[trigger] (prefix + r)) ==> files == more
            }
        }),
        names_read(Seq::empty(), prefix, root) == Ok::<Seq<ChangedFileView>, Seq<char>>(Seq::empty()),
        names_read(seq![status], prefix, root) is Err,
{
    let renamed = status[0] == 0x52 || status[0] == 0x43;
    let all = if renamed {
        seq![status, source, path] + rest
    } else {
        seq![status, path] + rest
    };
    let width = listing_width(status);
    assert(all[0] == status);
    assert(all[width - 1] == path);
    assert(all.skip(width) =~= rest);
    let from = if renamed {
        Some(text::lossy(source))
    } else {
        None
    };
    assert(renamed ==> all[1] == source);
    lemma_placed(text::lossy(path), prefix, root, listed_change(status[0]), from);
    if let Ok(more) = names_read(rest, prefix, root) {
        let first = placed(text::lossy(path), prefix, root, listed_change(status[0]), from);
        assert(names_read(all, prefix, root) == Ok::<Seq<ChangedFileView>, Seq<char>>(first + more));
        if first.len() == 1 {
            assert((first + more).skip(1) =~= more);
            assert((first + more).subrange(1, (first + more).len() as int) =~= more);
        } else {
            assert(first + more =~= more);
        }
    }
    assert(seq![status][0] == status);
}

// ---- What a history and a blame are read as ----

/// A record of the history: four fields, kept apart by the character 31.
pub open spec fn record_of(
    hash: Seq<char>,
    short: Seq<char>,
    time: Seq<char>,
    subject: Seq<char>,
) -> Seq<char> {
    hash + (seq!['\u{1f}'] + (short + (seq!['\u{1f}'] + (time + (seq!['\u{1f}'] + subject)))))
}

/// Whether the character that keeps fields apart is nowhere in a text.
pub open spec fn is_one_field(s: Seq<char>) -> bool {
    forall|i: int| 0 <= i < s.len() ==> s[i] != '\u{1f}'
}

/// A record is read as its four fields: the hash, its short form, the time and the subject,
/// which may hold anything. One whose time is no number, or with a field missing, is refused.
pub proof fn law_a_record_is_its_fields(
    hash: Seq<char>,
    short: Seq<char>,
    time: Seq<char>,
    subject: Seq<char>,
)
    requires
        is_one_field(hash),
        is_one_field(short),
        is_one_field(time),
    ensures
        commit_read(record_of(hash, short, time, subject)) == match number::integer(time) {
            Some(time) => Ok(
                CommitView { hash, short, time, subject, file: None, file_from: None },
            ),
            None => Err("git log: unreadable date "@ + text::quoted(time)),
        },
        commit_read(hash) is Err,
        commit_read(hash + (seq!['\u{1f}'] + short)) is Err,
        commit_read(hash + (seq!['\u{1f}'] + (short + (seq!['\u{1f}'] + time)))) is Err,
{
    let last = time + (seq!['\u{1f}'] + subject);
    let two = short + (seq!['\u{1f}'] + last);
    split::law_a_text_is_cut_at_its_first_separator(hash, '\u{1f}', two);
    split::law_a_text_is_cut_at_its_first_separator(short, '\u{1f}', last);
    split::law_a_text_is_cut_at_its_first_separator(time, '\u{1f}', subject);
    split::law_a_text_is_cut_at_its_first_separator(hash, '\u{1f}', short);
    split::law_a_text_is_cut_at_its_first_separator(
        hash,
        '\u{1f}',
        short + (seq!['\u{1f}'] + time),
    );
    split::law_a_text_is_cut_at_its_first_separator(short, '\u{1f}', time);
}

/// Whether a record is one of a commit that can be read.
pub open spec fn is_commit_record(record: Seq<u8>) -> bool {
    &&& record.len() > 0
    &&& record[0] != 0x0a
    &&& exists|i: int| 0 <= i < record.len() && #[trigger] record[i] == 0x1f
    &&& commit_read(text::lossy(record)) is Ok
}

proof fn lemma_log_one(records: Seq<Seq<u8>>, commits: Seq<CommitView>)
    requires
        records.len() > 0,
        is_commit_record(records[0]),
    ensures
        log_read(records, commits) == log_read(
            records.skip(1),
            commits.push(commit_read(text::lossy(records[0]))->Ok_0),
        ),
{
    let record = records[0];
    let i = choose|i: int| 0 <= i < record.len() && #[trigger] record[i] == 0x1f;
    assert(record[i] == FIELD as u8);
    assert(record.contains(FIELD as u8));
    assert(unbroken(record) == record);
}

/// The history tells of each commit in order, as its own record says.
pub proof fn law_the_history_is_in_order(records: Seq<Seq<u8>>, commits: Seq<CommitView>)
    requires
        forall|i: int| 0 <= i < records.len() ==> is_commit_record(#[trigger] records[i]),
    ensures
        log_read(records, commits) matches Ok(all) && all.len() == commits.len() + records.len()
            && (forall|i: int| 0 <= i < commits.len() ==> all[i] == commits[i]) && (forall|i: int|
            0 <= i < records.len() ==> all[commits.len() + i] == commit_read(
                text::lossy(#[trigger] records[i]),
            )->Ok_0),
    decreases records.len(),
{
    if records.len() > 0 {
        let rest = records.skip(1);
        let more = commits.push(commit_read(text::lossy(records[0]))->Ok_0);
        assert forall|i: int| 0 <= i < rest.len() implies is_commit_record(#[trigger] rest[i]) by {
            assert(rest[i] == records[i + 1]);
        }
        assert(is_commit_record(records[0]));
        lemma_log_one(records, commits);
        law_the_history_is_in_order(rest, more);
        let all = log_read(records, commits)->Ok_0;
        assert forall|i: int| 0 <= i < commits.len() implies all[i] == commits[i] by {
            assert(more[i] == commits[i]);
        }
        assert forall|i: int| 0 <= i < records.len() implies all[commits.len() + i] == commit_read(
            text::lossy(#[trigger] records[i]),
        )->Ok_0 by {
            if i > 0 {
                assert(rest[i - 1] == records[i]);
                assert(all[more.len() + (i - 1)] == commit_read(text::lossy(rest[i - 1]))->Ok_0);
            } else {
                assert(all[more.len() - 1] == more[more.len() - 1]);
            }
        }
    }
}

/// A commit of a followed file tells what the file was called in it, and what before it when
/// the commit renamed or copied it.
pub proof fn law_a_followed_file_is_named_in_each_commit(
    record: Seq<u8>,
    letter: Seq<u8>,
    source: Seq<u8>,
    path: Seq<u8>,
    rest: Seq<Seq<u8>>,
    commits: Seq<CommitView>,
)
    requires
        is_commit_record(record),
        letter.len() > 0,
        letter[0] != 0x0a,
        forall|i: int| 0 <= i < letter.len() ==> letter[i] != 0x1f,
        source.len() > 0 && source[0] != 0x0a,
        path.len() > 0 && path[0] != 0x0a,
    ensures
        letter[0] != 0x52 && letter[0] != 0x43 ==> log_read(
            seq![record, letter, path] + rest,
            commits,
        ) == log_read(
            rest,
            commits.push(
                CommitView {
                    file: Some(text::lossy(path)),
                    file_from: None,
                    ..commit_read(text::lossy(record))->Ok_0
                },
            ),
        ),
        letter[0] == 0x52 || letter[0] == 0x43 ==> log_read(
            seq![record, letter, source, path] + rest,
            commits,
        ) == log_read(
            rest,
            commits.push(
                CommitView {
                    file: Some(text::lossy(path)),
                    file_from: Some(text::lossy(source)),
                    ..commit_read(text::lossy(record))->Ok_0
                },
            ),
        ),
{
    let one = commit_read(text::lossy(record))->Ok_0;
    let held = commits.push(one);
    assert(unbroken(letter) == letter && unbroken(path) == path && unbroken(source) == source);
    assert(!letter.contains(FIELD as u8));
    assert(held.last() == one);
    if letter[0] != 0x52 && letter[0] != 0x43 {
        let all = seq![record, letter, path] + rest;
        assert(all[0] == record);
        lemma_log_one(all, commits);
        let now = all.skip(1);
        assert(now[0] == letter && now[1] == path);
        assert(now.skip(2) =~= rest);
        let named = named_last(held, text::lossy(path), None);
        assert(named =~= commits.push(
            CommitView { file: Some(text::lossy(path)), file_from: None, ..one },
        ));
        assert(log_read(now, held) == log_read(rest, named));
    } else {
        let all = seq![record, letter, source, path] + rest;
        assert(all[0] == record);
        lemma_log_one(all, commits);
        let now = all.skip(1);
        assert(now[0] == letter && now[1] == source && now[2] == path);
        assert(now.skip(3) =~= rest);
        let named = named_last(held, text::lossy(path), Some(text::lossy(source)));
        assert(named =~= commits.push(
            CommitView {
                file: Some(text::lossy(path)),
                file_from: Some(text::lossy(source)),
                ..one
            },
        ));
        assert(log_read(now, held) == log_read(rest, named));
    }
}

/// Whether a line is a header of that name.
pub open spec fn is_header(line: Seq<char>, key: Seq<char>) -> bool {
    line == key || (line.len() > key.len() && line.take(key.len() as int) == key
        && line[key.len() as int] == ' ')
}

/// A header's value is what comes after its name and a space; the last of that name counts.
pub proof fn law_the_last_header_counts(
    headers: Seq<Seq<char>>,
    key: Seq<char>,
    i: int,
    value: Seq<char>,
)
    requires
        forall|j: int| 0 <= j < key.len() ==> key[j] != ' ',
        -1 <= i < headers.len(),
        forall|j: int| i < j < headers.len() ==> !is_header(#[trigger] headers[j], key),
        i >= 0 ==> headers[i] == key + (seq![' '] + value),
        i < 0 ==> value.len() == 0,
    ensures
        header(headers, key) == value,
    decreases headers.len(),
{
    if headers.len() > 0 {
        let last = headers.len() - 1;
        if i == last {
            split::law_a_text_is_cut_at_its_first_separator(key, ' ', value);
        } else {
            let line = headers[last];
            let (name, more) = split::split_once(line, ' ');
            text::lemma_index_of(line, ' ');
            assert(!is_header(line, key));
            assert(name != key) by {
                if name == key {
                    let at = text::index_of(line, ' ');
                    assert(at == key.len());
                    if at == line.len() {
                        assert(line.take(at) =~= line);
                    }
                }
            }
            let less = headers.drop_last();
            assert forall|j: int| i < j < less.len() implies !is_header(#[trigger] less[j], key) by {
                assert(less[j] == headers[j]);
            }
            law_the_last_header_counts(less, key, i, value);
        }
    } else {
        assert(value =~= Seq::empty());
    }
}

/// Whether the header at `i` is the last of a name and has that value; before the first, there
/// is none of the name and the value is empty.
pub open spec fn heads_at(
    headers: Seq<Seq<char>>,
    key: Seq<char>,
    value: Seq<char>,
    i: int,
) -> bool {
    &&& -1 <= i < headers.len()
    &&& forall|j: int| i < j < headers.len() ==> !is_header(#[trigger] headers[j], key)
    &&& i >= 0 ==> headers[i] == key + (seq![' '] + value)
    &&& i < 0 ==> value.len() == 0
}

/// Whether the last header of a name has that value, an empty one when there is none.
pub open spec fn heads(headers: Seq<Seq<char>>, key: Seq<char>, value: Seq<char>) -> bool {
    exists|i: int| #[trigger] heads_at(headers, key, value, i)
}

proof fn lemma_heads(headers: Seq<Seq<char>>, key: Seq<char>, value: Seq<char>)
    requires
        heads(headers, key, value),
        forall|j: int| 0 <= j < key.len() ==> key[j] != ' ',
    ensures
        header(headers, key) == value,
{
    let i = choose|i: int| #[trigger] heads_at(headers, key, value, i);
    law_the_last_header_counts(headers, key, i, value);
}

proof fn lemma_keys_are_words()
    ensures
        forall|j: int| 0 <= j < "author"@.len() ==> "author"@[j] != ' ',
        forall|j: int| 0 <= j < "committer-time"@.len() ==> "committer-time"@[j] != ' ',
        forall|j: int| 0 <= j < "summary"@.len() ==> "summary"@[j] != ' ',
        forall|j: int| 0 <= j < "filename"@.len() ==> "filename"@[j] != ' ',
{
    reveal_strlit("author");
    reveal_strlit("committer-time");
    reveal_strlit("summary");
    reveal_strlit("filename");
}

proof fn lemma_told(
    headers: Seq<Seq<char>>,
    author: Seq<char>,
    time: Seq<char>,
    summary: Seq<char>,
    filename: Seq<char>,
)
    requires
        heads(headers, "author"@, author),
        heads(headers, "committer-time"@, time),
        heads(headers, "summary"@, summary),
        heads(headers, "filename"@, filename),
    ensures
        header(headers, "author"@) == author,
        header(headers, "committer-time"@) == time,
        header(headers, "summary"@) == summary,
        header(headers, "filename"@) == filename,
{
    lemma_keys_are_words();
    lemma_heads(headers, "author"@, author);
    lemma_heads(headers, "committer-time"@, time);
    lemma_heads(headers, "summary"@, summary);
    lemma_heads(headers, "filename"@, filename);
}

/// A blame is read from its first line, which starts with the hash, and the headers up to the
/// line's own text, whatever that text holds. A hash of zeros only is no commit.
pub proof fn law_a_blame_is_read_from_its_headers(
    answer: Seq<char>,
    hash: Seq<char>,
    place: Seq<char>,
    headers: Seq<Seq<char>>,
    rest: Seq<Seq<char>>,
    author: Seq<char>,
    time: Seq<char>,
    summary: Seq<char>,
    filename: Seq<char>,
)
    requires
        split::lines(answer) == seq![hash + (seq![' '] + place)] + headers + rest,
        forall|i: int| 0 <= i < hash.len() ==> hash[i] != ' ',
        forall|i: int| 0 <= i < headers.len() ==> !((#[trigger] headers[i]).len() > 0 && headers[i][0]
            == '\t'),
        rest.len() > 0 ==> rest[0].len() > 0 && rest[0][0] == '\t',
        heads(headers, "author"@, author),
        heads(headers, "committer-time"@, time),
        heads(headers, "summary"@, summary),
        heads(headers, "filename"@, filename),
    ensures
        (forall|i: int| 0 <= i < hash.len() ==> hash[i] == '0') ==> blame_read(answer) == Ok::<
            BlameView,
            Seq<char>,
        >(BlameView { author, commit: None }),
        (exists|i: int| 0 <= i < hash.len() && hash[i] != '0') && hash.len() >= 7 ==> (
        number::integer(time) matches Some(at) ==> blame_read(answer) == Ok::<BlameView, Seq<char>>(
            BlameView {
                author,
                commit: Some(
                    CommitView {
                        hash,
                        short: hash.take(7),
                        time: at,
                        subject: summary,
                        file: Some(filename),
                        file_from: None,
                    },
                ),
            },
        )),
        (exists|i: int| 0 <= i < hash.len() && hash[i] != '0') && number::integer(time) is None
            ==> blame_read(answer) is Err,
{
    let lines = split::lines(answer);
    split::law_a_text_is_cut_at_its_first_separator(hash, ' ', place);
    assert(lines[0] == hash + (seq![' '] + place));
    let after = lines.skip(1);
    assert(after =~= headers + rest);
    let n = headers.len() as int;
    assert forall|i: int| 0 <= i < n implies !is_blamed_text(#[trigger] after[i]) by {
        assert(after[i] == headers[i]);
    }
    if rest.len() > 0 {
        assert(after[n] == rest[0]);
    }
    lemma_headers(after, n);
    assert(after.take(n) =~= headers);
    lemma_told(headers, author, time, summary, filename);
}

/// Git is asked for answers in the form they are read in, and paths come after a `--`, so none
/// is taken for an option. It counts lines from one.
pub proof fn law_git_is_asked_for_what_is_read(
    hash: Seq<char>,
    pathspecs: Seq<Seq<char>>,
    path: Seq<char>,
    line: nat,
    i: int,
)
    ensures
        status_args().contains("-z"@) && status_args().contains("--porcelain=v1"@),
        status_args().contains("--untracked-files=all"@),
        log_args().contains("-z"@),
        log_args().contains("--format=%H%x1f%h%x1f%ct%x1f%s"@),
        listing_args(hash).contains("-z"@) && listing_args(hash).contains("--name-status"@),
        listing_args(hash).contains(hash),
        followed_args(path).contains("-z"@) && followed_args(path).contains("--follow"@),
        followed_args(path).last() == path && followed_args(path)[followed_args(path).len() - 2]
            == "--"@,
        show_args(hash, pathspecs).contains(hash),
        0 <= i < pathspecs.len() ==> show_args(hash, pathspecs)[show_args(hash, pathspecs).len()
            - pathspecs.len() + i] == pathspecs[i],
        show_args(hash, pathspecs)[show_args(hash, pathspecs).len() - pathspecs.len() - 1] == "--"@,
        blame_args(path, line).contains("--porcelain"@),
        blame_args(path, line).contains(
            number::decimal(line + 1) + ","@ + number::decimal(line + 1),
        ),
        blame_args(path, line).last() == path && blame_args(path, line)[blame_args(
            path,
            line,
        ).len() - 2] == "--"@,
{
    assert(status_args()[2] == "-z"@ && status_args()[1] == "--porcelain=v1"@);
    assert(status_args()[3] == "--untracked-files=all"@);
    assert(log_args()[1] == "-z"@);
    assert(log_args()[3] == "--format=%H%x1f%h%x1f%ct%x1f%s"@);
    let listing = listing_args(hash);
    assert(listing[3] == "-z"@ && listing[2] == "--name-status"@);
    assert(listing[7] == hash);
    let followed = followed_args(path);
    assert(followed[1] == "-z"@ && followed[4] == "--follow"@);
    let show = show_args(hash, pathspecs);
    assert(show[6] == hash);
    let blame = blame_args(path, line);
    assert(blame[1] == "--porcelain"@);
    assert(blame[3] == number::decimal(line + 1) + ","@ + number::decimal(line + 1));
}

} // verus!
