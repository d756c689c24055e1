//! The editor's own git commands: what a buffer's file has been through, and who changed
//! the line under the cursor. They answer in the status line and, for more, in the
//! sidebar.

use vstd::prelude::*;
use vstd::string::*;

use crate::age::{self, format_age};
use crate::git::{self, Answer, Blame, BlameRequest, Commit};
use crate::message::Message;
use crate::path;
use crate::text;

verus! {

/// The line blamed last, so blaming it again opens its commit.
pub struct LastBlame {
    pub path: String,
    pub line: usize,
    pub blame: Blame,
}

/// What showing a file's history comes to: the file, or why there is none. The buffer's path is
/// none for a buffer that was never saved.
pub fn file_history(path: Option<String>) -> (shown: Result<String, String>)
    ensures
        match shown {
            Ok(file) => text::optional(path) == Some(file@),
            Err(why) => path is None && why@
                == "The buffer has no file to show the history of"@,
        },
{
    match path {
        Some(path) => Ok(path),
        None => Err("The buffer has no file to show the history of".to_owned()),
    }
}

/// What blaming a line comes to: it cannot be, its commit is opened, there is none to open, or
/// git is asked.
pub enum BlameTurn {
    Refused(String),
    Open(Commit),
    Uncommitted(String),
    Ask(BlameRequest),
}

/// Whether that line is the one blamed last.
pub open spec fn blamed_last(last: Option<LastBlame>, path: Seq<char>, line: usize) -> bool {
    last matches Some(last) && path::equal(last.path@, path) && last.line == line
}

/// Says who last changed the line under the cursor, in which commit and when, counting the
/// buffer's unsaved text; asked again on the same line, opens that commit in the sidebar.
pub fn blame_line(
    path: Option<String>,
    line: usize,
    contents: String,
    last: &Option<LastBlame>,
) -> (turn: BlameTurn)
    ensures
        match turn {
            BlameTurn::Refused(why) => path is None && why@ == "The buffer has no file to blame"@,
            BlameTurn::Open(commit) => {
                &&& path matches Some(path) && blamed_last(*last, path@, line)
                &&& (*last)->0.blame.commit matches Some(held) && commit@ == held@
            },
            BlameTurn::Uncommitted(status) => {
                &&& path matches Some(path) && blamed_last(*last, path@, line)
                &&& (*last)->0.blame.commit is None
                &&& status@ == "Not committed yet"@
            },
            BlameTurn::Ask(request) => {
                &&& path matches Some(path) && !blamed_last(*last, path@, line)
                &&& text::optional(path) == Some(request.path@)
                &&& request.line == line
                &&& request.contents@ == contents@
            },
        },
{
    let path = match path {
        Some(path) => path,
        None => return BlameTurn::Refused("The buffer has no file to blame".to_owned()),
    };
    if let Some(last) = last {
        if path::same(last.path.as_str(), path.as_str()) && last.line == line {
            return match &last.blame.commit {
                Some(commit) => BlameTurn::Open(commit.clone()),
                None => BlameTurn::Uncommitted("Not committed yet".to_owned()),
            };
        }
    }
    BlameTurn::Ask(BlameRequest { path, line, contents })
}

/// What is said of a blamed line.
pub open spec fn blame_status(blame: git::BlameView, now: int) -> Seq<char> {
    match blame.commit {
        Some(commit) => commit.short + " · "@ + blame.author + " · "@ + age::age(now - commit.time)
            + " ago · "@ + commit.subject + " (blame again to open it)"@,
        None => "Not committed yet"@,
    }
}

/// What is said of a blamed line.
pub fn blame_said(blame: &Blame, now: i64) -> (status: String)
    ensures
        status@ == blame_status(blame@, now as int),
{
    match &blame.commit {
        Some(commit) => {
            let mut status = commit.short.clone();
            status.append(" · ");
            status.append(blame.author.as_str());
            status.append(" · ");
            status.append(format_age(commit.time, now).as_str());
            status.append(" ago · ");
            status.append(commit.subject.as_str());
            status.append(" (blame again to open it)");
            status
        },
        None => "Not committed yet".to_owned(),
    }
}

/// Takes git's answer to a blame: what is said of it, and what is remembered of the line.
pub fn blame_landed(request: BlameRequest, answer: Answer<Blame>, now: i64) -> (landed: (
    Message,
    Option<LastBlame>,
))
    ensures
        match answer {
            Err(err) => {
                &&& landed.0.text@ == err@
                &&& landed.0.is_error
                &&& landed.1 is None
            },
            Ok(blame) => {
                &&& landed.0.text@ == blame_status(blame@, now as int)
                &&& !landed.0.is_error
                &&& landed.1 matches Some(last) && last.path@ == request.path@ && last.line
                    == request.line && last.blame == blame
            },
        },
{
    match answer {
        Err(err) => (Message { text: err, is_error: true }, None),
        Ok(blame) => {
            let text = blame_said(&blame, now);
            (
                Message { text, is_error: false },
                Some(LastBlame { path: request.path, line: request.line, blame }),
            )
        },
    }
}

/// What a review command asks of the sidebar.
#[derive(Clone, Copy, PartialEq, Eq, Structural, Debug)]
pub enum Review {
    Commits,
    Code,
    Context,
}

/// Review controls are commands so menus, configured keys and the palette share them.
pub fn review_commits_toggle() -> (toggle: Review)
    ensures
        toggle == Review::Commits,
{
    Review::Commits
}

pub fn review_code_toggle() -> (toggle: Review)
    ensures
        toggle == Review::Code,
{
    Review::Code
}

pub fn review_context_toggle() -> (toggle: Review)
    ensures
        toggle == Review::Context,
{
    Review::Context
}

/// Blaming a line git has answered for opens its commit, and asks git nothing.
pub proof fn law_blaming_again_opens_the_commit(last: LastBlame)
    ensures
        blamed_last(Some(last), last.path@, last.line),
{
}

/// What is said of a blamed line starts with the commit's short hash and ends with its subject
/// and a word on what blaming again does.
pub proof fn law_what_is_said_of_a_line_names_its_commit(
    author: Seq<char>,
    commit: git::CommitView,
    now: int,
)
    ensures
        ({
            let said = blame_status(git::BlameView { author, commit: Some(commit) }, now);
            let end = " (blame again to open it)"@.len();
            let n = commit.short.len() as int;
            let m = author.len() as int;
            &&& text::starts_with(said, commit.short)
            &&& text::stands_at(said, author, n + 3)
            &&& text::stands_at(said, age::age(now - commit.time), n + 3 + m + 3)
            &&& text::stands_at(said, commit.subject, said.len() - end - commit.subject.len())
        }),
{
    reveal_strlit(" · ");
    let said = blame_status(git::BlameView { author, commit: Some(commit) }, now);
    let end = " (blame again to open it)"@.len() as int;
    let n = commit.short.len() as int;
    let m = author.len() as int;
    let told = age::age(now - commit.time);
    assert(said.subrange(0, n) =~= commit.short);
    assert(said.subrange(n + 3, n + 3 + m) =~= author);
    assert(said.subrange(n + 3 + m + 3, n + 3 + m + 3 + told.len()) =~= told);
    let at = said.len() - end - commit.subject.len();
    assert(said.subrange(at, at + commit.subject.len()) =~= commit.subject);
}

} // verus!
