//! The formatting done without a formatter or a language server, for JSON and XML.
//!
//! Both work on the text as written rather than on a parsed model of it, so numbers, escapes,
//! key order and comments come out exactly as they went in; only the whitespace between the
//! pieces changes. Text that does not read as a whole document is refused and left alone.

use vstd::prelude::*;

use crate::json;
use crate::text::{self, same};
use crate::xml;

verus! {

/// What formatting came to: the text laid out, or why it was refused.
pub open spec fn outcome(formatted: Result<String, String>) -> Result<Seq<char>, Seq<char>> {
    match formatted {
        Ok(text) => Ok(text@),
        Err(why) => Err(why@),
    }
}

/// What formatting JSON comes to.
pub open spec fn json_outcome(text: Seq<char>, indent: Seq<char>, newline: Seq<char>) -> Result<
    Seq<char>,
    Seq<char>,
> {
    match json::json_fault(text) {
        None => Ok(json::layout(text, indent, newline)),
        Some(fault) => Err("Not valid JSON, left as it was: "@ + fault),
    }
}

/// Formats `text` as the language `language` names, indenting by `indent` and ending lines
/// with `newline`; `None` when there is no formatter for that language here.
pub fn format(language: &str, text: &str, indent: &str, newline: &str) -> (formatted: Option<
    Result<String, String>,
>)
    ensures
        match formatted {
            Some(done) => {
                ||| language@ == "json"@ && outcome(done) == json_outcome(
                    text@,
                    indent@,
                    newline@,
                )
                ||| language@ == "xml"@ && outcome(done) == xml::formatted(
                    text@,
                    indent@,
                    newline@,
                )
            },
            None => language@ != "json"@ && language@ != "xml"@,
        },
        // What was formatted formats to itself.
        formatted matches Some(Ok(out)) ==> {
            ||| language@ == "json"@ && (json::all_blank(indent@) && json::all_blank(newline@)
                ==> json_outcome(out@, indent@, newline@) == Ok::<Seq<char>, Seq<char>>(out@))
            ||| language@ == "xml"@ && (text::all_space(indent@) && text::all_space(newline@)
                ==> xml::formatted(out@, indent@, newline@) == Ok::<Seq<char>, Seq<char>>(out@))
        },
{
    if same(language, "json") {
        Some(json::json(text, indent, newline))
    } else if same(language, "xml") {
        let done = xml::xml(text, indent, newline);
        proof {
            if done is Ok && text::all_space(indent@) && text::all_space(newline@) {
                xml::law_format_settles(text@, indent@, newline@);
            }
        }
        Some(done)
    } else {
        None
    }
}

} // verus!
