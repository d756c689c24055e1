//! What is said to the user, in the status line or in place of rows.

use vstd::prelude::*;

use crate::screen::Scope;
use crate::text;

verus! {

pub struct Message {
    pub text: String,
    pub is_error: bool,
}

impl Message {
    /// What the theme calls the look of the message.
    pub fn scope(&self) -> (scope: Scope)
        ensures
            scope == if self.is_error {
                Scope::Fault
            } else {
                Scope::Inactive
            },
    {
        if self.is_error {
            Scope::Fault
        } else {
            Scope::Inactive
        }
    }
}

/// What a message says, and whether it is an error.
pub open spec fn said(messages: Seq<Message>) -> Seq<(Seq<char>, bool)> {
    messages.map_values(|message: Message| (message.text@, message.is_error))
}

/// Errors, in order.
pub open spec fn errors(texts: Seq<Seq<char>>) -> Seq<(Seq<char>, bool)> {
    texts.map_values(|text: Seq<char>| (text, true))
}

/// Says one thing more.
pub fn say(messages: &mut Vec<Message>, text: String, is_error: bool)
    ensures
        said(final(messages)@) == said(old(messages)@).push((text@, is_error)),
{
    let ghost held = messages@;
    let message = Message { text, is_error };
    messages.push(message);
    assert(said(messages@) =~= said(held).push((message.text@, message.is_error)));
}

/// Says some errors more.
pub fn say_errors(messages: &mut Vec<Message>, texts: Vec<String>)
    ensures
        said(final(messages)@) == said(old(messages)@) + errors(text::views(texts@)),
{
    let ghost held = said(messages@);
    let ghost all = text::views(texts@);
    assert(held + errors(all.take(0)) =~= held);
    for i in 0..texts.len()
        invariant
            all == text::views(texts@),
            said(messages@) == held + errors(all.take(i as int)),
    {
        say(messages, texts[i].clone(), true);
        assert(all[i as int] == texts@[i as int]@);
        assert(said(messages@) =~= held + errors(all.take(i + 1)));
    }
    assert(all.take(all.len() as int) =~= all);
}

} // verus!
