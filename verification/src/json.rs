//! Laying out JSON: the whitespace between the pieces changes, the pieces do not.

use vstd::prelude::*;
use vstd::string::*;

use crate::text::{self, chars_of, part, push_all, space, string_of};

verus! {

/// Why a text is not JSON, in the parser's words; nothing when it is.
pub uninterp spec fn json_fault(text: Seq<char>) -> Option<Seq<char>>;

/// `serde_json::from_str` into a `serde_json::Value`: whether the text is one JSON document,
/// and what the parser says when it is not, both the text's alone to decide. A text it
/// accepts leaves no string open. White space between two of its words is the parser's to
/// skip, so a text of the same pieces, spaced in another way, is accepted too.
#[verifier::external_body]
fn check(text: &str) -> (checked: Result<(), String>)
    ensures
        match checked {
            Ok(_) => {
                &&& json_fault(text@) is None
                &&& strings_closed(text@)
                &&& forall|other: Seq<char>| #[trigger]
                    well_spaced(other) && tokens(other) == tokens(text@) ==> json_fault(other) is None
            },
            Err(fault) => json_fault(text@) == Some(fault@),
        },
{
    match serde_json::from_str::<serde_json::Value>(text) {
        Ok(_) => Ok(()),
        Err(err) => Err(err.to_string()),
    }
}

// ---- What a text is made of ----

/// Where the string whose inside goes on at `at` ends: after its closing quote, or with the
/// text when it has none. A backslash takes the character after it along.
pub open spec fn string_end(s: Seq<char>, at: int) -> int
    decreases s.len() - at + 1,
{
    if at >= s.len() {
        s.len() as int
    } else if s[at] == '"' {
        at + 1
    } else if s[at] == '\\' {
        string_end(s, at + 2)
    } else {
        string_end(s, at + 1)
    }
}

/// Whether the string whose inside goes on at `at` has a closing quote.
pub open spec fn string_closed(s: Seq<char>, at: int) -> bool
    decreases s.len() - at + 1,
{
    if at >= s.len() {
        false
    } else if s[at] == '"' {
        true
    } else if s[at] == '\\' {
        string_closed(s, at + 2)
    } else {
        string_closed(s, at + 1)
    }
}

/// The pieces of a text: each string whole, every other character that is not white space on
/// its own.
pub open spec fn tokens(s: Seq<char>) -> Seq<Seq<char>>
    decreases s.len(),
    via tokens_decreases
{
    if s.len() == 0 {
        Seq::empty()
    } else if s[0] == '"' {
        seq![s.take(string_end(s, 1))] + tokens(s.skip(string_end(s, 1)))
    } else if text::is_space(s[0]) {
        tokens(s.skip(1))
    } else {
        seq![seq![s[0]]] + tokens(s.skip(1))
    }
}

#[via_fn]
proof fn tokens_decreases(s: Seq<char>) {
    lemma_string_end(s, 1);
}

/// Whether every string of a text has its closing quote.
pub open spec fn strings_closed(s: Seq<char>) -> bool
    decreases s.len(),
    via strings_closed_decreases
{
    if s.len() == 0 {
        true
    } else if s[0] == '"' {
        string_closed(s, 1) && strings_closed(s.skip(string_end(s, 1)))
    } else {
        strings_closed(s.skip(1))
    }
}

#[via_fn]
proof fn strings_closed_decreases(s: Seq<char>) {
    lemma_string_end(s, 1);
}

/// Whether JSON counts the character as white space.
pub open spec fn is_blank(c: char) -> bool {
    c == ' ' || c == '\t' || c == '\n' || c == '\r'
}

/// Whether every character is white space to JSON.
pub open spec fn all_blank(s: Seq<char>) -> bool {
    forall|i: int| 0 <= i < s.len() ==> is_blank(#[trigger] s[i])
}

/// Whether a character is one of a number or a name: no quote, no white space, no punctuation.
pub open spec fn is_plain(c: char) -> bool {
    &&& c != '"' && !text::is_space(c)
    &&& c != '{' && c != '}' && c != '[' && c != ']' && c != ',' && c != ':'
}

/// Whether the first piece of a text is a character of a number or a name.
pub open spec fn starts_plain(s: Seq<char>) -> bool {
    tokens(s).len() > 0 && tokens(s)[0].len() == 1 && is_plain(tokens(s)[0][0])
}

/// Whether the white space of a text, its strings aside, is JSON's, and none of it parts two
/// characters of a number or a name.
pub open spec fn well_spaced(s: Seq<char>) -> bool
    decreases s.len(),
    via well_spaced_decreases
{
    if s.len() == 0 {
        true
    } else if s[0] == '"' {
        well_spaced(s.skip(string_end(s, 1)))
    } else if text::is_space(s[0]) {
        is_blank(s[0]) && well_spaced(s.skip(1))
    } else {
        &&& is_plain(s[0]) && s.len() > 1 && text::is_space(s[1]) ==> !starts_plain(s.skip(1))
        &&& well_spaced(s.skip(1))
    }
}

#[via_fn]
proof fn well_spaced_decreases(s: Seq<char>) {
    lemma_string_end(s, 1);
}

proof fn lemma_string_end(s: Seq<char>, at: int)
    ensures
        at <= s.len() ==> at <= string_end(s, at) <= s.len(),
        at > s.len() ==> string_end(s, at) == s.len(),
        string_closed(s, at) ==> at < string_end(s, at),
    decreases s.len() - at + 1,
{
    if at < s.len() {
        if s[at] == '\\' {
            lemma_string_end(s, at + 2);
        } else if s[at] != '"' {
            lemma_string_end(s, at + 1);
        }
    }
}

// ---- How the pieces are laid out ----

/// The end of a line, and the indentation of the next.
pub open spec fn line_break(depth: nat, indent: Seq<char>, newline: Seq<char>) -> Seq<char> {
    newline + text::repeat(indent, depth)
}

/// Whether a piece is one of the two characters given.
pub open spec fn is_either(piece: Seq<char>, one: char, other: char) -> bool {
    piece.len() == 1 && (piece[0] == one || piece[0] == other)
}

/// What closes a bracket.
pub open spec fn closing(open: char) -> char {
    if open == '{' {
        '}'
    } else {
        ']'
    }
}

/// The pieces one after another, each member and each element on a line of its own, indented
/// by how many brackets are open; empty brackets stay together.
pub open spec fn laid(
    pieces: Seq<Seq<char>>,
    depth: nat,
    indent: Seq<char>,
    newline: Seq<char>,
) -> Seq<char>
    decreases pieces.len(),
{
    if pieces.len() == 0 {
        newline
    } else {
        let piece = pieces[0];
        let rest = pieces.skip(1);
        if is_either(piece, '{', '[') {
            if rest.len() > 0 && is_either(rest[0], closing(piece[0]), closing(piece[0])) {
                piece + rest[0] + laid(rest.skip(1), depth, indent, newline)
            } else {
                piece + line_break(depth + 1, indent, newline) + laid(
                    rest,
                    depth + 1,
                    indent,
                    newline,
                )
            }
        } else if is_either(piece, '}', ']') {
            let outer = if depth == 0 {
                0
            } else {
                (depth - 1) as nat
            };
            line_break(outer, indent, newline) + piece + laid(rest, outer, indent, newline)
        } else if is_either(piece, ',', ',') {
            piece + line_break(depth, indent, newline) + laid(rest, depth, indent, newline)
        } else if is_either(piece, ':', ':') {
            piece + seq![' '] + laid(rest, depth, indent, newline)
        } else {
            piece + laid(rest, depth, indent, newline)
        }
    }
}

/// A text laid out anew.
pub open spec fn layout(s: Seq<char>, indent: Seq<char>, newline: Seq<char>) -> Seq<char> {
    laid(tokens(s), 0, indent, newline)
}

/// Ends the line and indents the next.
fn push_break(out: &mut Vec<char>, depth: usize, indent: &Vec<char>, newline: &Vec<char>)
    ensures
        final(out)@ == old(out)@ + line_break(depth as nat, indent@, newline@),
{
    push_all(out, newline);
    for i in 0..depth
        invariant
            out@ == old(out)@ + line_break(i as nat, indent@, newline@),
    {
        push_all(out, indent);
    }
}

/// Where the string that opens at `at` ends.
fn end_of_string(s: &Vec<char>, at: usize) -> (end: usize)
    requires
        at < s.len(),
        s@[at as int] == '"',
    ensures
        at < end <= s.len(),
        end - at == string_end(s@.skip(at as int), 1),
{
    let ghost t = s@.skip(at as int);
    let mut i: usize = at + 1;
    while i < s.len() && s[i] != '"'
        invariant
            at < i <= s.len(),
            t == s@.skip(at as int),
            string_end(t, 1) == string_end(t, i - at),
        decreases s.len() - i,
    {
        proof {
            lemma_string_end(t, i - at + 1);
            lemma_string_end(t, i - at + 2);
            lemma_string_end(t, t.len() as int);
        }
        if s[i] == '\\' && s.len() - i > 1 {
            i += 2;
        } else {
            i += 1;
        }
    }
    if i < s.len() {
        i += 1;
    }
    i
}

/// The pieces of a text that starts with a string: it, and those of the rest.
proof fn lemma_tokens_string(s: Seq<char>)
    requires
        s.len() > 0,
        s[0] == '"',
    ensures
        1 <= string_end(s, 1) <= s.len(),
        tokens(s).len() > 0,
        tokens(s)[0] == s.take(string_end(s, 1)),
        tokens(s)[0].len() >= 1,
        tokens(s)[0][0] == '"',
        tokens(s).skip(1) == tokens(s.skip(string_end(s, 1))),
{
    lemma_string_end(s, 1);
    assert(tokens(s).skip(1) =~= tokens(s.skip(string_end(s, 1))));
}

/// The pieces of a text that starts with a character of its own: it, and those of the rest.
proof fn lemma_tokens_char(s: Seq<char>)
    requires
        s.len() > 0,
        s[0] != '"',
        !text::is_space(s[0]),
    ensures
        tokens(s).len() > 0,
        tokens(s)[0] == seq![s[0]],
        tokens(s)[0].len() == 1,
        tokens(s)[0][0] == s[0],
        tokens(s).skip(1) == tokens(s.skip(1)),
{
    assert(tokens(s).skip(1) =~= tokens(s.skip(1)));
}

/// Where the white space from `from` on ends.
fn past_space(s: &Vec<char>, from: usize) -> (to: usize)
    requires
        from <= s.len(),
    ensures
        from <= to <= s.len(),
        tokens(s@.skip(to as int)) == tokens(s@.skip(from as int)),
        to < s.len() ==> !text::is_space(s@[to as int]),
{
    let mut i = from;
    while i < s.len() && space(s[i])
        invariant
            from <= i <= s.len(),
            tokens(s@.skip(i as int)) == tokens(s@.skip(from as int)),
        decreases s.len() - i,
    {
        assert(s@.skip(i as int).skip(1) == s@.skip(i + 1));
        i += 1;
    }
    i
}

/// Puts the piece that starts at `at` into `out` as it is laid out there, and says where the
/// rest starts and how deep it lies.
fn push_piece(
    out: &mut Vec<char>,
    s: &Vec<char>,
    at: usize,
    depth: usize,
    indent: &Vec<char>,
    newline: &Vec<char>,
) -> (next: (usize, usize))
    requires
        depth <= at < s.len(),
    ensures
        at < next.0 <= s.len(),
        next.1 <= next.0,
        final(out)@ + laid(tokens(s@.skip(next.0 as int)), next.1 as nat, indent@, newline@)
            == old(out)@ + laid(tokens(s@.skip(at as int)), depth as nat, indent@, newline@),
{
    let ghost here = s@.skip(at as int);
    let ghost before = out@;
    let c = s[at];
    assert(here[0] == c);
    assert(here.skip(1) == s@.skip(at + 1));
    if c == '"' {
        let end = end_of_string(s, at);
        push_all(out, &part(s, at, end));
        proof {
            let n = string_end(here, 1);
            lemma_tokens_string(here);
            assert(here.take(n) == s@.subrange(at as int, end as int));
            assert(here.skip(n) == s@.skip(end as int));
            assert(out@ + laid(tokens(here.skip(n)), depth as nat, indent@, newline@) =~= before
                + laid(tokens(here), depth as nat, indent@, newline@));
        }
        return (end, depth);
    }
    if space(c) {
        return (at + 1, depth);
    }
    proof {
        lemma_tokens_char(here);
    }
    let ghost rest = tokens(here.skip(1));
    let ghost d = depth as nat;
    if c == '}' || c == ']' {
        let outer = if depth == 0 {
            0
        } else {
            depth - 1
        };
        push_break(out, outer, indent, newline);
        out.push(c);
        proof {
            let o = outer as nat;
            assert(out@ + laid(rest, o, indent@, newline@) =~= before + (line_break(
                o,
                indent@,
                newline@,
            ) + seq![c] + laid(rest, o, indent@, newline@)));
        }
        return (at + 1, outer);
    }
    out.push(c);
    assert(out@ =~= before + seq![c]);
    if c == '{' || c == '[' {
        let close = if c == '{' {
            '}'
        } else {
            ']'
        };
        let next = past_space(s, at + 1);
        let ghost after = s@.skip(next as int);
        proof {
            if next < s.len() {
                assert(after[0] == s@[next as int]);
                if after[0] == '"' {
                    lemma_tokens_string(after);
                } else {
                    lemma_tokens_char(after);
                }
            }
        }
        if next < s.len() && s[next] == close {
            out.push(close);
            proof {
                assert(after.skip(1) == s@.skip(next + 1));
                assert(out@ + laid(rest.skip(1), d, indent@, newline@) =~= before + (seq![c]
                    + rest[0] + laid(rest.skip(1), d, indent@, newline@)));
            }
            return (next + 1, depth);
        }
        push_break(out, depth + 1, indent, newline);
        proof {
            assert(out@ + laid(rest, d + 1, indent@, newline@) =~= before + (seq![c] + line_break(
                d + 1,
                indent@,
                newline@,
            ) + laid(rest, d + 1, indent@, newline@)));
        }
        return (next, depth + 1);
    }
    if c == ',' {
        push_break(out, depth, indent, newline);
        proof {
            assert(out@ + laid(rest, d, indent@, newline@) =~= before + (seq![c] + line_break(
                d,
                indent@,
                newline@,
            ) + laid(rest, d, indent@, newline@)));
        }
        return (at + 1, depth);
    }
    if c == ':' {
        out.push(' ');
        assert(out@ + laid(rest, d, indent@, newline@) =~= before + (seq![c] + seq![' '] + laid(
            rest,
            d,
            indent@,
            newline@,
        )));
        return (at + 1, depth);
    }
    assert(out@ + laid(rest, d, indent@, newline@) =~= before + (seq![c] + laid(
        rest,
        d,
        indent@,
        newline@,
    )));
    (at + 1, depth)
}

/// Lays `text` out anew: one member or element to a line, indented by `indent`, the lines
/// ended by `newline`.
pub fn lay_out(text: &str, indent: &str, newline: &str) -> (out: String)
    ensures
        out@ == layout(text@, indent@, newline@),
{
    let s = chars_of(text);
    let indent = chars_of(indent);
    let newline = chars_of(newline);
    let ghost whole = layout(s@, indent@, newline@);
    let mut out: Vec<char> = Vec::new();
    let mut depth: usize = 0;
    let mut i: usize = 0;
    assert(s@.skip(0) == s@);
    assert(out@ + whole =~= whole);
    while i < s.len()
        invariant
            depth <= i <= s.len(),
            out@ + laid(tokens(s@.skip(i as int)), depth as nat, indent@, newline@) == whole,
        decreases s.len() - i,
    {
        let next = push_piece(&mut out, &s, i, depth, &indent, &newline);
        i = next.0;
        depth = next.1;
    }
    assert(s@.skip(i as int).len() == 0);
    push_all(&mut out, &newline);
    string_of(&out)
}

/// Formats a JSON document; a text that is not one is refused with the parser's reason. What
/// comes out is a JSON document, and formats to itself.
pub fn json(text: &str, indent: &str, newline: &str) -> (formatted: Result<String, String>)
    ensures
        match formatted {
            Ok(out) => {
                &&& json_fault(text@) is None
                &&& strings_closed(text@)
                &&& out@ == layout(text@, indent@, newline@)
                &&& all_blank(indent@) && all_blank(newline@) ==> json_fault(out@) is None
                    && layout(out@, indent@, newline@) == out@
                &&& text::all_space(indent@) && text::all_space(newline@) ==> neat(
                    out@,
                    indent@,
                    newline@,
                ) && ink(out@) == ink(text@)
            },
            Err(reason) => {
                &&& json_fault(text@) is Some
                &&& reason@ == "Not valid JSON, left as it was: "@ + json_fault(text@)->0
            },
        },
{
    match check(text) {
        Ok(_) => {
            let out = lay_out(text, indent, newline);
            proof {
                if text::all_space(indent@) && text::all_space(newline@) {
                    law_each_member_is_on_a_line_of_its_own(text@, indent@, newline@);
                    law_only_white_space_changes(text@, indent@, newline@);
                }
                if all_blank(indent@) && all_blank(newline@) {
                    lemma_blank_space(indent@);
                    lemma_blank_space(newline@);
                    law_layout_keeps_the_pieces(text@, indent@, newline@);
                    law_layout_settles(text@, indent@, newline@);
                    law_layout_is_well_spaced(text@, indent@, newline@);
                }
            }
            Ok(out)
        },
        Err(fault) => {
            let mut reason = "Not valid JSON, left as it was: ".to_owned();
            reason.append(fault.as_str());
            Err(reason)
        },
    }
}

// ---- What the layout leaves alone ----

/// Whether a piece reads back as itself: a string with its closing quote, or one character
/// that is neither a quote nor white space.
spec fn is_piece(t: Seq<char>) -> bool {
    &&& t.len() > 0
    &&& if t[0] == '"' {
        string_closed(t, 1) && string_end(t, 1) == t.len()
    } else {
        t.len() == 1 && !text::is_space(t[0])
    }
}

spec fn are_pieces(ts: Seq<Seq<char>>) -> bool {
    forall|i: int| 0 <= i < ts.len() ==> is_piece(#[trigger] ts[i])
}

proof fn lemma_string_prefix(s: Seq<char>, at: int, end: int, more: Seq<char>)
    requires
        0 <= at,
        string_closed(s, at),
        end == string_end(s, at),
    ensures
        at < end <= s.len(),
        string_closed(s.take(end) + more, at),
        string_end(s.take(end) + more, at) == end,
    decreases s.len() - at + 1,
{
    lemma_string_end(s, at);
    let t = s.take(end) + more;
    assert(t[at] == s[at]);
    if s[at] == '\\' {
        lemma_string_prefix(s, at + 2, end, more);
    } else if s[at] != '"' {
        lemma_string_prefix(s, at + 1, end, more);
    }
}

proof fn lemma_tokens_are_pieces(s: Seq<char>)
    requires
        strings_closed(s),
    ensures
        are_pieces(tokens(s)),
    decreases s.len(),
{
    if s.len() == 0 {
    } else if s[0] == '"' {
        let n = string_end(s, 1);
        lemma_tokens_string(s);
        lemma_string_prefix(s, 1, n, Seq::empty());
        assert(s.take(n) + Seq::<char>::empty() == s.take(n));
        lemma_tokens_are_pieces(s.skip(n));
    } else if text::is_space(s[0]) {
        lemma_tokens_are_pieces(s.skip(1));
    } else {
        lemma_tokens_char(s);
        lemma_tokens_are_pieces(s.skip(1));
    }
}

proof fn lemma_tokens_after_space(w: Seq<char>, s: Seq<char>)
    requires
        text::all_space(w),
    ensures
        tokens(w + s) == tokens(s),
    decreases w.len(),
{
    if w.len() == 0 {
        assert(w + s == s);
    } else {
        let t = w + s;
        assert(t[0] == w[0]);
        assert(t.skip(1) == w.skip(1) + s);
        assert forall|i: int| 0 <= i < w.len() - 1 implies text::is_space(#[trigger] w.skip(1)[i]) by {
            assert(w.skip(1)[i] == w[i + 1]);
        }
        lemma_tokens_after_space(w.skip(1), s);
    }
}

proof fn lemma_tokens_after_piece(t: Seq<char>, s: Seq<char>)
    requires
        is_piece(t),
    ensures
        tokens(t + s) == seq![t] + tokens(s),
{
    let all = t + s;
    assert(all[0] == t[0]);
    if t[0] == '"' {
        lemma_string_prefix(t, 1, t.len() as int, s);
        assert(t.take(t.len() as int) == t);
        assert(all.take(t.len() as int) == t);
        assert(all.skip(t.len() as int) == s);
    } else {
        assert(all.skip(1) == s);
        assert(seq![t[0]] == t);
    }
}

/// Pieces laid out read back as the same pieces.
proof fn lemma_laid_reads_back(
    ps: Seq<Seq<char>>,
    depth: nat,
    indent: Seq<char>,
    newline: Seq<char>,
)
    requires
        are_pieces(ps),
        text::all_space(indent),
        text::all_space(newline),
    ensures
        tokens(laid(ps, depth, indent, newline)) == ps,
    decreases ps.len(),
{
    if ps.len() == 0 {
        lemma_tokens_after_space(newline, Seq::empty());
        assert(newline + Seq::<char>::empty() == newline);
    } else {
        let piece = ps[0];
        let rest = ps.skip(1);
        let outer = if depth == 0 {
            0
        } else {
            (depth - 1) as nat
        };
        assert(are_pieces(rest)) by {
            assert forall|i: int| 0 <= i < rest.len() implies is_piece(#[trigger] rest[i]) by {
                assert(rest[i] == ps[i + 1]);
            }
        }
        assert(ps =~= seq![piece] + rest);
        text::lemma_repeat_space(indent, depth);
        text::lemma_repeat_space(indent, depth + 1);
        text::lemma_repeat_space(indent, outer);
        if is_either(piece, '{', '[') {
            if rest.len() > 0 && is_either(rest[0], closing(piece[0]), closing(piece[0])) {
                let last = rest.skip(1);
                assert(are_pieces(last)) by {
                    assert forall|i: int| 0 <= i < last.len() implies is_piece(
                        #[trigger] last[i],
                    ) by {
                        assert(last[i] == rest[i + 1]);
                    }
                }
                let tail = laid(last, depth, indent, newline);
                lemma_laid_reads_back(last, depth, indent, newline);
                lemma_tokens_after_piece(rest[0], tail);
                lemma_tokens_after_piece(piece, rest[0] + tail);
                assert(piece + rest[0] + tail == piece + (rest[0] + tail));
                assert(rest =~= seq![rest[0]] + last);
            } else {
                let tail = laid(rest, depth + 1, indent, newline);
                let gap = line_break(depth + 1, indent, newline);
                lemma_laid_reads_back(rest, depth + 1, indent, newline);
                lemma_tokens_after_space(gap, tail);
                lemma_tokens_after_piece(piece, gap + tail);
                assert(piece + gap + tail == piece + (gap + tail));
            }
        } else if is_either(piece, '}', ']') {
            let tail = laid(rest, outer, indent, newline);
            let gap = line_break(outer, indent, newline);
            lemma_laid_reads_back(rest, outer, indent, newline);
            lemma_tokens_after_piece(piece, tail);
            lemma_tokens_after_space(gap, piece + tail);
            assert(gap + piece + tail == gap + (piece + tail));
        } else if is_either(piece, ',', ',') {
            let tail = laid(rest, depth, indent, newline);
            let gap = line_break(depth, indent, newline);
            lemma_laid_reads_back(rest, depth, indent, newline);
            lemma_tokens_after_space(gap, tail);
            lemma_tokens_after_piece(piece, gap + tail);
            assert(piece + gap + tail == piece + (gap + tail));
        } else if is_either(piece, ':', ':') {
            let tail = laid(rest, depth, indent, newline);
            lemma_laid_reads_back(rest, depth, indent, newline);
            lemma_tokens_after_space(seq![' '], tail);
            lemma_tokens_after_piece(piece, seq![' '] + tail);
            assert(piece + seq![' '] + tail == piece + (seq![' '] + tail));
        } else {
            lemma_laid_reads_back(rest, depth, indent, newline);
            lemma_tokens_after_piece(piece, laid(rest, depth, indent, newline));
        }
    }
}

/// Only the white space between the pieces changes: laid out, a text whose strings are all
/// closed has the same strings, numbers, names and punctuation in the same order, each
/// character as it was.
pub proof fn law_layout_keeps_the_pieces(s: Seq<char>, indent: Seq<char>, newline: Seq<char>)
    requires
        strings_closed(s),
        text::all_space(indent),
        text::all_space(newline),
    ensures
        tokens(layout(s, indent, newline)) == tokens(s),
{
    lemma_tokens_are_pieces(s);
    lemma_laid_reads_back(tokens(s), 0, indent, newline);
}

/// A text laid out once is laid out: doing it again changes nothing.
pub proof fn law_layout_settles(s: Seq<char>, indent: Seq<char>, newline: Seq<char>)
    requires
        strings_closed(s),
        text::all_space(indent),
        text::all_space(newline),
    ensures
        layout(layout(s, indent, newline), indent, newline) == layout(s, indent, newline),
{
    law_layout_keeps_the_pieces(s, indent, newline);
}

proof fn lemma_blank_space(s: Seq<char>)
    requires
        all_blank(s),
    ensures
        text::all_space(s),
{
    assert forall|i: int| 0 <= i < s.len() implies text::is_space(#[trigger] s[i]) by {
        assert(is_blank(s[i]));
    }
}

proof fn lemma_repeat_blank(s: Seq<char>, n: nat)
    requires
        all_blank(s),
    ensures
        all_blank(text::repeat(s, n)),
    decreases n,
{
    if n > 0 {
        lemma_repeat_blank(s, (n - 1) as nat);
    }
}

proof fn lemma_spaced_after_blank(w: Seq<char>, s: Seq<char>)
    requires
        all_blank(w),
        well_spaced(s),
    ensures
        well_spaced(w + s),
    decreases w.len(),
{
    if w.len() == 0 {
        assert(w + s =~= s);
    } else {
        let t = w + s;
        assert(t[0] == w[0]);
        assert(t.skip(1) =~= w.skip(1) + s);
        assert(is_blank(w[0]));
        assert forall|i: int| 0 <= i < w.len() - 1 implies is_blank(#[trigger] w.skip(1)[i]) by {
            assert(w.skip(1)[i] == w[i + 1]);
        }
        lemma_spaced_after_blank(w.skip(1), s);
    }
}

proof fn lemma_spaced_after_piece(t: Seq<char>, s: Seq<char>)
    requires
        is_piece(t),
        well_spaced(s),
        t.len() == 1 && is_plain(t[0]) && s.len() > 0 && text::is_space(s[0]) ==> !starts_plain(s),
    ensures
        well_spaced(t + s),
{
    let all = t + s;
    assert(all[0] == t[0]);
    if t[0] == '"' {
        lemma_string_prefix(t, 1, t.len() as int, s);
        assert(t.take(t.len() as int) =~= t);
        assert(all.skip(t.len() as int) =~= s);
    } else {
        assert(all.skip(1) =~= s);
        if s.len() > 0 {
            assert(all[1] == s[0]);
        }
    }
}

/// What pieces are laid out as is spaced with JSON's own white space, none of it inside a
/// number or a name.
proof fn lemma_laid_well_spaced(
    ps: Seq<Seq<char>>,
    depth: nat,
    indent: Seq<char>,
    newline: Seq<char>,
)
    requires
        are_pieces(ps),
        all_blank(indent),
        all_blank(newline),
    ensures
        well_spaced(laid(ps, depth, indent, newline)),
    decreases ps.len(),
{
    if ps.len() == 0 {
        lemma_spaced_after_blank(newline, Seq::empty());
        assert(newline + Seq::<char>::empty() =~= newline);
    } else {
        let piece = ps[0];
        let rest = ps.skip(1);
        let outer = if depth == 0 {
            0
        } else {
            (depth - 1) as nat
        };
        assert(are_pieces(rest)) by {
            assert forall|i: int| 0 <= i < rest.len() implies is_piece(#[trigger] rest[i]) by {
                assert(rest[i] == ps[i + 1]);
            }
        }
        lemma_repeat_blank(indent, depth);
        lemma_repeat_blank(indent, depth + 1);
        lemma_repeat_blank(indent, outer);
        if is_either(piece, '{', '[') {
            if rest.len() > 0 && is_either(rest[0], closing(piece[0]), closing(piece[0])) {
                let last = rest.skip(1);
                assert(are_pieces(last)) by {
                    assert forall|i: int| 0 <= i < last.len() implies is_piece(
                        #[trigger] last[i],
                    ) by {
                        assert(last[i] == rest[i + 1]);
                    }
                }
                let tail = laid(last, depth, indent, newline);
                lemma_laid_well_spaced(last, depth, indent, newline);
                lemma_spaced_after_piece(rest[0], tail);
                lemma_spaced_after_piece(piece, rest[0] + tail);
                assert(piece + rest[0] + tail =~= piece + (rest[0] + tail));
            } else {
                let tail = laid(rest, depth + 1, indent, newline);
                let gap = line_break(depth + 1, indent, newline);
                lemma_laid_well_spaced(rest, depth + 1, indent, newline);
                lemma_spaced_after_blank(gap, tail);
                lemma_spaced_after_piece(piece, gap + tail);
                assert(piece + gap + tail =~= piece + (gap + tail));
            }
        } else if is_either(piece, '}', ']') {
            let tail = laid(rest, outer, indent, newline);
            let gap = line_break(outer, indent, newline);
            lemma_laid_well_spaced(rest, outer, indent, newline);
            lemma_spaced_after_piece(piece, tail);
            lemma_spaced_after_blank(gap, piece + tail);
            assert(gap + piece + tail =~= gap + (piece + tail));
        } else if is_either(piece, ',', ',') {
            let tail = laid(rest, depth, indent, newline);
            let gap = line_break(depth, indent, newline);
            lemma_laid_well_spaced(rest, depth, indent, newline);
            lemma_spaced_after_blank(gap, tail);
            lemma_spaced_after_piece(piece, gap + tail);
            assert(piece + gap + tail =~= piece + (gap + tail));
        } else if is_either(piece, ':', ':') {
            let tail = laid(rest, depth, indent, newline);
            lemma_laid_well_spaced(rest, depth, indent, newline);
            lemma_spaced_after_blank(seq![' '], tail);
            lemma_spaced_after_piece(piece, seq![' '] + tail);
            assert(piece + seq![' '] + tail =~= piece + (seq![' '] + tail));
        } else {
            let tail = laid(rest, depth, indent, newline);
            lemma_laid_well_spaced(rest, depth, indent, newline);
            lemma_blank_space(indent);
            lemma_blank_space(newline);
            lemma_laid_reads_back(rest, depth, indent, newline);
            if starts_plain(tail) {
                let next = rest[0];
                assert(tail =~= next + laid(rest.skip(1), depth, indent, newline));
                assert(tail[0] == next[0]);
            }
            lemma_spaced_after_piece(piece, tail);
        }
    }
}

/// Laid out, a text whose strings are all closed is spaced with JSON's own white space, none of
/// it inside a number or a name.
pub proof fn law_layout_is_well_spaced(s: Seq<char>, indent: Seq<char>, newline: Seq<char>)
    requires
        strings_closed(s),
        all_blank(indent),
        all_blank(newline),
    ensures
        well_spaced(layout(s, indent, newline)),
{
    lemma_tokens_are_pieces(s);
    lemma_laid_well_spaced(tokens(s), 0, indent, newline);
}

// ---- How the laid out text reads, character by character ----

/// What is known at a place of a text, from the characters before it alone: whether it is inside
/// a string, whether a backslash came right before it there, and how many brackets are open.
pub struct Reading {
    pub inside: bool,
    pub escaped: bool,
    pub depth: nat,
}

/// What is known after one character more.
pub open spec fn read_on(at: Reading, c: char) -> Reading {
    if at.inside {
        if at.escaped {
            Reading { escaped: false, ..at }
        } else if c == '\\' {
            Reading { escaped: true, ..at }
        } else if c == '"' {
            Reading { inside: false, ..at }
        } else {
            at
        }
    } else if c == '"' {
        Reading { inside: true, ..at }
    } else if c == '{' || c == '[' {
        Reading { depth: at.depth + 1, ..at }
    } else if (c == '}' || c == ']') && at.depth > 0 {
        Reading { depth: (at.depth - 1) as nat, ..at }
    } else {
        at
    }
}

/// What is known at the end of a text.
pub open spec fn reading(s: Seq<char>) -> Reading
    decreases s.len(),
{
    if s.len() == 0 {
        Reading { inside: false, escaped: false, depth: 0 }
    } else {
        read_on(reading(s.drop_last()), s.last())
    }
}

/// The characters of a text without the white space outside its strings.
pub open spec fn ink(s: Seq<char>) -> Seq<char>
    decreases s.len(),
{
    if s.len() == 0 {
        Seq::empty()
    } else if !reading(s.drop_last()).inside && text::is_space(s.last()) {
        ink(s.drop_last())
    } else {
        ink(s.drop_last()).push(s.last())
    }
}

/// Whether the stretch from `from` to `to` is the end of a line and `depth` indents, no more.
pub open spec fn is_break(
    t: Seq<char>,
    from: int,
    to: int,
    depth: nat,
    indent: Seq<char>,
    newline: Seq<char>,
) -> bool {
    &&& 0 <= from && to <= t.len()
    &&& to == from + newline.len() + depth * indent.len()
    &&& forall|j: int| 0 <= j < newline.len() ==> #[trigger] t[from + j] == newline[j]
    &&& text::stacked(t, from + newline.len(), indent, depth)
}

/// How deep a closing bracket stands: as deep as what it closes.
pub open spec fn outer(depth: nat) -> nat {
    if depth == 0 {
        0
    } else {
        (depth - 1) as nat
    }
}

/// Whether the stretch from `from` to `to` is one of the gaps of a laid out text: a line break
/// after a comma or an opening bracket, or before a closing one, the space after a colon, or the
/// end of the last line.
pub open spec fn is_gap(
    t: Seq<char>,
    from: int,
    to: int,
    indent: Seq<char>,
    newline: Seq<char>,
) -> bool {
    let at = reading(t.take(from));
    &&& 0 <= from <= to <= t.len()
    &&& !at.inside
    &&& {
        ||| from > 0 && (t[from - 1] == ',' || t[from - 1] == '{' || t[from - 1] == '[')
            && is_break(t, from, to, at.depth, indent, newline)
        ||| from > 0 && t[from - 1] == ':' && to == from + 1
        ||| to < t.len() && (t[to] == '}' || t[to] == ']') && is_break(
            t,
            from,
            to,
            outer(at.depth),
            indent,
            newline,
        )
        ||| to == t.len() && to == from + newline.len()
    }
}

/// Whether the character at `i` stands as it should: a line break of the right depth after a
/// comma and after a bracket that opens something, and before one that closes something; a space
/// after a colon; and white space in those gaps alone.
#[verifier::opaque]
pub open spec fn stands_right(
    t: Seq<char>,
    i: int,
    indent: Seq<char>,
    newline: Seq<char>,
) -> bool {
    let at = reading(t.take(i));
    let c = t[i];
    !at.inside ==> {
        &&& c == ',' ==> is_break(
            t,
            i + 1,
            i + 1 + newline.len() + at.depth * indent.len(),
            at.depth,
            indent,
            newline,
        )
        &&& c == '{' || c == '[' ==> {
            ||| i + 1 < t.len() && t[i + 1] == (if c == '{' {
                '}'
            } else {
                ']'
            })
            ||| is_break(
                t,
                i + 1,
                i + 1 + newline.len() + (at.depth + 1) * indent.len(),
                at.depth + 1,
                indent,
                newline,
            )
        }
        &&& c == '}' || c == ']' ==> {
            ||| i > 0 && t[i - 1] == (if c == '}' {
                '{'
            } else {
                '['
            })
            ||| is_break(
                t,
                i - newline.len() - outer(at.depth) * indent.len(),
                i,
                outer(at.depth),
                indent,
                newline,
            )
        }
        &&& c == ':' ==> i + 1 < t.len() && t[i + 1] == ' '
        &&& text::is_space(c) ==> exists|from: int, to: int|
            from <= i < to && #[trigger] is_gap(t, from, to, indent, newline)
    }
}

/// Whether every character of a text stands as it should.
pub open spec fn neat(t: Seq<char>, indent: Seq<char>, newline: Seq<char>) -> bool {
    forall|i: int| 0 <= i < t.len() ==> #[trigger] stands_right(t, i, indent, newline)
}

proof fn lemma_reading_push(s: Seq<char>, c: char)
    ensures
        reading(s.push(c)) == read_on(reading(s), c),
        ink(s.push(c)) == if !reading(s).inside && text::is_space(c) {
            ink(s)
        } else {
            ink(s).push(c)
        },
{
    assert(s.push(c).drop_last() =~= s);
}

/// White space outside strings changes nothing that is known.
proof fn lemma_reading_space(pre: Seq<char>, w: Seq<char>)
    requires
        text::all_space(w),
        !reading(pre).inside,
    ensures
        reading(pre + w) == reading(pre),
        ink(pre + w) == ink(pre),
    decreases w.len(),
{
    if w.len() == 0 {
        assert(pre + w =~= pre);
    } else {
        let less = w.drop_last();
        assert forall|i: int| 0 <= i < less.len() implies text::is_space(#[trigger] less[i]) by {
            assert(less[i] == w[i]);
        }
        lemma_reading_space(pre, less);
        assert(pre + w =~= (pre + less).push(w.last()));
        lemma_reading_push(pre + less, w.last());
        assert(text::is_space(w[w.len() - 1]));
    }
}

/// Inside a string that goes on at `at` everything is in it up to its closing quote.
proof fn lemma_reading_string(pre: Seq<char>, t: Seq<char>, at: int)
    requires
        1 <= at,
        string_closed(t, at),
        string_end(t, at) == t.len(),
        reading(pre + t.take(at)).inside,
        !reading(pre + t.take(at)).escaped,
    ensures
        at < t.len(),
        forall|k: int| at <= k < t.len() ==> (#[trigger] reading(pre + t.take(k))).inside,
        reading(pre + t) == (Reading { inside: false, ..reading(pre + t.take(at)) }),
        ink(pre + t) == ink(pre + t.take(at)) + t.skip(at),
    decreases t.len() - at,
{
    lemma_string_end(t, at);
    let here = pre + t.take(at);
    let next = pre + t.take(at + 1);
    assert(next =~= here.push(t[at]));
    lemma_reading_push(here, t[at]);
    if t[at] == '"' {
        assert(t.take(at + 1) =~= t);
        assert(ink(pre + t) =~= ink(here) + t.skip(at));
    } else if t[at] == '\\' {
        lemma_string_end(t, at + 2);
        let after = pre + t.take(at + 2);
        assert(after =~= next.push(t[at + 1]));
        lemma_reading_push(next, t[at + 1]);
        lemma_reading_string(pre, t, at + 2);
        assert forall|k: int| at <= k < t.len() implies (
        #[trigger] reading(pre + t.take(k))).inside by {
            if k == at {
            } else if k == at + 1 {
                assert(pre + t.take(k) == next);
            }
        }
        assert(ink(pre + t) =~= ink(here) + t.skip(at));
    } else {
        lemma_reading_string(pre, t, at + 1);
        assert(ink(pre + t) =~= ink(here) + t.skip(at));
    }
}

/// What is known after a piece.
proof fn lemma_reading_piece(pre: Seq<char>, t: Seq<char>)
    requires
        is_piece(t),
        !reading(pre).inside,
        !reading(pre).escaped,
    ensures
        reading(pre + t) == if t[0] == '"' {
            reading(pre)
        } else {
            read_on(reading(pre), t[0])
        },
        ink(pre + t) == ink(pre) + t,
        forall|k: int| 1 <= k < t.len() ==> (#[trigger] reading(pre + t.take(k))).inside,
        !reading(pre + t).inside,
        !reading(pre + t).escaped,
{
    let first = pre + t.take(1);
    assert(first =~= pre.push(t[0]));
    lemma_reading_push(pre, t[0]);
    if t[0] == '"' {
        lemma_reading_string(pre, t, 1);
        assert(ink(pre + t) =~= ink(pre) + t);
    } else {
        assert(t.take(1) =~= t);
        assert(ink(pre + t) =~= ink(pre) + t);
    }
}

/// Several pieces one after another.
spec fn flat(ps: Seq<Seq<char>>) -> Seq<char>
    decreases ps.len(),
{
    if ps.len() == 0 {
        Seq::empty()
    } else {
        ps[0] + flat(ps.skip(1))
    }
}

/// The characters of a text that are not white space between its pieces are its pieces.
proof fn lemma_ink_is_the_pieces(pre: Seq<char>, s: Seq<char>)
    requires
        strings_closed(s),
        !reading(pre).inside,
        !reading(pre).escaped,
    ensures
        ink(pre + s) == ink(pre) + flat(tokens(s)),
    decreases s.len(),
{
    if s.len() == 0 {
        assert(pre + s =~= pre);
        assert(ink(pre) + flat(tokens(s)) =~= ink(pre));
    } else if s[0] == '"' {
        let n = string_end(s, 1);
        lemma_tokens_string(s);
        lemma_string_prefix(s, 1, n, Seq::empty());
        assert(s.take(n) + Seq::<char>::empty() =~= s.take(n));
        lemma_reading_piece(pre, s.take(n));
        lemma_ink_is_the_pieces(pre + s.take(n), s.skip(n));
        assert(pre + s =~= pre + s.take(n) + s.skip(n));
        assert(ink(pre + s) =~= ink(pre) + flat(tokens(s)));
    } else if text::is_space(s[0]) {
        assert(text::all_space(s.take(1)));
        lemma_reading_space(pre, s.take(1));
        lemma_ink_is_the_pieces(pre + s.take(1), s.skip(1));
        assert(pre + s =~= pre + s.take(1) + s.skip(1));
    } else {
        lemma_tokens_char(s);
        assert(s.take(1) =~= seq![s[0]]);
        lemma_reading_piece(pre, s.take(1));
        lemma_ink_is_the_pieces(pre + s.take(1), s.skip(1));
        assert(pre + s =~= pre + s.take(1) + s.skip(1));
        assert(ink(pre + s) =~= ink(pre) + flat(tokens(s)));
    }
}

/// A line break stands where it was put.
proof fn lemma_break_stands(
    pre: Seq<char>,
    depth: nat,
    indent: Seq<char>,
    newline: Seq<char>,
    tail: Seq<char>,
)
    requires
        text::all_space(indent),
        text::all_space(newline),
    ensures
        ({
            let gap = line_break(depth, indent, newline);
            let t = pre + gap + tail;
            &&& gap.len() == newline.len() + depth * indent.len()
            &&& text::all_space(gap)
            &&& is_break(t, pre.len() as int, (pre.len() + gap.len()) as int, depth, indent, newline)
        }),
{
    let gap = line_break(depth, indent, newline);
    let t = pre + gap + tail;
    text::law_repeat_is_copies(pre + newline, indent, depth, tail);
    assert(t =~= pre + newline + text::repeat(indent, depth) + tail);
    text::lemma_repeat_space(indent, depth);
    assert forall|j: int| 0 <= j < newline.len() implies #[trigger] t[pre.len() + j]
        == newline[j] by {}
}

/// The places of a stretch of white space put after `pre` stand right, when it is a gap.
proof fn lemma_gap_stands(
    pre: Seq<char>,
    gap: Seq<char>,
    tail: Seq<char>,
    indent: Seq<char>,
    newline: Seq<char>,
)
    requires
        text::all_space(gap),
        !reading(pre).inside,
        is_gap(pre + gap + tail, pre.len() as int, (pre.len() + gap.len()) as int, indent, newline),
    ensures
        forall|i: int|
            pre.len() <= i < pre.len() + gap.len() ==> #[trigger] stands_right(
                pre + gap + tail,
                i,
                indent,
                newline,
            ),
{
    reveal(stands_right);
    let t = pre + gap + tail;
    assert forall|i: int| pre.len() <= i < pre.len() + gap.len() implies #[trigger] stands_right(
        t,
        i,
        indent,
        newline,
    ) by {
        assert(t[i] == gap[i - pre.len()]);
        assert(text::is_space(gap[i - pre.len()]));
        assert(is_gap(t, pre.len() as int, (pre.len() + gap.len()) as int, indent, newline));
    }
}

/// Whether the characters of `t` from `from` up to `to` stand right.
spec fn right_from(
    t: Seq<char>,
    from: int,
    to: int,
    indent: Seq<char>,
    newline: Seq<char>,
) -> bool {
    forall|i: int| from <= i < to ==> #[trigger] stands_right(t, i, indent, newline)
}

/// A bracket that opens something, or a comma, and the line break after it.
proof fn lemma_breaks_after(
    pre: Seq<char>,
    piece: Seq<char>,
    depth: nat,
    indent: Seq<char>,
    newline: Seq<char>,
    tail: Seq<char>,
)
    requires
        is_either(piece, '{', '[') || is_either(piece, ',', ','),
        text::all_space(indent),
        text::all_space(newline),
        reading(pre) == (Reading { inside: false, escaped: false, depth }),
    ensures
        ({
            let inner = if piece[0] == ',' {
                depth
            } else {
                depth + 1
            };
            let gap = line_break(inner, indent, newline);
            let t = pre + piece + gap + tail;
            &&& right_from(
                t,
                pre.len() as int,
                (pre.len() + 1 + gap.len()) as int,
                indent,
                newline,
            )
            &&& reading(pre + piece + gap) == (Reading {
                inside: false,
                escaped: false,
                depth: inner,
            })
            &&& ink(pre + piece + gap) == ink(pre) + piece
        }),
{
    reveal(stands_right);
    let inner = if piece[0] == ',' {
        depth
    } else {
        depth + 1
    };
    let gap = line_break(inner, indent, newline);
    let held = pre + piece;
    let t = held + gap + tail;
    let n = pre.len() as int;
    lemma_reading_piece(pre, piece);
    lemma_break_stands(held, inner, indent, newline, tail);
    assert(t.take(n) =~= pre);
    assert(t.take(n + 1) =~= held);
    assert(t[n] == piece[0]);
    assert(stands_right(t, n, indent, newline));
    assert(is_gap(t, n + 1, n + 1 + gap.len(), indent, newline));
    lemma_gap_stands(held, gap, tail, indent, newline);
    lemma_reading_space(held, gap);
}

/// A bracket that closes something, and the line break before it.
proof fn lemma_breaks_before(
    pre: Seq<char>,
    piece: Seq<char>,
    depth: nat,
    indent: Seq<char>,
    newline: Seq<char>,
    tail: Seq<char>,
)
    requires
        is_either(piece, '}', ']'),
        text::all_space(indent),
        text::all_space(newline),
        reading(pre) == (Reading { inside: false, escaped: false, depth }),
    ensures
        ({
            let gap = line_break(outer(depth), indent, newline);
            let t = pre + gap + piece + tail;
            &&& right_from(
                t,
                pre.len() as int,
                (pre.len() + gap.len() + 1) as int,
                indent,
                newline,
            )
            &&& reading(pre + gap + piece) == (Reading {
                inside: false,
                escaped: false,
                depth: outer(depth),
            })
            &&& ink(pre + gap + piece) == ink(pre) + piece
        }),
{
    reveal(stands_right);
    let up = outer(depth);
    let gap = line_break(up, indent, newline);
    let t = pre + gap + piece + tail;
    let n = pre.len() as int;
    let to = n + gap.len();
    lemma_break_stands(pre, up, indent, newline, piece + tail);
    assert(t =~= pre + gap + (piece + tail));
    assert(t.take(n) =~= pre);
    assert(t[to] == piece[0]);
    assert(is_gap(t, n, to, indent, newline));
    lemma_gap_stands(pre, gap, piece + tail, indent, newline);
    lemma_reading_space(pre, gap);
    lemma_reading_piece(pre + gap, piece);
    assert(t.take(to) =~= pre + gap);
    assert(stands_right(t, to, indent, newline));
}

/// A colon and the space after it.
proof fn lemma_spaces_after(
    pre: Seq<char>,
    piece: Seq<char>,
    depth: nat,
    indent: Seq<char>,
    newline: Seq<char>,
    tail: Seq<char>,
)
    requires
        is_either(piece, ':', ':'),
        reading(pre) == (Reading { inside: false, escaped: false, depth }),
    ensures
        right_from(
            pre + piece + seq![' '] + tail,
            pre.len() as int,
            (pre.len() + 2) as int,
            indent,
            newline,
        ),
        reading(pre + piece + seq![' ']) == reading(pre),
        ink(pre + piece + seq![' ']) == ink(pre) + piece,
{
    reveal(stands_right);
    let gap = seq![' '];
    let held = pre + piece;
    let t = held + gap + tail;
    let n = pre.len() as int;
    lemma_reading_piece(pre, piece);
    assert(t.take(n) =~= pre);
    assert(t.take(n + 1) =~= held);
    assert(t[n] == piece[0] && t[n + 1] == ' ');
    assert(stands_right(t, n, indent, newline));
    assert(is_gap(t, n + 1, n + 2, indent, newline));
    lemma_gap_stands(held, gap, tail, indent, newline);
    lemma_reading_space(held, gap);
}

/// Two brackets with nothing in them.
proof fn lemma_stays_together(
    pre: Seq<char>,
    open: Seq<char>,
    close: Seq<char>,
    depth: nat,
    indent: Seq<char>,
    newline: Seq<char>,
    tail: Seq<char>,
)
    requires
        is_either(open, '{', '['),
        is_either(close, closing(open[0]), closing(open[0])),
        reading(pre) == (Reading { inside: false, escaped: false, depth }),
    ensures
        right_from(
            pre + open + close + tail,
            pre.len() as int,
            (pre.len() + 2) as int,
            indent,
            newline,
        ),
        reading(pre + open + close) == reading(pre),
        ink(pre + open + close) == ink(pre) + open + close,
{
    reveal(stands_right);
    let t = pre + open + close + tail;
    let n = pre.len() as int;
    lemma_reading_piece(pre, open);
    lemma_reading_piece(pre + open, close);
    assert(t.take(n) =~= pre);
    assert(t.take(n + 1) =~= pre + open);
    assert(t[n] == open[0] && t[n + 1] == close[0]);
    assert(stands_right(t, n, indent, newline));
    assert(stands_right(t, n + 1, indent, newline));
}

/// A string, or a character of a number or a name.
proof fn lemma_stands_alone(
    pre: Seq<char>,
    piece: Seq<char>,
    depth: nat,
    indent: Seq<char>,
    newline: Seq<char>,
    tail: Seq<char>,
)
    requires
        is_piece(piece),
        !is_either(piece, '{', '['),
        !is_either(piece, '}', ']'),
        !is_either(piece, ',', ','),
        !is_either(piece, ':', ':'),
        reading(pre) == (Reading { inside: false, escaped: false, depth }),
    ensures
        right_from(
            pre + piece + tail,
            pre.len() as int,
            (pre.len() + piece.len()) as int,
            indent,
            newline,
        ),
        reading(pre + piece) == reading(pre),
        ink(pre + piece) == ink(pre) + piece,
{
    reveal(stands_right);
    let t = pre + piece + tail;
    let n = pre.len() as int;
    lemma_reading_piece(pre, piece);
    assert forall|i: int| n <= i < n + piece.len() implies #[trigger] stands_right(
        t,
        i,
        indent,
        newline,
    ) by {
        assert(t[i] == piece[i - n]);
        if i == n {
            assert(t.take(i) =~= pre);
        } else {
            assert(t.take(i) =~= pre + piece.take(i - n));
        }
    }
}

/// What stands right after a text, and what stands right after both.
proof fn lemma_goes_on(
    pre: Seq<char>,
    block: Seq<char>,
    ink_of: Seq<char>,
    tail: Seq<char>,
    more: Seq<char>,
    whole: Seq<char>,
    all: Seq<char>,
    indent: Seq<char>,
    newline: Seq<char>,
)
    requires
        whole == block + tail,
        all == ink_of + more,
        right_from(
            pre + block + tail,
            pre.len() as int,
            (pre.len() + block.len()) as int,
            indent,
            newline,
        ),
        right_from(
            pre + block + tail,
            (pre.len() + block.len()) as int,
            (pre.len() + block.len() + tail.len()) as int,
            indent,
            newline,
        ),
        ink(pre + block) == ink(pre) + ink_of,
        ink(pre + block + tail) == ink(pre + block) + more,
    ensures
        right_from(
            pre + whole,
            pre.len() as int,
            (pre.len() + whole.len()) as int,
            indent,
            newline,
        ),
        ink(pre + whole) == ink(pre) + all,
{
    assert(pre + whole =~= pre + block + tail);
    assert(ink(pre) + all =~= ink(pre) + ink_of + more);
}

/// The end of the last line.
proof fn lemma_ends(pre: Seq<char>, indent: Seq<char>, newline: Seq<char>)
    requires
        text::all_space(newline),
        !reading(pre).inside,
    ensures
        right_from(
            pre + newline,
            pre.len() as int,
            (pre.len() + newline.len()) as int,
            indent,
            newline,
        ),
        ink(pre + newline) == ink(pre),
{
    let none = Seq::<char>::empty();
    let t = pre + newline;
    let n = pre.len() as int;
    assert(pre + newline + none =~= t);
    assert(t.take(n) =~= pre);
    assert(is_gap(t, n, n + newline.len(), indent, newline));
    lemma_gap_stands(pre, newline, none, indent, newline);
    lemma_reading_space(pre, newline);
}

proof fn lemma_are_pieces_skip(ps: Seq<Seq<char>>)
    requires
        are_pieces(ps),
        ps.len() > 0,
    ensures
        are_pieces(ps.skip(1)),
        is_piece(ps[0]),
{
    let rest = ps.skip(1);
    assert forall|i: int| 0 <= i < rest.len() implies is_piece(#[trigger] rest[i]) by {
        assert(rest[i] == ps[i + 1]);
    }
}

/// Pieces laid out after a text stand right, every character of them.
#[verifier::spinoff_prover]
#[verifier::rlimit(40)]
proof fn lemma_laid_neat(
    pre: Seq<char>,
    ps: Seq<Seq<char>>,
    depth: nat,
    indent: Seq<char>,
    newline: Seq<char>,
)
    requires
        are_pieces(ps),
        text::all_space(indent),
        text::all_space(newline),
        reading(pre) == (Reading { inside: false, escaped: false, depth }),
    ensures
        right_from(
            pre + laid(ps, depth, indent, newline),
            pre.len() as int,
            (pre.len() + laid(ps, depth, indent, newline).len()) as int,
            indent,
            newline,
        ),
        ink(pre + laid(ps, depth, indent, newline)) == ink(pre) + flat(ps),
    decreases ps.len(),
{
    let whole = laid(ps, depth, indent, newline);
    if ps.len() == 0 {
        lemma_ends(pre, indent, newline);
        assert(ink(pre) + flat(ps) =~= ink(pre));
    } else {
        let piece = ps[0];
        let rest = ps.skip(1);
        let all = flat(ps);
        lemma_are_pieces_skip(ps);
        if is_either(piece, '{', '[') && rest.len() > 0 && is_either(
            rest[0],
            closing(piece[0]),
            closing(piece[0]),
        ) {
            let last = rest.skip(1);
            let tail = laid(last, depth, indent, newline);
            let block = piece + rest[0];
            lemma_are_pieces_skip(rest);
            lemma_stays_together(pre, piece, rest[0], depth, indent, newline, tail);
            assert(pre + piece + rest[0] =~= pre + block);
            lemma_laid_neat(pre + block, last, depth, indent, newline);
            assert(all =~= block + flat(last)) by {
                assert(flat(rest) == rest[0] + flat(last));
            }
            assert(ink(pre) + piece + rest[0] =~= ink(pre) + block);
            lemma_goes_on(pre, block, block, tail, flat(last), whole, all, indent, newline);
        } else if is_either(piece, '{', '[') || is_either(piece, ',', ',') {
            let inner = if piece[0] == ',' {
                depth
            } else {
                depth + 1
            };
            let gap = line_break(inner, indent, newline);
            let tail = laid(rest, inner, indent, newline);
            let block = piece + gap;
            lemma_breaks_after(pre, piece, depth, indent, newline, tail);
            assert(pre + piece + gap =~= pre + block);
            lemma_laid_neat(pre + block, rest, inner, indent, newline);
            assert(whole =~= block + tail);
            lemma_goes_on(pre, block, piece, tail, flat(rest), whole, all, indent, newline);
        } else if is_either(piece, '}', ']') {
            let gap = line_break(outer(depth), indent, newline);
            let tail = laid(rest, outer(depth), indent, newline);
            let block = gap + piece;
            lemma_breaks_before(pre, piece, depth, indent, newline, tail);
            assert(pre + gap + piece =~= pre + block);
            lemma_laid_neat(pre + block, rest, outer(depth), indent, newline);
            assert(whole =~= block + tail);
            lemma_goes_on(pre, block, piece, tail, flat(rest), whole, all, indent, newline);
        } else if is_either(piece, ':', ':') {
            let tail = laid(rest, depth, indent, newline);
            let block = piece + seq![' '];
            lemma_spaces_after(pre, piece, depth, indent, newline, tail);
            assert(pre + piece + seq![' '] =~= pre + block);
            lemma_laid_neat(pre + block, rest, depth, indent, newline);
            assert(whole =~= block + tail);
            lemma_goes_on(pre, block, piece, tail, flat(rest), whole, all, indent, newline);
        } else {
            let tail = laid(rest, depth, indent, newline);
            lemma_stands_alone(pre, piece, depth, indent, newline, tail);
            lemma_laid_neat(pre + piece, rest, depth, indent, newline);
            lemma_goes_on(pre, piece, piece, tail, flat(rest), whole, all, indent, newline);
        }
    }
}

/// In a laid out text every member and every element starts a line of its own, indented once for
/// each bracket open there, however many: right after a comma, and after a bracket that opens
/// something, stand the end of the line and so many indents, and no more; a bracket that closes
/// something stands after the end of a line and one indent less. A colon is followed by one
/// space. There is no other white space outside strings but the end of the last line.
pub proof fn law_each_member_is_on_a_line_of_its_own(
    s: Seq<char>,
    indent: Seq<char>,
    newline: Seq<char>,
)
    requires
        strings_closed(s),
        text::all_space(indent),
        text::all_space(newline),
    ensures
        neat(layout(s, indent, newline), indent, newline),
{
    let none = Seq::<char>::empty();
    lemma_tokens_are_pieces(s);
    lemma_laid_neat(none, tokens(s), 0, indent, newline);
    assert(none + layout(s, indent, newline) =~= layout(s, indent, newline));
}

/// Laying a text out changes nothing but white space outside its strings: every other character,
/// and every one inside a string, is there as it was, in the same order.
pub proof fn law_only_white_space_changes(s: Seq<char>, indent: Seq<char>, newline: Seq<char>)
    requires
        strings_closed(s),
        text::all_space(indent),
        text::all_space(newline),
    ensures
        ink(layout(s, indent, newline)) == ink(s),
{
    let none = Seq::<char>::empty();
    lemma_tokens_are_pieces(s);
    lemma_laid_neat(none, tokens(s), 0, indent, newline);
    lemma_ink_is_the_pieces(none, s);
    assert(none + layout(s, indent, newline) =~= layout(s, indent, newline));
    assert(none + s =~= s);
}

} // verus!
